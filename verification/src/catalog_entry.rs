//! One version of one named catalog object.

use vstd::prelude::*;
use vstd::string::StringExecFns;
use crate::alter_table_info::AlterInfo;
use crate::catalog_type::CatalogType;
use crate::transaction::{Transaction, TransactionId};

verus! {

/// Identifies one version of one object, for as long as the version exists.
pub type CatalogEntryId = u64;

/// Why a catalog operation was refused.
#[derive(Debug, Clone, Copy, PartialEq, Eq, Structural)]
pub enum CatalogErrorKind {
    /// The name is taken by an object that the transaction can see.
    AlreadyExists,
    /// The transaction can see no object of that name.
    NotFound,
    /// The entry does not support the requested kind of ALTER.
    UnsupportedAlter,
    /// The newest version of the name belongs to a transaction whose
    /// changes the writer cannot see.
    Conflict,
    /// Any other failure, described by the message alone.
    Other,
}

/// A refused catalog operation.
#[derive(Debug)]
pub struct CatalogError {
    pub kind: CatalogErrorKind,
    pub message: String,
}

impl CatalogError {
    /// An error described by `msg` alone.
    pub fn new(msg: &str) -> (e: Self)
        ensures
            e.kind == CatalogErrorKind::Other,
            e.message@ == msg@,
    {
        CatalogError { kind: CatalogErrorKind::Other, message: String::from_str(msg) }
    }

    /// An error of the given kind.
    pub fn of_kind(kind: CatalogErrorKind, msg: &str) -> (e: Self)
        ensures
            e.kind == kind,
            e.message@ == msg@,
    {
        CatalogError { kind, message: String::from_str(msg) }
    }
}

/// What a statement runs in.
#[derive(Debug, Clone, Copy)]
pub struct ClientContext {
    /// The transaction that the client's statements belong to, if one is open.
    pub transaction: Option<Transaction>,
}

/// One version of one named object: the fields that every kind of object has.
#[derive(Debug)]
pub struct BaseCatalogEntry {
    pub id: CatalogEntryId,
    pub type_: CatalogType,
    /// The name of the entry.
    pub name: String,
    /// Whether this version marks the object as dropped.
    pub deleted: bool,
    /// The commit timestamp of the transaction that created the version, once
    /// that transaction has committed; until then, the timestamp at which it
    /// started.
    pub timestamp: TransactionId,
    /// The transaction that created the version.
    pub transaction_id: TransactionId,
    /// Whether the creating transaction has committed.
    pub committed: bool,
    /// The next older version of the same name.
    pub child: Option<CatalogEntryId>,
    /// The next newer version of the same name; `None` for the version that
    /// the set itself points at.
    pub parent: Option<CatalogEntryId>,
}

impl BaseCatalogEntry {
    /// A version that belongs to no set yet.
    pub fn new(type_: CatalogType, name: String) -> (entry: Self)
        ensures
            entry == (BaseCatalogEntry {
                id: 0,
                type_,
                name,
                deleted: false,
                timestamp: 0,
                transaction_id: 0,
                committed: false,
                child: None,
                parent: None,
            }),
    {
        BaseCatalogEntry {
            id: 0,
            type_,
            name,
            deleted: false,
            timestamp: 0,
            transaction_id: 0,
            committed: false,
            child: None,
            parent: None,
        }
    }

    /// Whether `txn` may observe this version: a committed version from its
    /// commit timestamp on, an uncommitted one only in the transaction that
    /// created it.
    pub open spec fn visible_to(&self, txn: Transaction) -> bool {
        if self.committed {
            self.timestamp <= txn.start_timestamp
        } else {
            self.transaction_id == txn.transaction_id
        }
    }

    /// Whether the version is the uncommitted work of transaction `id`.
    pub open spec fn pending_in(&self, id: TransactionId) -> bool {
        !self.committed && self.transaction_id == id
    }

    pub fn is_visible_to(&self, txn: &Transaction) -> (visible: bool)
        ensures
            visible == self.visible_to(*txn),
    {
        if self.committed {
            self.timestamp <= txn.start_timestamp
        } else {
            self.transaction_id == txn.transaction_id
        }
    }

    pub fn is_pending_in(&self, id: TransactionId) -> (pending: bool)
        ensures
            pending == self.pending_in(id),
    {
        !self.committed && self.transaction_id == id
    }

    /// A copy of the version.
    pub fn duplicate(&self) -> (copy: Self)
        ensures
            copy == *self,
    {
        BaseCatalogEntry {
            id: self.id,
            type_: self.type_,
            name: self.name.clone(),
            deleted: self.deleted,
            timestamp: self.timestamp,
            transaction_id: self.transaction_id,
            committed: self.committed,
            child: self.child,
            parent: self.parent,
        }
    }
}

/// What every kind of catalog entry offers.
pub trait CatalogEntryTrait: Sized {
    /// The versioning fields of the entry.
    spec fn base(&self) -> BaseCatalogEntry;

    /// What an ALTER statement turns this version into; `None` where the entry
    /// does not support the statement.
    spec fn altered(&self, info: AlterInfo) -> Option<BaseCatalogEntry>;

    /// Builds the version that an ALTER statement turns this one into.
    fn alter_entry(&self, context: &ClientContext, info: &AlterInfo) -> (r: Result<
        Self,
        CatalogError,
    >)
        ensures
            match self.altered(*info) {
                Some(next) => r matches Ok(entry) && entry.base() == next,
                None => r matches Err(e) && e.kind == CatalogErrorKind::UnsupportedAlter,
            },
    ;

    fn id(&self) -> (id: CatalogEntryId)
        ensures
            id == self.base().id,
    ;

    fn get_type(&self) -> (kind: CatalogType)
        ensures
            kind == self.base().type_,
    ;

    fn get_name(&self) -> (name: &str)
        ensures
            name@ == self.base().name@,
    ;

    fn is_deleted(&self) -> (deleted: bool)
        ensures
            deleted == self.base().deleted,
    ;

    fn get_timestamp(&self) -> (timestamp: TransactionId)
        ensures
            timestamp == self.base().timestamp,
    ;

    fn get_child(&self) -> (child: Option<CatalogEntryId>)
        ensures
            child == self.base().child,
    ;

    fn set_child(&mut self, child: Option<CatalogEntryId>)
        ensures
            final(self).base() == (BaseCatalogEntry { child, ..old(self).base() }),
    ;

    fn get_parent(&self) -> (parent: Option<CatalogEntryId>)
        ensures
            parent == self.base().parent,
    ;

    fn set_parent(&mut self, parent: Option<CatalogEntryId>)
        ensures
            final(self).base() == (BaseCatalogEntry { parent, ..old(self).base() }),
    ;
}

impl CatalogEntryTrait for BaseCatalogEntry {
    open spec fn base(&self) -> BaseCatalogEntry {
        *self
    }

    /// The common fields alone support no ALTER.
    open spec fn altered(&self, info: AlterInfo) -> Option<BaseCatalogEntry> {
        None
    }

    fn alter_entry(&self, context: &ClientContext, info: &AlterInfo) -> (r: Result<
        Self,
        CatalogError,
    >) {
        Err(
            CatalogError::of_kind(
                CatalogErrorKind::UnsupportedAlter,
                "Unsupported alter type for catalog entry!",
            ),
        )
    }

    fn id(&self) -> (id: CatalogEntryId) {
        self.id
    }

    fn get_type(&self) -> (kind: CatalogType) {
        self.type_
    }

    fn get_name(&self) -> (name: &str) {
        self.name.as_str()
    }

    fn is_deleted(&self) -> (deleted: bool) {
        self.deleted
    }

    fn get_timestamp(&self) -> (timestamp: TransactionId) {
        self.timestamp
    }

    fn get_child(&self) -> (child: Option<CatalogEntryId>) {
        self.child
    }

    fn set_child(&mut self, child: Option<CatalogEntryId>) {
        self.child = child;
    }

    fn get_parent(&self) -> (parent: Option<CatalogEntryId>) {
        self.parent
    }

    fn set_parent(&mut self, parent: Option<CatalogEntryId>) {
        self.parent = parent;
    }
}

} // verus!
