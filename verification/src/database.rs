//! The database: the catalog, the transaction manager and the storage
//! manager of one database, and the operations that need more than one of
//! them.

use vstd::prelude::*;
use crate::catalog::{Catalog, CatalogView, DropError};
use crate::catalog_entry::{BaseCatalogEntry, CatalogEntryId, CatalogError, CatalogErrorKind};
use crate::catalog_type::CatalogType;
use crate::connection::Connection;
use crate::connection_manager::ConnectionManager;
use crate::storage_info::StorageError;
use crate::storage_manager::{Checkpoint, StorageManager};
use crate::transaction::{Transaction, TransactionId, TransactionState};
use crate::transaction_manager::{TransactionManager, TransactionManagerView};

verus! {

/// How a database may be used.
#[derive(Debug, Clone, Copy, PartialEq, Eq, Structural)]
pub enum AccessMode {
    Undefined,
    ReadOnly,
    ReadWrite,
}

/// How a database is to be opened.
#[derive(Debug, Clone, Copy)]
pub struct DBConfig {
    pub access_mode: AccessMode,
}

impl Default for DBConfig {
    fn default() -> (config: Self)
        ensures
            config.access_mode == AccessMode::Undefined,
    {
        DBConfig { access_mode: AccessMode::Undefined }
    }
}

/// One database.
pub struct DuckDB {
    /// The storage manager.
    storage: StorageManager,
    /// The catalog.
    catalog: Catalog,
    /// The transaction manager.
    transaction_manager: TransactionManager,
    /// The connection manager.
    connection_manager: ConnectionManager,
    /// The access mode in force.
    access_mode: AccessMode,
}

impl DuckDB {
    /// The catalog of the database.
    pub closed spec fn catalog(&self) -> CatalogView {
        self.catalog@
    }

    /// The transactions of the database.
    pub closed spec fn transactions(&self) -> TransactionManagerView {
        self.transaction_manager@
    }

    /// The access mode in force.
    pub closed spec fn mode(&self) -> AccessMode {
        self.access_mode
    }

    /// The storage manager of the database.
    pub closed spec fn storage_manager(&self) -> StorageManager {
        self.storage
    }

    /// The connections that are open.
    pub closed spec fn connections(&self) -> Seq<Connection> {
        self.connection_manager@
    }

    /// The invariant: the parts are well formed, and no version of the
    /// catalog was committed later than the start timestamp that the next
    /// transaction gets.
    pub closed spec fn wf(&self) -> bool {
        &&& self.storage.wf()
        &&& self.catalog.wf()
        &&& self.transaction_manager.wf()
        &&& self.connection_manager.wf()
        &&& self.catalog@.settled_by(self.transaction_manager@.current_start_timestamp)
    }

    /// What the invariant says of the parts.
    pub proof fn lemma_wf(&self)
        requires
            self.wf(),
        ensures
            self.catalog().wf(),
            self.transactions().wf(),
            self.catalog().settled_by(self.transactions().current_start_timestamp),
    {
        self.catalog.lemma_wf();
    }

    /// A database on top of `storage`, with an empty catalog and no
    /// transactions. An access mode that is left undefined becomes
    /// read-write.
    pub fn new(config: DBConfig, storage: StorageManager) -> (db: Self)
        requires
            storage.wf(),
        ensures
            db.wf(),
            db.catalog().sets == Seq::<crate::catalog::SetSlotView>::empty(),
            db.transactions() == TransactionManager::new_view(),
            db.mode() == if config.access_mode == AccessMode::ReadOnly {
                AccessMode::ReadOnly
            } else {
                AccessMode::ReadWrite
            },
    {
        let access_mode = match config.access_mode {
            AccessMode::ReadOnly => AccessMode::ReadOnly,
            _ => AccessMode::ReadWrite,
        };
        DuckDB {
            storage,
            catalog: Catalog::new(),
            transaction_manager: TransactionManager::new(),
            connection_manager: ConnectionManager::new(),
            access_mode,
        }
    }

    /// Starts a transaction, unless the identifiers or the start timestamps
    /// have run out.
    pub fn start_transaction(&mut self) -> (r: Option<Transaction>)
        requires
            old(self).wf(),
        ensures
            final(self).wf(),
            final(self).catalog() == old(self).catalog(),
            final(self).mode() == old(self).mode(),
            if old(self).transactions().current_transaction_id < u64::MAX && old(self).transactions().current_start_timestamp < u64::MAX {
                &&& r == Some(
                    Transaction {
                        transaction_id: old(self).transactions().current_transaction_id,
                        start_timestamp: old(self).transactions().current_start_timestamp,
                        commit_timestamp: 0,
                        active_query: old(self).transactions().current_query_number,
                        state: TransactionState::Active,
                    },
                )
                &&& final(self).transactions() == (TransactionManagerView {
                    current_transaction_id: (old(self).transactions().current_transaction_id
                        + 1) as u64,
                    current_start_timestamp: (old(self).transactions().current_start_timestamp
                        + 1) as u64,
                    active: old(self).transactions().active.push(r->0),
                    ..old(self).transactions()
                })
            } else {
                r is None && final(self).transactions() == old(self).transactions()
            },
    {
        if !self.transaction_manager.can_start() {
            return None;
        }
        let ghost before = self.transaction_manager@.current_start_timestamp;
        let txn = self.transaction_manager.start_transaction();
        proof {
            self.catalog.lemma_wf();
            self.catalog@.lemma_settled_later(before, (before + 1) as u64);
        }
        Some(txn)
    }

    /// The object that the active transaction `transaction_id` finds under
    /// `name` among the objects of `kind` in `schema`; nothing if no such
    /// transaction is active.
    pub fn get_entry(
        &self,
        transaction_id: TransactionId,
        schema: &str,
        kind: CatalogType,
        name: &str,
    ) -> (r: Option<&BaseCatalogEntry>)
        requires
            self.wf(),
        ensures
            match self.transactions().position(transaction_id) {
                Some(i) => match r {
                    Some(e) => self.catalog().lookup(
                        schema@,
                        kind,
                        name@,
                        self.transactions().active[i],
                    ) == Some(e.id) && self.catalog().contains(e.id) && *e
                        == self.catalog().entry(e.id),
                    None => self.catalog().lookup(
                        schema@,
                        kind,
                        name@,
                        self.transactions().active[i],
                    ) is None,
                },
                None => r is None,
            },
    {
        match self.transaction_manager.get_transaction(transaction_id) {
            Some(txn) => self.catalog.get_entry(schema, kind, name, &txn),
            None => None,
        }
    }

    /// Creates `name` among the objects of `kind` in `schema` on behalf of
    /// the active transaction `transaction_id`. Refused as the catalog
    /// refuses it, and with `NotFound` if no such transaction is active. A
    /// refusal changes nothing.
    pub fn create_entry(
        &mut self,
        transaction_id: TransactionId,
        schema: &str,
        kind: CatalogType,
        name: &str,
    ) -> (r: Result<CatalogEntryId, CatalogError>)
        requires
            old(self).wf(),
        ensures
            final(self).wf(),
            final(self).transactions() == old(self).transactions(),
            final(self).mode() == old(self).mode(),
            match old(self).transactions().position(transaction_id) {
                Some(i) => match old(self).catalog().create_verdict(
                    schema@,
                    kind,
                    name@,
                    old(self).transactions().active[i],
                ) {
                    Ok(()) => r matches Ok(id) && old(self).catalog().pushed(
                        final(self).catalog(),
                        id,
                        schema@,
                        kind,
                        name@,
                        kind,
                        false,
                        old(self).transactions().active[i],
                    ),
                    Err(why) => r matches Err(e) && e.kind == why && final(self).catalog() == old(self).catalog(),
                },
                None => r matches Err(e) && e.kind == CatalogErrorKind::NotFound && final(self).catalog() == old(self).catalog(),
            },
    {
        let txn = match self.transaction_manager.get_transaction(transaction_id) {
            Some(txn) => txn,
            None => {
                return Err(
                    CatalogError::of_kind(CatalogErrorKind::NotFound, "Transaction is not active!"),
                );
            },
        };
        let ghost before = self.catalog@;
        let r = self.catalog.create_entry(schema, kind, name, &txn);
        proof {
            old(self).catalog.lemma_wf();
            self.catalog.lemma_wf();
            if let Ok(id) = r {
                before.lemma_pushed_settled(
                    self.catalog@,
                    id,
                    schema@,
                    kind,
                    name@,
                    kind,
                    false,
                    txn,
                    self.transaction_manager@.current_start_timestamp,
                );
            }
        }
        r
    }

    /// Records that the version `dependent` depends on the version
    /// `dependency`. Refused with `NotFound` unless both versions exist.
    pub fn add_dependency(&mut self, dependent: CatalogEntryId, dependency: CatalogEntryId) -> (r:
        Result<(), CatalogError>)
        requires
            old(self).wf(),
        ensures
            final(self).wf(),
            final(self).transactions() == old(self).transactions(),
            final(self).catalog().sets == old(self).catalog().sets,
            if old(self).catalog().contains(dependent) && old(self).catalog().contains(dependency) {
                r is Ok && final(self).catalog().edges == if old(self).catalog().graph().contains(
                    crate::dependency_manager::Dependency { dependent, dependency },
                ) {
                    old(self).catalog().edges
                } else {
                    old(self).catalog().edges.push(
                        crate::dependency_manager::Dependency { dependent, dependency },
                    )
                }
            } else {
                r matches Err(e) && e.kind == CatalogErrorKind::NotFound && final(self).catalog().edges == old(self).catalog().edges
            },
    {
        self.catalog.add_dependency(dependent, dependency)
    }

    /// Drops `name` among the objects of `kind` in `schema` on behalf of the
    /// active transaction `transaction_id`, with what depends on it if
    /// `cascade` says so. Refused as the catalog refuses it, and with
    /// `NotFound` if no such transaction is active. A refusal changes
    /// nothing.
    pub fn drop_entry(
        &mut self,
        transaction_id: TransactionId,
        schema: &str,
        kind: CatalogType,
        name: &str,
        cascade: bool,
    ) -> (r: Result<Vec<CatalogEntryId>, DropError>)
        requires
            old(self).wf(),
        ensures
            final(self).wf(),
            final(self).transactions() == old(self).transactions(),
            final(self).mode() == old(self).mode(),
            match old(self).transactions().position(transaction_id) {
                Some(i) => match old(self).catalog().drop_verdict(
                    schema@,
                    kind,
                    name@,
                    old(self).transactions().active[i],
                    cascade,
                ) {
                    Ok(()) => r matches Ok(victims) && old(self).catalog().dropped(
                        final(self).catalog(),
                        old(self).catalog().sets[old(self).catalog().set_of(
                            schema@,
                            kind,
                        )->0].set.head_of(name@)->0,
                        old(self).transactions().active[i],
                        cascade,
                        victims@,
                    ),
                    Err(why) => r matches Err(e) && e.refusal() == why && final(self).catalog()
                        == old(self).catalog(),
                },
                None => r matches Err(e) && e.refusal() == crate::catalog::DropRefusal::Catalog(
                    CatalogErrorKind::NotFound,
                ) && final(self).catalog() == old(self).catalog(),
            },
    {
        let txn = match self.transaction_manager.get_transaction(transaction_id) {
            Some(txn) => txn,
            None => {
                return Err(
                    DropError::Catalog(
                        CatalogError::of_kind(
                            CatalogErrorKind::NotFound,
                            "Transaction is not active!",
                        ),
                    ),
                );
            },
        };
        let ghost before = self.catalog@;
        let r = self.catalog.drop_entry(schema, kind, name, &txn, cascade);
        proof {
            old(self).catalog.lemma_wf();
            self.catalog.lemma_wf();
            if r is Ok {
                before.lemma_marked_settled(
                    self.catalog@,
                    txn,
                    self.transaction_manager@.current_start_timestamp,
                );
            }
        }
        r
    }

    /// Commits the active transaction `transaction_id`: its work in the
    /// catalog becomes visible to the transactions that start from now on,
    /// and what no transaction can observe any more is reclaimed. Returns
    /// the transaction as it ended, or `None`, with nothing changed, if no
    /// such transaction is active.
    pub fn commit(&mut self, transaction_id: TransactionId) -> (r: Option<Transaction>)
        requires
            old(self).wf(),
        ensures
            final(self).wf(),
            final(self).mode() == old(self).mode(),
            match old(self).transactions().position(transaction_id) {
                Some(i) => {
                    &&& r == Some(
                        Transaction {
                            commit_timestamp: old(self).transactions().current_start_timestamp,
                            state: TransactionState::Committed,
                            ..old(self).transactions().active[i]
                        },
                    )
                    &&& old(self).transactions().retired(final(self).transactions(), i, r->0)
                    &&& old(self).catalog().committed_then_collected(
                        final(self).catalog(),
                        transaction_id,
                        old(self).transactions().current_start_timestamp,
                        final(self).transactions().horizon(),
                    )
                },
                None => r is None && final(self).transactions() == old(self).transactions()
                    && final(self).catalog() == old(self).catalog(),
            },
    {
        let ended = match self.transaction_manager.commit_transaction(transaction_id) {
            Some(ended) => ended,
            None => {
                return None;
            },
        };
        proof {
            old(self).catalog.lemma_wf();
        }
        let timestamp = ended.commit_timestamp;
        self.catalog.commit(transaction_id, timestamp);
        let ghost mid = self.catalog@;
        let horizon = self.transaction_manager.lowest_active_start();
        proof {
            self.catalog.lemma_wf();
        }
        self.catalog.collect(horizon);
        proof {
            self.catalog.lemma_wf();
            mid.lemma_collected_settled(self.catalog@, horizon, timestamp);
        }
        Some(ended)
    }

    /// Rolls back the active transaction `transaction_id`: its work in the
    /// catalog is undone, and what no transaction can observe any more is
    /// reclaimed. Returns the transaction as it ended, or `None`, with
    /// nothing changed, if no such transaction is active.
    pub fn rollback(&mut self, transaction_id: TransactionId) -> (r: Option<Transaction>)
        requires
            old(self).wf(),
        ensures
            final(self).wf(),
            final(self).mode() == old(self).mode(),
            match old(self).transactions().position(transaction_id) {
                Some(i) => {
                    &&& r == Some(
                        Transaction {
                            state: TransactionState::RolledBack,
                            ..old(self).transactions().active[i]
                        },
                    )
                    &&& old(self).transactions().retired(final(self).transactions(), i, r->0)
                    &&& old(self).catalog().rolled_back_then_collected(
                        final(self).catalog(),
                        transaction_id,
                        final(self).transactions().horizon(),
                    )
                },
                None => r is None && final(self).transactions() == old(self).transactions()
                    && final(self).catalog() == old(self).catalog(),
            },
    {
        let ended = match self.transaction_manager.rollback_transaction(transaction_id) {
            Some(ended) => ended,
            None => {
                return None;
            },
        };
        proof {
            old(self).catalog.lemma_wf();
        }
        let ghost before = self.catalog@;
        let ghost limit = self.transaction_manager@.current_start_timestamp;
        self.catalog.rollback(transaction_id);
        let ghost mid = self.catalog@;
        let horizon = self.transaction_manager.lowest_active_start();
        proof {
            self.catalog.lemma_wf();
            before.lemma_rolled_back_settled(mid, transaction_id, limit);
        }
        self.catalog.collect(horizon);
        proof {
            self.catalog.lemma_wf();
            mid.lemma_collected_settled(self.catalog@, horizon, limit);
        }
        Some(ended)
    }

    /// The storage manager of the database.
    pub fn storage(&self) -> (storage: &StorageManager)
        requires
            self.wf(),
        ensures
            storage.wf(),
            *storage == self.storage_manager(),
    {
        &self.storage
    }

    /// Makes the state of the storage durable: see
    /// `StorageManager::checkpoint`.
    pub fn checkpoint(&mut self) -> (r: Result<Checkpoint, StorageError>)
        requires
            old(self).wf(),
        ensures
            final(self).wf(),
            final(self).catalog() == old(self).catalog(),
            final(self).transactions() == old(self).transactions(),
            final(self).mode() == old(self).mode(),
            final(self).connections() == old(self).connections(),
            StorageManager::checkpoint_outcome(
                old(self).storage_manager(),
                final(self).storage_manager(),
                r,
            ),
    {
        self.storage.checkpoint()
    }

    /// Closes the database: see `StorageManager::close`.
    pub fn close(self) -> (r: Result<Option<Checkpoint>, StorageError>)
        requires
            self.wf(),
        ensures
            StorageManager::close_outcome(self.storage_manager(), r),
    {
        self.storage.close()
    }

    /// Adds a connection, unless a connection with its identifier is open
    /// already.
    pub fn add_connection(&mut self, conn: Connection)
        requires
            old(self).wf(),
        ensures
            final(self).wf(),
            final(self).catalog() == old(self).catalog(),
            final(self).transactions() == old(self).transactions(),
            final(self).mode() == old(self).mode(),
            final(self).storage_manager() == old(self).storage_manager(),
            final(self).connections() == if crate::connection_manager::has_connection(
                old(self).connections(),
                conn.id,
            ) {
                old(self).connections()
            } else {
                old(self).connections().push(conn)
            },
    {
        self.connection_manager.add_connection(conn);
    }

    /// Removes the connection with the identifier of `conn`, if it is open.
    pub fn remove_connection(&mut self, conn: &Connection)
        requires
            old(self).wf(),
        ensures
            final(self).wf(),
            final(self).catalog() == old(self).catalog(),
            final(self).transactions() == old(self).transactions(),
            final(self).mode() == old(self).mode(),
            final(self).storage_manager() == old(self).storage_manager(),
            !crate::connection_manager::has_connection(final(self).connections(), conn.id),
            match crate::connection_manager::choose_position(old(self).connections(), conn.id) {
                Some(i) => final(self).connections() == old(self).connections().remove(i),
                None => final(self).connections() == old(self).connections(),
            },
    {
        self.connection_manager.remove_connection(conn);
    }

    /// How many connections are open.
    pub fn connection_count(&self) -> (n: usize)
        ensures
            n == self.connections().len(),
    {
        self.connection_manager.len()
    }
}

} // verus!
