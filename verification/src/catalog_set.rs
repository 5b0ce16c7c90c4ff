//! A versioned, name-indexed collection of catalog entries of one category.
//!
//! Every change to a name adds a version on top of the name's chain; nothing
//! is changed in place but the links between versions and, at commit, the
//! timestamp of the versions that the committing transaction wrote. A reader
//! walks a chain from its newest version down to the first version that its
//! snapshot admits.
//!
//! A version carries the timestamp at which its writer started until the
//! writer commits, and the commit timestamp from then on. Down a chain the
//! identifiers fall strictly, and so do the commit timestamps from one
//! transaction's versions to the next transaction's; the versions that one
//! transaction wrote on a chain are committed together and share a timestamp.

use vstd::prelude::*;
use vstd::string::StringExecFns;
use crate::alter_table_info::AlterInfo;
use crate::catalog_entry::{
    BaseCatalogEntry, CatalogEntryId, CatalogEntryTrait, CatalogError, CatalogErrorKind,
    ClientContext,
};
use crate::catalog_type::CatalogType;
use crate::transaction::{Transaction, TransactionId};

verus! {

/// A name and the newest version under that name.
#[derive(Debug)]
pub struct NameSlot {
    pub name: String,
    pub head: CatalogEntryId,
}

/// Whether `name` stands at position `i` of `names`.
pub open spec fn name_at(names: Seq<NameSlot>, i: int, name: Seq<char>) -> bool {
    0 <= i < names.len() && names[i].name@ == name
}

/// A position of `names` at which `name` stands, if there is one.
pub open spec fn name_slot(names: Seq<NameSlot>, name: Seq<char>) -> Option<int> {
    if exists|i: int| name_at(names, i, name) {
        Some(choose|i: int| name_at(names, i, name))
    } else {
        None
    }
}

/// What a walk down a chain of versions looks for.
#[derive(Debug, Clone, Copy)]
pub enum ChainTest {
    /// A version that the transaction may observe.
    VisibleTo(Transaction),
    /// A version that is not the uncommitted work of the transaction.
    NotPendingIn(TransactionId),
    /// A version committed at the timestamp or before it.
    SettledBy(TransactionId),
}

impl ChainTest {
    /// Whether `e` is what the walk looks for.
    pub open spec fn admits(self, e: BaseCatalogEntry) -> bool {
        match self {
            ChainTest::VisibleTo(txn) => e.visible_to(txn),
            ChainTest::NotPendingIn(writer) => !e.pending_in(writer),
            ChainTest::SettledBy(timestamp) => e.committed && e.timestamp <= timestamp,
        }
    }

    pub fn test(&self, e: &BaseCatalogEntry) -> (admitted: bool)
        ensures
            admitted == self.admits(*e),
    {
        match self {
            ChainTest::VisibleTo(txn) => e.is_visible_to(txn),
            ChainTest::NotPendingIn(writer) => !e.is_pending_in(*writer),
            ChainTest::SettledBy(timestamp) => e.committed && e.timestamp <= *timestamp,
        }
    }
}

/// Whether the version `newer` may stand directly above `older` in a chain.
/// Below a committed version everything is committed: earlier, or by the
/// same transaction at the same time. Below an uncommitted version stands
/// work that was committed when its writer started, or more uncommitted work
/// of the same writer.
pub open spec fn in_order(newer: BaseCatalogEntry, older: BaseCatalogEntry) -> bool {
    if newer.committed {
        &&& older.committed
        &&& older.timestamp <= newer.timestamp
        &&& older.transaction_id != newer.transaction_id ==> older.timestamp < newer.timestamp
    } else if older.committed {
        older.timestamp <= newer.timestamp
    } else {
        older.transaction_id == newer.transaction_id
    }
}

/// Whether the version `e` lies within `timestamp`: it was committed no
/// later, or its writer started earlier.
pub open spec fn within(e: BaseCatalogEntry, timestamp: TransactionId) -> bool {
    if e.committed {
        e.timestamp <= timestamp
    } else {
        e.timestamp < timestamp
    }
}

/// The mathematical content of a `CatalogSet`.
///
/// Versions live in an arena: the version with identifier `id` stands at
/// position `id - id_base`, and a position holds `None` once its version has
/// been reclaimed.
pub struct CatalogSetView {
    pub id_base: CatalogEntryId,
    pub id_limit: CatalogEntryId,
    pub entries: Seq<Option<BaseCatalogEntry>>,
    pub names: Seq<NameSlot>,
}

impl CatalogSetView {
    /// Whether `id` names a version that exists.
    pub open spec fn contains(self, id: CatalogEntryId) -> bool {
        &&& self.id_base <= id
        &&& id - self.id_base < self.entries.len()
        &&& self.entries[id - self.id_base] is Some
    }

    /// The version that `id` names.
    pub open spec fn entry(self, id: CatalogEntryId) -> BaseCatalogEntry
        recommends
            self.contains(id),
    {
        self.entries[id - self.id_base]->0
    }

    /// Whether `name` stands at position `i` of the name list.
    pub open spec fn names_at(self, i: int, name: Seq<char>) -> bool {
        name_at(self.names, i, name)
    }

    /// The position of `name` in the name list.
    pub open spec fn slot_of(self, name: Seq<char>) -> Option<int> {
        name_slot(self.names, name)
    }

    /// The newest version of `name`, whoever can see it.
    pub open spec fn head_of(self, name: Seq<char>) -> Option<CatalogEntryId> {
        match self.slot_of(name) {
            Some(i) => Some(self.names[i].head),
            None => None,
        }
    }

    /// The first version that `test` admits on the way from `id` down the
    /// chain of older versions.
    pub open spec fn first_at(self, id: CatalogEntryId, test: ChainTest) -> Option<CatalogEntryId>
        decreases id,
    {
        if !self.contains(id) {
            None
        } else if test.admits(self.entry(id)) {
            Some(id)
        } else {
            match self.entry(id).child {
                Some(child) => if child < id {
                    self.first_at(child, test)
                } else {
                    None
                },
                None => None,
            }
        }
    }

    /// The first version that `txn` can see on the way from `id` down the
    /// chain of older versions.
    pub open spec fn visible_at(self, id: CatalogEntryId, txn: Transaction) -> Option<
        CatalogEntryId,
    > {
        self.first_at(id, ChainTest::VisibleTo(txn))
    }

    /// The version of `name` that `txn` observes, a deletion marker included.
    pub open spec fn visible_version(self, name: Seq<char>, txn: Transaction) -> Option<
        CatalogEntryId,
    > {
        match self.head_of(name) {
            Some(head) => self.visible_at(head, txn),
            None => None,
        }
    }

    /// The object that `txn` finds under `name`: the version it observes,
    /// unless that version marks the object as dropped.
    pub open spec fn lookup(self, name: Seq<char>, txn: Transaction) -> Option<CatalogEntryId> {
        match self.visible_version(name, txn) {
            Some(id) => if self.entry(id).deleted {
                None
            } else {
                Some(id)
            },
            None => None,
        }
    }

    /// What holds of the link from a version to the next older one: the older
    /// version exists, has the smaller identifier and the same name, and
    /// points back, and the two stand in the order of their timestamps.
    pub open spec fn link_ok(self, e: BaseCatalogEntry, child: CatalogEntryId) -> bool {
        &&& child < e.id
        &&& self.contains(child)
        &&& self.entry(child).name@ == e.name@
        &&& self.entry(child).parent == Some(e.id)
        &&& in_order(e, self.entry(child))
    }

    /// What holds of the version at position `s`.
    pub open spec fn entry_ok(self, s: int) -> bool {
        let e = self.entries[s]->0;
        &&& e.id == self.id_base + s
        &&& e.child matches Some(child) ==> self.link_ok(e, child)
    }

    /// What holds of the name at position `i`: its head exists, carries the
    /// name, and has no newer version above it.
    pub open spec fn head_ok(self, i: int) -> bool {
        let head = self.names[i].head;
        &&& self.contains(head)
        &&& self.entry(head).name@ == self.names[i].name@
        &&& self.entry(head).parent is None
    }

    /// Whether every version stands at the position that its identifier
    /// gives and links to an existing version with a smaller identifier.
    pub open spec fn descending(self) -> bool {
        forall|s: int|
            0 <= s < self.entries.len() && (#[trigger] self.entries[s]) is Some ==> {
                let e = self.entries[s]->0;
                &&& e.id == self.id_base + s
                &&& e.child matches Some(child) ==> child < e.id && self.contains(child)
            }
    }

    /// Whether no name stands twice in the name list.
    pub open spec fn names_unique(self) -> bool {
        forall|i: int, j: int|
            0 <= i < j < self.names.len() ==> (#[trigger] self.names[i]).name@ != (
            #[trigger] self.names[j]).name@
    }

    /// Whether the version at position `s` belongs to a chain: it is the
    /// newest version of its name, or the version above it exists and links
    /// down to it.
    pub open spec fn rooted(self, s: int) -> bool {
        let e = self.entries[s]->0;
        match e.parent {
            Some(parent) => self.contains(parent) && self.entry(parent).child == Some(e.id),
            None => self.head_of(e.name@) == Some(e.id),
        }
    }

    /// The invariant of a catalog set: names that stand once, each with a
    /// head; links in order; and no version outside the chains.
    pub open spec fn wf(self) -> bool {
        &&& self.id_base + self.entries.len() <= self.id_limit
        &&& self.names_unique()
        &&& forall|i: int| 0 <= i < self.names.len() ==> #[trigger] self.head_ok(i)
        &&& forall|s: int|
            0 <= s < self.entries.len() && (#[trigger] self.entries[s]) is Some ==> self.entry_ok(
                s,
            )
        &&& forall|s: int|
            0 <= s < self.entries.len() && self.entries[s] is Some ==> #[trigger] self.rooted(s)
    }

    /// The links of a well-formed set lead downwards.
    pub proof fn lemma_wf_descending(self)
        requires
            self.wf(),
        ensures
            self.descending(),
    {
        assert forall|s: int|
            0 <= s < self.entries.len() && (#[trigger] self.entries[s]) is Some implies {
            let e = self.entries[s]->0;
            &&& e.id == self.id_base + s
            &&& e.child matches Some(child) ==> child < e.id && self.contains(child)
        } by {
            assert(self.entry_ok(s));
        }
    }

    /// Along a chain the versions grow older. The version below another has
    /// the same name and the smaller identifier; below a committed version
    /// it is committed too: earlier if another transaction wrote it, at the
    /// same time at the latest if the same transaction did.
    pub proof fn lemma_chain_order(self, id: CatalogEntryId)
        requires
            self.wf(),
            self.contains(id),
            self.entry(id).child is Some,
        ensures
            self.contains(self.entry(id).child->0),
            self.entry(self.entry(id).child->0).id < id,
            self.entry(self.entry(id).child->0).name@ == self.entry(id).name@,
            self.entry(id).committed ==> {
                let older = self.entry(self.entry(id).child->0);
                &&& older.committed
                &&& older.timestamp <= self.entry(id).timestamp
                &&& older.transaction_id != self.entry(id).transaction_id ==> older.timestamp
                    < self.entry(id).timestamp
            },
    {
        let s = id - self.id_base;
        assert(self.entries[s] is Some);
        assert(self.entry_ok(s));
        let child = self.entry(id).child->0;
        assert(self.link_ok(self.entry(id), child));
        assert(self.entries[child - self.id_base] is Some);
        assert(self.entry_ok(child - self.id_base));
    }

    /// A name has one newest version: the versions with nothing above them
    /// are the heads of their names.
    pub proof fn lemma_one_head(self, id: CatalogEntryId)
        requires
            self.wf(),
            self.contains(id),
        ensures
            self.entry(id).parent is None <==> self.head_of(self.entry(id).name@) == Some(id),
    {
        let s = id - self.id_base;
        assert(self.entries[s] is Some);
        assert(self.rooted(s));
        if self.head_of(self.entry(id).name@) == Some(id) {
            let i = self.slot_of(self.entry(id).name@)->0;
            assert(self.head_ok(i));
        }
    }

    /// Where names stand once, a name stands at one position only.
    pub proof fn lemma_slot_unique(self, i: int, name: Seq<char>)
        requires
            self.names_unique(),
            self.names_at(i, name),
        ensures
            self.slot_of(name) == Some(i),
            self.head_of(name) == Some(self.names[i].head),
    {
        let j = choose|j: int| name_at(self.names, j, name);
        if i < j {
            assert(self.names[i].name@ != self.names[j].name@);
        } else if j < i {
            assert(self.names[j].name@ != self.names[i].name@);
        }
    }

    /// A name that stands nowhere has no head.
    pub proof fn lemma_slot_absent(self, name: Seq<char>)
        requires
            forall|i: int| 0 <= i < self.names.len() ==> (#[trigger] self.names[i]).name@ != name,
        ensures
            self.slot_of(name) is None,
            self.head_of(name) is None,
    {
        if exists|i: int| name_at(self.names, i, name) {
            let i = choose|i: int| name_at(self.names, i, name);
            assert(self.names[i].name@ != name);
        }
    }
}

/// A versioned, name-indexed collection of catalog entries.
pub struct CatalogSet {
    id_base: CatalogEntryId,
    id_limit: CatalogEntryId,
    /// The versions, each at the position that its identifier gives.
    entries: Vec<Option<BaseCatalogEntry>>,
    /// The names, each with its newest version.
    name_map: Vec<NameSlot>,
}

impl CatalogSet {
    pub closed spec fn view(&self) -> CatalogSetView {
        CatalogSetView {
            id_base: self.id_base,
            id_limit: self.id_limit,
            entries: self.entries@,
            names: self.name_map@,
        }
    }

    /// The invariant that every operation keeps.
    pub open spec fn wf(&self) -> bool {
        self@.wf()
    }

    /// An empty set that hands out the identifiers from `id_base` up to, but
    /// not including, `id_limit`.
    pub fn new(id_base: CatalogEntryId, id_limit: CatalogEntryId) -> (set: Self)
        requires
            id_base <= id_limit,
        ensures
            set.wf(),
            set@ == (CatalogSetView {
                id_base,
                id_limit,
                entries: Seq::empty(),
                names: Seq::empty(),
            }),
    {
        CatalogSet { id_base, id_limit, entries: Vec::new(), name_map: Vec::new() }
    }

    /// Whether the set has an identifier left for one more version.
    pub fn has_room(&self) -> (room: bool)
        requires
            self.wf(),
        ensures
            room == (self@.id_base + self@.entries.len() < self@.id_limit),
    {
        (self.id_limit - self.id_base) as u128 > self.entries.len() as u128
    }

    /// The version that `id` names, if it exists.
    pub fn entry(&self, id: CatalogEntryId) -> (r: Option<&BaseCatalogEntry>)
        ensures
            match r {
                Some(e) => self@.contains(id) && *e == self@.entry(id),
                None => !self@.contains(id),
            },
    {
        if id < self.id_base {
            return None;
        }
        let offset: u64 = id - self.id_base;
        if offset as u128 >= self.entries.len() as u128 {
            return None;
        }
        self.entries[offset as usize].as_ref()
    }

    /// The position in the arena of a version that exists.
    fn slot(&self, id: CatalogEntryId) -> (s: usize)
        requires
            self@.contains(id),
        ensures
            s == id - self@.id_base,
            s < self@.entries.len(),
            self@.entries[s as int] == Some(self@.entry(id)),
    {
        let count: usize = self.entries.len();
        (id - self.id_base) as usize
    }

    /// The position of `name` in the name list.
    fn find(&self, name: &String) -> (r: Option<usize>)
        requires
            self.wf(),
        ensures
            match r {
                Some(i) => self@.names_at(i as int, name@) && self@.slot_of(name@) == Some(
                    i as int,
                ),
                None => self@.slot_of(name@) is None,
            },
    {
        let mut i: usize = 0;
        while i < self.name_map.len()
            invariant
                self.wf(),
                i <= self.name_map@.len(),
                forall|j: int| 0 <= j < i ==> (#[trigger] self.name_map@[j]).name@ != name@,
            decreases self.name_map@.len() - i,
        {
            if self.name_map[i].name == *name {
                proof {
                    self@.lemma_slot_unique(i as int, name@);
                }
                return Some(i);
            }
            i += 1;
        }
        proof {
            self@.lemma_slot_absent(name@);
        }
        None
    }

    /// The newest version of `name`, whoever can see it.
    pub fn head(&self, name: &str) -> (r: Option<CatalogEntryId>)
        requires
            self.wf(),
        ensures
            r == self@.head_of(name@),
    {
        let key = String::from_str(name);
        match self.find(&key) {
            Some(i) => Some(self.name_map[i].head),
            None => None,
        }
    }

    /// Walks from `start` down the chain of older versions to the first one
    /// that `test` admits.
    fn first_where(&self, start: CatalogEntryId, test: &ChainTest) -> (r: Option<CatalogEntryId>)
        requires
            self@.descending(),
            self@.contains(start),
        ensures
            r == self@.first_at(start, *test),
    {
        let mut current: CatalogEntryId = start;
        loop
            invariant
                self@.descending(),
                self@.contains(current),
                self@.first_at(start, *test) == self@.first_at(current, *test),
            decreases current,
        {
            let slot: usize = self.slot(current);
            match &self.entries[slot] {
                Some(e) => {
                    if test.test(e) {
                        return Some(current);
                    }
                    match e.child {
                        Some(child) => {
                            current = child;
                        },
                        None => {
                            return None;
                        },
                    }
                },
                None => {
                    return None;
                },
            }
        }
    }

    /// The version of `name` that `txn` observes, a deletion marker included.
    pub fn visible_version(&self, name: &str, txn: &Transaction) -> (r: Option<CatalogEntryId>)
        requires
            self.wf(),
        ensures
            r == self@.visible_version(name@, *txn),
    {
        let key = String::from_str(name);
        match self.find(&key) {
            Some(i) => {
                proof {
                    assert(self@.head_ok(i as int));
                    self@.lemma_wf_descending();
                }
                self.first_where(self.name_map[i].head, &ChainTest::VisibleTo(*txn))
            },
            None => None,
        }
    }

    /// The object that `txn` finds under `name`: the newest version that its
    /// snapshot admits, unless that version marks the object as dropped.
    pub fn get_entry(&self, name: &str, txn: &Transaction) -> (r: Option<&BaseCatalogEntry>)
        requires
            self.wf(),
        ensures
            match r {
                Some(e) => self@.lookup(name@, *txn) == Some(e.id) && self@.contains(e.id) && *e
                    == self@.entry(e.id),
                None => self@.lookup(name@, *txn) is None,
            },
    {
        match self.visible_version(name, txn) {
            Some(id) => {
                proof {
                    self@.lemma_visible_at_contained(self@.head_of(name@)->0, *txn);
                }
                let slot: usize = self.slot(id);
                match &self.entries[slot] {
                    Some(e) => if e.deleted {
                        None
                    } else {
                        Some(e)
                    },
                    None => None,
                }
            },
            None => None,
        }
    }
}

impl CatalogSetView {
    /// What a walk finds is a version that exists and that the test admits.
    pub proof fn lemma_first_at_contained(self, id: CatalogEntryId, test: ChainTest)
        ensures
            self.first_at(id, test) matches Some(v) ==> self.contains(v) && test.admits(
                self.entry(v),
            ) && v <= id,
        decreases id,
    {
        if self.contains(id) && !test.admits(self.entry(id)) {
            if let Some(child) = self.entry(id).child {
                if child < id {
                    self.lemma_first_at_contained(child, test);
                }
            }
        }
    }

    /// What a reader observes is a version that exists and that it may see.
    pub proof fn lemma_visible_at_contained(self, id: CatalogEntryId, txn: Transaction)
        ensures
            self.visible_at(id, txn) matches Some(v) ==> self.contains(v) && self.entry(
                v,
            ).visible_to(txn) && v <= id,
    {
        self.lemma_first_at_contained(id, ChainTest::VisibleTo(txn));
    }

    /// Two sets in which the chain below `id` has the same versions, with the
    /// same links and the same standing under `test`, give a walk from `id`
    /// the same result.
    pub proof fn lemma_first_at_agrees(
        self,
        other: CatalogSetView,
        id: CatalogEntryId,
        test: ChainTest,
    )
        requires
            forall|i: CatalogEntryId|
                i <= id ==> (#[trigger] self.contains(i)) == other.contains(i),
            forall|i: CatalogEntryId|
                i <= id && #[trigger] self.contains(i) ==> {
                    &&& test.admits(self.entry(i)) == test.admits(other.entry(i))
                    &&& self.entry(i).child == other.entry(i).child
                },
        ensures
            self.first_at(id, test) == other.first_at(id, test),
        decreases id,
    {
        if self.contains(id) && !test.admits(self.entry(id)) {
            if let Some(child) = self.entry(id).child {
                if child < id {
                    self.lemma_first_at_agrees(other, child, test);
                }
            }
        }
    }
}

impl CatalogSetView {
    /// The identifier that the next version gets.
    pub open spec fn next_id(self) -> int {
        self.id_base + self.entries.len()
    }

    /// Whether an identifier is left for one more version.
    pub open spec fn has_room(self) -> bool {
        self.next_id() < self.id_limit
    }

    /// Whether `txn` may put a version on top of the chain that `head`
    /// begins: only on a head that it can see.
    pub open spec fn writable(self, head: CatalogEntryId, txn: Transaction) -> bool {
        self.entry(head).visible_to(txn)
    }

    /// Whether `txn` may create `name`, or why not.
    pub open spec fn create_verdict(self, name: Seq<char>, txn: Transaction) -> Result<
        (),
        CatalogErrorKind,
    > {
        match self.head_of(name) {
            None => Ok(()),
            Some(head) => if !self.writable(head, txn) {
                Err(CatalogErrorKind::Conflict)
            } else if !self.entry(head).deleted {
                Err(CatalogErrorKind::AlreadyExists)
            } else {
                Ok(())
            },
        }
    }

    /// Whether `txn` may change or drop `name`, or why not.
    pub open spec fn change_verdict(self, name: Seq<char>, txn: Transaction) -> Result<
        (),
        CatalogErrorKind,
    > {
        match self.head_of(name) {
            None => Err(CatalogErrorKind::NotFound),
            Some(head) => if !self.writable(head, txn) {
                Err(CatalogErrorKind::Conflict)
            } else if self.entry(head).deleted {
                Err(CatalogErrorKind::NotFound)
            } else {
                Ok(())
            },
        }
    }

    /// Whether `after` is this set with one more version on top of the chain
    /// of `name`: the uncommitted version `id`, written by transaction
    /// `writer` and stamped with the time at which `writer` started. The
    /// version that was the head, if there was one, now points up at `id`;
    /// nothing else differs.
    pub open spec fn pushed(
        self,
        after: CatalogSetView,
        id: CatalogEntryId,
        name: Seq<char>,
        kind: CatalogType,
        deleted: bool,
        writer: Transaction,
    ) -> bool {
        &&& after.id_base == self.id_base
        &&& after.id_limit == self.id_limit
        &&& id == self.next_id()
        &&& after.entries.len() == self.entries.len() + 1
        &&& after.contains(id)
        &&& {
            let e = after.entry(id);
            &&& e.id == id
            &&& e.type_ == kind
            &&& e.name@ == name
            &&& e.deleted == deleted
            &&& e.timestamp == writer.start_timestamp
            &&& e.transaction_id == writer.transaction_id
            &&& !e.committed
            &&& e.child == self.head_of(name)
            &&& e.parent is None
        }
        &&& forall|other: CatalogEntryId|
            other != id ==> (#[trigger] after.contains(other)) == self.contains(other)
        &&& forall|other: CatalogEntryId| #[trigger]
            self.contains(other) ==> after.entry(other) == if self.head_of(name) == Some(other) {
                BaseCatalogEntry { parent: Some(id), ..self.entry(other) }
            } else {
                self.entry(other)
            }
        &&& forall|n: Seq<char>| #[trigger]
            after.head_of(n) == if n == name {
                Some(id)
            } else {
                self.head_of(n)
            }
    }
}

impl CatalogSet {
    /// Puts a new uncommitted version on top of the chain of `name`, which
    /// stands at position `under` of the name list if it stands anywhere.
    fn push_version(
        &mut self,
        name: String,
        kind: CatalogType,
        deleted: bool,
        txn: &Transaction,
        under: Option<usize>,
    ) -> (id: CatalogEntryId)
        requires
            old(self).wf(),
            old(self)@.has_room(),
            match under {
                Some(i) => old(self)@.names_at(i as int, name@) && old(self)@.writable(
                    old(self)@.names[i as int].head,
                    *txn,
                ),
                None => old(self)@.slot_of(name@) is None,
            },
        ensures
            final(self).wf(),
            old(self)@.pushed(final(self)@, id, name@, kind, deleted, *txn),
    {
        let count: usize = self.entries.len();
        let id: CatalogEntryId = self.id_base + count as u64;
        let ghost before = self@;
        let child = match under {
            Some(i) => {
                proof {
                    before.lemma_slot_unique(i as int, name@);
                    assert(before.head_ok(i as int));
                }
                let head = self.name_map[i].head;
                let slot = self.slot(head);
                match &mut self.entries[slot] {
                    Some(e) => {
                        e.parent = Some(id);
                    },
                    None => {},
                }
                self.name_map[i].head = id;
                Some(head)
            },
            None => {
                self.name_map.push(NameSlot { name: name.clone(), head: id });
                None
            },
        };
        let entry = BaseCatalogEntry {
            id,
            type_: kind,
            name,
            deleted,
            timestamp: txn.start_timestamp,
            transaction_id: txn.transaction_id,
            committed: false,
            child,
            parent: None,
        };
        self.entries.push(Some(entry));
        proof {
            let after = self@;
            assert(after.contains(id));
            assert(after.entry(id) == entry);
            // The names: one position changed or one was added.
            assert forall|n: Seq<char>| #[trigger]
                after.head_of(n) == if n == name@ {
                    Some(id)
                } else {
                    before.head_of(n)
                } by {
                before.lemma_names_after_push(after, under, name@, id, n);
            }
            assert forall|i: int, j: int| 0 <= i < j < after.names.len() implies (
            #[trigger] after.names[i]).name@ != (#[trigger] after.names[j]).name@ by {
                if under is None {
                    if j == before.names.len() {
                        if before.names_at(i, name@) {
                        }
                        assert(!before.names_at(i, name@));
                    }
                }
            }
            assert forall|other: CatalogEntryId| #[trigger]
                before.contains(other) implies after.entry(other) == if before.head_of(name@)
                == Some(other) {
                BaseCatalogEntry { parent: Some(id), ..before.entry(other) }
            } else {
                before.entry(other)
            } by {}
            assert forall|s: int|
                0 <= s < after.entries.len() && (#[trigger] after.entries[s]) is Some implies after.entry_ok(
                s,
            ) by {
                if s < before.entries.len() {
                    assert(before.entries[s] is Some);
                    assert(before.entry_ok(s));
                    let e = before.entries[s]->0;
                    if let Some(c) = e.child {
                        assert(before.link_ok(e, c));
                        assert(before.contains(c));
                    }
                } else {
                    if let Some(i) = under {
                        assert(before.head_ok(i as int));
                    }
                }
            }
            assert forall|s: int|
                0 <= s < after.entries.len() && after.entries[s] is Some implies #[trigger] after.rooted(
                s,
            ) by {
                if s < before.entries.len() {
                    assert(before.entries[s] is Some);
                    assert(before.rooted(s));
                    assert(before.entry_ok(s));
                    let e = before.entries[s]->0;
                    assert(before.contains(e.id));
                    assert(after.entry(e.id) == if before.head_of(name@) == Some(e.id) {
                        BaseCatalogEntry { parent: Some(id), ..before.entry(e.id) }
                    } else {
                        before.entry(e.id)
                    });
                    if let Some(k) = under {
                        assert(before.head_ok(k as int));
                    }
                    match e.parent {
                        Some(p) => {
                            assert(before.contains(p));
                            assert(after.entries[p - before.id_base] is Some);
                            assert(after.entry(p).child == before.entry(p).child);
                        },
                        None => {
                            assert(after.head_of(e.name@) == if e.name@ == name@ {
                                Some(id)
                            } else {
                                before.head_of(e.name@)
                            });
                        },
                    }
                } else {
                    assert(after.head_of(name@) == Some(id));
                }
            }
            let at: int = match under {
                Some(k) => k as int,
                None => before.names.len() as int,
            };
            assert forall|i: int| 0 <= i < after.names.len() implies #[trigger] after.head_ok(
                i,
            ) by {
                if i == at {
                    assert(after.names[i].head == id);
                } else {
                    assert(before.head_ok(i));
                    assert(after.names[i] == before.names[i]);
                    let head = before.names[i].head;
                    if let Some(k) = under {
                        assert(before.head_ok(k as int));
                        if i < k {
                            assert(before.names[i].name@ != before.names[k as int].name@);
                        } else {
                            assert(before.names[k as int].name@ != before.names[i].name@);
                        }
                        assert(head != before.names[k as int].head);
                    }
                    assert(after.entries[head - before.id_base] == before.entries[head
                        - before.id_base]);
                }
            }
        }
        id
    }
}

impl CatalogSet {
    /// Creates `name` on behalf of `txn`: a new uncommitted version becomes
    /// the head of the name's chain. Refused with `AlreadyExists` if the
    /// newest version of the name is visible to `txn` and not a deletion
    /// marker, and with `Conflict` if `txn` cannot see the newest version.
    /// A refusal changes nothing.
    pub fn create_entry(&mut self, name: &str, kind: CatalogType, txn: &Transaction) -> (r: Result<
        CatalogEntryId,
        CatalogError,
    >)
        requires
            old(self).wf(),
            old(self)@.has_room(),
        ensures
            final(self).wf(),
            match old(self)@.create_verdict(name@, *txn) {
                Ok(()) => r matches Ok(id) && old(self)@.pushed(
                    final(self)@,
                    id,
                    name@,
                    kind,
                    false,
                    *txn,
                ),
                Err(why) => r matches Err(e) && e.kind == why && final(self)@ == old(self)@,
            },
    {
        let key = String::from_str(name);
        let under = self.find(&key);
        if let Some(i) = under {
            assert(self@.head_ok(i as int));
            let slot = self.slot(self.name_map[i].head);
            if let Some(head) = &self.entries[slot] {
                if !head.is_visible_to(txn) {
                    return Err(
                        CatalogError::of_kind(
                            CatalogErrorKind::Conflict,
                            "Catalog write-write conflict on create!",
                        ),
                    );
                }
                if !head.deleted {
                    return Err(
                        CatalogError::of_kind(
                            CatalogErrorKind::AlreadyExists,
                            "Catalog entry with this name already exists!",
                        ),
                    );
                }
            }
        }
        Ok(self.push_version(key, kind, false, txn, under))
    }

    /// Drops `name` on behalf of `txn`: a deletion marker becomes the head of
    /// the name's chain, and the versions below it stay for the transactions
    /// that began before the drop. Refused with `NotFound` if the name has no
    /// version or its newest version is a deletion marker that `txn` can see,
    /// and with `Conflict` if `txn` cannot see the newest version. A refusal
    /// changes nothing.
    pub fn drop_entry(&mut self, name: &str, txn: &Transaction) -> (r: Result<
        CatalogEntryId,
        CatalogError,
    >)
        requires
            old(self).wf(),
            old(self)@.has_room(),
        ensures
            final(self).wf(),
            match old(self)@.change_verdict(name@, *txn) {
                Ok(()) => r matches Ok(id) && old(self)@.pushed(
                    final(self)@,
                    id,
                    name@,
                    old(self)@.entry(old(self)@.head_of(name@)->0).type_,
                    true,
                    *txn,
                ),
                Err(why) => r matches Err(e) && e.kind == why && final(self)@ == old(self)@,
            },
    {
        let key = String::from_str(name);
        let under = self.find(&key);
        let i = match under {
            Some(i) => i,
            None => {
                return Err(
                    CatalogError::of_kind(
                        CatalogErrorKind::NotFound,
                        "Catalog entry with this name does not exist!",
                    ),
                );
            },
        };
        assert(self@.head_ok(i as int));
        let slot = self.slot(self.name_map[i].head);
        let kind = match &self.entries[slot] {
            Some(head) => {
                if !head.is_visible_to(txn) {
                    return Err(
                        CatalogError::of_kind(
                            CatalogErrorKind::Conflict,
                            "Catalog write-write conflict on drop!",
                        ),
                    );
                }
                if head.deleted {
                    return Err(
                        CatalogError::of_kind(
                            CatalogErrorKind::NotFound,
                            "Catalog entry with this name does not exist!",
                        ),
                    );
                }
                head.type_
            },
            None => CatalogType::Invalid,
        };
        Ok(self.push_version(key, kind, true, txn, under))
    }

    /// Alters `name` on behalf of `txn`: the version that the newest version
    /// turns into under `info` becomes the head of the name's chain. Refused
    /// like a drop, and with `UnsupportedAlter` if the newest version
    /// supports no such statement. A refusal changes nothing.
    pub fn alter_entry(
        &mut self,
        name: &str,
        context: &ClientContext,
        info: &AlterInfo,
        txn: &Transaction,
    ) -> (r: Result<CatalogEntryId, CatalogError>)
        requires
            old(self).wf(),
            old(self)@.has_room(),
        ensures
            final(self).wf(),
            match old(self)@.change_verdict(name@, *txn) {
                Ok(()) => match old(self)@.entry(old(self)@.head_of(name@)->0).altered(*info) {
                    Some(next) => r matches Ok(id) && old(self)@.pushed(
                        final(self)@,
                        id,
                        name@,
                        next.type_,
                        false,
                        *txn,
                    ),
                    None => r matches Err(e) && e.kind == CatalogErrorKind::UnsupportedAlter
                        && final(self)@ == old(self)@,
                },
                Err(why) => r matches Err(e) && e.kind == why && final(self)@ == old(self)@,
            },
    {
        let key = String::from_str(name);
        let under = self.find(&key);
        let i = match under {
            Some(i) => i,
            None => {
                return Err(
                    CatalogError::of_kind(
                        CatalogErrorKind::NotFound,
                        "Catalog entry with this name does not exist!",
                    ),
                );
            },
        };
        assert(self@.head_ok(i as int));
        let slot = self.slot(self.name_map[i].head);
        let altered = match &self.entries[slot] {
            Some(head) => {
                if !head.is_visible_to(txn) {
                    return Err(
                        CatalogError::of_kind(
                            CatalogErrorKind::Conflict,
                            "Catalog write-write conflict on alter!",
                        ),
                    );
                }
                if head.deleted {
                    return Err(
                        CatalogError::of_kind(
                            CatalogErrorKind::NotFound,
                            "Catalog entry with this name does not exist!",
                        ),
                    );
                }
                head.alter_entry(context, info)
            },
            None => Err(CatalogError::new("Catalog entry is missing!")),
        };
        match altered {
            Ok(next) => Ok(self.push_version(key, next.type_, false, txn, under)),
            Err(e) => Err(e),
        }
    }
}

impl CatalogSetView {
    /// The heads after one position of the name list was given a new head, or
    /// one position was added for a name that had none.
    proof fn lemma_names_after_push(
        self,
        after: CatalogSetView,
        under: Option<usize>,
        name: Seq<char>,
        id: CatalogEntryId,
        n: Seq<char>,
    )
        requires
            self.wf(),
            match under {
                Some(i) => {
                    &&& self.names_at(i as int, name)
                    &&& after.names.len() == self.names.len()
                    &&& after.names[i as int].name@ == name
                    &&& after.names[i as int].head == id
                    &&& forall|j: int|
                        0 <= j < self.names.len() && j != i ==> #[trigger] after.names[j]
                            == self.names[j]
                },
                None => {
                    &&& self.slot_of(name) is None
                    &&& after.names.len() == self.names.len() + 1
                    &&& after.names[self.names.len() as int].name@ == name
                    &&& after.names[self.names.len() as int].head == id
                    &&& forall|j: int|
                        0 <= j < self.names.len() ==> #[trigger] after.names[j] == self.names[j]
                },
            },
        ensures
            after.head_of(n) == if n == name {
                Some(id)
            } else {
                self.head_of(n)
            },
    {
        let at: int = match under {
            Some(i) => i as int,
            None => self.names.len() as int,
        };
        // Names are unique after the change as they were before it.
        assert forall|i: int, j: int|
            after.names_at(i, n) && after.names_at(j, n) implies i == j by {
            if i != j {
                if i != at && j != at {
                    assert(self.names_at(i, n) && self.names_at(j, n));
                    self.lemma_slot_unique(i, n);
                    self.lemma_slot_unique(j, n);
                } else {
                    let k = if i == at { j } else { i };
                    assert(self.names_at(k, name));
                    if under is Some {
                        self.lemma_slot_unique(k, name);
                        self.lemma_slot_unique(at, name);
                    }
                }
            }
        }
        if n == name {
            assert(after.names_at(at, n));
            assert(name_at(after.names, at, n));
            let j = choose|j: int| name_at(after.names, j, n);
            assert(after.names_at(j, n));
            assert(j == at);
        } else {
            if exists|i: int| name_at(self.names, i, n) {
                let i = choose|i: int| name_at(self.names, i, n);
                assert(after.names_at(i, n));
                let j = choose|j: int| name_at(after.names, j, n);
                assert(after.names_at(j, n));
                assert(i == j);
            } else {
                if exists|j: int| name_at(after.names, j, n) {
                    let j = choose|j: int| name_at(after.names, j, n);
                    assert(self.names_at(j, n));
                }
            }
        }
    }
}


/// A version as the commit of transaction `writer` at `timestamp` leaves it:
/// stamped if `writer` wrote it and had not committed it, unchanged otherwise.
pub open spec fn stamped(
    e: BaseCatalogEntry,
    writer: TransactionId,
    timestamp: TransactionId,
) -> BaseCatalogEntry {
    if e.pending_in(writer) {
        BaseCatalogEntry { committed: true, timestamp, ..e }
    } else {
        e
    }
}

impl CatalogSetView {
    /// Whether no version was committed later than `timestamp`, and every
    /// uncommitted version has a writer that started earlier.
    pub open spec fn settled_by(self, timestamp: TransactionId) -> bool {
        forall|s: int|
            0 <= s < self.entries.len() && (#[trigger] self.entries[s]) is Some ==> within(
                self.entries[s]->0,
                timestamp,
            )
    }

    /// The set after transaction `writer` has committed at `timestamp`.
    pub open spec fn committed(self, writer: TransactionId, timestamp: TransactionId) -> CatalogSetView {
        CatalogSetView {
            entries: Seq::new(
                self.entries.len(),
                |s: int|
                    match self.entries[s] {
                        Some(e) => Some(stamped(e, writer, timestamp)),
                        None => None,
                    },
            ),
            ..self
        }
    }

    /// Two sets in which the chain below `id` has the same versions, with
    /// the same links and the same visibility to `txn`, show `txn` the same
    /// version.
    pub proof fn lemma_visible_at_agrees(
        self,
        other: CatalogSetView,
        id: CatalogEntryId,
        txn: Transaction,
    )
        requires
            forall|i: CatalogEntryId|
                i <= id ==> (#[trigger] self.contains(i)) == other.contains(i),
            forall|i: CatalogEntryId|
                i <= id && #[trigger] self.contains(i) ==> {
                    &&& self.entry(i).visible_to(txn) == other.entry(i).visible_to(txn)
                    &&& self.entry(i).child == other.entry(i).child
                },
        ensures
            self.visible_at(id, txn) == other.visible_at(id, txn),
    {
        self.lemma_first_at_agrees(other, id, ChainTest::VisibleTo(txn));
    }

    /// Isolation: what a transaction observes is never the uncommitted work
    /// of another transaction.
    pub proof fn lemma_isolation(self, name: Seq<char>, writer: Transaction, reader: Transaction)
        requires
            writer.transaction_id != reader.transaction_id,
        ensures
            self.visible_version(name, reader) matches Some(v) ==> self.contains(v)
                && !self.entry(v).pending_in(writer.transaction_id),
            self.lookup(name, reader) matches Some(v) ==> self.contains(v) && !self.entry(
                v,
            ).pending_in(writer.transaction_id),
    {
        if let Some(head) = self.head_of(name) {
            self.lemma_visible_at_contained(head, reader);
        }
    }

    /// Isolation, as a writer proceeds: a version that one transaction puts
    /// on a chain changes nothing of what any other transaction finds, under
    /// that name or another, and nothing of what the writer itself finds
    /// under another name.
    pub proof fn lemma_push_unobserved(
        self,
        after: CatalogSetView,
        id: CatalogEntryId,
        name: Seq<char>,
        kind: CatalogType,
        deleted: bool,
        writer: Transaction,
        n: Seq<char>,
        reader: Transaction,
    )
        requires
            self.wf(),
            self.pushed(after, id, name, kind, deleted, writer),
            reader.transaction_id != writer.transaction_id || n != name,
        ensures
            after.visible_version(n, reader) == self.visible_version(n, reader),
            after.lookup(n, reader) == self.lookup(n, reader),
    {
        assert(after.head_of(n) == if n == name {
            Some(id)
        } else {
            self.head_of(n)
        });
        match self.head_of(n) {
            Some(head) => {
                let i = self.slot_of(n)->0;
                assert(self.head_ok(i));
                assert(head < id);
                assert forall|k: CatalogEntryId| k <= head implies (#[trigger] self.contains(k))
                    == after.contains(k) by {
                    assert(after.contains(k) == self.contains(k));
                }
                assert forall|k: CatalogEntryId| k <= head && #[trigger] self.contains(k) implies {
                    &&& self.entry(k).visible_to(reader) == after.entry(k).visible_to(reader)
                    &&& self.entry(k).child == after.entry(k).child
                } by {}
                self.lemma_visible_at_agrees(after, head, reader);
                self.lemma_visible_at_contained(head, reader);
                if n == name {
                    assert(!after.entry(id).visible_to(reader));
                    assert(after.entry(id).child == Some(head));
                }
            },
            None => {
                if n == name {
                    assert(!after.entry(id).visible_to(reader));
                    assert(after.entry(id).child is None);
                }
            },
        }
    }

    /// What the writer itself finds after it has put a version on a chain:
    /// that version, or nothing if the version is a deletion marker.
    pub proof fn lemma_push_observed(
        self,
        after: CatalogSetView,
        id: CatalogEntryId,
        name: Seq<char>,
        kind: CatalogType,
        deleted: bool,
        writer: Transaction,
    )
        requires
            self.pushed(after, id, name, kind, deleted, writer),
        ensures
            after.visible_version(name, writer) == Some(id),
            after.lookup(name, writer) == if deleted {
                None
            } else {
                Some(id)
            },
    {
        assert(after.head_of(name) == Some(id));
    }

    /// Commit keeps the names and turns each version into its stamped form.
    pub proof fn lemma_committed_entries(self, writer: TransactionId, timestamp: TransactionId)
        ensures
            forall|n: Seq<char>| #[trigger]
                self.committed(writer, timestamp).head_of(n) == self.head_of(n),
            forall|id: CatalogEntryId| #[trigger]
                self.committed(writer, timestamp).contains(id) == self.contains(id),
            forall|id: CatalogEntryId| #[trigger]
                self.contains(id) ==> self.committed(writer, timestamp).entry(id) == stamped(
                    self.entry(id),
                    writer,
                    timestamp,
                ),
    {
        let after = self.committed(writer, timestamp);
        assert(after.names == self.names);
    }

    /// Commit keeps the invariant, given a timestamp that is not older than
    /// any commit before it and is newer than the start of every writer.
    pub proof fn lemma_committed_wf(self, writer: TransactionId, timestamp: TransactionId)
        requires
            self.wf(),
            self.settled_by(timestamp),
        ensures
            self.committed(writer, timestamp).wf(),
            self.committed(writer, timestamp).settled_by(timestamp),
    {
        let after = self.committed(writer, timestamp);
        self.lemma_committed_entries(writer, timestamp);
        assert forall|i: int| 0 <= i < after.names.len() implies #[trigger] after.head_ok(i) by {
            assert(self.head_ok(i));
            assert(after.contains(self.names[i].head));
        }
        assert forall|s: int|
            0 <= s < after.entries.len() && (#[trigger] after.entries[s]) is Some implies after.entry_ok(
            s,
        ) by {
            assert(self.entries[s] is Some);
            assert(self.entry_ok(s));
            let e = self.entries[s]->0;
            if let Some(c) = e.child {
                assert(self.link_ok(e, c));
                assert(after.contains(c));
                assert(self.entries[c - self.id_base] is Some);
            }
        }
        assert forall|s: int|
            0 <= s < after.entries.len() && (#[trigger] after.entries[s]) is Some implies within(
            after.entries[s]->0,
            timestamp,
        ) by {
            assert(self.entries[s] is Some);
        }
        assert forall|s: int|
            0 <= s < after.entries.len() && after.entries[s] is Some implies #[trigger] after.rooted(
            s,
        ) by {
            assert(self.entries[s] is Some);
            assert(self.rooted(s));
            let e = self.entries[s]->0;
            if let Some(p) = e.parent {
                assert(after.contains(p));
                assert(self.entries[p - self.id_base] is Some);
            } else {
                assert(after.head_of(e.name@) == self.head_of(e.name@));
            }
        }
    }

    /// Snapshot consistency: when a transaction commits at `timestamp`, a
    /// transaction that started earlier finds what it found before, and one
    /// that started at `timestamp` or later finds, under each name whose
    /// newest version the committing transaction wrote, that newest version.
    pub proof fn lemma_commit_visibility(
        self,
        writer: TransactionId,
        timestamp: TransactionId,
        name: Seq<char>,
        reader: Transaction,
    )
        requires
            self.wf(),
            reader.transaction_id != writer,
        ensures
            reader.start_timestamp < timestamp ==> self.committed(writer, timestamp).lookup(
                name,
                reader,
            ) == self.lookup(name, reader),
            reader.start_timestamp >= timestamp ==> match self.head_of(name) {
                Some(head) => self.entry(head).pending_in(writer) ==> {
                    &&& self.committed(writer, timestamp).visible_version(name, reader) == Some(
                        head,
                    )
                    &&& self.committed(writer, timestamp).entry(head) == stamped(
                        self.entry(head),
                        writer,
                        timestamp,
                    )
                },
                None => true,
            },
    {
        let after = self.committed(writer, timestamp);
        self.lemma_committed_entries(writer, timestamp);
        if let Some(head) = self.head_of(name) {
            let i = self.slot_of(name)->0;
            assert(self.head_ok(i));
            assert(after.head_of(name) == Some(head));
            assert(after.contains(head));
            if reader.start_timestamp < timestamp {
                assert forall|k: CatalogEntryId| k <= head implies (#[trigger] self.contains(k))
                    == after.contains(k) by {
                    assert(after.contains(k) == self.contains(k));
                }
                assert forall|k: CatalogEntryId| k <= head && #[trigger] self.contains(k) implies {
                    &&& self.entry(k).visible_to(reader) == after.entry(k).visible_to(reader)
                    &&& self.entry(k).child == after.entry(k).child
                } by {}
                self.lemma_visible_at_agrees(after, head, reader);
                self.lemma_visible_at_contained(head, reader);
            }
        } else {
            assert(after.head_of(name) is None);
        }
    }
}

impl CatalogSet {
    /// Commits the work of `transaction_id` at `commit_timestamp`: every
    /// version that the transaction wrote becomes a committed version with
    /// that timestamp, visible to the transactions that start from then on.
    pub fn commit(&mut self, transaction_id: TransactionId, commit_timestamp: TransactionId)
        requires
            old(self).wf(),
            old(self)@.settled_by(commit_timestamp),
        ensures
            final(self).wf(),
            final(self)@ == old(self)@.committed(transaction_id, commit_timestamp),
            final(self)@.settled_by(commit_timestamp),
    {
        let ghost before = self@;
        let mut i: usize = 0;
        while i < self.entries.len()
            invariant
                i <= self.entries@.len(),
                self.entries@.len() == before.entries.len(),
                self.id_base == before.id_base,
                self.id_limit == before.id_limit,
                self.name_map@ == before.names,
                forall|s: int|
                    0 <= s < i ==> #[trigger] self.entries@[s] == before.committed(
                        transaction_id,
                        commit_timestamp,
                    ).entries[s],
                forall|s: int|
                    i <= s < self.entries@.len() ==> #[trigger] self.entries@[s]
                        == before.entries[s],
            decreases self.entries@.len() - i,
        {
            match &mut self.entries[i] {
                Some(e) => {
                    if e.is_pending_in(transaction_id) {
                        e.committed = true;
                        e.timestamp = commit_timestamp;
                    }
                },
                None => {},
            }
            i += 1;
        }
        proof {
            let target = before.committed(transaction_id, commit_timestamp);
            assert(self@.entries =~= target.entries);
            assert(self@ == target);
            before.lemma_committed_wf(transaction_id, commit_timestamp);
        }
    }
}


/// Whether two versions differ at most in the link to the next newer version.
pub open spec fn same_but_parent(a: BaseCatalogEntry, b: BaseCatalogEntry) -> bool {
    a == (BaseCatalogEntry { parent: a.parent, ..b })
}

impl CatalogSetView {
    /// The newest version of `name` that is not the uncommitted work of
    /// `writer`.
    pub open spec fn settled_head(self, name: Seq<char>, writer: TransactionId) -> Option<
        CatalogEntryId,
    > {
        match self.head_of(name) {
            Some(head) => self.first_at(head, ChainTest::NotPendingIn(writer)),
            None => None,
        }
    }

    /// Whether `after` is this set without the uncommitted work of `writer`:
    /// those versions are gone, every other version is what it was but for
    /// its link upwards, and each name begins at its newest version that is
    /// left, or is gone if none is left.
    pub open spec fn rolled_back(self, after: CatalogSetView, writer: TransactionId) -> bool {
        &&& after.id_base == self.id_base
        &&& after.id_limit == self.id_limit
        &&& after.entries.len() == self.entries.len()
        &&& forall|id: CatalogEntryId| #[trigger]
            after.contains(id) == (self.contains(id) && !self.entry(id).pending_in(writer))
        &&& forall|id: CatalogEntryId| #[trigger]
            after.contains(id) ==> same_but_parent(after.entry(id), self.entry(id))
        &&& forall|n: Seq<char>| #[trigger] after.head_of(n) == self.settled_head(n, writer)
    }

    /// Whether `e` points up at uncommitted work of `writer`.
    pub open spec fn below_pending(self, e: BaseCatalogEntry, writer: TransactionId) -> bool {
        &&& e.parent is Some
        &&& self.contains(e.parent->0)
        &&& self.entry(e.parent->0).pending_in(writer)
    }

    /// Whether this set is `before` in which some versions have lost their
    /// link upwards, each of them a version below uncommitted work of
    /// `writer`.
    pub open spec fn unlinked_from(self, before: CatalogSetView, writer: TransactionId) -> bool {
        &&& self.id_base == before.id_base
        &&& self.id_limit == before.id_limit
        &&& self.entries.len() == before.entries.len()
        &&& forall|s: int|
            0 <= s < self.entries.len() ==> ((#[trigger] self.entries[s]) is Some)
                == (before.entries[s] is Some)
        &&& forall|s: int|
            0 <= s < self.entries.len() && (#[trigger] self.entries[s]) is Some ==> {
                let now = self.entries[s]->0;
                let was = before.entries[s]->0;
                &&& same_but_parent(now, was)
                &&& now.parent == was.parent || (now.parent is None && before.below_pending(
                    was,
                    writer,
                ))
            }
    }

    /// Along a chain of a well-formed set the name stays the same.
    pub proof fn lemma_first_at_same_name(self, id: CatalogEntryId, test: ChainTest)
        requires
            self.wf(),
        ensures
            self.first_at(id, test) matches Some(v) ==> self.entry(v).name@ == self.entry(id).name@,
        decreases id,
    {
        if self.contains(id) && !test.admits(self.entry(id)) {
            if let Some(child) = self.entry(id).child {
                assert(self.entry_ok(id - self.id_base));
                if child < id {
                    self.lemma_first_at_same_name(child, test);
                }
            }
        }
    }

    /// Uncommitted work of `writer` stands at the top of its chain: a walk
    /// from the head of the name comes to it past nothing but such work.
    pub proof fn lemma_pending_on_top(self, x: CatalogEntryId, writer: TransactionId)
        requires
            self.wf(),
            self.contains(x),
            self.entry(x).pending_in(writer),
        ensures
            self.head_of(self.entry(x).name@) is Some,
            self.first_at(self.head_of(self.entry(x).name@)->0, ChainTest::NotPendingIn(writer))
                == self.first_at(x, ChainTest::NotPendingIn(writer)),
        decreases self.id_limit - x,
    {
        let s = x - self.id_base;
        assert(self.entries[s] is Some);
        assert(self.rooted(s));
        assert(self.entry_ok(s));
        let e = self.entry(x);
        if let Some(p) = e.parent {
            let t = p - self.id_base;
            assert(self.entries[t] is Some);
            assert(self.entry_ok(t));
            assert(self.link_ok(self.entry(p), x));
            self.lemma_pending_on_top(p, writer);
        }
    }

    /// Below the uncommitted work of `writer`, the first version that is not
    /// such work points up at such work.
    pub proof fn lemma_settled_below_pending(self, id: CatalogEntryId, writer: TransactionId)
        requires
            self.wf(),
        ensures
            self.first_at(id, ChainTest::NotPendingIn(writer)) matches Some(v) ==> v == id
                || self.below_pending(self.entry(v), writer),
        decreases id,
    {
        let test = ChainTest::NotPendingIn(writer);
        if self.contains(id) && !test.admits(self.entry(id)) {
            if let Some(child) = self.entry(id).child {
                assert(self.entry_ok(id - self.id_base));
                if child < id {
                    self.lemma_settled_below_pending(child, writer);
                }
            }
        }
    }
}

impl CatalogSet {
    /// Undoes the uncommitted work of `transaction_id`: its versions leave
    /// their chains and are reclaimed, and a name whose every version was
    /// such work leaves the set. Returns the identifiers of the versions that
    /// are gone.
    pub fn rollback(&mut self, transaction_id: TransactionId) -> (freed: Vec<CatalogEntryId>)
        requires
            old(self).wf(),
        ensures
            final(self).wf(),
            old(self)@.rolled_back(final(self)@, transaction_id),
            forall|id: CatalogEntryId| #[trigger]
                freed@.contains(id) <==> old(self)@.contains(id) && !final(self)@.contains(id),
    {
        let ghost before = self@;
        let test = ChainTest::NotPendingIn(transaction_id);
        let mut kept: Vec<NameSlot> = Vec::new();
        let ghost mut origin: Seq<int> = Seq::empty();
        let count: usize = self.name_map.len();
        let mut j: usize = 0;
        while j < count
            invariant
                before.wf(),
                test == ChainTest::NotPendingIn(transaction_id),
                j <= count,
                count == before.names.len(),
                self.name_map@ == before.names,
                self@.unlinked_from(before, transaction_id),
                origin.len() == kept@.len(),
                forall|a: int|
                    0 <= a < kept@.len() ==> {
                        &&& 0 <= #[trigger] origin[a] < j
                        &&& kept@[a].name@ == before.names[origin[a]].name@
                        &&& before.first_at(before.names[origin[a]].head, test) == Some(
                            kept@[a].head,
                        )
                        &&& self@.contains(kept@[a].head)
                        &&& self@.entry(kept@[a].head).parent is None
                    },
                forall|a: int, b: int|
                    0 <= a < b < kept@.len() ==> #[trigger] origin[a] < #[trigger] origin[b],
                forall|i: int|
                    0 <= i < j && before.first_at(#[trigger] before.names[i].head, test) is Some
                        ==> exists|a: int| 0 <= a < kept@.len() && origin[a] == i,
            decreases count - j,
        {
            let head = self.name_map[j].head;
            let ghost mid = self@;
            proof {
                assert(before.head_ok(j as int));
                before.lemma_wf_descending();
                assert(mid.descending()) by {
                    assert forall|s: int|
                        0 <= s < mid.entries.len() && (#[trigger] mid.entries[s]) is Some implies {
                        let e = mid.entries[s]->0;
                        &&& e.id == mid.id_base + s
                        &&& e.child matches Some(child) ==> child < e.id && mid.contains(child)
                    } by {
                        assert(before.entries[s] is Some);
                    }
                }
                assert(mid.contains(head));
                before.lemma_first_at_agrees(mid, head, test);
                before.lemma_first_at_contained(head, test);
                before.lemma_settled_below_pending(head, transaction_id);
            }
            match self.first_where(head, &test) {
                Some(settled) => {
                    let slot = self.slot(settled);
                    match &mut self.entries[slot] {
                        Some(e) => {
                            e.parent = None;
                        },
                        None => {},
                    }
                    let name = self.name_map[j].name.clone();
                    kept.push(NameSlot { name, head: settled });
                    proof {
                        let ghost_j: int = j as int;
                        let prior = origin;
                        origin = origin.push(ghost_j);
                        assert(before.head_ok(ghost_j));
                        assert forall|i: int|
                            0 <= i < j + 1 && before.first_at(
                                #[trigger] before.names[i].head,
                                test,
                            ) is Some implies exists|a: int|
                            0 <= a < kept@.len() && origin[a] == i by {
                            if i < j {
                                let a = choose|a: int| 0 <= a < prior.len() && prior[a] == i;
                                assert(origin[a] == i);
                            } else {
                                assert(origin[kept@.len() - 1] == i);
                            }
                        }
                    }
                },
                None => {},
            }
            j += 1;
        }
        let ghost mid = self@;
        self.name_map = kept;
        let mut freed: Vec<CatalogEntryId> = Vec::new();
        let mut s: usize = 0;
        while s < self.entries.len()
            invariant
                s <= self.entries@.len(),
                self.entries@.len() == mid.entries.len(),
                self.id_base == mid.id_base,
                self.id_limit == mid.id_limit,
                self.name_map@ == kept@,
                mid.id_base + mid.entries.len() <= u64::MAX,
                forall|id: CatalogEntryId| #[trigger]
                    freed@.contains(id) <==> mid.contains(id) && id - mid.id_base < s
                        && mid.entry(id).pending_in(transaction_id),
                forall|t: int|
                    0 <= t < s ==> #[trigger] self.entries@[t] == if mid.entries[t] is Some
                        && mid.entries[t]->0.pending_in(transaction_id) {
                        None
                    } else {
                        mid.entries[t]
                    },
                forall|t: int|
                    s <= t < self.entries@.len() ==> #[trigger] self.entries@[t] == mid.entries[t],
            decreases self.entries@.len() - s,
        {
            let pending = match &self.entries[s] {
                Some(e) => e.is_pending_in(transaction_id),
                None => false,
            };
            if pending {
                self.entries[s] = None;
                let id: CatalogEntryId = self.id_base + s as u64;
                proof {
                    lemma_push_contains(freed@, id);
                }
                freed.push(id);
            }
            s += 1;
        }
        proof {
            before.lemma_rolled_back(mid, self@, transaction_id, origin);
            assert forall|id: CatalogEntryId| #[trigger]
                freed@.contains(id) <==> before.contains(id) && !self@.contains(id) by {
                if before.id_base <= id && id - before.id_base < before.entries.len() {
                    let t = id - before.id_base;
                    assert(mid.entries[t] is Some == before.entries[t] is Some);
                    if mid.entries[t] is Some {
                        assert(same_but_parent(mid.entries[t]->0, before.entries[t]->0));
                    }
                }
            }
        }
        freed
    }
}

impl CatalogSetView {
    /// What rollback leaves is well formed and is the set without the
    /// uncommitted work of `writer`.
    proof fn lemma_rolled_back(
        self,
        mid: CatalogSetView,
        after: CatalogSetView,
        writer: TransactionId,
        origin: Seq<int>,
    )
        requires
            self.wf(),
            mid.unlinked_from(self, writer),
            after.id_base == self.id_base,
            after.id_limit == self.id_limit,
            after.entries.len() == self.entries.len(),
            forall|t: int|
                0 <= t < after.entries.len() ==> #[trigger] after.entries[t] == if mid.entries[t] is Some
                    && mid.entries[t]->0.pending_in(writer) {
                    None
                } else {
                    mid.entries[t]
                },
            origin.len() == after.names.len(),
            forall|a: int|
                0 <= a < after.names.len() ==> {
                    &&& 0 <= #[trigger] origin[a] < self.names.len()
                    &&& after.names[a].name@ == self.names[origin[a]].name@
                    &&& self.first_at(self.names[origin[a]].head, ChainTest::NotPendingIn(writer))
                        == Some(after.names[a].head)
                    &&& mid.contains(after.names[a].head)
                    &&& mid.entry(after.names[a].head).parent is None
                },
            forall|a: int, b: int|
                0 <= a < b < after.names.len() ==> #[trigger] origin[a] < #[trigger] origin[b],
            forall|i: int|
                0 <= i < self.names.len() && self.first_at(
                    #[trigger] self.names[i].head,
                    ChainTest::NotPendingIn(writer),
                ) is Some ==> exists|a: int| 0 <= a < after.names.len() && origin[a] == i,
        ensures
            after.wf(),
            self.rolled_back(after, writer),
    {
        let test = ChainTest::NotPendingIn(writer);
        // Which versions are left, and what they hold.
        assert forall|id: CatalogEntryId| #[trigger]
            after.contains(id) == (self.contains(id) && !self.entry(id).pending_in(writer)) by {
            if self.id_base <= id && id - self.id_base < self.entries.len() {
                let t = id - self.id_base;
                assert(after.entries[t] == if mid.entries[t] is Some && mid.entries[t]->0.pending_in(
                    writer,
                ) {
                    None
                } else {
                    mid.entries[t]
                });
            }
        }
        assert forall|id: CatalogEntryId| #[trigger] after.contains(id) implies same_but_parent(
            after.entry(id),
            self.entry(id),
        ) && after.entry(id) == mid.entry(id) by {
            let t = id - self.id_base;
            assert(after.entries[t] == mid.entries[t]);
        }
        // The names stand once each.
        assert forall|a: int, b: int| 0 <= a < b < after.names.len() implies (
        #[trigger] after.names[a]).name@ != (#[trigger] after.names[b]).name@ by {
            assert(origin[a] < origin[b]);
            assert(self.names[origin[a]].name@ != self.names[origin[b]].name@);
        }
        // Each head is a version that is left, of the right name, with
        // nothing above it.
        assert forall|a: int| 0 <= a < after.names.len() implies #[trigger] after.head_ok(a) by {
            let i = origin[a];
            let head = after.names[a].head;
            assert(self.head_ok(i));
            self.lemma_first_at_contained(self.names[i].head, test);
            self.lemma_first_at_same_name(self.names[i].head, test);
            assert(after.contains(head));
        }
        // Each link that is left leads to a version that is left.
        assert forall|s: int|
            0 <= s < after.entries.len() && (#[trigger] after.entries[s]) is Some implies after.entry_ok(
            s,
        ) by {
            assert(mid.entries[s] is Some);
            assert(self.entries[s] is Some);
            assert(self.entry_ok(s));
            let e = self.entries[s]->0;
            if let Some(c) = e.child {
                assert(self.link_ok(e, c));
                let t = c - self.id_base;
                assert(self.entries[t] is Some);
                assert(mid.entries[t] is Some);
                assert(!self.entry(c).pending_in(writer));
                assert(after.contains(c));
                assert(after.entry(c) == mid.entry(c));
            }
        }
        // Each name begins at its newest version that is left.
        assert(after.names_unique());
        assert forall|n: Seq<char>| #[trigger] after.head_of(n) == self.settled_head(n, writer) by {
            if exists|a: int| name_at(after.names, a, n) {
                let a = choose|a: int| name_at(after.names, a, n);
                after.lemma_slot_unique(a, n);
                assert(self.names_at(origin[a], n));
                self.lemma_slot_unique(origin[a], n);
            } else {
                if exists|i: int| name_at(self.names, i, n) {
                    let i = choose|i: int| name_at(self.names, i, n);
                    self.lemma_slot_unique(i, n);
                    if self.first_at(self.names[i].head, test) is Some {
                        let a = choose|a: int| 0 <= a < after.names.len() && origin[a] == i;
                        assert(name_at(after.names, a, n));
                    }
                }
            }
        }
        // No version is left outside the chains.
        assert forall|s: int|
            0 <= s < after.entries.len() && after.entries[s] is Some implies #[trigger] after.rooted(
            s,
        ) by {
            assert(mid.entries[s] is Some);
            assert(self.entries[s] is Some);
            assert(self.rooted(s));
            assert(self.entry_ok(s));
            let was = self.entries[s]->0;
            let now = after.entries[s]->0;
            assert(now == mid.entries[s]->0);
            let n = was.name@;
            assert(after.head_of(n) == self.settled_head(n, writer));
            assert(self.contains(was.id));
            if self.below_pending(was, writer) {
                // The version stands right below such work: it is the newest
                // version that is left, and has lost its link upwards.
                let p = was.parent->0;
                assert(self.entry_ok(p - self.id_base));
                assert(self.link_ok(self.entry(p), was.id));
                self.lemma_pending_on_top(p, writer);
                assert(self.first_at(p, test) == Some(was.id));
                let i = self.slot_of(n)->0;
                assert(name_at(self.names, i, n));
                assert(self.first_at(self.names[i].head, test) is Some);
                let a = choose|a: int| 0 <= a < after.names.len() && origin[a] == i;
                assert(after.names[a].head == was.id);
                assert(mid.entry(was.id).parent is None);
            } else {
                match was.parent {
                    Some(p) => {
                        assert(after.contains(p));
                        assert(after.entry(p) == mid.entry(p));
                        assert(mid.entries[p - self.id_base] is Some);
                    },
                    None => {
                        assert(self.first_at(was.id, test) == Some(was.id));
                    },
                }
            }
        }
        assert(after.wf());
    }

    /// Rollback changes nothing of what any other transaction finds.
    pub proof fn lemma_rollback_unobserved(
        self,
        after: CatalogSetView,
        writer: TransactionId,
        name: Seq<char>,
        reader: Transaction,
    )
        requires
            self.wf(),
            self.rolled_back(after, writer),
            reader.transaction_id != writer,
        ensures
            after.visible_version(name, reader) == self.visible_version(name, reader),
            after.lookup(name, reader) == self.lookup(name, reader),
    {
        assert(after.head_of(name) == self.settled_head(name, writer));
        if let Some(head) = self.head_of(name) {
            self.lemma_walk_past_pending(after, writer, head, reader);
            self.lemma_visible_at_contained(head, reader);
            if let Some(v) = self.visible_at(head, reader) {
                assert(after.contains(v));
                assert(same_but_parent(after.entry(v), self.entry(v)));
            }
        }
    }

    /// A reader that is not `writer` walks past the uncommitted work of
    /// `writer` and then finds, in the set without that work, what it found
    /// with it.
    proof fn lemma_walk_past_pending(
        self,
        after: CatalogSetView,
        writer: TransactionId,
        id: CatalogEntryId,
        reader: Transaction,
    )
        requires
            self.wf(),
            self.rolled_back(after, writer),
            reader.transaction_id != writer,
        ensures
            self.visible_at(id, reader) == match self.first_at(
                id,
                ChainTest::NotPendingIn(writer),
            ) {
                Some(settled) => after.visible_at(settled, reader),
                None => None,
            },
        decreases id,
    {
        if self.contains(id) {
            assert(self.entry_ok(id - self.id_base));
            if self.entry(id).pending_in(writer) {
                if let Some(child) = self.entry(id).child {
                    self.lemma_walk_past_pending(after, writer, child, reader);
                }
            } else {
                assert(after.contains(id));
                assert(same_but_parent(after.entry(id), self.entry(id)));
                if !self.entry(id).visible_to(reader) {
                    if let Some(child) = self.entry(id).child {
                        assert(self.link_ok(self.entry(id), child));
                        assert(!self.entry(child).pending_in(writer));
                        self.lemma_walk_past_pending(after, writer, child, reader);
                    }
                }
            }
        }
    }
}


/// Whether two versions differ at most in the link to the next older version.
pub open spec fn same_but_child(a: BaseCatalogEntry, b: BaseCatalogEntry) -> bool {
    a == (BaseCatalogEntry { child: a.child, ..b })
}

/// Whether `e` was committed at `horizon` or before it, so that every
/// transaction that starts at `horizon` or later may observe it.
pub open spec fn settled(e: BaseCatalogEntry, horizon: TransactionId) -> bool {
    e.committed && e.timestamp <= horizon
}

impl CatalogSetView {
    /// The newest version of `name` that every transaction from `horizon` on
    /// may observe. No such transaction ever looks below it.
    pub open spec fn anchor_of(self, name: Seq<char>, horizon: TransactionId) -> Option<
        CatalogEntryId,
    > {
        match self.head_of(name) {
            Some(head) => self.first_at(head, ChainTest::SettledBy(horizon)),
            None => None,
        }
    }

    /// Whether `name` is dropped for every transaction from `horizon` on: its
    /// newest version is a deletion marker that all of them may observe.
    pub open spec fn swept(self, name: Seq<char>, horizon: TransactionId) -> bool {
        &&& self.head_of(name) is Some
        &&& settled(self.entry(self.head_of(name)->0), horizon)
        &&& self.entry(self.head_of(name)->0).deleted
    }

    /// Whether this set is `before` with some versions reclaimed and some
    /// links downwards cut: only versions settled by `horizon` are gone, only
    /// such versions have lost their link, and no link that is left leads to
    /// a version that is gone or to `loose`.
    pub open spec fn pruned_from(
        self,
        before: CatalogSetView,
        horizon: TransactionId,
        loose: Option<CatalogEntryId>,
    ) -> bool {
        &&& self.id_base == before.id_base
        &&& self.id_limit == before.id_limit
        &&& self.entries.len() == before.entries.len()
        &&& forall|s: int|
            0 <= s < self.entries.len() && (#[trigger] self.entries[s]) is Some ==> {
                let now = self.entries[s]->0;
                let was = before.entries[s]->0;
                &&& before.entries[s] is Some
                &&& same_but_child(now, was)
                &&& now.child == was.child || (now.child is None && settled(was, horizon))
                &&& now.child matches Some(c) ==> self.contains(c) && loose != Some(c)
                &&& now.parent is Some ==> self.held(now) || loose == Some(now.id)
            }
        &&& forall|s: int|
            0 <= s < self.entries.len() && (#[trigger] before.entries[s]) is Some
                && self.entries[s] is None ==> settled(before.entries[s]->0, horizon)
    }

    /// Whether the version above `e` exists and links down to `e`.
    pub open spec fn held(self, e: BaseCatalogEntry) -> bool {
        &&& e.parent is Some
        &&& self.contains(e.parent->0)
        &&& self.entry(e.parent->0).child == Some(e.id)
    }

    /// Whether `after` is this set after the versions that no transaction
    /// from `horizon` on can observe have been reclaimed.
    pub open spec fn collected(self, after: CatalogSetView, horizon: TransactionId) -> bool {
        &&& after.pruned_from(self, horizon, None)
        &&& forall|n: Seq<char>| #[trigger]
            after.head_of(n) == if self.swept(n, horizon) {
                None
            } else {
                self.head_of(n)
            }
        &&& forall|n: Seq<char>|
            (#[trigger] after.anchor_of(n, horizon)) matches Some(a) ==> after.entry(a).child is None
    }

    /// A walk for a version that every transaction from `horizon` on may
    /// observe, or for one that such a transaction may observe, finds in a
    /// pruned set what it found before.
    pub proof fn lemma_pruned_first_at(
        self,
        before: CatalogSetView,
        horizon: TransactionId,
        loose: Option<CatalogEntryId>,
        id: CatalogEntryId,
        test: ChainTest,
    )
        requires
            before.wf(),
            self.pruned_from(before, horizon, loose),
            self.contains(id),
            match test {
                ChainTest::SettledBy(h) => h == horizon,
                ChainTest::VisibleTo(txn) => txn.start_timestamp >= horizon,
                ChainTest::NotPendingIn(_) => false,
            },
        ensures
            self.first_at(id, test) == before.first_at(id, test),
        decreases id,
    {
        let s = id - self.id_base;
        assert(self.entries[s] is Some);
        assert(before.entry_ok(s));
        let now = self.entries[s]->0;
        let was = before.entries[s]->0;
        assert(test.admits(now) == test.admits(was));
        assert(settled(was, horizon) ==> test.admits(was));
        if !test.admits(now) {
            if let Some(child) = now.child {
                assert(before.link_ok(was, child));
                self.lemma_pruned_first_at(before, horizon, loose, child, test);
            }
        }
    }

    /// A pruned set keeps every link that it has in order.
    pub proof fn lemma_pruned_links(self, before: CatalogSetView, horizon: TransactionId)
        requires
            before.wf(),
            self.pruned_from(before, horizon, None),
        ensures
            forall|s: int|
                0 <= s < self.entries.len() && (#[trigger] self.entries[s]) is Some ==> self.entry_ok(
                    s,
                ),
            self.descending(),
    {
        assert forall|s: int|
            0 <= s < self.entries.len() && (#[trigger] self.entries[s]) is Some implies self.entry_ok(
            s,
        ) by {
            assert(before.entry_ok(s));
            let now = self.entries[s]->0;
            if let Some(c) = now.child {
                assert(before.link_ok(before.entries[s]->0, c));
                assert(self.entries[c - self.id_base] is Some);
            }
        }
        assert forall|s: int|
            0 <= s < self.entries.len() && (#[trigger] self.entries[s]) is Some implies {
            let e = self.entries[s]->0;
            &&& e.id == self.id_base + s
            &&& e.child matches Some(child) ==> child < e.id && self.contains(child)
        } by {
            assert(self.entry_ok(s));
        }
    }

    /// Reclaiming changes nothing of what a transaction from `horizon` on
    /// finds.
    pub proof fn lemma_collect_unobserved(
        self,
        after: CatalogSetView,
        horizon: TransactionId,
        name: Seq<char>,
        reader: Transaction,
    )
        requires
            self.wf(),
            after.wf(),
            self.collected(after, horizon),
            reader.start_timestamp >= horizon,
        ensures
            after.lookup(name, reader) == self.lookup(name, reader),
    {
        assert(after.head_of(name) == if self.swept(name, horizon) {
            None
        } else {
            self.head_of(name)
        });
        if let Some(head) = self.head_of(name) {
            let i = self.slot_of(name)->0;
            assert(self.head_ok(i));
            if self.swept(name, horizon) {
                assert(self.visible_at(head, reader) == Some(head));
            } else {
                assert(after.head_ok(after.slot_of(name)->0));
                after.lemma_pruned_first_at(self, horizon, None, head, ChainTest::VisibleTo(reader));
                after.lemma_first_at_contained(head, ChainTest::VisibleTo(reader));
                if let Some(v) = after.visible_at(head, reader) {
                    assert(after.entries[v - after.id_base] is Some);
                }
            }
        }
    }
}


/// A sequence with one more item holds what it held, and that item.
proof fn lemma_push_contains(items: Seq<CatalogEntryId>, item: CatalogEntryId)
    ensures
        forall|id: CatalogEntryId| #[trigger]
            items.push(item).contains(id) <==> items.contains(id) || id == item,
{
    assert forall|id: CatalogEntryId| #[trigger]
        items.push(item).contains(id) <==> items.contains(id) || id == item by {
        if items.contains(id) {
            let i = choose|i: int| 0 <= i < items.len() && items[i] == id;
            assert(items.push(item)[i] == id);
        }
        if id == item {
            assert(items.push(item)[items.len() as int] == id);
        }
        if items.push(item).contains(id) {
            let i = choose|i: int| 0 <= i < items.push(item).len() && items.push(item)[i] == id;
            if i < items.len() {
                assert(items[i] == id);
            }
        }
    }
}

impl CatalogSet {
    /// Reclaims the chain that `start` begins, a chain that no link leads to
    /// any more, and records the identifiers of its versions.
    fn free_chain(
        &mut self,
        start: Option<CatalogEntryId>,
        freed: &mut Vec<CatalogEntryId>,
        Ghost(before): Ghost<CatalogSetView>,
        Ghost(horizon): Ghost<TransactionId>,
    )
        requires
            before.wf(),
            old(self)@.pruned_from(before, horizon, start),
            old(self)@.names == before.names,
            start matches Some(x) ==> old(self)@.contains(x) && settled(before.entry(x), horizon),
            forall|id: CatalogEntryId| #[trigger]
                old(freed)@.contains(id) <==> before.contains(id) && !old(self)@.contains(id),
        ensures
            final(self)@.pruned_from(before, horizon, None),
            final(self)@.names == before.names,
            forall|id: CatalogEntryId| #[trigger]
                final(freed)@.contains(id) <==> before.contains(id) && !final(self)@.contains(id),
            forall|id: CatalogEntryId|
                old(self)@.contains(id) && !(#[trigger] final(self)@.contains(id)) ==> Some(id)
                    == start || before.entry(id).parent is Some,
            forall|id: CatalogEntryId| #[trigger]
                final(self)@.contains(id) ==> old(self)@.contains(id) && final(self)@.entry(id)
                    == old(self)@.entry(id),
            start matches Some(x) ==> !final(self)@.contains(x),
    {
        let mut current = start;
        loop
            invariant
                before.wf(),
                self@.pruned_from(before, horizon, current),
                self@.names == before.names,
                current matches Some(x) ==> self@.contains(x) && settled(
                    before.entry(x),
                    horizon,
                ),
                current == start || (current matches Some(x) ==> before.entry(x).parent is Some),
                current == start || (start matches Some(x) ==> !self@.contains(x)),
                forall|id: CatalogEntryId| #[trigger]
                    freed@.contains(id) <==> before.contains(id) && !self@.contains(id),
                forall|id: CatalogEntryId|
                    old(self)@.contains(id) && !(#[trigger] self@.contains(id)) ==> Some(id)
                        == start || before.entry(id).parent is Some,
                forall|id: CatalogEntryId| #[trigger]
                    self@.contains(id) ==> old(self)@.contains(id) && self@.entry(id) == old(self)@.entry(id),
            decreases
                    match current {
                        Some(x) => x + 1,
                        None => 0,
                    },
        {
            let x = match current {
                Some(x) => x,
                None => {
                    return ;
                },
            };
            let ghost cur = self@;
            let slot = self.slot(x);
            let child = match &self.entries[slot] {
                Some(e) => e.child,
                None => None,
            };
            self.entries[slot] = None;
            proof {
                lemma_push_contains(freed@, x);
            }
            freed.push(x);
            proof {
                let now = self@;
                assert(before.entry_ok(slot as int));
                let was_x = before.entries[slot as int]->0;
                assert(cur.entries[slot as int] is Some);
                if let Some(cc) = child {
                    assert(before.link_ok(was_x, cc));
                    assert(before.entries[cc - before.id_base] is Some);
                }
                assert forall|s: int|
                    0 <= s < now.entries.len() && (#[trigger] now.entries[s]) is Some implies {
                    let e = now.entries[s]->0;
                    let was = before.entries[s]->0;
                    &&& before.entries[s] is Some
                    &&& same_but_child(e, was)
                    &&& e.child == was.child || (e.child is None && settled(was, horizon))
                    &&& e.child matches Some(c) ==> now.contains(c) && child != Some(c)
                } by {
                    assert(s != slot);
                    assert(cur.entries[s] is Some);
                    assert(now.entries[s] == cur.entries[s]);
                    let e = now.entries[s]->0;
                    if let Some(c) = e.child {
                        assert(cur.contains(c));
                        assert(c != x);
                        assert(before.entry_ok(s));
                        assert(before.link_ok(before.entries[s]->0, c));
                    }
                }
                assert forall|id: CatalogEntryId| #[trigger]
                    freed@.contains(id) <==> before.contains(id) && !now.contains(id) by {
                    if id != x {
                        assert(now.contains(id) == cur.contains(id));
                    }
                }
                assert forall|id: CatalogEntryId|
                    old(self)@.contains(id) && !(#[trigger] now.contains(id)) implies Some(id)
                    == start || before.entry(id).parent is Some by {
                    if id != x {
                        assert(now.contains(id) == cur.contains(id));
                    }
                }
                assert forall|id: CatalogEntryId| #[trigger] now.contains(id) implies old(self)@.contains(id) && now.entry(id) == old(self)@.entry(id) by {
                    assert(cur.contains(id));
                }
                if let Some(x0) = start {
                    if x0 != x {
                        assert(now.contains(x0) == cur.contains(x0));
                    }
                }
            }
            current = child;
        }
    }

    /// Cuts the link from the existing version `a`, which is settled by
    /// `horizon`, to the next older version, and returns what the link led to.
    fn cut_below(
        &mut self,
        a: CatalogEntryId,
        Ghost(before): Ghost<CatalogSetView>,
        Ghost(horizon): Ghost<TransactionId>,
    ) -> (child: Option<CatalogEntryId>)
        requires
            before.wf(),
            old(self)@.pruned_from(before, horizon, None),
            old(self)@.contains(a),
            settled(before.entry(a), horizon),
        ensures
            final(self)@.pruned_from(before, horizon, child),
            final(self)@.names == old(self)@.names,
            child == old(self)@.entry(a).child,
            child matches Some(c) ==> final(self)@.contains(c) && settled(
                before.entry(c),
                horizon,
            ) && before.entry(c).parent is Some,
            forall|id: CatalogEntryId| #[trigger]
                final(self)@.contains(id) == old(self)@.contains(id),
            forall|id: CatalogEntryId| #[trigger]
                final(self)@.contains(id) ==> final(self)@.entry(id) == if id == a {
                    BaseCatalogEntry { child: None, ..old(self)@.entry(id) }
                } else {
                    old(self)@.entry(id)
                },
    {
        let ghost mid = self@;
        let slot = self.slot(a);
        let child = match &self.entries[slot] {
            Some(e) => e.child,
            None => None,
        };
        match &mut self.entries[slot] {
            Some(e) => {
                e.child = None;
            },
            None => {},
        }
        proof {
            let cut = self@;
            assert(before.entry_ok(slot as int));
            if let Some(c) = child {
                assert(before.link_ok(before.entries[slot as int]->0, c));
                assert(before.entries[c - before.id_base] is Some);
                assert(mid.contains(c));
            }
            assert forall|s: int|
                0 <= s < cut.entries.len() && (#[trigger] cut.entries[s]) is Some implies {
                let e = cut.entries[s]->0;
                let was = before.entries[s]->0;
                &&& before.entries[s] is Some
                &&& same_but_child(e, was)
                &&& e.child == was.child || (e.child is None && settled(was, horizon))
                &&& e.child matches Some(c) ==> cut.contains(c) && child != Some(c)
            } by {
                assert(mid.entries[s] is Some);
                if s != slot {
                    assert(cut.entries[s] == mid.entries[s]);
                    let e = cut.entries[s]->0;
                    if let Some(c) = e.child {
                        assert(mid.contains(c));
                        assert(cut.entries[c - cut.id_base] is Some);
                        assert(before.entry_ok(s));
                        assert(before.link_ok(before.entries[s]->0, c));
                    }
                }
            }
            assert forall|s: int|
                0 <= s < cut.entries.len() && (#[trigger] before.entries[s]) is Some
                    && cut.entries[s] is None implies settled(before.entries[s]->0, horizon) by {
                assert(mid.entries[s] is None);
            }
        }
        child
    }

    /// Reclaims what no transaction from `horizon` on can observe of the
    /// chain that `head` begins, and says whether the chain is still there.
    fn prune_chain(
        &mut self,
        head: CatalogEntryId,
        horizon: TransactionId,
        freed: &mut Vec<CatalogEntryId>,
        Ghost(before): Ghost<CatalogSetView>,
    ) -> (keep: bool)
        requires
            before.wf(),
            old(self)@.pruned_from(before, horizon, None),
            old(self)@.names == before.names,
            old(self)@.contains(head),
            before.entry(head).parent is None,
            forall|id: CatalogEntryId| #[trigger]
                old(freed)@.contains(id) <==> before.contains(id) && !old(self)@.contains(id),
        ensures
            final(self)@.pruned_from(before, horizon, None),
            final(self)@.names == before.names,
            forall|id: CatalogEntryId| #[trigger]
                final(freed)@.contains(id) <==> before.contains(id) && !final(self)@.contains(id),
            keep == !(settled(before.entry(head), horizon) && before.entry(head).deleted),
            keep == final(self)@.contains(head),
            forall|id: CatalogEntryId|
                old(self)@.contains(id) && !(#[trigger] final(self)@.contains(id)) ==> id == head
                    || before.entry(id).parent is Some,
            forall|id: CatalogEntryId| #[trigger]
                final(self)@.contains(id) ==> old(self)@.contains(id) && (final(self)@.entry(
                    id,
                ).child == old(self)@.entry(id).child || final(self)@.entry(id).child is None),
            before.first_at(head, ChainTest::SettledBy(horizon)) matches Some(anchor)
                ==> !final(self)@.contains(anchor) || final(self)@.entry(anchor).child is None,
    {
        let test = ChainTest::SettledBy(horizon);
        let ghost mid = self@;
        proof {
            mid.lemma_pruned_links(before, horizon);
            mid.lemma_pruned_first_at(before, horizon, None, head, test);
            before.lemma_first_at_contained(head, test);
            mid.lemma_first_at_contained(head, test);
            assert(mid.entries[head - mid.id_base] is Some);
        }
        match self.first_where(head, &test) {
            Some(a) => {
                let slot = self.slot(a);
                let deleted = match &self.entries[slot] {
                    Some(e) => e.deleted,
                    None => false,
                };
                if a == head && deleted {
                    proof {
                        assert forall|s: int|
                            0 <= s < mid.entries.len() && (#[trigger] mid.entries[s]) is Some implies {
                            let e = mid.entries[s]->0;
                            e.child matches Some(c) ==> Some(head) != Some(c)
                        } by {
                            let e = mid.entries[s]->0;
                            if let Some(c) = e.child {
                                assert(before.entry_ok(s));
                                assert(before.link_ok(before.entries[s]->0, c));
                            }
                        }
                        assert(mid.pruned_from(before, horizon, Some(head)));
                    }
                    self.free_chain(Some(a), freed, Ghost(before), Ghost(horizon));
                    false
                } else {
                    let child = self.cut_below(a, Ghost(before), Ghost(horizon));
                    let ghost cut = self@;
                    proof {
                        assert forall|id: CatalogEntryId| #[trigger]
                            freed@.contains(id) <==> before.contains(id) && !cut.contains(id) by {
                            assert(cut.contains(id) == mid.contains(id));
                        }
                    }
                    self.free_chain(child, freed, Ghost(before), Ghost(horizon));
                    proof {
                        let now = self@;
                        assert forall|id: CatalogEntryId| #[trigger] now.contains(id) implies mid.contains(
                            id,
                        ) && (now.entry(id).child == mid.entry(id).child || now.entry(id).child is None) by {
                            assert(cut.contains(id));
                            assert(now.entry(id) == cut.entry(id));
                        }
                        assert forall|id: CatalogEntryId|
                            mid.contains(id) && !(#[trigger] now.contains(id)) implies id == head
                            || before.entry(id).parent is Some by {
                            assert(cut.contains(id) == mid.contains(id));
                        }
                        if !now.contains(head) {
                            assert(cut.contains(head) == mid.contains(head));
                        }
                        if now.contains(a) {
                            assert(cut.contains(a) == mid.contains(a));
                            assert(now.entry(a) == cut.entry(a));
                            assert(cut.entry(a).child is None);
                        }
                    }
                    true
                }
            },
            None => true,
        }
    }

    /// Reclaims what no transaction from `horizon` on can observe: in each
    /// chain everything below the newest version that all of them may
    /// observe, and the whole chain, with its name, if that version is the
    /// newest of the chain and a deletion marker. Returns the identifiers of
    /// the versions that are gone.
    pub fn collect(&mut self, horizon: TransactionId) -> (freed: Vec<CatalogEntryId>)
        requires
            old(self).wf(),
        ensures
            final(self).wf(),
            old(self)@.collected(final(self)@, horizon),
            forall|id: CatalogEntryId| #[trigger]
                freed@.contains(id) <==> old(self)@.contains(id) && !final(self)@.contains(id),
    {
        let ghost before = self@;
        let ghost test = ChainTest::SettledBy(horizon);
        let mut freed: Vec<CatalogEntryId> = Vec::new();
        let mut kept: Vec<NameSlot> = Vec::new();
        let ghost mut origin: Seq<int> = Seq::empty();
        let count: usize = self.name_map.len();
        let mut j: usize = 0;
        proof {
            assert forall|s: int|
                0 <= s < before.entries.len() && (#[trigger] before.entries[s]) is Some implies {
                let e = before.entries[s]->0;
                e.child matches Some(c) ==> before.contains(c)
            } by {
                assert(before.entry_ok(s));
            }
            assert forall|i: int| 0 <= i < count implies before.contains(
                #[trigger] before.names[i].head,
            ) by {
                assert(before.head_ok(i));
            }
            assert forall|s: int|
                0 <= s < before.entries.len() && (#[trigger] before.entries[s]) is Some
                    && before.entries[s]->0.parent is Some implies before.held(
                before.entries[s]->0,
            ) by {
                assert(before.rooted(s));
                assert(before.entry_ok(s));
            }
        }
        while j < count
            invariant
                before.wf(),
                test == ChainTest::SettledBy(horizon),
                j <= count,
                count == before.names.len(),
                self.name_map@ == before.names,
                self@.pruned_from(before, horizon, None),
                forall|id: CatalogEntryId| #[trigger]
                    freed@.contains(id) <==> before.contains(id) && !self@.contains(id),
                forall|i: int|
                    j <= i < count ==> self@.contains(#[trigger] before.names[i].head),
                origin.len() == kept@.len(),
                forall|a: int|
                    0 <= a < kept@.len() ==> {
                        &&& 0 <= #[trigger] origin[a] < j
                        &&& kept@[a].name@ == before.names[origin[a]].name@
                        &&& kept@[a].head == before.names[origin[a]].head
                        &&& self@.contains(kept@[a].head)
                        &&& !before.swept(kept@[a].name@, horizon)
                    },
                forall|a: int, b: int|
                    0 <= a < b < kept@.len() ==> #[trigger] origin[a] < #[trigger] origin[b],
                forall|i: int|
                    0 <= i < j && !before.swept((#[trigger] before.names[i]).name@, horizon)
                        ==> exists|a: int| 0 <= a < kept@.len() && origin[a] == i,
                forall|i: int|
                    0 <= i < j ==> (before.first_at(
                        #[trigger] before.names[i].head,
                        test,
                    ) matches Some(anchor) ==> !self@.contains(anchor) || self@.entry(
                        anchor,
                    ).child is None),
                forall|i: int|
                    0 <= i < j && before.swept((#[trigger] before.names[i]).name@, horizon)
                        ==> !self@.contains(before.names[i].head),
            decreases count - j,
        {
            let head = self.name_map[j].head;
            let ghost mid = self@;
            proof {
                assert(before.head_ok(j as int));
                before.lemma_slot_unique(j as int, before.names[j as int].name@);
            }
            let keep = self.prune_chain(head, horizon, &mut freed, Ghost(before));
            proof {
                let now = self@;
                assert forall|i: int| j + 1 <= i < count implies now.contains(
                    #[trigger] before.names[i].head,
                ) by {
                    assert(before.head_ok(i));
                    assert(before.names[j as int].name@ != before.names[i].name@);
                    assert(mid.contains(before.names[i].head));
                }
                assert forall|a: int| 0 <= a < kept@.len() implies now.contains(
                    #[trigger] kept@[a].head,
                ) by {
                    let i = origin[a];
                    assert(before.head_ok(i));
                    assert(before.names[i].name@ != before.names[j as int].name@);
                    assert(mid.contains(kept@[a].head));
                }
                assert forall|i: int|
                    0 <= i < j + 1 && before.swept(
                        (#[trigger] before.names[i]).name@,
                        horizon,
                    ) implies !now.contains(before.names[i].head) by {
                    before.lemma_slot_unique(i, before.names[i].name@);
                    if i < j {
                        assert(!mid.contains(before.names[i].head));
                    }
                }
                assert forall|i: int| 0 <= i < j + 1 implies (before.first_at(
                    #[trigger] before.names[i].head,
                    test,
                ) matches Some(anc) ==> !now.contains(anc) || now.entry(anc).child is None) by {
                    if let Some(anc) = before.first_at(before.names[i].head, test) {
                        if now.contains(anc) && i < j {
                            assert(mid.contains(anc));
                        }
                    }
                }
            }
            if keep {
                let name = self.name_map[j].name.clone();
                kept.push(NameSlot { name, head });
                proof {
                    let ghost_j: int = j as int;
                    let prior = origin;
                    origin = origin.push(ghost_j);
                    assert forall|i: int|
                        0 <= i < j + 1 && !before.swept(
                            (#[trigger] before.names[i]).name@,
                            horizon,
                        ) implies exists|a: int| 0 <= a < kept@.len() && origin[a] == i by {
                        if i < j {
                            let a = choose|a: int| 0 <= a < prior.len() && prior[a] == i;
                            assert(origin[a] == i);
                        } else {
                            assert(origin[kept@.len() - 1] == i);
                        }
                    }
                }
            }
            j += 1;
        }
        self.name_map = kept;
        proof {
            before.lemma_collected(self@, horizon, origin);
        }
        freed
    }
}

impl CatalogSetView {
    /// What reclaiming leaves is well formed and is the set without what no
    /// transaction from `horizon` on can observe.
    proof fn lemma_collected(
        self,
        after: CatalogSetView,
        horizon: TransactionId,
        origin: Seq<int>,
    )
        requires
            self.wf(),
            after.pruned_from(self, horizon, None),
            origin.len() == after.names.len(),
            forall|a: int|
                0 <= a < after.names.len() ==> {
                    &&& 0 <= #[trigger] origin[a] < self.names.len()
                    &&& after.names[a].name@ == self.names[origin[a]].name@
                    &&& after.names[a].head == self.names[origin[a]].head
                    &&& after.contains(after.names[a].head)
                    &&& !self.swept(after.names[a].name@, horizon)
                },
            forall|a: int, b: int|
                0 <= a < b < after.names.len() ==> #[trigger] origin[a] < #[trigger] origin[b],
            forall|i: int|
                0 <= i < self.names.len() && !self.swept((#[trigger] self.names[i]).name@, horizon)
                    ==> exists|a: int| 0 <= a < after.names.len() && origin[a] == i,
            forall|i: int|
                0 <= i < self.names.len() ==> (self.first_at(
                    #[trigger] self.names[i].head,
                    ChainTest::SettledBy(horizon),
                ) matches Some(anchor) ==> !after.contains(anchor) || after.entry(
                    anchor,
                ).child is None),
            forall|i: int|
                0 <= i < self.names.len() && self.swept((#[trigger] self.names[i]).name@, horizon)
                    ==> !after.contains(self.names[i].head),
        ensures
            after.wf(),
            self.collected(after, horizon),
    {
        let test = ChainTest::SettledBy(horizon);
        after.lemma_pruned_links(self, horizon);
        assert forall|a: int, b: int| 0 <= a < b < after.names.len() implies (
        #[trigger] after.names[a]).name@ != (#[trigger] after.names[b]).name@ by {
            assert(origin[a] < origin[b]);
            assert(self.names[origin[a]].name@ != self.names[origin[b]].name@);
        }
        assert forall|a: int| 0 <= a < after.names.len() implies #[trigger] after.head_ok(a) by {
            let i = origin[a];
            assert(self.head_ok(i));
            let head = after.names[a].head;
            assert(after.entries[head - after.id_base] is Some);
        }
        assert(after.names_unique());
        assert forall|n: Seq<char>| #[trigger]
            after.head_of(n) == if self.swept(n, horizon) {
                None
            } else {
                self.head_of(n)
            } by {
            if exists|a: int| name_at(after.names, a, n) {
                let a = choose|a: int| name_at(after.names, a, n);
                after.lemma_slot_unique(a, n);
                assert(self.names_at(origin[a], n));
                self.lemma_slot_unique(origin[a], n);
            } else {
                if exists|i: int| name_at(self.names, i, n) {
                    let i = choose|i: int| name_at(self.names, i, n);
                    self.lemma_slot_unique(i, n);
                    if !self.swept(n, horizon) {
                        assert(!self.swept(self.names[i].name@, horizon));
                        let a = choose|a: int| 0 <= a < after.names.len() && origin[a] == i;
                        assert(name_at(after.names, a, n));
                    }
                }
            }
        }
        assert forall|s: int|
            0 <= s < after.entries.len() && after.entries[s] is Some implies #[trigger] after.rooted(
            s,
        ) by {
            assert(self.entries[s] is Some);
            assert(self.rooted(s));
            assert(self.entry_ok(s));
            let was = self.entries[s]->0;
            let now = after.entries[s]->0;
            if was.parent is None {
                // A head that is left is the head of a name that is left.
                let n = was.name@;
                assert(after.head_of(n) == if self.swept(n, horizon) {
                    None
                } else {
                    self.head_of(n)
                });
                assert(after.contains(was.id));
                if self.swept(n, horizon) {
                    let i = self.slot_of(n)->0;
                    assert(name_at(self.names, i, n));
                    assert(self.swept(self.names[i].name@, horizon));
                    assert(!after.contains(self.names[i].head));
                }
            }
        }
        assert(after.wf());
        assert forall|n: Seq<char>| (#[trigger] after.anchor_of(n, horizon)) is Some implies after.entry(
            after.anchor_of(n, horizon)->0,
        ).child is None by {
            if let Some(head) = after.head_of(n) {
                let a = after.slot_of(n)->0;
                assert(after.head_ok(a));
                let i = origin[a];
                after.lemma_slot_unique(a, n);
                after.lemma_pruned_first_at(self, horizon, None, head, test);
                after.lemma_first_at_contained(head, test);
            }
        }
    }
}


impl CatalogSetView {
    /// How many identifiers are left for new versions.
    pub open spec fn room(self) -> int {
        self.id_limit - self.next_id()
    }

    /// Whether the version `id` of `after` is a deletion marker that `txn`
    /// has put on a chain of this set: an uncommitted deletion marker of
    /// `txn`, the newest version of its name, directly above what was the
    /// newest version, which `txn` found as a live object of the same kind.
    pub open spec fn marks(self, after: CatalogSetView, id: CatalogEntryId, txn: Transaction) -> bool {
        let e = after.entry(id);
        &&& e.deleted
        &&& e.pending_in(txn.transaction_id)
        &&& e.timestamp == txn.start_timestamp
        &&& after.head_of(e.name@) == Some(id)
        &&& self.head_of(e.name@) is Some
        &&& e.child == self.head_of(e.name@)
        &&& self.lookup(e.name@, txn) == self.head_of(e.name@)
        &&& e.type_ == self.entry(self.head_of(e.name@)->0).type_
    }

    /// Whether `after` is this set with deletion markers of `txn` put on some
    /// chains: every version is still there, what is new is one deletion
    /// marker of `txn` on each chain that has changed, no other transaction
    /// finds anything changed, and `txn` itself finds each name as before or
    /// not at all.
    pub open spec fn marked(self, after: CatalogSetView, txn: Transaction) -> bool {
        &&& after.id_base == self.id_base
        &&& after.id_limit == self.id_limit
        &&& after.entries.len() >= self.entries.len()
        &&& forall|id: CatalogEntryId| #[trigger]
            self.contains(id) ==> after.contains(id) && same_but_parent(
                after.entry(id),
                self.entry(id),
            )
        &&& forall|id: CatalogEntryId|
            #[trigger] after.contains(id) && !self.contains(id) ==> self.marks(after, id, txn)
        &&& forall|n: Seq<char>, reader: Transaction|
            reader.transaction_id != txn.transaction_id ==> #[trigger] after.lookup(n, reader)
                == self.lookup(n, reader)
        &&& forall|n: Seq<char>|
            (#[trigger] after.lookup(n, txn)) is None || after.lookup(n, txn) == self.lookup(n, txn)
        &&& forall|n: Seq<char>|
            (#[trigger] after.head_of(n)) == self.head_of(n) || (after.head_of(n) is Some
                && !self.contains(after.head_of(n)->0))
    }

    /// A set is itself with no deletion marker added.
    pub proof fn lemma_marked_same(self, txn: Transaction)
        ensures
            self.marked(self, txn),
    {
    }

    /// A deletion marker that `txn` puts on a chain whose newest version it
    /// finds as a live object gives a set with a deletion marker of `txn`.
    pub proof fn lemma_marked_step(
        self,
        after: CatalogSetView,
        txn: Transaction,
        id: CatalogEntryId,
        name: Seq<char>,
    )
        requires
            self.wf(),
            self.change_verdict(name, txn) is Ok,
            self.pushed(
                after,
                id,
                name,
                self.entry(self.head_of(name)->0).type_,
                true,
                txn,
            ),
        ensures
            self.marked(after, txn),
    {
        let kind = self.entry(self.head_of(name)->0).type_;
        let head = self.head_of(name)->0;
        assert(self.head_ok(self.slot_of(name)->0));
        assert(self.visible_at(head, txn) == Some(head));
        assert(self.lookup(name, txn) == Some(head));
        assert forall|x: CatalogEntryId| #[trigger] self.contains(x) implies after.contains(x)
            && same_but_parent(after.entry(x), self.entry(x)) by {
            assert(after.contains(x) == self.contains(x));
        }
        assert forall|x: CatalogEntryId|
            #[trigger] after.contains(x) && !self.contains(x) implies self.marks(after, x, txn) by {
            if x != id {
                assert(after.contains(x) == self.contains(x));
            }
        }
        assert forall|n: Seq<char>, reader: Transaction|
            reader.transaction_id != txn.transaction_id implies #[trigger] after.lookup(n, reader)
            == self.lookup(n, reader) by {
            self.lemma_push_unobserved(after, id, name, kind, true, txn, n, reader);
        }
        assert forall|n: Seq<char>| (#[trigger] after.lookup(n, txn)) is None || after.lookup(
            n,
            txn,
        ) == self.lookup(n, txn) by {
            if n == name {
                self.lemma_push_observed(after, id, name, kind, true, txn);
            } else {
                self.lemma_push_unobserved(after, id, name, kind, true, txn, n, txn);
            }
        }
        assert forall|n: Seq<char>|
            (#[trigger] after.head_of(n)) == self.head_of(n) || (after.head_of(n) is Some
                && !self.contains(after.head_of(n)->0)) by {
            assert(after.head_of(n) == if n == name {
                Some(id)
            } else {
                self.head_of(n)
            });
        }
    }
}

impl CatalogSet {
    /// How many identifiers are left for new versions.
    pub fn room(&self) -> (r: u64)
        requires
            self.wf(),
        ensures
            r == self@.room(),
    {
        let used: usize = self.entries.len();
        self.id_limit - self.id_base - used as u64
    }
}


impl CatalogSetView {
    /// Deletion markers put on a set with deletion markers give a set with
    /// deletion markers.
    pub proof fn lemma_marked_twice(self, mid: CatalogSetView, after: CatalogSetView, txn: Transaction)
        requires
            self.wf(),
            mid.wf(),
            after.wf(),
            self.marked(mid, txn),
            mid.marked(after, txn),
        ensures
            self.marked(after, txn),
    {
        assert forall|x: CatalogEntryId| #[trigger] self.contains(x) implies after.contains(x)
            && same_but_parent(after.entry(x), self.entry(x)) by {
            assert(mid.contains(x));
        }
        assert forall|x: CatalogEntryId|
            #[trigger] after.contains(x) && !self.contains(x) implies self.marks(after, x, txn) by {
            if mid.contains(x) {
                // A marker of the first round: the second round found its
                // name dropped, and has put nothing on top of it.
                assert(mid.contains(x) && !self.contains(x));
                assert(self.marks(mid, x, txn));
                assert(same_but_parent(after.entry(x), mid.entry(x)));
                let n = mid.entry(x).name@;
                assert(mid.visible_at(x, txn) == Some(x));
                assert(mid.lookup(n, txn) is None);
                assert(after.head_of(n) == mid.head_of(n) || (after.head_of(n) is Some
                    && !mid.contains(after.head_of(n)->0)));
                if after.head_of(n) != mid.head_of(n) {
                    let h = after.head_of(n)->0;
                    assert(after.head_ok(after.slot_of(n)->0));
                    assert(after.contains(h) && !mid.contains(h));
                    assert(mid.marks(after, h, txn));
                }
            } else {
                // A marker of the second round: the first round had left
                // its chain as it was.
                assert(after.contains(x) && !mid.contains(x));
                assert(mid.marks(after, x, txn));
                let n = after.entry(x).name@;
                let head = mid.head_of(n)->0;
                assert(mid.lookup(n, txn) is None || mid.lookup(n, txn) == self.lookup(n, txn));
                assert(mid.head_of(n) == self.head_of(n) || (mid.head_of(n) is Some
                    && !self.contains(mid.head_of(n)->0)));
                if mid.head_of(n) != self.head_of(n) {
                    assert(mid.head_ok(mid.slot_of(n)->0));
                    assert(mid.contains(head) && !self.contains(head));
                    assert(self.marks(mid, head, txn));
                    assert(mid.visible_at(head, txn) == Some(head));
                }
                assert(self.contains(head)) by {
                    assert(self.head_ok(self.slot_of(n)->0));
                }
                assert(same_but_parent(mid.entry(head), self.entry(head)));
            }
        }
        assert forall|n: Seq<char>, reader: Transaction|
            reader.transaction_id != txn.transaction_id implies #[trigger] after.lookup(n, reader)
            == self.lookup(n, reader) by {
            assert(mid.lookup(n, reader) == self.lookup(n, reader));
        }
        assert forall|n: Seq<char>| (#[trigger] after.lookup(n, txn)) is None || after.lookup(
            n,
            txn,
        ) == self.lookup(n, txn) by {
            assert(mid.lookup(n, txn) is None || mid.lookup(n, txn) == self.lookup(n, txn));
        }
        assert forall|n: Seq<char>|
            (#[trigger] after.head_of(n)) == self.head_of(n) || (after.head_of(n) is Some
                && !self.contains(after.head_of(n)->0)) by {
            assert(mid.head_of(n) == self.head_of(n) || (mid.head_of(n) is Some && !self.contains(
                mid.head_of(n)->0,
            )));
            if after.head_of(n) != mid.head_of(n) {
                let h = after.head_of(n)->0;
                if self.contains(h) {
                    assert(mid.contains(h));
                }
            }
        }
    }
}


impl CatalogSetView {
    /// Whether every version of `after` is a version of this set with the
    /// same commit standing and timestamp, or lies within `timestamp`.
    pub open spec fn stamps_kept(self, after: CatalogSetView, timestamp: TransactionId) -> bool {
        &&& after.id_base == self.id_base
        &&& forall|id: CatalogEntryId| #[trigger]
            after.contains(id) ==> within(after.entry(id), timestamp) || (self.contains(id)
                && self.entry(id).committed == after.entry(id).committed && self.entry(
                id,
            ).timestamp == after.entry(id).timestamp)
    }

    /// A set whose versions are versions of a set that is settled, or lie
    /// within the timestamp, is settled.
    pub proof fn lemma_stamps_kept(self, after: CatalogSetView, timestamp: TransactionId)
        requires
            self.settled_by(timestamp),
            self.stamps_kept(after, timestamp),
            after.id_base + after.entries.len() <= after.id_limit,
        ensures
            after.settled_by(timestamp),
    {
        assert forall|s: int|
            0 <= s < after.entries.len() && (#[trigger] after.entries[s]) is Some implies within(
            after.entries[s]->0,
            timestamp,
        ) by {
            let id = (after.id_base + s) as CatalogEntryId;
            assert(after.contains(id));
            if self.contains(id) {
                assert(self.entries[id - self.id_base] is Some);
            }
        }
    }

    /// A set that is settled by a timestamp is settled by every later one.
    pub proof fn lemma_settled_later(self, timestamp: TransactionId, later: TransactionId)
        requires
            self.settled_by(timestamp),
            timestamp <= later,
        ensures
            self.settled_by(later),
    {
    }
}

} // verus!
