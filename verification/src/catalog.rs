//! The top-level namespace: one catalog set for each schema and kind of
//! object, and the dependencies between their entries.

use vstd::prelude::*;
use vstd::string::StringExecFns;
use crate::alter_table_info::AlterInfo;
use crate::catalog_entry::{
    BaseCatalogEntry, CatalogEntryId, CatalogEntryTrait, CatalogError, CatalogErrorKind,
    ClientContext,
};
use crate::catalog_set::{CatalogSet, CatalogSetView};
use crate::catalog_type::CatalogType;
use crate::dependency_manager::{
    dependents_of, in_cascade, Dependency, DependencyError, DependencyGraph, DependencyManager,
};
use crate::transaction::{Transaction, TransactionId};

verus! {

/// How many identifiers each catalog set has for its versions. The set at
/// position `k` of the catalog hands out the identifiers from
/// `k * SET_ID_SPAN` on.
pub const SET_ID_SPAN: u64 = 0x1_0000_0000;

/// How many catalog sets a catalog can hold.
pub const MAX_SETS: usize = 0xffff_ffff;

/// One catalog set and the schema and kind of object that it is for.
pub struct SetSlot {
    schema: String,
    kind: CatalogType,
    set: CatalogSet,
}

/// The mathematical content of a `SetSlot`.
pub struct SetSlotView {
    pub schema: Seq<char>,
    pub kind: CatalogType,
    pub set: CatalogSetView,
}

impl SetSlot {
    pub closed spec fn view(&self) -> SetSlotView {
        SetSlotView { schema: self.schema@, kind: self.kind, set: self.set@ }
    }
}

/// Whether the set at position `k` of `sets` is the one for `schema` and
/// `kind`.
pub open spec fn set_at(sets: Seq<SetSlotView>, k: int, schema: Seq<char>, kind: CatalogType) -> bool {
    0 <= k < sets.len() && sets[k].schema == schema && sets[k].kind == kind
}

/// A position of `sets` at which the set for `schema` and `kind` stands, if
/// there is one.
pub open spec fn set_slot(sets: Seq<SetSlotView>, schema: Seq<char>, kind: CatalogType) -> Option<
    int,
> {
    if exists|k: int| set_at(sets, k, schema, kind) {
        Some(choose|k: int| set_at(sets, k, schema, kind))
    } else {
        None
    }
}

/// The mathematical content of a `Catalog`: the sets, and the dependencies
/// in the order in which they were recorded.
pub struct CatalogView {
    pub sets: Seq<SetSlotView>,
    pub edges: Seq<Dependency>,
}

impl CatalogView {
    /// The dependencies as a graph.
    pub open spec fn graph(self) -> DependencyGraph {
        self.edges.to_set()
    }

    /// The position of the set that holds the version `id`, if it exists.
    pub open spec fn home(id: CatalogEntryId) -> int {
        id as int / SET_ID_SPAN as int
    }

    /// Whether `id` names a version that exists.
    pub open spec fn contains(self, id: CatalogEntryId) -> bool {
        Self::home(id) < self.sets.len() && self.sets[Self::home(id)].set.contains(id)
    }

    /// The version that `id` names.
    pub open spec fn entry(self, id: CatalogEntryId) -> BaseCatalogEntry
        recommends
            self.contains(id),
    {
        self.sets[Self::home(id)].set.entry(id)
    }

    /// The position of the set for `schema` and `kind`.
    pub open spec fn set_of(self, schema: Seq<char>, kind: CatalogType) -> Option<int> {
        set_slot(self.sets, schema, kind)
    }

    /// The object that `txn` finds under `name` among the objects of `kind`
    /// in `schema`.
    pub open spec fn lookup(
        self,
        schema: Seq<char>,
        kind: CatalogType,
        name: Seq<char>,
        txn: Transaction,
    ) -> Option<CatalogEntryId> {
        match self.set_of(schema, kind) {
            Some(k) => self.sets[k].set.lookup(name, txn),
            None => None,
        }
    }

    /// What holds of the set at position `k`: it is well formed and hands
    /// out the identifiers of its own range.
    pub open spec fn set_ok(self, k: int) -> bool {
        &&& self.sets[k].set.wf()
        &&& self.sets[k].set.id_base == k * SET_ID_SPAN
        &&& self.sets[k].set.id_limit == (k + 1) * SET_ID_SPAN
    }

    /// The invariant of a catalog: well-formed sets with disjoint ranges of
    /// identifiers, one set for each schema and kind, and no dependency that
    /// begins or ends at a version that does not exist.
    pub open spec fn wf(self) -> bool {
        &&& self.sets.len() <= MAX_SETS
        &&& forall|k: int| 0 <= k < self.sets.len() ==> #[trigger] self.set_ok(k)
        &&& forall|i: int, j: int|
            0 <= i < j < self.sets.len() ==> !((#[trigger] self.sets[i]).schema == (
            #[trigger] self.sets[j]).schema && self.sets[i].kind == self.sets[j].kind)
        &&& self.edges.no_duplicates()
        &&& forall|e: Dependency| #[trigger]
            self.graph().contains(e) ==> self.contains(e.dependent) && self.contains(e.dependency)
    }

    /// In a well-formed catalog the set for a schema and kind stands at one
    /// position only.
    pub proof fn lemma_set_unique(self, k: int, schema: Seq<char>, kind: CatalogType)
        requires
            self.wf(),
            set_at(self.sets, k, schema, kind),
        ensures
            self.set_of(schema, kind) == Some(k),
    {
        let j = choose|j: int| set_at(self.sets, j, schema, kind);
        if k < j {
            assert(!(self.sets[k].schema == self.sets[j].schema && self.sets[k].kind
                == self.sets[j].kind));
        } else if j < k {
            assert(!(self.sets[j].schema == self.sets[k].schema && self.sets[j].kind
                == self.sets[k].kind));
        }
    }

    /// A version belongs to the set whose range holds its identifier.
    pub proof fn lemma_home(self, k: int, id: CatalogEntryId)
        requires
            self.wf(),
            0 <= k < self.sets.len(),
            self.sets[k].set.contains(id),
        ensures
            Self::home(id) == k,
            self.contains(id),
            self.entry(id) == self.sets[k].set.entry(id),
    {
        assert(self.set_ok(k));
        let base = k * SET_ID_SPAN;
        assert(base <= id < base + SET_ID_SPAN);
        assert(id as int / SET_ID_SPAN as int == k) by (nonlinear_arith)
            requires
                k * SET_ID_SPAN <= id < k * SET_ID_SPAN + SET_ID_SPAN,
                SET_ID_SPAN == 0x1_0000_0000,
        ;
    }
}

/// The top-level namespace of a database.
pub struct Catalog {
    /// The catalog sets, each for one schema and kind of object.
    sets: Vec<SetSlot>,
    /// The dependencies between the entries of all sets.
    dependency_manager: DependencyManager,
}

impl Catalog {
    pub closed spec fn view(&self) -> CatalogView {
        CatalogView {
            sets: self.sets@.map_values(|slot: SetSlot| slot@),
            edges: self.dependency_manager.order(),
        }
    }

    /// The invariant that every operation keeps.
    pub closed spec fn wf(&self) -> bool {
        &&& self@.wf()
        &&& self.dependency_manager.wf()
    }

    /// The content of the set at position `k`.
    proof fn lemma_slot_view(&self, k: int)
        requires
            0 <= k < self.sets@.len(),
        ensures
            self@.sets[k] == self.sets@[k]@,
            self@.sets[k].set == self.sets@[k].set@,
            self@.sets[k].schema == self.sets@[k].schema@,
            self@.sets[k].kind == self.sets@[k].kind,
    {
    }

    /// What the invariant says of the content.
    pub proof fn lemma_wf(&self)
        requires
            self.wf(),
        ensures
            self@.wf(),
    {
    }

    /// A catalog without sets and without dependencies.
    pub fn new() -> (catalog: Self)
        ensures
            catalog.wf(),
            catalog@.sets == Seq::<SetSlotView>::empty(),
            catalog@.edges == Seq::<Dependency>::empty(),
    {
        let catalog = Catalog { sets: Vec::new(), dependency_manager: DependencyManager::new() };
        assert(catalog@.sets =~= Seq::<SetSlotView>::empty());
        catalog
    }

    /// The position of the set for `schema` and `kind`.
    fn find_set(&self, schema: &String, kind: CatalogType) -> (r: Option<usize>)
        requires
            self.wf(),
        ensures
            match r {
                Some(k) => set_at(self@.sets, k as int, schema@, kind) && self@.set_of(schema@, kind)
                    == Some(k as int),
                None => self@.set_of(schema@, kind) is None,
            },
    {
        let mut k: usize = 0;
        while k < self.sets.len()
            invariant
                self.wf(),
                k <= self.sets@.len(),
                forall|j: int| 0 <= j < k ==> !set_at(self@.sets, j, schema@, kind),
            decreases self.sets@.len() - k,
        {
            if self.sets[k].kind == kind && self.sets[k].schema == *schema {
                proof {
                    self@.lemma_set_unique(k as int, schema@, kind);
                }
                return Some(k);
            }
            k += 1;
        }
        None
    }

    /// The object that `txn` finds under `name` among the objects of `kind`
    /// in `schema`.
    pub fn get_entry(&self, schema: &str, kind: CatalogType, name: &str, txn: &Transaction) -> (r:
        Option<&BaseCatalogEntry>)
        requires
            self.wf(),
        ensures
            match r {
                Some(e) => self@.lookup(schema@, kind, name@, *txn) == Some(e.id) && self@.contains(
                    e.id,
                ) && *e == self@.entry(e.id),
                None => self@.lookup(schema@, kind, name@, *txn) is None,
            },
    {
        let key = String::from_str(schema);
        match self.find_set(&key, kind) {
            Some(k) => {
                assert(self@.set_ok(k as int));
                let r = self.sets[k].set.get_entry(name, txn);
                proof {
                    if let Some(e) = r {
                        self@.lemma_home(k as int, e.id);
                    }
                }
                r
            },
            None => None,
        }
    }

    /// The version that `id` names, if it exists.
    pub fn entry(&self, id: CatalogEntryId) -> (r: Option<&BaseCatalogEntry>)
        requires
            self.wf(),
        ensures
            match r {
                Some(e) => self@.contains(id) && *e == self@.entry(id),
                None => !self@.contains(id),
            },
    {
        let home: u64 = id / SET_ID_SPAN;
        if home as u128 >= self.sets.len() as u128 {
            return None;
        }
        self.sets[home as usize].set.entry(id)
    }
}


impl CatalogView {
    /// The set that a new set for position `k` begins as.
    pub open spec fn empty_set(k: int) -> CatalogSetView {
        CatalogSetView {
            id_base: (k * SET_ID_SPAN) as u64,
            id_limit: ((k + 1) * SET_ID_SPAN) as u64,
            entries: Seq::empty(),
            names: Seq::empty(),
        }
    }

    /// The position of the set for `schema` and `kind`, or the position at
    /// which a set for them would be added.
    pub open spec fn target_of(self, schema: Seq<char>, kind: CatalogType) -> int {
        match self.set_of(schema, kind) {
            Some(k) => k,
            None => self.sets.len() as int,
        }
    }

    /// The set for `schema` and `kind`, or the empty set that would be added
    /// for them.
    pub open spec fn set_or_empty(self, schema: Seq<char>, kind: CatalogType) -> CatalogSetView {
        match self.set_of(schema, kind) {
            Some(k) => self.sets[k].set,
            None => Self::empty_set(self.sets.len() as int),
        }
    }

    /// Whether `txn` may create `name` among the objects of `kind` in
    /// `schema`, or why not. The catalog is full, which is reported as
    /// `Other`, when the set has used up its identifiers or when there is no
    /// position left for a new set.
    pub open spec fn create_verdict(
        self,
        schema: Seq<char>,
        kind: CatalogType,
        name: Seq<char>,
        txn: Transaction,
    ) -> Result<(), CatalogErrorKind> {
        match self.set_of(schema, kind) {
            Some(k) => if !self.sets[k].set.has_room() {
                Err(CatalogErrorKind::Other)
            } else {
                self.sets[k].set.create_verdict(name, txn)
            },
            None => if self.sets.len() >= MAX_SETS {
                Err(CatalogErrorKind::Other)
            } else {
                Ok(())
            },
        }
    }

    /// Whether `after` is this catalog with the set at position `k` replaced
    /// by, or a set added at position `k` as, a set for `schema` and `kind`,
    /// and nothing else changed.
    pub open spec fn set_changed(
        self,
        after: CatalogView,
        k: int,
        schema: Seq<char>,
        kind: CatalogType,
    ) -> bool {
        &&& after.edges == self.edges
        &&& 0 <= k <= self.sets.len()
        &&& after.sets.len() == if k < self.sets.len() {
            self.sets.len()
        } else {
            self.sets.len() + 1
        }
        &&& forall|j: int| 0 <= j < self.sets.len() && j != k ==> #[trigger] after.sets[j] == self.sets[j]
        &&& after.sets[k].schema == schema
        &&& after.sets[k].kind == kind
    }

    /// Whether `after` is this catalog after transaction `writer` has put the
    /// version `id` on top of the chain of `name` among the objects of `kind`
    /// in `schema`.
    pub open spec fn pushed(
        self,
        after: CatalogView,
        id: CatalogEntryId,
        schema: Seq<char>,
        kind: CatalogType,
        name: Seq<char>,
        version_kind: CatalogType,
        deleted: bool,
        writer: Transaction,
    ) -> bool {
        &&& self.set_changed(after, self.target_of(schema, kind), schema, kind)
        &&& self.set_or_empty(schema, kind).has_room()
        &&& self.set_or_empty(schema, kind).pushed(
            after.sets[self.target_of(schema, kind)].set,
            id,
            name,
            version_kind,
            deleted,
            writer,
        )
    }

    /// Putting a version on a chain of a well-formed catalog leaves a
    /// well-formed catalog.
    pub proof fn lemma_pushed_wf(
        self,
        after: CatalogView,
        id: CatalogEntryId,
        schema: Seq<char>,
        kind: CatalogType,
        name: Seq<char>,
        version_kind: CatalogType,
        deleted: bool,
        writer: Transaction,
    )
        requires
            self.wf(),
            self.set_of(schema, kind) is None ==> self.sets.len() < MAX_SETS,
            self.pushed(after, id, schema, kind, name, version_kind, deleted, writer),
            after.sets[self.target_of(schema, kind)].set.wf(),
        ensures
            after.wf(),
    {
        let k = self.target_of(schema, kind);
        assert forall|j: int| 0 <= j < after.sets.len() implies #[trigger] after.set_ok(j) by {
            if j != k {
                assert(self.set_ok(j));
            } else if k < self.sets.len() {
                assert(self.set_ok(k));
            } else {
                assert(k * SET_ID_SPAN <= u64::MAX && (k + 1) * SET_ID_SPAN <= u64::MAX)
                    by (nonlinear_arith)
                    requires
                        0 <= k < 0xffff_ffff,
                        SET_ID_SPAN == 0x1_0000_0000,
                ;
            }
        }
        assert forall|i: int, j: int| 0 <= i < j < after.sets.len() implies !((
        #[trigger] after.sets[i]).schema == (#[trigger] after.sets[j]).schema && after.sets[i].kind
            == after.sets[j].kind) by {
            if after.sets[i].schema == after.sets[j].schema && after.sets[i].kind
                == after.sets[j].kind {
                if k < self.sets.len() {
                    assert(set_at(self.sets, k, schema, kind));
                    assert(self.sets[i].schema == self.sets[j].schema);
                    assert(self.sets[i].kind == self.sets[j].kind);
                } else {
                    assert(j == k);
                    assert(set_at(self.sets, i, schema, kind));
                }
            }
        }
        assert forall|e: Dependency| #[trigger] after.graph().contains(e) implies after.contains(
            e.dependent,
        ) && after.contains(e.dependency) by {
            assert(self.graph().contains(e));
            self.lemma_pushed_contains(
                after,
                id,
                schema,
                kind,
                name,
                version_kind,
                deleted,
                writer,
                e.dependent,
            );
            self.lemma_pushed_contains(
                after,
                id,
                schema,
                kind,
                name,
                version_kind,
                deleted,
                writer,
                e.dependency,
            );
        }
    }

    /// Every version that existed before a push exists after it.
    pub proof fn lemma_pushed_contains(
        self,
        after: CatalogView,
        id: CatalogEntryId,
        schema: Seq<char>,
        kind: CatalogType,
        name: Seq<char>,
        version_kind: CatalogType,
        deleted: bool,
        writer: Transaction,
        other: CatalogEntryId,
    )
        requires
            self.wf(),
            self.pushed(after, id, schema, kind, name, version_kind, deleted, writer),
            self.contains(other),
        ensures
            after.contains(other),
            other != id,
    {
        let k = self.target_of(schema, kind);
        let h = Self::home(other);
        if h == k {
            assert(self.sets[k].set.contains(other));
            assert(after.sets[k].set.contains(other) == self.sets[k].set.contains(other));
        } else {
            assert(after.sets[h] == self.sets[h]);
            if other == id {
                if k < self.sets.len() {
                    assert(self.set_ok(k));
                }
                assert(k * SET_ID_SPAN <= id < k * SET_ID_SPAN + SET_ID_SPAN);
                assert(id as int / SET_ID_SPAN as int == k) by (nonlinear_arith)
                    requires
                        k * SET_ID_SPAN <= id < k * SET_ID_SPAN + SET_ID_SPAN,
                        SET_ID_SPAN == 0x1_0000_0000,
                ;
            }
        }
    }
}

impl Catalog {
    /// A failure that the message alone describes.
    fn full() -> (e: CatalogError)
        ensures
            e.kind == CatalogErrorKind::Other,
    {
        CatalogError::new("Catalog is out of identifiers!")
    }

    /// The position of the set for `schema` and `kind`, which is added if it
    /// is not there and there is a position left.
    fn find_or_add_set(&mut self, schema: String, kind: CatalogType) -> (r: Option<usize>)
        requires
            old(self).wf(),
        ensures
            final(self).dependency_manager == old(self).dependency_manager,
            match r {
                Some(k) => {
                    &&& k == old(self)@.target_of(schema@, kind)
                    &&& old(self)@.set_changed(final(self)@, k as int, schema@, kind)
                    &&& final(self)@.sets[k as int].set == old(self)@.set_or_empty(schema@, kind)
                    &&& final(self)@.sets[k as int].set.wf()
                    &&& old(self)@.set_of(schema@, kind) is None ==> old(self)@.sets.len() < MAX_SETS
                    &&& k < final(self).sets@.len()
                    &&& final(self).sets@[k as int].set.wf()
                },
                None => {
                    &&& old(self)@.set_of(schema@, kind) is None
                    &&& old(self)@.sets.len() >= MAX_SETS
                    &&& final(self)@ == old(self)@
                },
            },
    {
        match self.find_set(&schema, kind) {
            Some(k) => {
                assert(self@.set_ok(k as int));
                Some(k)
            },
            None => {
                if self.sets.len() >= MAX_SETS {
                    return None;
                }
                let k: usize = self.sets.len();
                let base: u64 = k as u64 * SET_ID_SPAN;
                let set = CatalogSet::new(base, base + SET_ID_SPAN);
                self.sets.push(SetSlot { schema, kind, set });
                Some(k)
            },
        }
    }

    /// Creates `name` among the objects of `kind` in `schema` on behalf of
    /// `txn`, in a set that is added if `schema` has none for `kind` yet.
    /// Refused as the set refuses it, and with `Other` if the catalog is
    /// full. A refusal changes nothing.
    pub fn create_entry(&mut self, schema: &str, kind: CatalogType, name: &str, txn: &Transaction) -> (r:
        Result<CatalogEntryId, CatalogError>)
        requires
            old(self).wf(),
        ensures
            final(self).wf(),
            match old(self)@.create_verdict(schema@, kind, name@, *txn) {
                Ok(()) => r matches Ok(id) && old(self)@.pushed(
                    final(self)@,
                    id,
                    schema@,
                    kind,
                    name@,
                    kind,
                    false,
                    *txn,
                ),
                Err(why) => r matches Err(e) && e.kind == why && final(self)@ == old(self)@,
            },
    {
        let ghost before = self@;
        let key = String::from_str(schema);
        // Whether the entry can be created is decided before a set is added.
        if let Some(k) = self.find_set(&key, kind) {
            assert(self@.set_ok(k as int));
            if !self.sets[k].set.has_room() {
                return Err(Self::full());
            }
        }
        let k = match self.find_or_add_set(key, kind) {
            Some(k) => k,
            None => {
                return Err(Self::full());
            },
        };
        let ghost mid = self@;
        let r = self.sets[k].set.create_entry(name, kind, txn);
        proof {
            let after = self@;
            assert(after.sets =~= mid.sets.update(k as int, after.sets[k as int]));
            match r {
                Ok(id) => {
                    assert(before.pushed(
                        after,
                        id,
                        schema@,
                        kind,
                        name@,
                        kind,
                        false,
                        *txn,
                    ));
                    before.lemma_pushed_wf(
                        after,
                        id,
                        schema@,
                        kind,
                        name@,
                        kind,
                        false,
                        *txn,
                    );
                },
                Err(_) => {
                    assert(after.sets =~= before.sets);
                },
            }
        }
        r
    }
}


impl CatalogView {
    /// Whether no version of any set was committed later than `timestamp`.
    pub open spec fn settled_by(self, timestamp: TransactionId) -> bool {
        forall|k: int| 0 <= k < self.sets.len() ==> (#[trigger] self.sets[k]).set.settled_by(timestamp)
    }

    /// Whether `after` has the same sets, for the same schemas and kinds.
    pub open spec fn same_shape(self, after: CatalogView) -> bool {
        &&& after.sets.len() == self.sets.len()
        &&& forall|k: int|
            0 <= k < self.sets.len() ==> (#[trigger] after.sets[k]).schema == self.sets[k].schema
                && after.sets[k].kind == self.sets[k].kind
    }

    /// Whether both ends of the dependency `e` exist.
    pub open spec fn live(self, e: Dependency) -> bool {
        self.contains(e.dependent) && self.contains(e.dependency)
    }

    /// The dependencies of `edges` that begin and end at versions that
    /// exist, in order.
    pub open spec fn live_edges(self, edges: Seq<Dependency>) -> Seq<Dependency>
        decreases edges.len(),
    {
        if edges.len() == 0 {
            edges
        } else {
            let rest = self.live_edges(edges.drop_last());
            if self.live(edges.last()) {
                rest.push(edges.last())
            } else {
                rest
            }
        }
    }

    /// Where the dependencies that touch none of `freed` are the
    /// dependencies whose ends exist, to forget those that touch `freed`
    /// leaves those whose ends exist.
    pub proof fn lemma_live_edges(self, edges: Seq<Dependency>, freed: Seq<CatalogEntryId>)
        requires
            forall|e: Dependency| #[trigger]
                edges.contains(e) ==> (crate::dependency_manager::clear_of(e, freed) <==> self.live(
                    e,
                )),
        ensures
            self.live_edges(edges) == crate::dependency_manager::cleared(edges, freed),
        decreases edges.len(),
    {
        if edges.len() > 0 {
            let shorter = edges.drop_last();
            assert forall|e: Dependency| #[trigger] shorter.contains(e) implies edges.contains(e) by {
                let k = choose|k: int| 0 <= k < shorter.len() && shorter[k] == e;
                assert(edges[k] == e);
            }
            self.lemma_live_edges(shorter, freed);
            assert(edges.contains(edges.last())) by {
                assert(edges[edges.len() - 1] == edges.last());
            }
        }
    }

    /// Whether `after` is this catalog after transaction `writer` has
    /// committed at `timestamp`.
    pub open spec fn committed(
        self,
        after: CatalogView,
        writer: TransactionId,
        timestamp: TransactionId,
    ) -> bool {
        &&& self.same_shape(after)
        &&& after.edges == self.edges
        &&& forall|k: int|
            0 <= k < self.sets.len() ==> (#[trigger] after.sets[k]).set == self.sets[k].set.committed(
                writer,
                timestamp,
            )
    }

    /// Whether `after` is this catalog without the uncommitted work of
    /// `writer`, and without the dependencies of that work.
    pub open spec fn rolled_back(self, after: CatalogView, writer: TransactionId) -> bool {
        &&& self.same_shape(after)
        &&& after.edges == after.live_edges(self.edges)
        &&& forall|k: int|
            0 <= k < self.sets.len() ==> self.sets[k].set.rolled_back(
                (#[trigger] after.sets[k]).set,
                writer,
            )
    }

    /// Whether `after` is this catalog after the versions that no
    /// transaction from `horizon` on can observe have been reclaimed, and
    /// their dependencies with them.
    pub open spec fn collected(self, after: CatalogView, horizon: TransactionId) -> bool {
        &&& self.same_shape(after)
        &&& after.edges == after.live_edges(self.edges)
        &&& forall|k: int|
            0 <= k < self.sets.len() ==> self.sets[k].set.collected(
                (#[trigger] after.sets[k]).set,
                horizon,
            )
    }

    /// What is left of a well-formed catalog whose sets have each lost some
    /// versions, and whose graph has lost the dependencies of those versions,
    /// is well formed.
    proof fn lemma_shrunk_wf(self, after: CatalogView, freed: Seq<CatalogEntryId>)
        requires
            self.wf(),
            self.same_shape(after),
            forall|k: int|
                0 <= k < self.sets.len() ==> {
                    &&& (#[trigger] after.sets[k]).set.wf()
                    &&& after.sets[k].set.id_base == self.sets[k].set.id_base
                    &&& after.sets[k].set.id_limit == self.sets[k].set.id_limit
                },
            forall|id: CatalogEntryId|
                #[trigger] freed.contains(id) <==> self.contains(id) && !after.contains(id),
            after.edges == crate::dependency_manager::cleared(self.edges, freed),
        ensures
            after.wf(),
            after.edges == after.live_edges(self.edges),
    {
        crate::dependency_manager::lemma_cleared(self.edges, freed);
        assert forall|k: int| 0 <= k < after.sets.len() implies #[trigger] after.set_ok(k) by {
            assert(self.set_ok(k));
        }
        assert forall|i: int, j: int| 0 <= i < j < after.sets.len() implies !((
        #[trigger] after.sets[i]).schema == (#[trigger] after.sets[j]).schema && after.sets[i].kind
            == after.sets[j].kind) by {
            assert(!(self.sets[i].schema == self.sets[j].schema && self.sets[i].kind
                == self.sets[j].kind));
        }
        assert forall|e: Dependency| #[trigger] self.edges.contains(e) implies (
        crate::dependency_manager::clear_of(e, freed) <==> after.live(e)) by {
            assert(self.graph().contains(e));
        }
        after.lemma_live_edges(self.edges, freed);
    }
}

impl Catalog {
    /// Records that the version `dependent` depends on the version
    /// `dependency`. Refused with `NotFound`, and nothing recorded, unless
    /// both versions exist.
    pub fn add_dependency(&mut self, dependent: CatalogEntryId, dependency: CatalogEntryId) -> (r:
        Result<(), CatalogError>)
        requires
            old(self).wf(),
        ensures
            final(self).wf(),
            final(self)@.sets == old(self)@.sets,
            if old(self)@.contains(dependent) && old(self)@.contains(dependency) {
                r is Ok && final(self)@.edges == if old(self)@.graph().contains(
                    Dependency { dependent, dependency },
                ) {
                    old(self)@.edges
                } else {
                    old(self)@.edges.push(Dependency { dependent, dependency })
                }
            } else {
                r matches Err(e) && e.kind == CatalogErrorKind::NotFound && final(self)@.edges
                    == old(self)@.edges
            },
    {
        if self.entry(dependent).is_none() || self.entry(dependency).is_none() {
            return Err(
                CatalogError::of_kind(
                    CatalogErrorKind::NotFound,
                    "Dependency names a catalog entry that does not exist!",
                ),
            );
        }
        proof {
            self.dependency_manager.lemma_order();
        }
        self.dependency_manager.add_dependency(dependent, dependency);
        proof {
            let edge = Dependency { dependent, dependency };
            self.dependency_manager.lemma_order();
            assert(self@.sets == old(self)@.sets);
            assert forall|e: Dependency| #[trigger] self@.graph().contains(e) implies self@.contains(
                e.dependent,
            ) && self@.contains(e.dependency) by {
                if e != edge {
                    assert(old(self)@.graph().contains(e));
                }
            }
            assert forall|k: int| 0 <= k < self@.sets.len() implies #[trigger] self@.set_ok(k) by {
                assert(old(self)@.set_ok(k));
            }
        }
        Ok(())
    }

    /// Whether nothing depends on the version `entry`.
    pub fn can_drop(&self, entry: CatalogEntryId) -> (r: bool)
        requires
            self.wf(),
        ensures
            r == crate::dependency_manager::dependents_of(self@.graph(), entry).is_empty(),
    {
        proof {
            self.dependency_manager.lemma_order();
        }
        self.dependency_manager.can_drop(entry)
    }

    /// Commits the work of `transaction_id` at `commit_timestamp` in every
    /// set.
    pub fn commit(&mut self, transaction_id: TransactionId, commit_timestamp: TransactionId)
        requires
            old(self).wf(),
            old(self)@.settled_by(commit_timestamp),
        ensures
            final(self).wf(),
            old(self)@.committed(final(self)@, transaction_id, commit_timestamp),
            final(self)@.settled_by(commit_timestamp),
    {
        let ghost before = self@;
        let mut k: usize = 0;
        while k < self.sets.len()
            invariant
                before.wf(),
                before.settled_by(commit_timestamp),
                self.dependency_manager == old(self).dependency_manager,
                old(self).dependency_manager.wf(),
                before.edges == old(self).dependency_manager.order(),
                k <= self.sets@.len(),
                before.same_shape(self@),
                forall|j: int|
                    0 <= j < k ==> (#[trigger] self@.sets[j]).set == before.sets[j].set.committed(
                        transaction_id,
                        commit_timestamp,
                    ),
                forall|j: int| k <= j < self.sets@.len() ==> #[trigger] self@.sets[j] == before.sets[j],
            decreases self.sets@.len() - k,
        {
            let ghost mid = self@;
            proof {
                self.lemma_slot_view(k as int);
                assert(before.set_ok(k as int));
                assert(before.sets[k as int].set.settled_by(commit_timestamp));
            }
            let ghost prior = self.sets@;
            self.sets[k].set.commit(transaction_id, commit_timestamp);
            proof {
                let now = self@;
                self.lemma_slot_view(k as int);
                assert forall|j: int| 0 <= j < self.sets@.len() && j != k implies now.sets[j]
                    == mid.sets[j] by {
                    assert(self.sets@[j] == prior[j]);
                }
                assert(now.sets[k as int].schema == mid.sets[k as int].schema);
                assert(now.sets[k as int].kind == mid.sets[k as int].kind);
                assert forall|j: int| 0 <= j < before.sets.len() implies (
                #[trigger] now.sets[j]).schema == before.sets[j].schema && now.sets[j].kind
                    == before.sets[j].kind by {
                    if j != k {
                        assert(now.sets[j] == mid.sets[j]);
                    }
                }
            }
            k += 1;
        }
        proof {
            let after = self@;
            assert forall|j: int| 0 <= j < after.sets.len() implies #[trigger] after.set_ok(j) by {
                assert(before.set_ok(j));
                before.sets[j].set.lemma_committed_wf(transaction_id, commit_timestamp);
            }
            assert forall|i: int, j: int| 0 <= i < j < after.sets.len() implies !((
            #[trigger] after.sets[i]).schema == (#[trigger] after.sets[j]).schema
                && after.sets[i].kind == after.sets[j].kind) by {
                assert(!(before.sets[i].schema == before.sets[j].schema && before.sets[i].kind
                    == before.sets[j].kind));
            }
            assert forall|e: Dependency| #[trigger] after.graph().contains(e) implies after.contains(
                e.dependent,
            ) && after.contains(e.dependency) by {
                assert(before.graph().contains(e));
                before.sets[CatalogView::home(e.dependent)].set.lemma_committed_entries(
                    transaction_id,
                    commit_timestamp,
                );
                before.sets[CatalogView::home(e.dependency)].set.lemma_committed_entries(
                    transaction_id,
                    commit_timestamp,
                );
            }
            assert forall|j: int| 0 <= j < after.sets.len() implies (
            #[trigger] after.sets[j]).set.settled_by(commit_timestamp) by {
                assert(before.set_ok(j));
                assert(before.sets[j].set.settled_by(commit_timestamp));
                before.sets[j].set.lemma_committed_wf(transaction_id, commit_timestamp);
            }
        }
    }

    /// Undoes the uncommitted work of `transaction_id` in every set, and
    /// forgets the dependencies of the versions that are gone.
    pub fn rollback(&mut self, transaction_id: TransactionId)
        requires
            old(self).wf(),
        ensures
            final(self).wf(),
            old(self)@.rolled_back(final(self)@, transaction_id),
    {
        let ghost before = self@;
        let mut freed: Vec<CatalogEntryId> = Vec::new();
        let mut k: usize = 0;
        while k < self.sets.len()
            invariant
                before.wf(),
                self.dependency_manager == old(self).dependency_manager,
                k <= self.sets@.len(),
                before.same_shape(self@),
                forall|j: int|
                    0 <= j < k ==> before.sets[j].set.rolled_back(
                        (#[trigger] self@.sets[j]).set,
                        transaction_id,
                    ) && self@.sets[j].set.wf(),
                forall|j: int| k <= j < self.sets@.len() ==> #[trigger] self@.sets[j] == before.sets[j],
                forall|id: CatalogEntryId|
                    #[trigger] freed@.contains(id) <==> before.contains(id) && !self@.contains(id),
            decreases self.sets@.len() - k,
        {
            let ghost mid = self@;
            let ghost prior = freed@;
            proof {
                self.lemma_slot_view(k as int);
                assert(before.set_ok(k as int));
            }
            let ghost slots = self.sets@;
            let mut gone = self.sets[k].set.rollback(transaction_id);
            let ghost gone_ids = gone@;
            freed.append(&mut gone);
            proof {
                let now = self@;
                self.lemma_slot_view(k as int);
                assert forall|j: int| 0 <= j < self.sets@.len() && j != k implies now.sets[j]
                    == mid.sets[j] by {
                    assert(self.sets@[j] == slots[j]);
                }
                assert forall|id: CatalogEntryId|
                    #[trigger] freed@.contains(id) <==> before.contains(id) && !now.contains(
                        id,
                    ) by {
                    vstd::seq_lib::lemma_seq_concat_contains_all_elements(prior, gone_ids, id);
                    let h = CatalogView::home(id);
                    if 0 <= h < now.sets.len() && h != k {
                        assert(now.sets[h] == mid.sets[h]);
                    }
                    if gone_ids.contains(id) {
                        before.lemma_home(k as int, id);
                    }
                }
            }
            k += 1;
        }
        self.dependency_manager.erase_each(&freed);
        proof {
            let after = self@;
            assert forall|j: int| 0 <= j < before.sets.len() implies {
                &&& (#[trigger] after.sets[j]).set.wf()
                &&& after.sets[j].set.id_base == before.sets[j].set.id_base
                &&& after.sets[j].set.id_limit == before.sets[j].set.id_limit
            } by {
                assert(before.sets[j].set.rolled_back(after.sets[j].set, transaction_id));
            }
            before.lemma_shrunk_wf(after, freed@);
        }
    }

    /// Reclaims in every set what no transaction from `horizon` on can
    /// observe, and forgets the dependencies of the versions that are gone.
    pub fn collect(&mut self, horizon: TransactionId)
        requires
            old(self).wf(),
        ensures
            final(self).wf(),
            old(self)@.collected(final(self)@, horizon),
    {
        let ghost before = self@;
        let mut freed: Vec<CatalogEntryId> = Vec::new();
        let mut k: usize = 0;
        while k < self.sets.len()
            invariant
                before.wf(),
                self.dependency_manager == old(self).dependency_manager,
                k <= self.sets@.len(),
                before.same_shape(self@),
                forall|j: int|
                    0 <= j < k ==> before.sets[j].set.collected(
                        (#[trigger] self@.sets[j]).set,
                        horizon,
                    ) && self@.sets[j].set.wf(),
                forall|j: int| k <= j < self.sets@.len() ==> #[trigger] self@.sets[j] == before.sets[j],
                forall|id: CatalogEntryId|
                    #[trigger] freed@.contains(id) <==> before.contains(id) && !self@.contains(id),
            decreases self.sets@.len() - k,
        {
            let ghost mid = self@;
            let ghost prior = freed@;
            proof {
                self.lemma_slot_view(k as int);
                assert(before.set_ok(k as int));
            }
            let ghost slots = self.sets@;
            let mut gone = self.sets[k].set.collect(horizon);
            let ghost gone_ids = gone@;
            freed.append(&mut gone);
            proof {
                let now = self@;
                self.lemma_slot_view(k as int);
                assert forall|j: int| 0 <= j < self.sets@.len() && j != k implies now.sets[j]
                    == mid.sets[j] by {
                    assert(self.sets@[j] == slots[j]);
                }
                assert forall|id: CatalogEntryId|
                    #[trigger] freed@.contains(id) <==> before.contains(id) && !now.contains(
                        id,
                    ) by {
                    vstd::seq_lib::lemma_seq_concat_contains_all_elements(prior, gone_ids, id);
                    let h = CatalogView::home(id);
                    if 0 <= h < now.sets.len() && h != k {
                        assert(now.sets[h] == mid.sets[h]);
                    }
                    if gone_ids.contains(id) {
                        before.lemma_home(k as int, id);
                    }
                }
            }
            k += 1;
        }
        self.dependency_manager.erase_each(&freed);
        proof {
            let after = self@;
            assert forall|j: int| 0 <= j < before.sets.len() implies {
                &&& (#[trigger] after.sets[j]).set.wf()
                &&& after.sets[j].set.id_base == before.sets[j].set.id_base
                &&& after.sets[j].set.id_limit == before.sets[j].set.id_limit
            } by {
                assert(before.sets[j].set.collected(after.sets[j].set, horizon));
            }
            before.lemma_shrunk_wf(after, freed@);
        }
    }
}


/// Why a drop is refused.
#[derive(Debug, Clone, Copy, PartialEq, Eq, Structural)]
pub enum DropRefusal {
    Catalog(CatalogErrorKind),
    Dependency(DependencyError),
}

/// A refused drop.
#[derive(Debug)]
pub enum DropError {
    Catalog(CatalogError),
    Dependency(DependencyError),
}

impl DropError {
    /// Why the drop was refused.
    pub open spec fn refusal(&self) -> DropRefusal {
        match self {
            DropError::Catalog(e) => DropRefusal::Catalog(e.kind),
            DropError::Dependency(e) => DropRefusal::Dependency(*e),
        }
    }
}

impl CatalogView {
    /// The versions that a drop of the version `target` puts a deletion
    /// marker on: with cascade `target` and whatever depends on it, directly
    /// or through other versions; without cascade `target` alone.
    pub open spec fn victims_of(self, target: CatalogEntryId, cascade: bool) -> Set<CatalogEntryId> {
        if cascade {
            Set::new(|id: CatalogEntryId| in_cascade(self.graph(), target, id))
        } else {
            set![target]
        }
    }

    /// Whether `txn` may put a deletion marker on the chain of the version
    /// `v`: whether it can see the newest version of the chain, if the chain
    /// is still there.
    pub open spec fn head_ready(self, v: CatalogEntryId, txn: Transaction) -> bool {
        let set = self.sets[Self::home(v)].set;
        set.head_of(set.entry(v).name@) matches Some(head) ==> set.entry(head).visible_to(txn)
    }

    /// Whether the object that the version `v` belongs to is dropped as far
    /// as `txn` can see.
    pub open spec fn dropped_for(self, v: CatalogEntryId, txn: Transaction) -> bool {
        let set = self.sets[Self::home(v)].set;
        self.contains(v) && set.lookup(set.entry(v).name@, txn) is None
    }

    /// Whether `txn` may drop `name` among the objects of `kind` in `schema`,
    /// or why not.
    pub open spec fn drop_verdict(
        self,
        schema: Seq<char>,
        kind: CatalogType,
        name: Seq<char>,
        txn: Transaction,
        cascade: bool,
    ) -> Result<(), DropRefusal> {
        match self.set_of(schema, kind) {
            None => Err(DropRefusal::Catalog(CatalogErrorKind::NotFound)),
            Some(k) => match self.sets[k].set.change_verdict(name, txn) {
                Err(why) => Err(DropRefusal::Catalog(why)),
                Ok(()) => {
                    let target = self.sets[k].set.head_of(name)->0;
                    let victims = self.victims_of(target, cascade);
                    if !cascade && !dependents_of(self.graph(), target).is_empty() {
                        Err(DropRefusal::Dependency(DependencyError::HasDependents))
                    } else if exists|v: CatalogEntryId|
                        victims.contains(v) && !#[trigger] self.head_ready(v, txn) {
                        Err(DropRefusal::Catalog(CatalogErrorKind::Conflict))
                    } else if exists|v: CatalogEntryId|
                        victims.contains(v) && (#[trigger] self.sets[Self::home(v)]).set.room()
                            < victims.len() {
                        Err(DropRefusal::Catalog(CatalogErrorKind::Other))
                    } else {
                        Ok(())
                    }
                },
            },
        }
    }

    /// Whether `after` is this catalog with deletion markers of `txn` put on
    /// some chains.
    pub open spec fn marked(self, after: CatalogView, txn: Transaction) -> bool {
        &&& self.same_shape(after)
        &&& after.edges == self.edges
        &&& forall|k: int|
            0 <= k < self.sets.len() ==> self.sets[k].set.marked((#[trigger] after.sets[k]).set, txn)
    }

    /// Whether one of `victims` is a version of `name` in the set at
    /// position `k`.
    pub open spec fn chain_among(self, victims: Seq<CatalogEntryId>, k: int, name: Seq<char>) -> bool {
        exists|i: int|
            0 <= i < victims.len() && Self::home(#[trigger] victims[i]) == k
                && self.sets[k].set.entry(victims[i]).name@ == name
    }

    /// Whether `after` is this catalog after `txn` has dropped the version
    /// `target`, `victims` being the versions whose objects are dropped with
    /// it, in the order of the cascade: each of their objects is dropped as
    /// far as `txn` can see, by one deletion marker at most, and no other
    /// chain has changed.
    pub open spec fn dropped(
        self,
        after: CatalogView,
        target: CatalogEntryId,
        txn: Transaction,
        cascade: bool,
        victims: Seq<CatalogEntryId>,
    ) -> bool {
        &&& self.marked(after, txn)
        &&& victims.no_duplicates()
        &&& victims.len() >= 1
        &&& victims[0] == target
        &&& forall|id: CatalogEntryId|
            #[trigger] victims.contains(id) <==> self.victims_of(target, cascade).contains(id)
        &&& cascade ==> crate::dependency_manager::is_cascade_order(self.edges, target, victims)
        &&& forall|id: CatalogEntryId| #[trigger] victims.contains(id) ==> after.dropped_for(id, txn)
        &&& forall|k: int, n: Seq<char>|
            0 <= k < self.sets.len() && (#[trigger] after.sets[k].set.head_of(n))
                != self.sets[k].set.head_of(n) ==> self.chain_among(victims, k, n)
    }

    /// A catalog is itself with no deletion marker added.
    pub proof fn lemma_marked_same(self, txn: Transaction)
        ensures
            self.marked(self, txn),
    {
        assert forall|k: int| 0 <= k < self.sets.len() implies self.sets[k].set.marked(
            (#[trigger] self.sets[k]).set,
            txn,
        ) by {
            self.sets[k].set.lemma_marked_same(txn);
        }
    }

    /// Deletion markers put on a catalog with deletion markers give a catalog
    /// with deletion markers.
    pub proof fn lemma_marked_twice(self, mid: CatalogView, after: CatalogView, txn: Transaction)
        requires
            self.wf(),
            mid.wf(),
            after.wf(),
            self.marked(mid, txn),
            mid.marked(after, txn),
        ensures
            self.marked(after, txn),
    {
        assert forall|k: int| 0 <= k < self.sets.len() implies self.sets[k].set.marked(
            (#[trigger] after.sets[k]).set,
            txn,
        ) by {
            assert(self.sets[k].set.marked(mid.sets[k].set, txn));
            assert(mid.sets[k].set.marked(after.sets[k].set, txn));
            assert(self.set_ok(k));
            assert(mid.set_ok(k));
            assert(after.set_ok(k));
            self.sets[k].set.lemma_marked_twice(mid.sets[k].set, after.sets[k].set, txn);
        }
        assert forall|k: int| 0 <= k < self.sets.len() implies (#[trigger] after.sets[k]).schema
            == self.sets[k].schema && after.sets[k].kind == self.sets[k].kind by {
            assert(mid.sets[k].schema == self.sets[k].schema);
        }
    }

    /// What is dropped as far as `txn` can see stays dropped when `txn` puts
    /// more deletion markers on the catalog.
    pub proof fn lemma_marked_keeps_dropped(
        self,
        after: CatalogView,
        txn: Transaction,
        v: CatalogEntryId,
    )
        requires
            self.marked(after, txn),
            self.dropped_for(v, txn),
        ensures
            after.dropped_for(v, txn),
    {
        let k = Self::home(v);
        assert(self.sets[k].set.marked(after.sets[k].set, txn));
        let n = self.sets[k].set.entry(v).name@;
        assert(after.sets[k].set.contains(v));
        assert(after.sets[k].set.lookup(n, txn) is None || after.sets[k].set.lookup(n, txn)
            == self.sets[k].set.lookup(n, txn));
    }

    /// A chain that `txn` may put a deletion marker on stays such a chain
    /// when `txn` puts deletion markers on the catalog.
    pub proof fn lemma_marked_keeps_ready(
        self,
        after: CatalogView,
        txn: Transaction,
        v: CatalogEntryId,
    )
        requires
            self.wf(),
            after.wf(),
            self.marked(after, txn),
            self.contains(v),
            self.head_ready(v, txn),
        ensures
            after.contains(v),
            after.head_ready(v, txn),
    {
        let k = Self::home(v);
        let before_set = self.sets[k].set;
        let after_set = after.sets[k].set;
        assert(before_set.marked(after_set, txn));
        let n = before_set.entry(v).name@;
        assert(after_set.contains(v));
        assert(after_set.head_of(n) == before_set.head_of(n) || (after_set.head_of(n) is Some
            && !before_set.contains(after_set.head_of(n)->0)));
        if let Some(head) = after_set.head_of(n) {
            if before_set.head_of(n) == Some(head) {
                assert(self.set_ok(k));
                let i = before_set.slot_of(n)->0;
                assert(before_set.head_ok(i));
                assert(before_set.contains(head));
                assert(after_set.contains(head));
            } else {
                assert(after.set_ok(k));
                let i = after_set.slot_of(n)->0;
                assert(after_set.head_ok(i));
                assert(after_set.contains(head) && !before_set.contains(head));
            }
        }
    }
}


impl CatalogView {
    /// In a well-formed catalog every version of a cascade from a version
    /// that exists does exist.
    pub proof fn lemma_cascade_live(self, target: CatalogEntryId, v: CatalogEntryId)
        requires
            self.wf(),
            self.contains(target),
            in_cascade(self.graph(), target, v),
        ensures
            self.contains(v),
    {
        let path = choose|path: Seq<CatalogEntryId>|
            crate::dependency_manager::is_cascade_path(self.graph(), path) && path[0] == target
                && #[trigger] path.last() == v;
        if path.len() > 1 {
            let k = path.len() - 2;
            assert(self.graph().contains(Dependency { dependent: path[k + 1], dependency: path[k] }));
        }
    }
}

impl Catalog {
    /// The position of the set that holds the existing version `v`.
    fn home_of(&self, v: CatalogEntryId) -> (k: usize)
        requires
            self.wf(),
            self@.contains(v),
        ensures
            k == CatalogView::home(v),
            k < self.sets@.len(),
            self.sets@[k as int].set.wf(),
            self.sets@[k as int].set@ == self@.sets[k as int].set,
            self.sets@[k as int].set@.contains(v),
    {
        let k: u64 = v / SET_ID_SPAN;
        proof {
            self.lemma_slot_view(k as int);
            assert(self@.set_ok(k as int));
        }
        k as usize
    }

    /// Whether `txn` may put a deletion marker on the chain of the existing
    /// version `v`.
    fn victim_ready(&self, v: CatalogEntryId, txn: &Transaction) -> (r: bool)
        requires
            self.wf(),
            self@.contains(v),
        ensures
            r == self@.head_ready(v, *txn),
    {
        let k = self.home_of(v);
        let name = match self.sets[k].set.entry(v) {
            Some(e) => e.name.clone(),
            None => String::new(),
        };
        match self.sets[k].set.head(name.as_str()) {
            Some(head) => {
                proof {
                    let set = self@.sets[k as int].set;
                    assert(set.head_ok(set.slot_of(name@)->0));
                }
                match self.sets[k].set.entry(head) {
                    Some(e) => e.is_visible_to(txn),
                    None => true,
                }
            },
            None => true,
        }
    }

    /// How many identifiers the set of the existing version `v` has left.
    fn victim_room(&self, v: CatalogEntryId) -> (r: u64)
        requires
            self.wf(),
            self@.contains(v),
        ensures
            r == self@.sets[CatalogView::home(v)].set.room(),
    {
        let k = self.home_of(v);
        self.sets[k].set.room()
    }

    /// Puts a deletion marker of `txn` on the chain of the existing version
    /// `v`, unless the chain is gone or ends in a deletion marker already.
    fn mark_victim(&mut self, v: CatalogEntryId, txn: &Transaction)
        requires
            old(self).wf(),
            old(self)@.contains(v),
            old(self)@.head_ready(v, *txn),
            old(self)@.sets[CatalogView::home(v)].set.room() >= 1,
        ensures
            final(self).wf(),
            old(self)@.marked(final(self)@, *txn),
            final(self)@.dropped_for(v, *txn),
            forall|k: int, n: Seq<char>|
                0 <= k < old(self)@.sets.len() && (#[trigger] final(self)@.sets[k].set.head_of(n))
                    != old(self)@.sets[k].set.head_of(n) ==> k == CatalogView::home(v) && n
                    == old(self)@.sets[k].set.entry(v).name@,
            forall|k: int|
                0 <= k < old(self)@.sets.len() ==> (#[trigger] final(self)@.sets[k]).set.room() >= old(self)@.sets[k].set.room() - if k == CatalogView::home(v) {
                    1int
                } else {
                    0int
                },
    {
        let ghost before = self@;
        let k = self.home_of(v);
        let name = match self.sets[k].set.entry(v) {
            Some(e) => e.name.clone(),
            None => String::new(),
        };
        let ghost before_set = before.sets[k as int].set;
        let live = match self.sets[k].set.head(name.as_str()) {
            Some(head) => {
                proof {
                    assert(before_set.head_ok(before_set.slot_of(name@)->0));
                }
                match self.sets[k].set.entry(head) {
                    Some(e) => !e.deleted,
                    None => false,
                }
            },
            None => false,
        };
        if live {
            let ghost slots = self.sets@;
            let r = self.sets[k].set.drop_entry(name.as_str(), txn);
            proof {
                let after = self@;
                let after_set = after.sets[k as int].set;
                self.lemma_slot_view(k as int);
                assert(r is Ok);
                let id = r->Ok_0;
                let kind = before_set.entry(before_set.head_of(name@)->0).type_;
                assert(before_set.pushed(after_set, id, name@, kind, true, *txn));
                assert forall|j: int| 0 <= j < self.sets@.len() && j != k implies after.sets[j]
                    == before.sets[j] by {
                    assert(self.sets@[j] == slots[j]);
                }
                let schema = before.sets[k as int].schema;
                let set_kind = before.sets[k as int].kind;
                before.lemma_set_unique(k as int, schema, set_kind);
                assert(after.sets[k as int].schema == schema);
                assert(after.sets[k as int].kind == set_kind);
                assert(before.pushed(
                    after,
                    id,
                    schema,
                    set_kind,
                    name@,
                    kind,
                    true,
                    *txn,
                ));
                before.lemma_pushed_wf(
                    after,
                    id,
                    schema,
                    set_kind,
                    name@,
                    kind,
                    true,
                    *txn,
                );
                before_set.lemma_marked_same(*txn);
                before_set.lemma_marked_step(after_set, *txn, id, name@);
                assert forall|j: int| 0 <= j < before.sets.len() implies before.sets[j].set.marked(
                    (#[trigger] after.sets[j]).set,
                    *txn,
                ) by {
                    if j != k {
                        before.sets[j].set.lemma_marked_same(*txn);
                    }
                }
                assert forall|j: int| 0 <= j < before.sets.len() implies (
                #[trigger] after.sets[j]).schema == before.sets[j].schema && after.sets[j].kind
                    == before.sets[j].kind by {
                    if j != k {
                        assert(after.sets[j] == before.sets[j]);
                    }
                }
                before_set.lemma_push_observed(after_set, id, name@, kind, true, *txn);
                assert(after_set.contains(v));
            }
        } else {
            proof {
                before.lemma_marked_same(*txn);
                if let Some(head) = before_set.head_of(name@) {
                    assert(before_set.visible_at(head, *txn) == Some(head));
                }
            }
        }
    }

    /// Drops `name` among the objects of `kind` in `schema` on behalf of
    /// `txn`. With `cascade`, whatever depends on the object, directly or
    /// through other objects, is dropped with it; without, the drop is
    /// refused with `HasDependents` if anything depends on the object. Each
    /// dropped object gets a deletion marker on top of its chain, so that the
    /// transactions that began before the drop keep what they saw. Returns
    /// the versions whose objects were dropped, the dropped version first,
    /// then its dependents breadth-first in the order in which the
    /// dependencies were recorded. A refusal changes nothing.
    pub fn drop_entry(
        &mut self,
        schema: &str,
        kind: CatalogType,
        name: &str,
        txn: &Transaction,
        cascade: bool,
    ) -> (r: Result<Vec<CatalogEntryId>, DropError>)
        requires
            old(self).wf(),
        ensures
            final(self).wf(),
            match old(self)@.drop_verdict(schema@, kind, name@, *txn, cascade) {
                Ok(()) => r matches Ok(victims) && old(self)@.dropped(
                    final(self)@,
                    old(self)@.sets[old(self)@.set_of(schema@, kind)->0].set.head_of(name@)->0,
                    *txn,
                    cascade,
                    victims@,
                ),
                Err(why) => r matches Err(e) && e.refusal() == why && final(self)@ == old(self)@,
            },
    {
        let ghost before = self@;
        let key = String::from_str(schema);
        let k = match self.find_set(&key, kind) {
            Some(k) => k,
            None => {
                return Err(
                    DropError::Catalog(
                        CatalogError::of_kind(
                            CatalogErrorKind::NotFound,
                            "Catalog entry with this name does not exist!",
                        ),
                    ),
                );
            },
        };
        proof {
            self.lemma_slot_view(k as int);
            assert(before.set_ok(k as int));
        }
        let ghost set = before.sets[k as int].set;
        let target = match self.sets[k].set.head(name) {
            Some(head) => head,
            None => {
                return Err(
                    DropError::Catalog(
                        CatalogError::of_kind(
                            CatalogErrorKind::NotFound,
                            "Catalog entry with this name does not exist!",
                        ),
                    ),
                );
            },
        };
        proof {
            assert(set.head_ok(set.slot_of(name@)->0));
            before.lemma_home(k as int, target);
        }
        match self.sets[k].set.entry(target) {
            Some(e) => {
                if !e.is_visible_to(txn) {
                    return Err(
                        DropError::Catalog(
                            CatalogError::of_kind(
                                CatalogErrorKind::Conflict,
                                "Catalog write-write conflict on drop!",
                            ),
                        ),
                    );
                }
                if e.deleted {
                    return Err(
                        DropError::Catalog(
                            CatalogError::of_kind(
                                CatalogErrorKind::NotFound,
                                "Catalog entry with this name does not exist!",
                            ),
                        ),
                    );
                }
            },
            None => {},
        }
        let ghost wanted = before.victims_of(target, cascade);
        proof {
            self.dependency_manager.lemma_order();
        }
        let victims = if cascade {
            self.dependency_manager.cascade(target)
        } else {
            if !self.dependency_manager.can_drop(target) {
                return Err(DropError::Dependency(DependencyError::HasDependents));
            }
            let mut only: Vec<CatalogEntryId> = Vec::new();
            only.push(target);
            only
        };
        proof {
            assert forall|id: CatalogEntryId| #[trigger] victims@.contains(id) <==> wanted.contains(
                id,
            ) by {
                if !cascade {
                    if victims@.contains(id) {
                        let i = choose|i: int| 0 <= i < victims@.len() && victims@[i] == id;
                    }
                    if id == target {
                        assert(victims@[0] == id);
                    }
                }
            }
            assert(victims@.to_set() =~= wanted);
            victims@.unique_seq_to_set();
            assert forall|i: int| 0 <= i < victims@.len() implies before.contains(
                #[trigger] victims@[i],
            ) by {
                assert(victims@.contains(victims@[i]));
                if cascade {
                    before.lemma_cascade_live(target, victims@[i]);
                }
            }
        }
        let count: usize = victims.len();
        let mut i: usize = 0;
        while i < count
            invariant
                self.wf(),
                self@ == before,
                count == victims@.len(),
                i <= count,
                before.set_of(schema@, kind) == Some(k as int),
                before.sets[k as int].set.change_verdict(name@, *txn) is Ok,
                before.sets[k as int].set.head_of(name@) == Some(target),
                cascade || dependents_of(before.graph(), target).is_empty(),
                wanted == before.victims_of(target, cascade),
                wanted.len() == count,
                forall|id: CatalogEntryId| #[trigger] victims@.contains(id) <==> wanted.contains(id),
                forall|j: int| 0 <= j < victims@.len() ==> before.contains(#[trigger] victims@[j]),
                forall|j: int| 0 <= j < i ==> before.head_ready(#[trigger] victims@[j], *txn),
            decreases count - i,
        {
            if !self.victim_ready(victims[i], txn) {
                proof {
                    assert(victims@.contains(victims@[i as int]));
                    assert(wanted.contains(victims@[i as int]));
                }
                return Err(
                    DropError::Catalog(
                        CatalogError::of_kind(
                            CatalogErrorKind::Conflict,
                            "Catalog write-write conflict on drop!",
                        ),
                    ),
                );
            }
            i += 1;
        }
        proof {
            assert forall|v: CatalogEntryId| wanted.contains(v) implies #[trigger] before.head_ready(
                v,
                *txn,
            ) by {
                assert(victims@.contains(v));
                let j = choose|j: int| 0 <= j < victims@.len() && victims@[j] == v;
                assert(before.head_ready(victims@[j], *txn));
            }
        }
        let mut i: usize = 0;
        while i < count
            invariant
                self.wf(),
                self@ == before,
                count == victims@.len(),
                i <= count,
                before.set_of(schema@, kind) == Some(k as int),
                before.sets[k as int].set.change_verdict(name@, *txn) is Ok,
                before.sets[k as int].set.head_of(name@) == Some(target),
                cascade || dependents_of(before.graph(), target).is_empty(),
                wanted == before.victims_of(target, cascade),
                wanted.len() == count,
                forall|id: CatalogEntryId| #[trigger] victims@.contains(id) <==> wanted.contains(id),
                forall|v: CatalogEntryId|
                    wanted.contains(v) ==> #[trigger] before.head_ready(v, *txn),
                forall|j: int| 0 <= j < victims@.len() ==> before.contains(#[trigger] victims@[j]),
                forall|j: int|
                    0 <= j < i ==> (#[trigger] before.sets[CatalogView::home(victims@[j])]).set.room()
                        >= count,
            decreases count - i,
        {
            if self.victim_room(victims[i]) < count as u64 {
                proof {
                    assert(victims@.contains(victims@[i as int]));
                    assert(wanted.contains(victims@[i as int]));
                }
                return Err(DropError::Catalog(Self::full()));
            }
            i += 1;
        }
        proof {
            assert forall|v: CatalogEntryId| wanted.contains(v) implies (
            #[trigger] before.sets[CatalogView::home(v)]).set.room() >= wanted.len() by {
                assert(victims@.contains(v));
                let j = choose|j: int| 0 <= j < victims@.len() && victims@[j] == v;
                assert(before.sets[CatalogView::home(victims@[j])].set.room() >= count);
            }
            before.lemma_marked_same(*txn);
        }
        let mut i: usize = 0;
        while i < count
            invariant
                before.wf(),
                self.wf(),
                before.marked(self@, *txn),
                count == victims@.len(),
                i <= count,
                forall|j: int|
                    0 <= j < victims@.len() ==> before.contains(#[trigger] victims@[j])
                        && before.head_ready(victims@[j], *txn),
                forall|j: int| 0 <= j < i ==> self@.dropped_for(#[trigger] victims@[j], *txn),
                forall|s: int, n: Seq<char>|
                    0 <= s < before.sets.len() && (#[trigger] self@.sets[s].set.head_of(n))
                        != before.sets[s].set.head_of(n) ==> before.chain_among(
                        victims@.take(i as int),
                        s,
                        n,
                    ),
                forall|j: int|
                    0 <= j < victims@.len() ==> (#[trigger] self@.sets[CatalogView::home(
                        victims@[j],
                    )]).set.room() >= count - i,
            decreases count - i,
        {
            let ghost mid = self@;
            let v = victims[i];
            proof {
                before.lemma_marked_keeps_ready(mid, *txn, v);
                assert(mid.sets[CatalogView::home(victims@[i as int])].set.room() >= count - i);
            }
            self.mark_victim(v, txn);
            proof {
                let now = self@;
                before.lemma_marked_twice(mid, now, *txn);
                assert forall|s: int, n: Seq<char>|
                    0 <= s < before.sets.len() && (#[trigger] now.sets[s].set.head_of(n))
                        != before.sets[s].set.head_of(n) implies before.chain_among(
                    victims@.take(i + 1),
                    s,
                    n,
                ) by {
                    let done = victims@.take(i as int);
                    let more = victims@.take(i + 1);
                    if mid.sets[s].set.head_of(n) != before.sets[s].set.head_of(n) {
                        assert(before.chain_among(done, s, n));
                        let j = choose|j: int|
                            0 <= j < done.len() && CatalogView::home(#[trigger] done[j]) == s
                                && before.sets[s].set.entry(done[j]).name@ == n;
                        assert(more[j] == done[j]);
                    } else {
                        assert(now.sets[s].set.head_of(n) != mid.sets[s].set.head_of(n));
                        assert(more[i as int] == v);
                        assert(before.sets[s].set.marked(mid.sets[s].set, *txn));
                        assert(before.sets[s].set.contains(v));
                    }
                }
                assert forall|j: int| 0 <= j < i + 1 implies now.dropped_for(
                    #[trigger] victims@[j],
                    *txn,
                ) by {
                    if j < i {
                        mid.lemma_marked_keeps_dropped(now, *txn, victims@[j]);
                    }
                }
                assert forall|j: int| 0 <= j < victims@.len() implies (
                #[trigger] now.sets[CatalogView::home(victims@[j])]).set.room() >= count - (i
                    + 1) by {
                    let h = CatalogView::home(victims@[j]);
                    assert(before.contains(victims@[j]));
                    assert(mid.sets[h].set.room() >= count - i);
                    assert(now.sets[h].set.room() >= mid.sets[h].set.room() - if h
                        == CatalogView::home(v) {
                        1int
                    } else {
                        0int
                    });
                }
            }
            i += 1;
        }
        proof {
            assert forall|id: CatalogEntryId| #[trigger] victims@.contains(id) implies self@.dropped_for(
                id,
                *txn,
            ) by {
                let j = choose|j: int| 0 <= j < victims@.len() && victims@[j] == id;
                assert(self@.dropped_for(victims@[j], *txn));
            }
            assert(victims@.take(count as int) =~= victims@);
        }
        Ok(victims)
    }
}


impl CatalogView {
    /// Whether `txn` may alter `name` among the objects of `kind` in
    /// `schema` as `info` says, or why not.
    pub open spec fn alter_verdict(
        self,
        schema: Seq<char>,
        kind: CatalogType,
        name: Seq<char>,
        info: AlterInfo,
        txn: Transaction,
    ) -> Result<BaseCatalogEntry, CatalogErrorKind> {
        match self.set_of(schema, kind) {
            None => Err(CatalogErrorKind::NotFound),
            Some(k) => if !self.sets[k].set.has_room() {
                Err(CatalogErrorKind::Other)
            } else {
                match self.sets[k].set.change_verdict(name, txn) {
                    Err(why) => Err(why),
                    Ok(()) => match self.sets[k].set.entry(
                        self.sets[k].set.head_of(name)->0,
                    ).altered(info) {
                        Some(next) => Ok(next),
                        None => Err(CatalogErrorKind::UnsupportedAlter),
                    },
                }
            },
        }
    }

    /// No dependency is left that begins or ends at a version that has been
    /// reclaimed: in a well-formed catalog both ends of every dependency
    /// exist.
    pub proof fn lemma_no_dangling_dependency(self, e: Dependency)
        requires
            self.wf(),
            self.graph().contains(e),
        ensures
            self.contains(e.dependent),
            self.contains(e.dependency),
    {
    }

    /// A drop leaves alone what every other transaction finds: until the
    /// dropping transaction commits, the objects that it dropped are there
    /// for everybody else.
    pub proof fn lemma_drop_unobserved(
        self,
        after: CatalogView,
        target: CatalogEntryId,
        txn: Transaction,
        cascade: bool,
        victims: Seq<CatalogEntryId>,
        schema: Seq<char>,
        kind: CatalogType,
        name: Seq<char>,
        reader: Transaction,
    )
        requires
            self.wf(),
            self.dropped(after, target, txn, cascade, victims),
            reader.transaction_id != txn.transaction_id,
        ensures
            after.lookup(schema, kind, name, reader) == self.lookup(schema, kind, name, reader),
    {
        assert(after.sets.len() == self.sets.len());
        assert forall|k: int| set_at(after.sets, k, schema, kind) == set_at(
            self.sets,
            k,
            schema,
            kind,
        ) by {
            if 0 <= k < self.sets.len() {
                assert(after.sets[k].schema == self.sets[k].schema);
            }
        }
        if exists|k: int| set_at(self.sets, k, schema, kind) {
            let k = choose|k: int| set_at(self.sets, k, schema, kind);
            self.lemma_set_unique(k, schema, kind);
            assert(set_at(after.sets, k, schema, kind));
            let j = choose|j: int| set_at(after.sets, j, schema, kind);
            assert(set_at(self.sets, j, schema, kind));
            self.lemma_set_unique(j, schema, kind);
            assert(self.sets[k].set.marked(after.sets[k].set, txn));
        } else {
            if exists|j: int| set_at(after.sets, j, schema, kind) {
                let j = choose|j: int| set_at(after.sets, j, schema, kind);
                assert(set_at(self.sets, j, schema, kind));
            }
        }
    }
}

impl Catalog {
    /// Alters `name` among the objects of `kind` in `schema` on behalf of
    /// `txn`: the version that the newest version turns into under `info`
    /// becomes the head of the name's chain. Refused with `NotFound` if there
    /// is no such object for `txn`, with `Conflict` if `txn` cannot see the
    /// newest version, with `UnsupportedAlter` if the newest version supports
    /// no such statement, and with `Other` if the catalog is full. A refusal
    /// changes nothing.
    pub fn alter_entry(
        &mut self,
        schema: &str,
        kind: CatalogType,
        name: &str,
        context: &ClientContext,
        info: &AlterInfo,
        txn: &Transaction,
    ) -> (r: Result<CatalogEntryId, CatalogError>)
        requires
            old(self).wf(),
        ensures
            final(self).wf(),
            match old(self)@.alter_verdict(schema@, kind, name@, *info, *txn) {
                Ok(next) => r matches Ok(id) && old(self)@.pushed(
                    final(self)@,
                    id,
                    schema@,
                    kind,
                    name@,
                    next.type_,
                    false,
                    *txn,
                ),
                Err(why) => r matches Err(e) && e.kind == why && final(self)@ == old(self)@,
            },
    {
        let ghost before = self@;
        let key = String::from_str(schema);
        let k = match self.find_set(&key, kind) {
            Some(k) => k,
            None => {
                return Err(
                    CatalogError::of_kind(
                        CatalogErrorKind::NotFound,
                        "Catalog entry with this name does not exist!",
                    ),
                );
            },
        };
        proof {
            self.lemma_slot_view(k as int);
            assert(before.set_ok(k as int));
        }
        if !self.sets[k].set.has_room() {
            return Err(Self::full());
        }
        let ghost slots = self.sets@;
        let r = self.sets[k].set.alter_entry(name, context, info, txn);
        proof {
            let after = self@;
            self.lemma_slot_view(k as int);
            assert forall|j: int| 0 <= j < self.sets@.len() && j != k implies after.sets[j]
                == before.sets[j] by {
                assert(self.sets@[j] == slots[j]);
            }
            match r {
                Ok(id) => {
                    let next = before.sets[k as int].set.entry(
                        before.sets[k as int].set.head_of(name@)->0,
                    ).altered(*info)->0;
                    before.lemma_pushed_wf(
                        after,
                        id,
                        schema@,
                        kind,
                        name@,
                        next.type_,
                        false,
                        *txn,
                    );
                },
                Err(_) => {
                    assert(after.sets =~= before.sets);
                },
            }
        }
        r
    }
}


impl CatalogView {
    /// Whether `after` is this catalog after transaction `writer` has
    /// committed at `timestamp` and what no transaction from `horizon` on
    /// can observe has been reclaimed.
    pub open spec fn committed_then_collected(
        self,
        after: CatalogView,
        writer: TransactionId,
        timestamp: TransactionId,
        horizon: TransactionId,
    ) -> bool {
        exists|mid: CatalogView|
            #[trigger] self.committed(mid, writer, timestamp) && mid.wf() && mid.collected(
                after,
                horizon,
            )
    }

    /// Whether `after` is this catalog after the uncommitted work of
    /// `writer` has been undone and what no transaction from `horizon` on can
    /// observe has been reclaimed.
    pub open spec fn rolled_back_then_collected(
        self,
        after: CatalogView,
        writer: TransactionId,
        horizon: TransactionId,
    ) -> bool {
        exists|mid: CatalogView|
            #[trigger] self.rolled_back(mid, writer) && mid.wf() && mid.collected(after, horizon)
    }

    /// A catalog that is settled by a timestamp is settled by every later
    /// one.
    pub proof fn lemma_settled_later(self, timestamp: TransactionId, later: TransactionId)
        requires
            self.settled_by(timestamp),
            timestamp <= later,
        ensures
            self.settled_by(later),
    {
        assert forall|k: int| 0 <= k < self.sets.len() implies (
        #[trigger] self.sets[k]).set.settled_by(later) by {
            self.sets[k].set.lemma_settled_later(timestamp, later);
        }
    }

    /// A version put on a chain by a writer that started before the
    /// timestamp leaves the catalog settled.
    pub proof fn lemma_pushed_settled(
        self,
        after: CatalogView,
        id: CatalogEntryId,
        schema: Seq<char>,
        kind: CatalogType,
        name: Seq<char>,
        version_kind: CatalogType,
        deleted: bool,
        writer: Transaction,
        timestamp: TransactionId,
    )
        requires
            self.wf(),
            after.wf(),
            self.pushed(after, id, schema, kind, name, version_kind, deleted, writer),
            self.settled_by(timestamp),
            writer.start_timestamp < timestamp,
        ensures
            after.settled_by(timestamp),
    {
        let k = self.target_of(schema, kind);
        assert forall|j: int| 0 <= j < after.sets.len() implies (
        #[trigger] after.sets[j]).set.settled_by(timestamp) by {
            assert(after.set_ok(j));
            if j != k {
                assert(after.sets[j] == self.sets[j]);
            } else {
                let before_set = self.set_or_empty(schema, kind);
                let after_set = after.sets[k].set;
                assert(before_set.stamps_kept(after_set, timestamp)) by {
                    assert forall|x: CatalogEntryId| #[trigger]
                        after_set.contains(x) implies crate::catalog_set::within(after_set.entry(x), timestamp) || (
                    before_set.contains(x) && before_set.entry(x).committed == after_set.entry(x).committed
                        && before_set.entry(x).timestamp == after_set.entry(x).timestamp) by {
                        if x != id {
                            assert(after_set.contains(x) == before_set.contains(x));
                        }
                    }
                }
                before_set.lemma_stamps_kept(after_set, timestamp);
            }
        }
    }

    /// Deletion markers of a transaction that started before the timestamp
    /// leave the catalog settled.
    pub proof fn lemma_marked_settled(
        self,
        after: CatalogView,
        txn: Transaction,
        timestamp: TransactionId,
    )
        requires
            self.wf(),
            after.wf(),
            self.marked(after, txn),
            self.settled_by(timestamp),
            txn.start_timestamp < timestamp,
        ensures
            after.settled_by(timestamp),
    {
        assert forall|j: int| 0 <= j < after.sets.len() implies (
        #[trigger] after.sets[j]).set.settled_by(timestamp) by {
            assert(after.set_ok(j));
            let before_set = self.sets[j].set;
            let after_set = after.sets[j].set;
            assert(before_set.marked(after_set, txn));
            assert(before_set.stamps_kept(after_set, timestamp)) by {
                assert forall|x: CatalogEntryId| #[trigger]
                    after_set.contains(x) implies crate::catalog_set::within(after_set.entry(x), timestamp) || (
                before_set.contains(x) && before_set.entry(x).committed == after_set.entry(x).committed
                    && before_set.entry(x).timestamp == after_set.entry(x).timestamp) by {
                    if !before_set.contains(x) {
                        assert(after_set.contains(x) && !before_set.contains(x));
                    }
                }
            }
            before_set.lemma_stamps_kept(after_set, timestamp);
        }
    }

    /// Rollback commits nothing: the catalog stays settled.
    pub proof fn lemma_rolled_back_settled(
        self,
        after: CatalogView,
        writer: TransactionId,
        timestamp: TransactionId,
    )
        requires
            self.wf(),
            after.wf(),
            self.rolled_back(after, writer),
            self.settled_by(timestamp),
        ensures
            after.settled_by(timestamp),
    {
        assert forall|j: int| 0 <= j < after.sets.len() implies (
        #[trigger] after.sets[j]).set.settled_by(timestamp) by {
            assert(after.set_ok(j));
            let before_set = self.sets[j].set;
            let after_set = after.sets[j].set;
            assert(before_set.rolled_back(after_set, writer));
            assert(before_set.stamps_kept(after_set, timestamp)) by {
                assert forall|x: CatalogEntryId| #[trigger]
                    after_set.contains(x) implies crate::catalog_set::within(after_set.entry(x), timestamp) || (
                before_set.contains(x) && before_set.entry(x).committed == after_set.entry(x).committed
                    && before_set.entry(x).timestamp == after_set.entry(x).timestamp) by {
                    assert(crate::catalog_set::same_but_parent(
                        after_set.entry(x),
                        before_set.entry(x),
                    ));
                }
            }
            before_set.lemma_stamps_kept(after_set, timestamp);
        }
    }

    /// Reclaiming commits nothing: the catalog stays settled.
    pub proof fn lemma_collected_settled(
        self,
        after: CatalogView,
        horizon: TransactionId,
        timestamp: TransactionId,
    )
        requires
            self.wf(),
            after.wf(),
            self.collected(after, horizon),
            self.settled_by(timestamp),
        ensures
            after.settled_by(timestamp),
    {
        assert forall|j: int| 0 <= j < after.sets.len() implies (
        #[trigger] after.sets[j]).set.settled_by(timestamp) by {
            assert(after.set_ok(j));
            let before_set = self.sets[j].set;
            let after_set = after.sets[j].set;
            assert(before_set.collected(after_set, horizon));
            assert(before_set.stamps_kept(after_set, timestamp)) by {
                assert forall|x: CatalogEntryId| #[trigger]
                    after_set.contains(x) implies crate::catalog_set::within(after_set.entry(x), timestamp) || (
                before_set.contains(x) && before_set.entry(x).committed == after_set.entry(x).committed
                    && before_set.entry(x).timestamp == after_set.entry(x).timestamp) by {
                    assert(after_set.entries[x - after_set.id_base] is Some);
                }
            }
            before_set.lemma_stamps_kept(after_set, timestamp);
        }
    }
}

} // verus!
