//! The dependencies between catalog entries: which entries must go before an
//! entry can be dropped, and which entries go with it in a cascade.

use vstd::prelude::*;
use crate::catalog_entry::CatalogEntryId;

verus! {

/// Why a drop was refused.
#[derive(Debug, Clone, Copy, PartialEq, Eq, Structural)]
pub enum DependencyError {
    /// Other entries depend on the entry, and no cascade was asked for.
    HasDependents,
}

/// One edge of the dependency graph: `dependent` depends on `dependency`.
#[derive(Debug, Clone, Copy, PartialEq, Eq, Structural)]
pub struct Dependency {
    pub dependent: CatalogEntryId,
    pub dependency: CatalogEntryId,
}

/// The dependency graph as the set of its edges.
pub type DependencyGraph = Set<Dependency>;

/// The entries that depend on `entry`: they must be dropped before it, or go
/// with it in a cascade.
pub open spec fn dependents_of(graph: DependencyGraph, entry: CatalogEntryId) -> Set<
    CatalogEntryId,
> {
    Set::new(
        |dependent: CatalogEntryId| graph.contains(Dependency { dependent, dependency: entry }),
    )
}

/// The entries that `entry` depends on.
pub open spec fn dependencies_of(graph: DependencyGraph, entry: CatalogEntryId) -> Set<
    CatalogEntryId,
> {
    Set::new(
        |dependency: CatalogEntryId| graph.contains(Dependency { dependent: entry, dependency }),
    )
}

/// The two directions of the graph are inverses of each other: `b` is among
/// the dependents of `a` exactly if `a` is among the dependencies of `b`.
pub proof fn lemma_mutual_inverses(graph: DependencyGraph, a: CatalogEntryId, b: CatalogEntryId)
    ensures
        dependents_of(graph, a).contains(b) <==> dependencies_of(graph, b).contains(a),
{
}

/// Whether each entry of `path` but the first depends on the entry before it.
pub open spec fn is_cascade_path(graph: DependencyGraph, path: Seq<CatalogEntryId>) -> bool {
    &&& path.len() >= 1
    &&& forall|k: int|
        0 <= k < path.len() - 1 ==> graph.contains(
            Dependency { dependent: #[trigger] path[k + 1], dependency: path[k] },
        )
}

/// Whether `entry` is `root` or depends on it, directly or through other
/// entries: whether a cascade from `root` takes `entry` with it.
pub open spec fn in_cascade(
    graph: DependencyGraph,
    root: CatalogEntryId,
    entry: CatalogEntryId,
) -> bool {
    exists|path: Seq<CatalogEntryId>|
        is_cascade_path(graph, path) && path[0] == root && #[trigger] path.last() == entry
}

/// The root is in its own cascade.
pub proof fn lemma_cascade_root(graph: DependencyGraph, root: CatalogEntryId)
    ensures
        in_cascade(graph, root, root),
{
    let path = seq![root];
    assert(is_cascade_path(graph, path) && path[0] == root && path.last() == root);
}

/// What depends on an entry of a cascade is in the cascade.
pub proof fn lemma_cascade_step(
    graph: DependencyGraph,
    root: CatalogEntryId,
    entry: CatalogEntryId,
    dependent: CatalogEntryId,
)
    requires
        in_cascade(graph, root, entry),
        graph.contains(Dependency { dependent, dependency: entry }),
    ensures
        in_cascade(graph, root, dependent),
{
    let path = choose|path: Seq<CatalogEntryId>|
        is_cascade_path(graph, path) && path[0] == root && #[trigger] path.last() == entry;
    let longer = path.push(dependent);
    assert forall|k: int| 0 <= k < longer.len() - 1 implies graph.contains(
        Dependency { dependent: #[trigger] longer[k + 1], dependency: longer[k] },
    ) by {
        if k < path.len() - 1 {
            assert(longer[k + 1] == path[k + 1]);
        }
    }
    assert(is_cascade_path(graph, longer) && longer[0] == root && longer.last() == dependent);
}

/// A set of entries that holds the root and, with each entry, what depends
/// on it, holds the whole cascade.
pub proof fn lemma_cascade_closed(
    graph: DependencyGraph,
    root: CatalogEntryId,
    closed: Set<CatalogEntryId>,
    entry: CatalogEntryId,
)
    requires
        closed.contains(root),
        forall|dependent: CatalogEntryId, dependency: CatalogEntryId|
            closed.contains(dependency) && #[trigger] graph.contains(
                Dependency { dependent, dependency },
            ) ==> closed.contains(dependent),
        in_cascade(graph, root, entry),
    ensures
        closed.contains(entry),
{
    let path = choose|path: Seq<CatalogEntryId>|
        is_cascade_path(graph, path) && path[0] == root && #[trigger] path.last() == entry;
    lemma_path_in_closed(graph, closed, path, path.len() - 1);
}

proof fn lemma_path_in_closed(
    graph: DependencyGraph,
    closed: Set<CatalogEntryId>,
    path: Seq<CatalogEntryId>,
    k: int,
)
    requires
        is_cascade_path(graph, path),
        closed.contains(path[0]),
        forall|dependent: CatalogEntryId, dependency: CatalogEntryId|
            closed.contains(dependency) && #[trigger] graph.contains(
                Dependency { dependent, dependency },
            ) ==> closed.contains(dependent),
        0 <= k < path.len(),
    ensures
        closed.contains(path[k]),
    decreases k,
{
    if k > 0 {
        lemma_path_in_closed(graph, closed, path, k - 1);
        assert(graph.contains(Dependency { dependent: path[k - 1 + 1], dependency: path[k - 1] }));
    }
}

/// The dependencies between catalog entries.
pub struct DependencyManager {
    /// The edges, in the order in which they were added, each once.
    edges: Vec<Dependency>,
}

impl DependencyManager {
    /// The edges of the graph.
    pub closed spec fn view(&self) -> DependencyGraph {
        self.edges@.to_set()
    }

    /// The edges in the order in which they were added.
    pub closed spec fn order(&self) -> Seq<Dependency> {
        self.edges@
    }

    /// The invariant: no edge is recorded twice.
    pub closed spec fn wf(&self) -> bool {
        self.edges@.no_duplicates()
    }

    /// The recorded order holds exactly the edges of the graph, each once.
    pub proof fn lemma_order(&self)
        requires
            self.wf(),
        ensures
            self.order().no_duplicates(),
            self.order().to_set() == self@,
            self@.finite(),
            self@.len() == self.order().len(),
    {
        self.edges@.unique_seq_to_set();
        vstd::seq_lib::seq_to_set_is_finite(self.edges@);
    }

    /// A graph without edges.
    pub fn new() -> (manager: Self)
        ensures
            manager.wf(),
            manager@ == Set::<Dependency>::empty(),
            manager.order() == Seq::<Dependency>::empty(),
    {
        let manager = DependencyManager { edges: Vec::new() };
        assert(manager.edges@.to_set() =~= Set::<Dependency>::empty());
        manager
    }

    /// The number of edges.
    pub fn len(&self) -> (n: usize)
        ensures
            n == self.order().len(),
    {
        self.edges.len()
    }

    /// Whether `dependent` is recorded to depend on `dependency`.
    pub fn depends_on(&self, dependent: CatalogEntryId, dependency: CatalogEntryId) -> (r: bool)
        ensures
            r == self@.contains(Dependency { dependent, dependency }),
    {
        let edge = Dependency { dependent, dependency };
        let mut i: usize = 0;
        while i < self.edges.len()
            invariant
                i <= self.edges@.len(),
                edge == (Dependency { dependent, dependency }),
                forall|k: int| 0 <= k < i ==> #[trigger] self.edges@[k] != edge,
            decreases self.edges@.len() - i,
        {
            let e = self.edges[i];
            if e.dependent == dependent && e.dependency == dependency {
                assert(self.edges@[i as int] == edge);
                assert(self.edges@.contains(edge));
                return true;
            }
            assert(self.edges@[i as int] != edge);
            i += 1;
        }
        assert(!self.edges@.contains(edge));
        false
    }

    /// Records that `dependent` depends on `dependency`. Recording an edge
    /// again changes nothing.
    pub fn add_dependency(&mut self, dependent: CatalogEntryId, dependency: CatalogEntryId)
        requires
            old(self).wf(),
        ensures
            final(self).wf(),
            final(self)@ == old(self)@.insert(Dependency { dependent, dependency }),
            final(self).order() == if old(self)@.contains(Dependency { dependent, dependency }) {
                old(self).order()
            } else {
                old(self).order().push(Dependency { dependent, dependency })
            },
    {
        let edge = Dependency { dependent, dependency };
        if !self.depends_on(dependent, dependency) {
            self.edges.push(edge);
            proof {
                old(self).edges@.lemma_push_to_set_commute(edge);
            }
        } else {
            assert(self@.insert(edge) =~= self@);
        }
    }

    /// Whether nothing depends on `entry`, so that it can be dropped alone.
    pub fn can_drop(&self, entry: CatalogEntryId) -> (r: bool)
        ensures
            r == dependents_of(self@, entry).is_empty(),
    {
        let mut i: usize = 0;
        while i < self.edges.len()
            invariant
                i <= self.edges@.len(),
                forall|k: int| 0 <= k < i ==> (#[trigger] self.edges@[k]).dependency != entry,
            decreases self.edges@.len() - i,
        {
            if self.edges[i].dependency == entry {
                proof {
                    let e = self.edges@[i as int];
                    assert(self.edges@.contains(e));
                    assert(dependents_of(self@, entry).contains(e.dependent));
                }
                return false;
            }
            i += 1;
        }
        proof {
            assert forall|d: CatalogEntryId| !dependents_of(self@, entry).contains(d) by {
                let edge = Dependency { dependent: d, dependency: entry };
                if self.edges@.contains(edge) {
                    let k = choose|k: int| 0 <= k < self.edges@.len() && self.edges@[k] == edge;
                    assert(self.edges@[k].dependency == entry);
                }
            }
            assert(dependents_of(self@, entry) =~= Set::<CatalogEntryId>::empty());
        }
        true
    }

    /// Decides a drop without cascade: refused if anything depends on
    /// `entry`.
    pub fn check_drop(&self, entry: CatalogEntryId) -> (r: Result<(), DependencyError>)
        ensures
            r == if dependents_of(self@, entry).is_empty() {
                Ok::<(), DependencyError>(())
            } else {
                Err::<(), DependencyError>(DependencyError::HasDependents)
            },
    {
        if self.can_drop(entry) {
            Ok(())
        } else {
            Err(DependencyError::HasDependents)
        }
    }
}


/// The dependents of `entry` among `edges`, in the order of the edges.
pub open spec fn dependents_in_order(edges: Seq<Dependency>, entry: CatalogEntryId) -> Seq<
    CatalogEntryId,
>
    decreases edges.len(),
{
    if edges.len() == 0 {
        Seq::empty()
    } else {
        let before = dependents_in_order(edges.drop_last(), entry);
        if edges.last().dependency == entry {
            before.push(edges.last().dependent)
        } else {
            before
        }
    }
}

/// The ordered dependents are the dependents, each once.
pub proof fn lemma_dependents_in_order(edges: Seq<Dependency>, entry: CatalogEntryId)
    requires
        edges.no_duplicates(),
    ensures
        dependents_in_order(edges, entry).no_duplicates(),
        forall|d: CatalogEntryId|
            #[trigger] dependents_in_order(edges, entry).contains(d) <==> edges.contains(
                Dependency { dependent: d, dependency: entry },
            ),
    decreases edges.len(),
{
    if edges.len() > 0 {
        let front = edges.drop_last();
        let last = edges.last();
        lemma_dependents_in_order(front, entry);
        let before = dependents_in_order(front, entry);
        let all = dependents_in_order(edges, entry);
        assert forall|d: CatalogEntryId| #[trigger]
            all.contains(d) <==> edges.contains(Dependency { dependent: d, dependency: entry }) by {
            let edge = Dependency { dependent: d, dependency: entry };
            if edges.contains(edge) {
                let k = choose|k: int| 0 <= k < edges.len() && edges[k] == edge;
                if k < front.len() {
                    assert(front[k] == edge);
                    assert(front.contains(edge));
                    assert(before.contains(d));
                    let m = choose|m: int| 0 <= m < before.len() && before[m] == d;
                    assert(all[m] == d);
                } else {
                    assert(all[all.len() - 1] == d);
                }
            }
            if all.contains(d) {
                let m = choose|m: int| 0 <= m < all.len() && all[m] == d;
                if m < before.len() {
                    assert(before[m] == d);
                    assert(before.contains(d));
                    let k = choose|k: int| 0 <= k < front.len() && front[k] == edge;
                    assert(edges[k] == edge);
                } else {
                    assert(edges[edges.len() - 1] == edge);
                }
            }
        }
        if last.dependency == entry {
            assert forall|a: int, b: int| 0 <= a < b < all.len() implies all[a] != all[b] by {
                if b == before.len() {
                    assert(before[a] == all[a]);
                    assert(before.contains(all[a]));
                    if all[a] == all[b] {
                        let k = choose|k: int| 0 <= k < front.len() && front[k] == last;
                        assert(edges[k] == edges[edges.len() - 1]);
                    }
                } else {
                    assert(before[a] != before[b]);
                }
            }
        }
    }
}

/// Whether the entry at position `k` of `order` depends on the entry at
/// position `j` by the edge at position `e` of `edges`.
pub open spec fn met_by(
    edges: Seq<Dependency>,
    order: Seq<CatalogEntryId>,
    k: int,
    j: int,
    e: int,
) -> bool {
    &&& 0 <= j < order.len()
    &&& 0 <= e < edges.len()
    &&& edges[e] == (Dependency { dependent: order[k], dependency: order[j] })
}

/// Whether a traversal that takes the entries of `order` in turn, and the
/// edges that end at each in the order of `edges`, has met the entry at
/// position `k` before it comes to the edge `e` of the entry at position `j`.
pub open spec fn met_before(
    edges: Seq<Dependency>,
    order: Seq<CatalogEntryId>,
    k: int,
    j: int,
    e: int,
) -> bool {
    exists|j2: int, e2: int| #[trigger]
        met_by(edges, order, k, j2, e2) && (j2 < j || (j2 == j && e2 < e))
}

/// Whether `order` is breadth-first: every entry but the first depends on
/// one that stands before it, and the entries stand in the order in which
/// the traversal meets them first.
pub open spec fn breadth_first(edges: Seq<Dependency>, order: Seq<CatalogEntryId>) -> bool {
    &&& forall|k: int| 1 <= k < order.len() ==> #[trigger] met_before(edges, order, k, k, 0)
    &&& forall|a: int, b: int, j: int, e: int|
        #![trigger met_by(edges, order, b, j, e), met_before(edges, order, a, j, e)]
        1 <= a < b < order.len() && met_by(edges, order, b, j, e) ==> met_before(
            edges,
            order,
            a,
            j,
            e,
        )
}

/// Whether `order` is the cascade from `root` over `edges`: `root` first,
/// then whatever depends on it, directly or through other entries, each
/// once and breadth-first.
pub open spec fn is_cascade_order(
    edges: Seq<Dependency>,
    root: CatalogEntryId,
    order: Seq<CatalogEntryId>,
) -> bool {
    &&& order.len() >= 1
    &&& order[0] == root
    &&& order.no_duplicates()
    &&& forall|id: CatalogEntryId| #[trigger]
        order.contains(id) <==> in_cascade(edges.to_set(), root, id)
    &&& breadth_first(edges, order)
}

/// An entry that is met is met first by some edge.
proof fn lemma_first_meeting(
    edges: Seq<Dependency>,
    order: Seq<CatalogEntryId>,
    k: int,
    j: int,
    e: int,
)
    requires
        met_by(edges, order, k, j, e),
    ensures
        exists|j2: int, e2: int| #[trigger]
            met_by(edges, order, k, j2, e2) && !met_before(edges, order, k, j2, e2),
    decreases j, e,
{
    if met_before(edges, order, k, j, e) {
        let (j2, e2) = choose|j2: int, e2: int| #[trigger]
            met_by(edges, order, k, j2, e2) && (j2 < j || (j2 == j && e2 < e));
        lemma_first_meeting(edges, order, k, j2, e2);
    }
}

/// Two cascades from one root that agree on their first `k` entries agree on
/// the next.
proof fn lemma_cascade_order_step(
    edges: Seq<Dependency>,
    root: CatalogEntryId,
    a: Seq<CatalogEntryId>,
    b: Seq<CatalogEntryId>,
    k: int,
)
    requires
        is_cascade_order(edges, root, a),
        is_cascade_order(edges, root, b),
        0 <= k < a.len(),
        k < b.len(),
        forall|i: int| 0 <= i < k ==> a[i] == b[i],
    ensures
        a[k] == b[k],
{
    if k >= 1 && a[k] != b[k] {
        // Each cascade holds the other's entry, further on.
        assert(b.contains(b[k]));
        assert(a.contains(b[k]));
        let in_a = choose|i: int| 0 <= i < a.len() && a[i] == b[k];
        assert(in_a > k) by {
            if in_a < k {
                assert(b[in_a] == b[k]);
            }
        }
        assert(a.contains(a[k]));
        assert(b.contains(a[k]));
        let in_b = choose|i: int| 0 <= i < b.len() && b[i] == a[k];
        assert(in_b > k) by {
            if in_b < k {
                assert(a[in_b] == a[k]);
            }
        }
        assert(met_before(edges, b, k, k, 0));
        let (j0, e0) = choose|j0: int, e0: int| #[trigger]
            met_by(edges, b, k, j0, e0) && (j0 < k || (j0 == k && e0 < 0));
        assert forall|j: int, e: int| #[trigger] met_by(edges, b, k, j, e) implies met_before(
            edges,
            b,
            k,
            j,
            e,
        ) by {
            if j < k {
                // The first cascade meets this entry by the same edge, and
                // had met its own entry before; so had the second.
                assert(met_by(edges, a, in_a, j, e));
                assert(met_before(edges, a, k, j, e));
                let (j2, e2) = choose|j2: int, e2: int| #[trigger]
                    met_by(edges, a, k, j2, e2) && (j2 < j || (j2 == j && e2 < e));
                assert(met_by(edges, b, in_b, j2, e2));
                assert(met_before(edges, b, k, j2, e2));
                lemma_met_later(edges, b, k, j2, e2, j, e);
            } else {
                assert(met_by(edges, b, k, j0, e0));
            }
        }
        lemma_first_meeting(edges, b, k, j0, e0);
    }
}

/// Two cascades from one root agree on their first `k` entries.
proof fn lemma_cascade_order_prefix(
    edges: Seq<Dependency>,
    root: CatalogEntryId,
    a: Seq<CatalogEntryId>,
    b: Seq<CatalogEntryId>,
    k: int,
)
    requires
        is_cascade_order(edges, root, a),
        is_cascade_order(edges, root, b),
        0 <= k <= a.len(),
        k <= b.len(),
    ensures
        forall|i: int| 0 <= i < k ==> a[i] == b[i],
    decreases k,
{
    if k > 0 {
        lemma_cascade_order_prefix(edges, root, a, b, k - 1);
        lemma_cascade_order_step(edges, root, a, b, k - 1);
    }
}

/// The cascade from a root is one list: the entries that it takes and the
/// breadth-first rule leave no choice of order.
pub proof fn lemma_cascade_order_unique(
    edges: Seq<Dependency>,
    root: CatalogEntryId,
    a: Seq<CatalogEntryId>,
    b: Seq<CatalogEntryId>,
)
    requires
        is_cascade_order(edges, root, a),
        is_cascade_order(edges, root, b),
    ensures
        a == b,
{
    a.unique_seq_to_set();
    b.unique_seq_to_set();
    assert(a.to_set() =~= b.to_set());
    lemma_cascade_order_prefix(edges, root, a, b, a.len() as int);
    assert(a =~= b);
}

/// What was met before one point of the traversal was met before every
/// later point.
proof fn lemma_met_later(
    edges: Seq<Dependency>,
    order: Seq<CatalogEntryId>,
    k: int,
    j: int,
    e: int,
    later_j: int,
    later_e: int,
)
    requires
        met_before(edges, order, k, j, e),
        j < later_j || (j == later_j && e <= later_e),
    ensures
        met_before(edges, order, k, later_j, later_e),
{
    let (j2, e2) = choose|j2: int, e2: int| #[trigger]
        met_by(edges, order, k, j2, e2) && (j2 < j || (j2 == j && e2 < e));
    assert(met_by(edges, order, k, j2, e2));
}

/// Whether `longer` begins with `shorter`.
pub open spec fn begins_with(longer: Seq<CatalogEntryId>, shorter: Seq<CatalogEntryId>) -> bool {
    &&& shorter.len() <= longer.len()
    &&& forall|k: int| 0 <= k < shorter.len() ==> longer[k] == shorter[k]
}

/// A list with one more entry begins with the list.
proof fn lemma_order_grows(prior: Seq<CatalogEntryId>, next: CatalogEntryId)
    ensures
        begins_with(prior.push(next), prior),
        begins_with(prior, prior),
{
}

/// What was met in a list is met in every list that begins with it.
proof fn lemma_order_grows_met(
    edges: Seq<Dependency>,
    prior: Seq<CatalogEntryId>,
    now: Seq<CatalogEntryId>,
)
    requires
        begins_with(now, prior),
    ensures
        forall|k: int, j: int, e: int|
            0 <= k < prior.len() && #[trigger] met_by(edges, prior, k, j, e) ==> met_by(
                edges,
                now,
                k,
                j,
                e,
            ),
        forall|k: int, j: int, e: int|
            0 <= k < prior.len() && 0 <= j < prior.len() && #[trigger] met_by(edges, now, k, j, e)
                ==> met_by(edges, prior, k, j, e),
        forall|k: int, j: int, e: int|
            0 <= k < prior.len() && #[trigger] met_before(edges, prior, k, j, e) ==> met_before(
                edges,
                now,
                k,
                j,
                e,
            ),
{
    assert forall|k: int, j: int, e: int|
        0 <= k < prior.len() && #[trigger] met_before(edges, prior, k, j, e) implies met_before(
        edges,
        now,
        k,
        j,
        e,
    ) by {
        let (j2, e2) = choose|j2: int, e2: int| #[trigger]
            met_by(edges, prior, k, j2, e2) && (j2 < j || (j2 == j && e2 < e));
        assert(met_by(edges, now, k, j2, e2));
    }
}

/// Whether `id` is the dependent of one of `edges`.
pub open spec fn is_dependent(edges: Seq<Dependency>, id: CatalogEntryId) -> bool {
    exists|e: int| 0 <= e < edges.len() && (#[trigger] edges[e]).dependent == id
}

/// A list without repetition that begins with the root and holds, beyond it,
/// only dependents of edges is at most one longer than the list of edges.
proof fn lemma_cascade_bound(edges: Seq<Dependency>, found: Seq<CatalogEntryId>)
    requires
        found.no_duplicates(),
        found.len() >= 1,
        forall|k: int| 1 <= k < found.len() ==> is_dependent(edges, #[trigger] found[k]),
    ensures
        found.len() <= edges.len() + 1,
{
    let sources = edges.map_values(|e: Dependency| e.dependent);
    let rest = found.skip(1);
    assert(rest.no_duplicates()) by {
        assert forall|a: int, b: int| 0 <= a < b < rest.len() implies rest[a] != rest[b] by {
            assert(rest[a] == found[a + 1]);
            assert(rest[b] == found[b + 1]);
        }
    }
    rest.unique_seq_to_set();
    sources.lemma_cardinality_of_set();
    vstd::seq_lib::seq_to_set_is_finite(sources);
    assert(rest.to_set().subset_of(sources.to_set())) by {
        assert forall|x: CatalogEntryId| rest.to_set().contains(x) implies sources.to_set().contains(
            x,
        ) by {
            let k = choose|k: int| 0 <= k < rest.len() && rest[k] == x;
            assert(found[k + 1] == x);
            assert(is_dependent(edges, found[k + 1]));
            let e = choose|e: int|
                0 <= e < edges.len() && (#[trigger] edges[e]).dependent == found[k + 1];
            assert(sources[e] == x);
            assert(sources.contains(x));
        }
    }
    vstd::set_lib::lemma_len_subset(rest.to_set(), sources.to_set());
}

/// Whether `items` holds `item`.
fn holds(items: &Vec<CatalogEntryId>, item: CatalogEntryId) -> (r: bool)
    ensures
        r == items@.contains(item),
{
    let mut i: usize = 0;
    while i < items.len()
        invariant
            i <= items@.len(),
            forall|k: int| 0 <= k < i ==> items@[k] != item,
        decreases items@.len() - i,
    {
        if items[i] == item {
            return true;
        }
        i += 1;
    }
    false
}

impl DependencyManager {
    /// The entries that depend on `entry`, in the order in which the
    /// dependencies were recorded.
    pub fn dependents(&self, entry: CatalogEntryId) -> (r: Vec<CatalogEntryId>)
        requires
            self.wf(),
        ensures
            r@ == dependents_in_order(self.order(), entry),
            r@.no_duplicates(),
            forall|d: CatalogEntryId| #[trigger] r@.contains(d) <==> dependents_of(self@, entry).contains(d),
    {
        let mut found: Vec<CatalogEntryId> = Vec::new();
        let mut i: usize = 0;
        while i < self.edges.len()
            invariant
                i <= self.edges@.len(),
                found@ == dependents_in_order(self.edges@.subrange(0, i as int), entry),
            decreases self.edges@.len() - i,
        {
            proof {
                assert(self.edges@.subrange(0, i + 1).drop_last() =~= self.edges@.subrange(
                    0,
                    i as int,
                ));
            }
            if self.edges[i].dependency == entry {
                found.push(self.edges[i].dependent);
            }
            i += 1;
        }
        proof {
            assert(self.edges@.subrange(0, i as int) =~= self.edges@);
            lemma_dependents_in_order(self.edges@, entry);
        }
        found
    }

    /// The entries that a cascade from `root` takes with it: `root` itself
    /// and whatever depends on it, directly or through other entries, each
    /// once. The traversal is breadth-first and follows the dependencies in
    /// the order in which they were recorded; it ends on cyclic dependencies
    /// too.
    pub fn cascade(&self, root: CatalogEntryId) -> (found: Vec<CatalogEntryId>)
        requires
            self.wf(),
        ensures
            found@.len() >= 1,
            found@[0] == root,
            found@.no_duplicates(),
            forall|id: CatalogEntryId| #[trigger] found@.contains(id) <==> in_cascade(self@, root, id),
            is_cascade_order(self.order(), root, found@),
    {
        let mut found: Vec<CatalogEntryId> = Vec::new();
        found.push(root);
        proof {
            lemma_cascade_root(self@, root);
        }
        let mut i: usize = 0;
        while i < found.len()
            invariant
                self.wf(),
                i <= found@.len(),
                found@.len() >= 1,
                found@[0] == root,
                found@.no_duplicates(),
                forall|k: int| 0 <= k < found@.len() ==> in_cascade(self@, root, #[trigger] found@[k]),
                forall|k: int|
                    1 <= k < found@.len() ==> is_dependent(self.edges@, #[trigger] found@[k]),
                forall|k: int, e: int|
                    0 <= k < i && 0 <= e < self.edges@.len() && (#[trigger] self.edges@[e]).dependency
                        == #[trigger] found@[k] ==> found@.contains(self.edges@[e].dependent),
                forall|k: int|
                    1 <= k < found@.len() ==> #[trigger] met_before(self.edges@, found@, k, k, 0),
                forall|k: int|
                    1 <= k < found@.len() ==> #[trigger] met_before(
                        self.edges@,
                        found@,
                        k,
                        i as int,
                        0,
                    ),
                forall|a: int, b: int, j: int, e: int|
                    #![trigger met_by(self.edges@, found@, b, j, e), met_before(self.edges@, found@, a, j, e)]
                    1 <= a < b < found@.len() && j < i && met_by(self.edges@, found@, b, j, e)
                        ==> met_before(self.edges@, found@, a, j, e),
            decreases self.edges@.len() + 1 - i,
        {
            proof {
                lemma_cascade_bound(self.edges@, found@);
            }
            let current = found[i];
            let mut e: usize = 0;
            while e < self.edges.len()
                invariant
                    self.wf(),
                    i < found@.len(),
                    current == found@[i as int],
                    e <= self.edges@.len(),
                    found@.len() >= 1,
                    found@[0] == root,
                    found@.no_duplicates(),
                    forall|k: int|
                        0 <= k < found@.len() ==> in_cascade(self@, root, #[trigger] found@[k]),
                    forall|k: int|
                        1 <= k < found@.len() ==> is_dependent(self.edges@, #[trigger] found@[k]),
                    forall|k: int, e: int|
                        0 <= k < i && 0 <= e < self.edges@.len() && (
                        #[trigger] self.edges@[e]).dependency == #[trigger] found@[k]
                            ==> found@.contains(self.edges@[e].dependent),
                    forall|f: int|
                        0 <= f < e && (#[trigger] self.edges@[f]).dependency == current
                            ==> found@.contains(self.edges@[f].dependent),
                    forall|k: int|
                        1 <= k < found@.len() ==> #[trigger] met_before(
                            self.edges@,
                            found@,
                            k,
                            k,
                            0,
                        ),
                    forall|k: int|
                        1 <= k < found@.len() ==> #[trigger] met_before(
                            self.edges@,
                            found@,
                            k,
                            i as int,
                            e as int,
                        ),
                    forall|a: int, b: int, j: int, f: int|
                        #![trigger met_by(self.edges@, found@, b, j, f), met_before(self.edges@, found@, a, j, f)]
                        1 <= a < b < found@.len() && (j < i || (j == i && f < e)) && met_by(
                            self.edges@,
                            found@,
                            b,
                            j,
                            f,
                        ) ==> met_before(self.edges@, found@, a, j, f),
                decreases self.edges@.len() - e,
            {
                let edge = self.edges[e];
                let ghost prior = found@;
                if edge.dependency == current && !holds(&found, edge.dependent) {
                    found.push(edge.dependent);
                    proof {
                        lemma_order_grows(prior, edge.dependent);
                        assert(self.edges@.contains(edge));
                        lemma_cascade_step(self@, root, current, edge.dependent);
                        assert forall|k: int| 0 <= k < found@.len() implies in_cascade(
                            self@,
                            root,
                            #[trigger] found@[k],
                        ) by {
                            if k < prior.len() {
                                assert(found@[k] == prior[k]);
                            }
                        }
                        assert forall|k: int| 1 <= k < found@.len() implies is_dependent(
                            self.edges@,
                            #[trigger] found@[k],
                        ) by {
                            if k < prior.len() {
                                assert(found@[k] == prior[k]);
                            } else {
                                assert(self.edges@[e as int].dependent == found@[k]);
                            }
                        }
                        assert forall|x: CatalogEntryId| prior.contains(x) implies found@.contains(
                            x,
                        ) by {
                            let k = choose|k: int| 0 <= k < prior.len() && prior[k] == x;
                            assert(found@[k] == x);
                        }
                        assert(found@[prior.len() as int] == edge.dependent);
                        assert(met_by(self.edges@, found@, prior.len() as int, i as int, e as int));
                    }
                }
                proof {
                    let edges = self.edges@;
                    let now = found@;
                    lemma_order_grows_met(edges, prior, now);
                    assert forall|k: int| 1 <= k < now.len() implies #[trigger] met_before(
                        edges,
                        now,
                        k,
                        k,
                        0,
                    ) by {
                        if k < prior.len() {
                            assert(met_before(edges, prior, k, k, 0));
                        }
                    }
                    assert forall|k: int| 1 <= k < now.len() implies #[trigger] met_before(
                        edges,
                        now,
                        k,
                        i as int,
                        e + 1,
                    ) by {
                        if k < prior.len() {
                            assert(met_before(edges, prior, k, i as int, e as int));
                            lemma_met_later(edges, now, k, i as int, e as int, i as int, e + 1);
                        }
                    }
                    assert forall|a: int, b: int, j: int, f: int|
                        #![trigger met_by(edges, now, b, j, f), met_before(edges, now, a, j, f)]
                        1 <= a < b < now.len() && (j < i || (j == i && f < e + 1)) && met_by(
                            edges,
                            now,
                            b,
                            j,
                            f,
                        ) implies met_before(edges, now, a, j, f) by {
                        assert(a < prior.len());
                        assert(met_before(edges, prior, a, i as int, e as int));
                        if j == i && f == e {
                        } else if b < prior.len() {
                            assert(met_by(edges, prior, b, j, f));
                            assert(met_before(edges, prior, a, j, f));
                        } else {
                            // The entry that was added had not been met.
                            assert(edges[f].dependent == now[b]);
                            assert(edges[f].dependency == now[j]);
                            assert(j < prior.len());
                            assert(prior[j] == now[j]);
                            assert(prior.contains(edges[f].dependent));
                        }
                    }
                }
                e += 1;
            }
            proof {
                let edges = self.edges@;
                let now = found@;
                assert forall|k: int| 1 <= k < now.len() implies #[trigger] met_before(
                    edges,
                    now,
                    k,
                    i + 1,
                    0,
                ) by {
                    assert(met_before(edges, now, k, i as int, e as int));
                    lemma_met_later(edges, now, k, i as int, e as int, i + 1, 0);
                }
                assert forall|a: int, b: int, j: int, f: int|
                    #![trigger met_by(edges, now, b, j, f), met_before(edges, now, a, j, f)]
                    1 <= a < b < now.len() && j < i + 1 && met_by(
                        edges,
                        now,
                        b,
                        j,
                        f,
                    ) implies met_before(edges, now, a, j, f) by {
                    assert(j < i || (j == i && f < e));
                }
            }
            i += 1;
        }
        proof {
            let graph = self@;
            let closed = found@.to_set();
            assert forall|dependent: CatalogEntryId, dependency: CatalogEntryId|
                closed.contains(dependency) && #[trigger] graph.contains(
                    Dependency { dependent, dependency },
                ) implies closed.contains(dependent) by {
                let edge = Dependency { dependent, dependency };
                let k = choose|k: int| 0 <= k < found@.len() && found@[k] == dependency;
                let e = choose|e: int| 0 <= e < self.edges@.len() && self.edges@[e] == edge;
                assert(self.edges@[e].dependency == found@[k]);
            }
            assert forall|id: CatalogEntryId| #[trigger]
                found@.contains(id) <==> in_cascade(graph, root, id) by {
                if in_cascade(graph, root, id) {
                    lemma_cascade_closed(graph, root, closed, id);
                }
            }
        }
        found
    }
}

/// Whether an edge touches none of `entries`.
pub open spec fn clear_of(e: Dependency, entries: Seq<CatalogEntryId>) -> bool {
    !entries.contains(e.dependent) && !entries.contains(e.dependency)
}

/// The edges of `edges` that touch none of `entries`, in order.
pub open spec fn cleared(edges: Seq<Dependency>, entries: Seq<CatalogEntryId>) -> Seq<Dependency>
    decreases edges.len(),
{
    if edges.len() == 0 {
        edges
    } else {
        let rest = cleared(edges.drop_last(), entries);
        if clear_of(edges.last(), entries) {
            rest.push(edges.last())
        } else {
            rest
        }
    }
}

/// What is left of a list of edges holds the edges that touch none of the
/// entries, and holds none twice if the list held none twice.
pub proof fn lemma_cleared(edges: Seq<Dependency>, entries: Seq<CatalogEntryId>)
    ensures
        forall|e: Dependency| #[trigger]
            cleared(edges, entries).contains(e) <==> edges.contains(e) && clear_of(e, entries),
        edges.no_duplicates() ==> cleared(edges, entries).no_duplicates(),
        cleared(edges, entries).to_set() == edges.to_set().filter(
            |e: Dependency| clear_of(e, entries),
        ),
    decreases edges.len(),
{
    let left = cleared(edges, entries);
    if edges.len() > 0 {
        let shorter = edges.drop_last();
        let rest = cleared(shorter, entries);
        lemma_cleared(shorter, entries);
        assert forall|e: Dependency| #[trigger]
            left.contains(e) <==> edges.contains(e) && clear_of(e, entries) by {
            assert(edges =~= shorter.push(edges.last()));
            vstd::seq_lib::lemma_seq_contains_after_push(shorter, edges.last(), e);
            if clear_of(edges.last(), entries) {
                vstd::seq_lib::lemma_seq_contains_after_push(rest, edges.last(), e);
            }
        }
        if edges.no_duplicates() {
            assert(shorter.no_duplicates());
            assert(!shorter.contains(edges.last())) by {
                if shorter.contains(edges.last()) {
                    let k = choose|k: int| 0 <= k < shorter.len() && shorter[k] == edges.last();
                    assert(edges[k] == edges[edges.len() - 1]);
                }
            }
            assert(!rest.contains(edges.last()));
        }
    }
    assert(left.to_set() =~= edges.to_set().filter(|e: Dependency| clear_of(e, entries)));
}

impl DependencyManager {
    /// Forgets every edge that begins or ends at one of `entries`. The edges
    /// that are left keep their order.
    pub fn erase_each(&mut self, entries: &Vec<CatalogEntryId>)
        requires
            old(self).wf(),
        ensures
            final(self).wf(),
            final(self).order() == cleared(old(self).order(), entries@),
            final(self)@ == old(self)@.filter(|e: Dependency| clear_of(e, entries@)),
    {
        let ghost before = self.edges@;
        let mut kept: Vec<Dependency> = Vec::new();
        let mut i: usize = 0;
        while i < self.edges.len()
            invariant
                self.edges@ == before,
                i <= before.len(),
                kept@ == cleared(before.take(i as int), entries@),
            decreases before.len() - i,
        {
            let edge = self.edges[i];
            proof {
                assert(before.take(i + 1).drop_last() =~= before.take(i as int));
            }
            if !holds(entries, edge.dependent) && !holds(entries, edge.dependency) {
                kept.push(edge);
            }
            i += 1;
        }
        self.edges = kept;
        proof {
            assert(before.take(i as int) =~= before);
            lemma_cleared(before, entries@);
        }
    }

    /// Forgets every edge that begins or ends at `entry`. The edges that are
    /// left keep their order.
    pub fn erase(&mut self, entry: CatalogEntryId)
        requires
            old(self).wf(),
        ensures
            final(self).wf(),
            final(self).order() == cleared(old(self).order(), seq![entry]),
            final(self)@ == old(self)@.filter(
                |e: Dependency| e.dependent != entry && e.dependency != entry,
            ),
    {
        let mut one: Vec<CatalogEntryId> = Vec::new();
        one.push(entry);
        self.erase_each(&one);
        proof {
            assert(one@ =~= seq![entry]);
            assert forall|e: Dependency| clear_of(e, seq![entry]) <==> e.dependent != entry
                && e.dependency != entry by {
                assert(seq![entry][0] == entry);
            }
            assert(self@ =~= old(self)@.filter(
                |e: Dependency| e.dependent != entry && e.dependency != entry,
            ));
        }
    }
}

} // verus!
