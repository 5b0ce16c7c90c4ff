//! The transaction manager: it hands out transaction identifiers, start
//! timestamps and query numbers, keeps the transactions that are active, and
//! keeps what has ended for as long as an active transaction may need it.

use vstd::prelude::*;
use std::collections::VecDeque;
use crate::catalog_entry::ClientContext;
use crate::catalog_set::CatalogSet;
use crate::transaction::{Transaction, TransactionId, TransactionState};

verus! {

/// A catalog set that was taken out of the catalog and waits to be discarded.
pub struct StoredCatalogSet {
    /// The set that waits.
    pub stored_set: CatalogSet,
    /// The newest query that may still read the set.
    pub highest_active_query: TransactionId,
}

/// The timestamp after which nobody needs an ended transaction: the commit
/// timestamp of a committed one, the start timestamp of any other.
pub open spec fn retire_timestamp(t: Transaction) -> TransactionId {
    if t.state == TransactionState::Committed {
        t.commit_timestamp
    } else {
        t.start_timestamp
    }
}

/// Whether an ended transaction lies below `horizon`, the lowest start
/// timestamp of the active transactions, and can be reclaimed.
pub open spec fn expired(t: Transaction, horizon: TransactionId) -> bool {
    retire_timestamp(t) < horizon
}

/// The transactions of `list` that cannot be reclaimed yet, in order.
pub open spec fn unexpired(list: Seq<Transaction>, horizon: TransactionId) -> Seq<Transaction>
    decreases list.len(),
{
    if list.len() == 0 {
        Seq::empty()
    } else {
        let rest = unexpired(list.drop_last(), horizon);
        if expired(list.last(), horizon) {
            rest
        } else {
            rest.push(list.last())
        }
    }
}

/// Whether a query may still read a catalog set that was stamped with the
/// query number `stamp`: whether an active transaction runs a query that is
/// not newer, `query_horizon` being the oldest query of the active
/// transactions.
pub open spec fn still_read(stamp: TransactionId, query_horizon: Option<TransactionId>) -> bool {
    query_horizon is Some && query_horizon->0 <= stamp
}

/// The catalog sets of `list` that a query may still read, in order.
pub open spec fn needed_sets(
    list: Seq<StoredCatalogSet>,
    query_horizon: Option<TransactionId>,
) -> Seq<StoredCatalogSet>
    decreases list.len(),
{
    if list.len() == 0 {
        Seq::empty()
    } else {
        let rest = needed_sets(list.drop_last(), query_horizon);
        if still_read(list.last().highest_active_query, query_horizon) {
            rest.push(list.last())
        } else {
            rest
        }
    }
}

/// The lowest start timestamp among `active`, or `otherwise` if there is
/// none or none lower.
pub open spec fn lowest_start(active: Seq<Transaction>, otherwise: TransactionId) -> TransactionId
    decreases active.len(),
{
    if active.len() == 0 {
        otherwise
    } else {
        let rest = lowest_start(active.drop_last(), otherwise);
        if active.last().start_timestamp < rest {
            active.last().start_timestamp
        } else {
            rest
        }
    }
}

/// The lowest query number among `active`, if there is any.
pub open spec fn lowest_query(active: Seq<Transaction>) -> Option<TransactionId>
    decreases active.len(),
{
    if active.len() == 0 {
        None
    } else {
        match lowest_query(active.drop_last()) {
            Some(rest) => if active.last().active_query < rest {
                Some(active.last().active_query)
            } else {
                Some(rest)
            },
            None => Some(active.last().active_query),
        }
    }
}

/// Whether the transaction `id` stands at position `i` of `active`.
pub open spec fn active_at(active: Seq<Transaction>, i: int, id: TransactionId) -> bool {
    0 <= i < active.len() && active[i].transaction_id == id
}

/// A position of `active` at which the transaction `id` stands, if there is
/// one.
pub open spec fn active_slot(active: Seq<Transaction>, id: TransactionId) -> Option<int> {
    if exists|i: int| active_at(active, i, id) {
        Some(choose|i: int| active_at(active, i, id))
    } else {
        None
    }
}

/// The lowest start timestamp is at most every start timestamp among
/// `active`, and at most `otherwise`.
pub proof fn lemma_lowest_start(active: Seq<Transaction>, otherwise: TransactionId, i: int)
    requires
        0 <= i < active.len(),
    ensures
        lowest_start(active, otherwise) <= active[i].start_timestamp,
        lowest_start(active, otherwise) <= otherwise,
    decreases active.len(),
{
    lemma_lowest_start_bound(active, otherwise);
    if i < active.len() - 1 {
        lemma_lowest_start(active.drop_last(), otherwise, i);
    }
}

/// The lowest start timestamp is at most `otherwise`.
pub proof fn lemma_lowest_start_bound(active: Seq<Transaction>, otherwise: TransactionId)
    ensures
        lowest_start(active, otherwise) <= otherwise,
    decreases active.len(),
{
    if active.len() > 0 {
        lemma_lowest_start_bound(active.drop_last(), otherwise);
    }
}

/// The mathematical content of a `TransactionManager`.
pub struct TransactionManagerView {
    pub current_query_number: TransactionId,
    pub current_start_timestamp: TransactionId,
    pub current_transaction_id: TransactionId,
    pub active: Seq<Transaction>,
    pub recently_committed: Seq<Transaction>,
    pub old: Seq<Transaction>,
    pub old_catalog_sets: Seq<StoredCatalogSet>,
}

impl TransactionManagerView {
    /// The lowest start timestamp of the active transactions, or the start
    /// timestamp of the next transaction if none is active. No transaction
    /// that is active, and none that starts later, has a snapshot older than
    /// this.
    pub open spec fn horizon(self) -> TransactionId {
        lowest_start(self.active, self.current_start_timestamp)
    }

    /// The oldest query that an active transaction runs, if a transaction is
    /// active.
    pub open spec fn query_horizon(self) -> Option<TransactionId> {
        lowest_query(self.active)
    }

    /// The position of the active transaction `id`.
    pub open spec fn position(self, id: TransactionId) -> Option<int> {
        active_slot(self.active, id)
    }

    /// The invariant: the active transactions are active, have identifiers
    /// and start timestamps that were handed out, and differ in both; the
    /// transactions kept in the other lists have ended, the committed ones no
    /// later than the next start timestamp.
    pub open spec fn wf(self) -> bool {
        &&& forall|i: int|
            0 <= i < self.active.len() ==> {
                &&& (#[trigger] self.active[i]).is_active()
                &&& self.active[i].transaction_id < self.current_transaction_id
                &&& self.active[i].start_timestamp < self.current_start_timestamp
            }
        &&& forall|i: int, j: int|
            0 <= i < j < self.active.len() ==> (#[trigger] self.active[i]).transaction_id != (
            #[trigger] self.active[j]).transaction_id
        &&& forall|i: int|
            0 <= i < self.recently_committed.len() ==> {
                &&& (#[trigger] self.recently_committed[i]).state == TransactionState::Committed
                &&& self.recently_committed[i].commit_timestamp <= self.current_start_timestamp
            }
        &&& forall|i: int|
            0 <= i < self.old.len() ==> (#[trigger] self.old[i]).state
                == TransactionState::RolledBack
    }

    /// Whether `after` is this state after the active transaction at
    /// position `i` has ended as `ended`: it has left the active
    /// transactions and joined the list for its kind of ending, and every
    /// list has lost what lies below the new horizon.
    pub open spec fn retired(self, after: TransactionManagerView, i: int, ended: Transaction) -> bool {
        &&& after.current_query_number == self.current_query_number
        &&& after.current_start_timestamp == self.current_start_timestamp
        &&& after.current_transaction_id == self.current_transaction_id
        &&& after.active == self.active.remove(i)
        &&& after.recently_committed == unexpired(
            if ended.state == TransactionState::Committed {
                self.recently_committed.push(ended)
            } else {
                self.recently_committed
            },
            after.horizon(),
        )
        &&& after.old == unexpired(
            if ended.state == TransactionState::Committed {
                self.old
            } else {
                self.old.push(ended)
            },
            after.horizon(),
        )
        &&& after.old_catalog_sets == needed_sets(self.old_catalog_sets, after.query_horizon())
    }

    /// In a well-formed state an active transaction stands at one position
    /// only.
    pub proof fn lemma_position_unique(self, i: int, id: TransactionId)
        requires
            self.wf(),
            active_at(self.active, i, id),
        ensures
            self.position(id) == Some(i),
    {
        let j = choose|j: int| active_at(self.active, j, id);
        if i < j {
            assert(self.active[i].transaction_id != self.active[j].transaction_id);
        } else if j < i {
            assert(self.active[j].transaction_id != self.active[i].transaction_id);
        }
    }

    /// Every active transaction started at the horizon or later.
    pub proof fn lemma_horizon(self, i: int)
        requires
            0 <= i < self.active.len(),
        ensures
            self.horizon() <= self.active[i].start_timestamp,
            self.horizon() <= self.current_start_timestamp,
    {
        lemma_lowest_start(self.active, self.current_start_timestamp, i);
    }
}

/// The transaction manager.
pub struct TransactionManager {
    /// The number that the next query gets.
    current_query_number: TransactionId,
    /// The start timestamp that the next transaction gets.
    current_start_timestamp: TransactionId,
    /// The identifier that the next transaction gets.
    current_transaction_id: TransactionId,
    /// The transactions that have started and not ended.
    active_transactions: Vec<Transaction>,
    /// The committed transactions that an active transaction began before.
    recently_committed_transactions: VecDeque<Transaction>,
    /// The rolled-back transactions that wait to be reclaimed.
    old_transactions: Vec<Transaction>,
    /// The catalog sets that wait to be discarded.
    old_catalog_sets: Vec<StoredCatalogSet>,
}

impl TransactionManager {
    pub closed spec fn view(&self) -> TransactionManagerView {
        TransactionManagerView {
            current_query_number: self.current_query_number,
            current_start_timestamp: self.current_start_timestamp,
            current_transaction_id: self.current_transaction_id,
            active: self.active_transactions@,
            recently_committed: self.recently_committed_transactions@,
            old: self.old_transactions@,
            old_catalog_sets: self.old_catalog_sets@,
        }
    }

    /// The invariant that every operation keeps.
    pub open spec fn wf(&self) -> bool {
        self@.wf()
    }

    /// The state of a manager that has started no transaction.
    pub open spec fn new_view() -> TransactionManagerView {
        TransactionManagerView {
            current_query_number: 0,
            current_start_timestamp: 1,
            current_transaction_id: 1,
            active: Seq::empty(),
            recently_committed: Seq::empty(),
            old: Seq::empty(),
            old_catalog_sets: Seq::empty(),
        }
    }

    /// A manager that has started no transaction: the first gets the
    /// identifier 1 and the start timestamp 1, the first query the number 0.
    pub fn new() -> (manager: Self)
        ensures
            manager.wf(),
            manager@ == Self::new_view(),
    {
        TransactionManager {
            current_query_number: 0,
            current_start_timestamp: 1,
            current_transaction_id: 1,
            active_transactions: Vec::new(),
            recently_committed_transactions: VecDeque::new(),
            old_transactions: Vec::new(),
            old_catalog_sets: Vec::new(),
        }
    }

    /// Whether the counters can hand out one more transaction.
    pub fn can_start(&self) -> (r: bool)
        ensures
            r == (self@.current_transaction_id < u64::MAX && self@.current_start_timestamp
                < u64::MAX),
    {
        self.current_transaction_id < u64::MAX && self.current_start_timestamp < u64::MAX
    }

    /// Starts a transaction: it gets the next identifier and the next start
    /// timestamp, which no transaction had before it, and is active.
    pub fn start_transaction(&mut self) -> (txn: Transaction)
        requires
            old(self).wf(),
            old(self)@.current_transaction_id < u64::MAX,
            old(self)@.current_start_timestamp < u64::MAX,
        ensures
            final(self).wf(),
            txn == (Transaction {
                transaction_id: old(self)@.current_transaction_id,
                start_timestamp: old(self)@.current_start_timestamp,
                commit_timestamp: 0,
                active_query: old(self)@.current_query_number,
                state: TransactionState::Active,
            }),
            final(self)@ == (TransactionManagerView {
                current_transaction_id: (old(self)@.current_transaction_id + 1) as u64,
                current_start_timestamp: (old(self)@.current_start_timestamp + 1) as u64,
                active: old(self)@.active.push(txn),
                ..old(self)@
            }),
    {
        let mut txn = Transaction::new(self.current_transaction_id, self.current_start_timestamp);
        txn.active_query = self.current_query_number;
        self.current_transaction_id += 1;
        self.current_start_timestamp += 1;
        self.active_transactions.push(txn);
        txn
    }

    /// The number of the next query; the query after it gets the next
    /// number, which is 0 again after the largest.
    pub fn get_query_number(&mut self) -> (number: TransactionId)
        ensures
            number == old(self)@.current_query_number,
            final(self)@ == (TransactionManagerView {
                current_query_number: if number == u64::MAX {
                    0
                } else {
                    (number + 1) as u64
                },
                ..old(self)@
            }),
    {
        let number = self.current_query_number;
        self.current_query_number = if number == u64::MAX {
            0
        } else {
            number + 1
        };
        number
    }

    /// How many transactions are active.
    pub fn active_count(&self) -> (n: usize)
        ensures
            n == self@.active.len(),
    {
        self.active_transactions.len()
    }

    /// How many committed transactions are kept.
    pub fn recently_committed_count(&self) -> (n: usize)
        ensures
            n == self@.recently_committed.len(),
    {
        self.recently_committed_transactions.len()
    }

    /// How many rolled-back transactions are kept.
    pub fn old_transaction_count(&self) -> (n: usize)
        ensures
            n == self@.old.len(),
    {
        self.old_transactions.len()
    }

    /// How many catalog sets wait to be discarded.
    pub fn old_catalog_set_count(&self) -> (n: usize)
        ensures
            n == self@.old_catalog_sets.len(),
    {
        self.old_catalog_sets.len()
    }

    /// The position of the active transaction `id`.
    fn find_active(&self, id: TransactionId) -> (r: Option<usize>)
        requires
            self.wf(),
        ensures
            match r {
                Some(i) => active_at(self@.active, i as int, id) && self@.position(id) == Some(
                    i as int,
                ),
                None => self@.position(id) is None,
            },
    {
        let mut i: usize = 0;
        while i < self.active_transactions.len()
            invariant
                self.wf(),
                i <= self.active_transactions@.len(),
                forall|j: int| 0 <= j < i ==> !active_at(self@.active, j, id),
            decreases self.active_transactions@.len() - i,
        {
            if self.active_transactions[i].transaction_id == id {
                proof {
                    self@.lemma_position_unique(i as int, id);
                }
                return Some(i);
            }
            i += 1;
        }
        None
    }

    /// The active transaction `id`, if there is one.
    pub fn get_transaction(&self, id: TransactionId) -> (r: Option<Transaction>)
        requires
            self.wf(),
        ensures
            r == match self@.position(id) {
                Some(i) => Some(self@.active[i]),
                None => None,
            },
    {
        match self.find_active(id) {
            Some(i) => Some(self.active_transactions[i]),
            None => None,
        }
    }

    /// The lowest start timestamp of the active transactions, or the start
    /// timestamp of the next transaction if none is active.
    pub fn lowest_active_start(&self) -> (horizon: TransactionId)
        ensures
            horizon == self@.horizon(),
    {
        let mut lowest = self.current_start_timestamp;
        let mut i: usize = 0;
        while i < self.active_transactions.len()
            invariant
                i <= self.active_transactions@.len(),
                lowest == lowest_start(
                    self.active_transactions@.subrange(0, i as int),
                    self.current_start_timestamp,
                ),
            decreases self.active_transactions@.len() - i,
        {
            proof {
                assert(self.active_transactions@.subrange(0, i + 1).drop_last()
                    =~= self.active_transactions@.subrange(0, i as int));
            }
            if self.active_transactions[i].start_timestamp < lowest {
                lowest = self.active_transactions[i].start_timestamp;
            }
            i += 1;
        }
        proof {
            assert(self.active_transactions@.subrange(0, i as int) =~= self.active_transactions@);
        }
        lowest
    }

    /// The oldest query that an active transaction runs, if a transaction is
    /// active.
    pub fn lowest_active_query(&self) -> (horizon: Option<TransactionId>)
        ensures
            horizon == self@.query_horizon(),
    {
        let mut lowest: Option<TransactionId> = None;
        let mut i: usize = 0;
        while i < self.active_transactions.len()
            invariant
                i <= self.active_transactions@.len(),
                lowest == lowest_query(self.active_transactions@.subrange(0, i as int)),
            decreases self.active_transactions@.len() - i,
        {
            proof {
                assert(self.active_transactions@.subrange(0, i + 1).drop_last()
                    =~= self.active_transactions@.subrange(0, i as int));
            }
            let query = self.active_transactions[i].active_query;
            lowest = match lowest {
                Some(rest) => if query < rest {
                    Some(query)
                } else {
                    Some(rest)
                },
                None => Some(query),
            };
            i += 1;
        }
        proof {
            assert(self.active_transactions@.subrange(0, i as int) =~= self.active_transactions@);
        }
        lowest
    }
}


/// What holds of every transaction of a list holds of every transaction that
/// is left of it.
pub proof fn lemma_unexpired_keeps(
    list: Seq<Transaction>,
    horizon: TransactionId,
    holds: spec_fn(Transaction) -> bool,
)
    requires
        forall|i: int| 0 <= i < list.len() ==> holds(#[trigger] list[i]),
    ensures
        forall|i: int|
            0 <= i < unexpired(list, horizon).len() ==> holds(#[trigger] unexpired(list, horizon)[i]),
        forall|i: int|
            0 <= i < unexpired(list, horizon).len() ==> !expired(
                #[trigger] unexpired(list, horizon)[i],
                horizon,
            ),
    decreases list.len(),
{
    if list.len() > 0 {
        let front = list.drop_last();
        assert forall|i: int| 0 <= i < front.len() implies holds(#[trigger] front[i]) by {
            assert(front[i] == list[i]);
        }
        lemma_unexpired_keeps(front, horizon, holds);
        let rest = unexpired(front, horizon);
        let all = unexpired(list, horizon);
        assert forall|i: int| 0 <= i < all.len() implies holds(#[trigger] all[i]) && !expired(
            all[i],
            horizon,
        ) by {
            if i < rest.len() {
                assert(all[i] == rest[i]);
            } else {
                assert(all[i] == list[list.len() - 1]);
            }
        }
    }
}

/// Whether an ended transaction lies below `horizon`.
fn is_expired(t: &Transaction, horizon: TransactionId) -> (r: bool)
    ensures
        r == expired(*t, horizon),
{
    match t.state {
        TransactionState::Committed => t.commit_timestamp < horizon,
        _ => t.start_timestamp < horizon,
    }
}

/// The transactions of `list` that cannot be reclaimed yet.
fn sweep(list: &Vec<Transaction>, horizon: TransactionId) -> (kept: Vec<Transaction>)
    ensures
        kept@ == unexpired(list@, horizon),
{
    let mut kept: Vec<Transaction> = Vec::new();
    let mut i: usize = 0;
    while i < list.len()
        invariant
            i <= list@.len(),
            kept@ == unexpired(list@.subrange(0, i as int), horizon),
        decreases list@.len() - i,
    {
        proof {
            assert(list@.subrange(0, i + 1).drop_last() =~= list@.subrange(0, i as int));
        }
        if !is_expired(&list[i], horizon) {
            kept.push(list[i]);
        }
        i += 1;
    }
    proof {
        assert(list@.subrange(0, i as int) =~= list@);
    }
    kept
}

/// The transactions of `list` that cannot be reclaimed yet.
fn sweep_queue(list: &VecDeque<Transaction>, horizon: TransactionId) -> (kept: VecDeque<Transaction>)
    ensures
        kept@ == unexpired(list@, horizon),
{
    let mut kept: VecDeque<Transaction> = VecDeque::new();
    let mut i: usize = 0;
    while i < list.len()
        invariant
            i <= list@.len(),
            kept@ == unexpired(list@.subrange(0, i as int), horizon),
        decreases list@.len() - i,
    {
        proof {
            assert(list@.subrange(0, i + 1).drop_last() =~= list@.subrange(0, i as int));
        }
        if !is_expired(&list[i], horizon) {
            kept.push_back(list[i]);
        }
        i += 1;
    }
    proof {
        assert(list@.subrange(0, i as int) =~= list@);
    }
    kept
}

/// Discards the catalog sets of `list` that no query can read any more.
fn discard_sets(list: &mut Vec<StoredCatalogSet>, query_horizon: Option<TransactionId>)
    ensures
        final(list)@ == needed_sets(old(list)@, query_horizon),
{
    let ghost before = list@;
    let ghost mut seen: int = 0;
    let mut i: usize = 0;
    proof {
        assert(list@ =~= needed_sets(before.subrange(0, 0), query_horizon) + before.subrange(
            0,
            before.len() as int,
        ));
    }
    while i < list.len()
        invariant
            0 <= seen <= before.len(),
            i == needed_sets(before.subrange(0, seen), query_horizon).len(),
            list@ == needed_sets(before.subrange(0, seen), query_horizon) + before.subrange(
                seen,
                before.len() as int,
            ),
        decreases before.len() - seen,
    {
        let ghost now = list@;
        let ghost done = needed_sets(before.subrange(0, seen), query_horizon);
        proof {
            assert(seen < before.len());
            assert(before.subrange(0, seen + 1).drop_last() =~= before.subrange(0, seen));
            assert(before.subrange(0, seen + 1).last() == before[seen]);
            assert(now[i as int] == before.subrange(seen, before.len() as int)[0]);
        }
        let needed = match query_horizon {
            Some(oldest) => oldest <= list[i].highest_active_query,
            None => false,
        };
        if !needed {
            list.remove(i);
            proof {
                assert(list@ =~= done + before.subrange(seen + 1, before.len() as int));
            }
        } else {
            proof {
                assert(now =~= done.push(before[seen]) + before.subrange(
                    seen + 1,
                    before.len() as int,
                ));
            }
            i += 1;
        }
        proof {
            seen = seen + 1;
        }
    }
    proof {
        assert(seen == before.len()) by {
            if seen < before.len() {
                assert(list@.len() == i + (before.len() - seen));
            }
        }
        assert(before.subrange(0, seen) =~= before);
        assert(list@ =~= needed_sets(before, query_horizon));
    }
}

impl TransactionManager {
    /// Takes the transaction at position `i` out of the active transactions,
    /// keeps it as `ended` in the list for its kind of ending, and reclaims
    /// what lies below the new horizon.
    fn remove_transaction(&mut self, i: usize, ended: Transaction)
        requires
            old(self).wf(),
            i < old(self)@.active.len(),
            ended.state != TransactionState::Active,
            ended.state == TransactionState::Committed ==> ended.commit_timestamp <= old(self)@.current_start_timestamp,
        ensures
            final(self).wf(),
            old(self)@.retired(final(self)@, i as int, ended),
    {
        let ghost before = self@;
        self.active_transactions.remove(i);
        let horizon = self.lowest_active_start();
        let query_horizon = self.lowest_active_query();
        match ended.state {
            TransactionState::Committed => {
                self.recently_committed_transactions.push_back(ended);
            },
            _ => {
                self.old_transactions.push(ended);
            },
        }
        let ghost committed = self.recently_committed_transactions@;
        let ghost rolled_back = self.old_transactions@;
        self.recently_committed_transactions = sweep_queue(
            &self.recently_committed_transactions,
            horizon,
        );
        self.old_transactions = sweep(&self.old_transactions, horizon);
        discard_sets(&mut self.old_catalog_sets, query_horizon);
        proof {
            let limit = before.current_start_timestamp;
            lemma_unexpired_keeps(
                committed,
                horizon,
                |t: Transaction|
                    t.state == TransactionState::Committed && t.commit_timestamp <= limit,
            );
            lemma_unexpired_keeps(
                rolled_back,
                horizon,
                |t: Transaction| t.state == TransactionState::RolledBack,
            );
            assert forall|a: int, b: int| 0 <= a < b < self@.active.len() implies (
            #[trigger] self@.active[a]).transaction_id != (
            #[trigger] self@.active[b]).transaction_id by {
                let a0 = if a < i { a } else { a + 1 };
                let b0 = if b < i { b } else { b + 1 };
                assert(before.active[a0].transaction_id != before.active[b0].transaction_id);
            }
        }
    }

    /// Commits the active transaction `transaction_id` at the start
    /// timestamp that the next transaction gets, so that exactly the
    /// transactions that start from now on see its work. The transaction
    /// leaves the active transactions and joins the recently committed ones,
    /// and what lies below the new horizon is reclaimed. Returns the
    /// transaction as it ended, or `None`, with nothing changed, if no such
    /// transaction is active.
    pub fn commit_transaction(&mut self, transaction_id: TransactionId) -> (r: Option<Transaction>)
        requires
            old(self).wf(),
        ensures
            final(self).wf(),
            match old(self)@.position(transaction_id) {
                Some(i) => {
                    &&& r == Some(
                        Transaction {
                            commit_timestamp: old(self)@.current_start_timestamp,
                            state: TransactionState::Committed,
                            ..old(self)@.active[i]
                        },
                    )
                    &&& old(self)@.retired(final(self)@, i, r->0)
                },
                None => r is None && final(self)@ == old(self)@,
            },
    {
        match self.find_active(transaction_id) {
            Some(i) => {
                let mut ended = self.active_transactions[i];
                ended.commit(self.current_start_timestamp);
                self.remove_transaction(i, ended);
                Some(ended)
            },
            None => None,
        }
    }

    /// Rolls back the active transaction `transaction_id`: it leaves the
    /// active transactions and joins the old ones, and what lies below the
    /// new horizon is reclaimed. Returns the transaction as it ended, or
    /// `None`, with nothing changed, if no such transaction is active.
    pub fn rollback_transaction(&mut self, transaction_id: TransactionId) -> (r: Option<
        Transaction,
    >)
        requires
            old(self).wf(),
        ensures
            final(self).wf(),
            match old(self)@.position(transaction_id) {
                Some(i) => {
                    &&& r == Some(
                        Transaction { state: TransactionState::RolledBack, ..old(self)@.active[i] },
                    )
                    &&& old(self)@.retired(final(self)@, i, r->0)
                },
                None => r is None && final(self)@ == old(self)@,
            },
    {
        match self.find_active(transaction_id) {
            Some(i) => {
                let mut ended = self.active_transactions[i];
                ended.rollback();
                self.remove_transaction(i, ended);
                Some(ended)
            },
            None => None,
        }
    }

    /// Gives the active transaction `transaction_id` the number of the next
    /// query. Returns the number, or `None`, with nothing changed, if no such
    /// transaction is active.
    pub fn begin_query(&mut self, transaction_id: TransactionId) -> (r: Option<TransactionId>)
        requires
            old(self).wf(),
        ensures
            final(self).wf(),
            match old(self)@.position(transaction_id) {
                Some(i) => {
                    &&& r == Some(old(self)@.current_query_number)
                    &&& final(self)@ == (TransactionManagerView {
                        current_query_number: if old(self)@.current_query_number == u64::MAX {
                            0
                        } else {
                            (old(self)@.current_query_number + 1) as u64
                        },
                        active: old(self)@.active.update(
                            i,
                            Transaction {
                                active_query: old(self)@.current_query_number,
                                ..old(self)@.active[i]
                            },
                        ),
                        ..old(self)@
                    })
                },
                None => r is None && final(self)@ == old(self)@,
            },
    {
        match self.find_active(transaction_id) {
            Some(i) => {
                let number = self.get_query_number();
                let mut txn = self.active_transactions[i];
                txn.active_query = number;
                self.active_transactions[i] = txn;
                Some(number)
            },
            None => None,
        }
    }

    /// Keeps a catalog set that was taken out of the catalog until no query
    /// can read it any more: until every active transaction runs a query
    /// newer than the newest query of now.
    pub fn add_catalog_set(&mut self, context: &ClientContext, catalog_set: CatalogSet)
        requires
            old(self).wf(),
        ensures
            final(self).wf(),
            final(self)@.old_catalog_sets.len() == old(self)@.old_catalog_sets.len() + 1,
            final(self)@.old_catalog_sets.last().stored_set == catalog_set,
            final(self)@.old_catalog_sets.last().highest_active_query == old(self)@.current_query_number,
            final(self)@.old_catalog_sets.drop_last() == old(self)@.old_catalog_sets,
            final(self)@ == (TransactionManagerView {
                old_catalog_sets: final(self)@.old_catalog_sets,
                ..old(self)@
            }),
    {
        let query_number = self.current_query_number;
        self.old_catalog_sets.push(
            StoredCatalogSet { stored_set: catalog_set, highest_active_query: query_number },
        );
        proof {
            assert(self@.old_catalog_sets.drop_last() =~= old(self)@.old_catalog_sets);
        }
    }
}

} // verus!
