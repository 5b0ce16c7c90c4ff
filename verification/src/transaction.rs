//! One unit of work, and the snapshot it reads.

use vstd::prelude::*;

verus! {

/// Identifies a transaction; timestamps and query numbers share the type.
pub type TransactionId = u64;

/// Where a transaction stands in its life.
#[derive(Debug, Clone, Copy, PartialEq, Eq, Structural)]
pub enum TransactionState {
    Active,
    Committed,
    RolledBack,
}

/// One unit of work.
#[derive(Debug, Clone, Copy, PartialEq, Eq, Structural)]
pub struct Transaction {
    /// Unique among the transactions of one manager.
    pub transaction_id: TransactionId,
    /// The snapshot boundary: versions created later are invisible.
    pub start_timestamp: TransactionId,
    /// Orders commits; meaningful once the state is `Committed`.
    pub commit_timestamp: TransactionId,
    /// The number of the query that the transaction runs or ran last.
    pub active_query: TransactionId,
    pub state: TransactionState,
}

impl Transaction {
    /// An active transaction that reads the snapshot at `start_timestamp`.
    pub fn new(transaction_id: TransactionId, start_timestamp: TransactionId) -> (txn: Self)
        ensures
            txn == (Transaction {
                transaction_id,
                start_timestamp,
                commit_timestamp: 0,
                active_query: 0,
                state: TransactionState::Active,
            }),
    {
        Transaction {
            transaction_id,
            start_timestamp,
            commit_timestamp: 0,
            active_query: 0,
            state: TransactionState::Active,
        }
    }

    pub open spec fn is_active(&self) -> bool {
        self.state == TransactionState::Active
    }

    /// Ends an active transaction as committed at `commit_timestamp`.
    pub fn commit(&mut self, commit_timestamp: TransactionId)
        requires
            old(self).is_active(),
        ensures
            *final(self) == (Transaction {
                commit_timestamp,
                state: TransactionState::Committed,
                ..*old(self)
            }),
    {
        self.commit_timestamp = commit_timestamp;
        self.state = TransactionState::Committed;
    }

    /// Ends an active transaction as rolled back.
    pub fn rollback(&mut self)
        requires
            old(self).is_active(),
        ensures
            *final(self) == (Transaction { state: TransactionState::RolledBack, ..*old(self) }),
    {
        self.state = TransactionState::RolledBack;
    }
}

} // verus!
