use carapacedb::catalog_entry::ClientContext;
use carapacedb::catalog_set::CatalogSet;
use carapacedb::transaction::{Transaction, TransactionState};
use carapacedb::transaction_manager::TransactionManager;

#[test]
fn new_transaction_is_active() {
    let txn = Transaction::new(4, 9);
    assert_eq!(txn.transaction_id, 4);
    assert_eq!(txn.start_timestamp, 9);
    assert_eq!(txn.commit_timestamp, 0);
    assert_eq!(txn.state, TransactionState::Active);
}

#[test]
fn transaction_ends_once() {
    let mut txn = Transaction::new(1, 0);
    txn.commit(5);
    assert_eq!(txn.state, TransactionState::Committed);
    assert_eq!(txn.commit_timestamp, 5);
    let mut other = Transaction::new(2, 1);
    other.rollback();
    assert_eq!(other.state, TransactionState::RolledBack);
    assert_eq!(other.start_timestamp, 1);
}

#[test]
fn first_transaction_has_id_one_and_timestamp_one() {
    let mut manager = TransactionManager::new();
    assert!(manager.can_start());
    let first = manager.start_transaction();
    assert_eq!(first.transaction_id, 1);
    assert_eq!(first.start_timestamp, 1);
    assert_eq!(first.state, TransactionState::Active);
    let second = manager.start_transaction();
    assert_eq!(second.transaction_id, 2);
    assert_eq!(second.start_timestamp, 2);
    assert_eq!(manager.active_count(), 2);
    assert_eq!(manager.get_transaction(2), Some(second));
    assert_eq!(manager.get_transaction(3), None);
}

#[test]
fn horizon_is_the_lowest_active_start() {
    let mut manager = TransactionManager::new();
    assert_eq!(manager.lowest_active_start(), 1);
    let a = manager.start_transaction();
    let b = manager.start_transaction();
    let c = manager.start_transaction();
    assert_eq!(manager.lowest_active_start(), 1);
    manager.commit_transaction(a.transaction_id).unwrap();
    assert_eq!(manager.lowest_active_start(), 2);
    manager.rollback_transaction(b.transaction_id).unwrap();
    assert_eq!(manager.lowest_active_start(), 3);
    manager.commit_transaction(c.transaction_id).unwrap();
    assert_eq!(manager.lowest_active_start(), 4);
}

#[test]
fn commit_takes_the_next_start_timestamp() {
    let mut manager = TransactionManager::new();
    let a = manager.start_transaction();
    let b = manager.start_transaction();
    let ended = manager.commit_transaction(a.transaction_id).unwrap();
    assert_eq!(ended.state, TransactionState::Committed);
    assert_eq!(ended.commit_timestamp, 3);
    assert_eq!(ended.transaction_id, a.transaction_id);
    assert_eq!(manager.active_count(), 1);
    // B began before the commit: the committed transaction is kept for it.
    assert_eq!(manager.recently_committed_count(), 1);
    let c = manager.start_transaction();
    assert_eq!(c.start_timestamp, 3);
    manager.commit_transaction(b.transaction_id).unwrap();
    // Only C is active, from 3 on: A, committed at 3, is still kept; so is B,
    // committed at 4.
    assert_eq!(manager.recently_committed_count(), 2);
    manager.commit_transaction(c.transaction_id).unwrap();
    // Nobody is active: the horizon is 4, and A lies below it.
    assert_eq!(manager.recently_committed_count(), 2);
    let d = manager.start_transaction();
    manager.commit_transaction(d.transaction_id).unwrap();
    assert_eq!(manager.recently_committed_count(), 1);
}

#[test]
fn rollback_keeps_the_transaction_for_later_reclaim() {
    let mut manager = TransactionManager::new();
    let a = manager.start_transaction();
    let b = manager.start_transaction();
    let ended = manager.rollback_transaction(b.transaction_id).unwrap();
    assert_eq!(ended.state, TransactionState::RolledBack);
    assert_eq!(manager.old_transaction_count(), 1);
    assert_eq!(manager.active_count(), 1);
    manager.rollback_transaction(a.transaction_id).unwrap();
    // The horizon is 3 now: both rolled-back transactions lie below it.
    assert_eq!(manager.old_transaction_count(), 0);
    assert_eq!(manager.active_count(), 0);
}

#[test]
fn ending_an_unknown_transaction_changes_nothing() {
    let mut manager = TransactionManager::new();
    let a = manager.start_transaction();
    assert_eq!(manager.commit_transaction(9), None);
    assert_eq!(manager.rollback_transaction(9), None);
    assert_eq!(manager.begin_query(9), None);
    assert_eq!(manager.active_count(), 1);
    manager.commit_transaction(a.transaction_id).unwrap();
    assert_eq!(manager.commit_transaction(a.transaction_id), None);
}

#[test]
fn query_numbers_count_up() {
    let mut manager = TransactionManager::new();
    assert_eq!(manager.get_query_number(), 0);
    assert_eq!(manager.get_query_number(), 1);
    let a = manager.start_transaction();
    assert_eq!(a.active_query, 2);
    assert_eq!(manager.begin_query(a.transaction_id), Some(2));
    assert_eq!(manager.get_transaction(a.transaction_id).unwrap().active_query, 2);
    assert_eq!(manager.begin_query(a.transaction_id), Some(3));
    assert_eq!(manager.get_transaction(a.transaction_id).unwrap().active_query, 3);
    assert_eq!(manager.lowest_active_query(), Some(3));
    assert_eq!(manager.get_query_number(), 4);
    manager.commit_transaction(a.transaction_id).unwrap();
    assert_eq!(manager.lowest_active_query(), None);
}

#[test]
fn catalog_sets_wait_for_the_queries_that_may_read_them() {
    let mut manager = TransactionManager::new();
    let context = ClientContext { transaction: None };
    let reader = manager.start_transaction();
    let other = manager.start_transaction();
    let late = manager.start_transaction();
    assert_eq!(manager.begin_query(reader.transaction_id), Some(0));
    assert_eq!(manager.begin_query(other.transaction_id), Some(1));
    // The next query is number 2; the set is stamped with it.
    manager.add_catalog_set(&context, CatalogSet::new(0, 10));
    assert_eq!(manager.begin_query(late.transaction_id), Some(2));
    assert_eq!(manager.begin_query(late.transaction_id), Some(3));
    assert_eq!(manager.old_catalog_set_count(), 1);
    manager.commit_transaction(other.transaction_id).unwrap();
    // The reader runs query 0, which may still read the set.
    assert_eq!(manager.old_catalog_set_count(), 1);
    manager.commit_transaction(reader.transaction_id).unwrap();
    // The only query that runs is number 3, which is newer than the set.
    assert_eq!(manager.old_catalog_set_count(), 0);
}

#[test]
fn catalog_sets_go_when_no_transaction_is_active() {
    let mut manager = TransactionManager::new();
    let context = ClientContext { transaction: None };
    let only = manager.start_transaction();
    manager.add_catalog_set(&context, CatalogSet::new(0, 10));
    manager.add_catalog_set(&context, CatalogSet::new(10, 20));
    assert_eq!(manager.old_catalog_set_count(), 2);
    manager.rollback_transaction(only.transaction_id).unwrap();
    assert_eq!(manager.old_catalog_set_count(), 0);
}
