use carapacedb::alter_table_info::{AlterInfo, AlterType};
use carapacedb::catalog::{Catalog, DropError, SET_ID_SPAN};
use carapacedb::catalog_entry::{
    BaseCatalogEntry, CatalogEntryTrait, CatalogError, CatalogErrorKind, ClientContext,
};
use carapacedb::catalog_set::CatalogSet;
use carapacedb::catalog_type::CatalogType;
use carapacedb::database::{AccessMode, DBConfig, DuckDB};
use carapacedb::dependency_manager::{DependencyError, DependencyManager};
use carapacedb::storage_manager::StorageManager;
use carapacedb::transaction::Transaction;

fn database() -> DuckDB {
    let (storage, _region) = StorageManager::create();
    DuckDB::new(DBConfig::default(), storage)
}

fn committed_at(txn: &Transaction, set: &mut CatalogSet, timestamp: u64) {
    set.commit(txn.transaction_id, timestamp);
}

#[test]
fn catalog_type_tags() {
    assert_eq!(CatalogType::Invalid.to_u8(), 0);
    assert_eq!(CatalogType::Table.to_u8(), 1);
    assert_eq!(CatalogType::Schema.to_u8(), 2);
    assert_eq!(CatalogType::TableFunction.to_u8(), 3);
    assert_eq!(CatalogType::ScalarFunction.to_u8(), 4);
    assert_eq!(CatalogType::View.to_u8(), 5);
    assert_eq!(CatalogType::Index.to_u8(), 6);
    assert_eq!(CatalogType::UpdatedEntry.to_u8(), 10);
    assert_eq!(CatalogType::DeletedEntry.to_u8(), 11);
    assert_eq!(CatalogType::PreparedStatement.to_u8(), 12);
    assert_eq!(CatalogType::Sequence.to_u8(), 13);
    assert_eq!(CatalogType::from_u8(6), Some(CatalogType::Index));
    assert_eq!(CatalogType::from_u8(7), None);
    assert_eq!(CatalogType::from_u8(13), Some(CatalogType::Sequence));
    assert_eq!(CatalogType::from_u8(14), None);
}

#[test]
fn catalog_error_keeps_its_message() {
    let e = CatalogError::new("nope");
    assert_eq!(e.message, "nope");
    assert_eq!(e.kind, CatalogErrorKind::Other);
    let e = CatalogError::of_kind(CatalogErrorKind::NotFound, "gone");
    assert_eq!(e.kind, CatalogErrorKind::NotFound);
    assert_eq!(e.message, "gone");
}

#[test]
fn base_entry_begins_blank() {
    let e = BaseCatalogEntry::new(CatalogType::View, "v".to_string());
    assert_eq!(e.id(), 0);
    assert_eq!(e.get_type(), CatalogType::View);
    assert_eq!(e.get_name(), "v");
    assert!(!e.is_deleted());
    assert_eq!(e.get_timestamp(), 0);
    assert_eq!(e.get_child(), None);
    assert_eq!(e.get_parent(), None);
    assert!(!e.committed);
}

#[test]
fn base_entry_links_can_be_set() {
    let mut e = BaseCatalogEntry::new(CatalogType::Table, "t".to_string());
    e.set_child(Some(3));
    e.set_parent(Some(9));
    assert_eq!(e.get_child(), Some(3));
    assert_eq!(e.get_parent(), Some(9));
    let copy = e.duplicate();
    assert_eq!(copy.get_child(), Some(3));
    assert_eq!(copy.get_name(), "t");
}

#[test]
fn base_entry_supports_no_alter() {
    let e = BaseCatalogEntry::new(CatalogType::Table, "t".to_string());
    let context = ClientContext { transaction: None };
    let r = e.alter_entry(&context, &AlterInfo::new(AlterType::AlterTable));
    let error = r.err().unwrap();
    assert_eq!(error.kind, CatalogErrorKind::UnsupportedAlter);
    assert_eq!(error.message, "Unsupported alter type for catalog entry!");
}

#[test]
fn visibility_of_a_version() {
    let reader = Transaction::new(7, 10);
    let mut e = BaseCatalogEntry::new(CatalogType::Table, "t".to_string());
    e.transaction_id = 3;
    assert!(!e.is_visible_to(&reader));
    assert!(e.is_visible_to(&Transaction::new(3, 0)));
    e.committed = true;
    e.timestamp = 10;
    assert!(e.is_visible_to(&reader));
    e.timestamp = 11;
    assert!(!e.is_visible_to(&reader));
    assert!(!e.is_visible_to(&Transaction::new(3, 0)));
}

#[test]
fn created_entry_is_found_by_its_writer_only() {
    let mut set = CatalogSet::new(0, 100);
    let writer = Transaction::new(1, 0);
    let other = Transaction::new(2, 1);
    let id = set.create_entry("t1", CatalogType::Table, &writer).unwrap();
    assert_eq!(id, 0);
    let found = set.get_entry("t1", &writer).unwrap();
    assert_eq!(found.id, 0);
    assert_eq!(found.name, "t1");
    assert_eq!(found.type_, CatalogType::Table);
    assert!(!found.committed);
    assert!(set.get_entry("t1", &other).is_none());
    assert!(set.get_entry("t2", &writer).is_none());
}

#[test]
fn identifiers_begin_at_the_base() {
    let mut set = CatalogSet::new(40, 42);
    let writer = Transaction::new(1, 0);
    assert!(set.has_room());
    assert_eq!(set.room(), 2);
    assert_eq!(set.create_entry("a", CatalogType::Table, &writer).unwrap(), 40);
    assert_eq!(set.create_entry("b", CatalogType::Table, &writer).unwrap(), 41);
    assert!(!set.has_room());
    assert_eq!(set.room(), 0);
    assert!(set.entry(39).is_none());
    assert_eq!(set.entry(41).unwrap().name, "b");
    assert!(set.entry(42).is_none());
}

#[test]
fn commit_shows_the_entry_to_later_transactions_only() {
    let mut set = CatalogSet::new(0, 100);
    let writer = Transaction::new(1, 0);
    let before = Transaction::new(2, 1);
    set.create_entry("t1", CatalogType::Table, &writer).unwrap();
    committed_at(&writer, &mut set, 2);
    let after = Transaction::new(3, 2);
    assert!(set.get_entry("t1", &before).is_none());
    let found = set.get_entry("t1", &after).unwrap();
    assert!(found.committed);
    assert_eq!(found.timestamp, 2);
    assert_eq!(set.visible_version("t1", &after), Some(0));
    assert_eq!(set.visible_version("t1", &before), None);
}

#[test]
fn creating_a_visible_name_again_is_refused() {
    let mut set = CatalogSet::new(0, 100);
    let writer = Transaction::new(1, 0);
    set.create_entry("t1", CatalogType::Table, &writer).unwrap();
    let again = set.create_entry("t1", CatalogType::Table, &writer).err().unwrap();
    assert_eq!(again.kind, CatalogErrorKind::AlreadyExists);
    committed_at(&writer, &mut set, 1);
    let later = Transaction::new(2, 1);
    let again = set.create_entry("t1", CatalogType::View, &later).err().unwrap();
    assert_eq!(again.kind, CatalogErrorKind::AlreadyExists);
    assert_eq!(set.head("t1"), Some(0));
}

#[test]
fn writing_on_an_invisible_head_is_a_conflict() {
    let mut set = CatalogSet::new(0, 100);
    let first = Transaction::new(1, 0);
    let second = Transaction::new(2, 1);
    set.create_entry("t1", CatalogType::Table, &first).unwrap();
    let refused = set.create_entry("t1", CatalogType::Table, &second).err().unwrap();
    assert_eq!(refused.kind, CatalogErrorKind::Conflict);
    let refused = set.drop_entry("t1", &second).err().unwrap();
    assert_eq!(refused.kind, CatalogErrorKind::Conflict);
    committed_at(&first, &mut set, 2);
    // Committed after the second transaction began: still out of its sight.
    let refused = set.drop_entry("t1", &second).err().unwrap();
    assert_eq!(refused.kind, CatalogErrorKind::Conflict);
    assert_eq!(set.head("t1"), Some(0));
}

#[test]
fn drop_leaves_the_entry_to_earlier_transactions() {
    let mut set = CatalogSet::new(0, 100);
    let creator = Transaction::new(1, 0);
    set.create_entry("t1", CatalogType::Table, &creator).unwrap();
    committed_at(&creator, &mut set, 1);
    let reader = Transaction::new(2, 1);
    let dropper = Transaction::new(3, 2);
    let marker = set.drop_entry("t1", &dropper).unwrap();
    assert_eq!(marker, 1);
    assert!(set.get_entry("t1", &dropper).is_none());
    assert_eq!(set.visible_version("t1", &dropper), Some(1));
    assert_eq!(set.get_entry("t1", &reader).unwrap().id, 0);
    committed_at(&dropper, &mut set, 3);
    assert_eq!(set.get_entry("t1", &reader).unwrap().id, 0);
    let late = Transaction::new(4, 3);
    assert!(set.get_entry("t1", &late).is_none());
    let marker = set.entry(1).unwrap();
    assert!(marker.deleted);
    assert_eq!(marker.type_, CatalogType::Table);
    assert_eq!(marker.child, Some(0));
    assert_eq!(set.entry(0).unwrap().parent, Some(1));
}

#[test]
fn dropping_what_is_not_there_is_not_found() {
    let mut set = CatalogSet::new(0, 100);
    let txn = Transaction::new(1, 0);
    assert_eq!(set.drop_entry("t1", &txn).err().unwrap().kind, CatalogErrorKind::NotFound);
    set.create_entry("t1", CatalogType::Table, &txn).unwrap();
    set.drop_entry("t1", &txn).unwrap();
    assert_eq!(set.drop_entry("t1", &txn).err().unwrap().kind, CatalogErrorKind::NotFound);
}

#[test]
fn a_dropped_name_can_be_created_again() {
    let mut set = CatalogSet::new(0, 100);
    let txn = Transaction::new(1, 0);
    set.create_entry("t1", CatalogType::Table, &txn).unwrap();
    set.drop_entry("t1", &txn).unwrap();
    let again = set.create_entry("t1", CatalogType::View, &txn).unwrap();
    assert_eq!(again, 2);
    let found = set.get_entry("t1", &txn).unwrap();
    assert_eq!(found.type_, CatalogType::View);
    assert_eq!(found.child, Some(1));
}

#[test]
fn alter_of_a_base_entry_is_unsupported() {
    let mut set = CatalogSet::new(0, 100);
    let txn = Transaction::new(1, 0);
    let other = Transaction::new(2, 1);
    let context = ClientContext { transaction: Some(txn) };
    let info = AlterInfo::new(AlterType::AlterTable);
    let missing = set.alter_entry("t1", &context, &info, &txn).err().unwrap();
    assert_eq!(missing.kind, CatalogErrorKind::NotFound);
    set.create_entry("t1", CatalogType::Table, &txn).unwrap();
    let refused = set.alter_entry("t1", &context, &info, &txn).err().unwrap();
    assert_eq!(refused.kind, CatalogErrorKind::UnsupportedAlter);
    let refused = set.alter_entry("t1", &context, &info, &other).err().unwrap();
    assert_eq!(refused.kind, CatalogErrorKind::Conflict);
    assert_eq!(set.head("t1"), Some(0));
}

#[test]
fn rollback_undoes_uncommitted_work() {
    let mut set = CatalogSet::new(0, 100);
    let creator = Transaction::new(1, 0);
    set.create_entry("kept", CatalogType::Table, &creator).unwrap();
    committed_at(&creator, &mut set, 1);
    let writer = Transaction::new(2, 1);
    let reader = Transaction::new(3, 2);
    set.drop_entry("kept", &writer).unwrap();
    set.create_entry("kept", CatalogType::View, &writer).unwrap();
    set.create_entry("fresh", CatalogType::Table, &writer).unwrap();
    assert_eq!(set.get_entry("kept", &reader).unwrap().id, 0);
    let mut freed = set.rollback(writer.transaction_id);
    freed.sort();
    assert_eq!(freed, vec![1, 2, 3]);
    assert_eq!(set.head("kept"), Some(0));
    assert_eq!(set.head("fresh"), None);
    assert_eq!(set.entry(0).unwrap().parent, None);
    assert!(set.entry(1).is_none());
    assert!(set.entry(3).is_none());
    assert_eq!(set.get_entry("kept", &reader).unwrap().id, 0);
    assert_eq!(set.get_entry("kept", &writer).unwrap().id, 0);
    assert!(set.get_entry("fresh", &writer).is_none());
}

#[test]
fn collect_reclaims_what_nobody_can_see() {
    let mut set = CatalogSet::new(0, 100);
    let first = Transaction::new(1, 0);
    set.create_entry("t1", CatalogType::Table, &first).unwrap();
    set.create_entry("t2", CatalogType::Table, &first).unwrap();
    committed_at(&first, &mut set, 1);
    let second = Transaction::new(2, 1);
    set.drop_entry("t1", &second).unwrap();
    set.drop_entry("t2", &second).unwrap();
    set.create_entry("t2", CatalogType::View, &second).unwrap();
    committed_at(&second, &mut set, 2);
    // A transaction that began at 1 still needs the first versions.
    assert_eq!(set.collect(1), Vec::<u64>::new());
    let old_reader = Transaction::new(3, 1);
    assert_eq!(set.get_entry("t1", &old_reader).unwrap().id, 0);
    // From 2 on nobody does.
    let mut freed = set.collect(2);
    freed.sort();
    assert_eq!(freed, vec![0, 1, 2, 3]);
    assert_eq!(set.head("t1"), None);
    assert_eq!(set.head("t2"), Some(4));
    assert_eq!(set.entry(4).unwrap().child, None);
    let reader = Transaction::new(4, 2);
    assert!(set.get_entry("t1", &reader).is_none());
    assert_eq!(set.get_entry("t2", &reader).unwrap().type_, CatalogType::View);
    assert_eq!(set.collect(2), Vec::<u64>::new());
}

#[test]
fn collect_keeps_uncommitted_work() {
    let mut set = CatalogSet::new(0, 100);
    let first = Transaction::new(1, 0);
    set.create_entry("t1", CatalogType::Table, &first).unwrap();
    committed_at(&first, &mut set, 1);
    let second = Transaction::new(2, 5);
    set.drop_entry("t1", &second).unwrap();
    assert_eq!(set.collect(5), Vec::<u64>::new());
    assert_eq!(set.head("t1"), Some(1));
    assert_eq!(set.get_entry("t1", &Transaction::new(3, 6)).unwrap().id, 0);
    assert!(set.get_entry("t1", &second).is_none());
}

#[test]
fn dependency_manager_records_each_edge_once() {
    let mut manager = DependencyManager::new();
    assert!(manager.can_drop(1));
    manager.add_dependency(2, 1);
    manager.add_dependency(2, 1);
    manager.add_dependency(3, 1);
    assert_eq!(manager.len(), 2);
    assert!(manager.depends_on(2, 1));
    assert!(!manager.depends_on(1, 2));
    assert!(!manager.can_drop(1));
    assert!(manager.can_drop(2));
    assert_eq!(manager.check_drop(1), Err(DependencyError::HasDependents));
    assert_eq!(manager.check_drop(3), Ok(()));
    assert_eq!(manager.dependents(1), vec![2, 3]);
    assert_eq!(manager.dependents(2), Vec::<u64>::new());
}

#[test]
fn cascade_is_breadth_first_and_ends_on_cycles() {
    let mut manager = DependencyManager::new();
    manager.add_dependency(2, 1);
    manager.add_dependency(3, 1);
    manager.add_dependency(4, 2);
    manager.add_dependency(5, 3);
    manager.add_dependency(2, 5);
    manager.add_dependency(1, 4);
    manager.add_dependency(9, 8);
    assert_eq!(manager.cascade(1), vec![1, 2, 3, 4, 5]);
    assert_eq!(manager.cascade(3), vec![3, 5, 2, 4, 1]);
    assert_eq!(manager.cascade(8), vec![8, 9]);
    assert_eq!(manager.cascade(7), vec![7]);
}

#[test]
fn erase_forgets_the_edges_of_an_entry() {
    let mut manager = DependencyManager::new();
    manager.add_dependency(2, 1);
    manager.add_dependency(3, 2);
    manager.add_dependency(4, 3);
    manager.erase(2);
    assert_eq!(manager.len(), 1);
    assert!(manager.depends_on(4, 3));
    assert!(manager.can_drop(1));
    manager.add_dependency(5, 4);
    manager.erase_each(&vec![3, 5]);
    assert_eq!(manager.len(), 0);
}

#[test]
fn catalog_keeps_one_set_per_schema_and_kind() {
    let mut catalog = Catalog::new();
    let txn = Transaction::new(1, 0);
    let table = catalog.create_entry("main", CatalogType::Table, "t1", &txn).unwrap();
    let index = catalog.create_entry("main", CatalogType::Index, "t1", &txn).unwrap();
    let other = catalog.create_entry("other", CatalogType::Table, "t1", &txn).unwrap();
    let second = catalog.create_entry("main", CatalogType::Table, "t2", &txn).unwrap();
    assert_eq!(table, 0);
    assert_eq!(index, SET_ID_SPAN);
    assert_eq!(other, 2 * SET_ID_SPAN);
    assert_eq!(second, 1);
    assert_eq!(catalog.get_entry("main", CatalogType::Index, "t1", &txn).unwrap().id, index);
    assert!(catalog.get_entry("main", CatalogType::View, "t1", &txn).is_none());
    assert!(catalog.get_entry("none", CatalogType::Table, "t1", &txn).is_none());
    assert_eq!(catalog.entry(other).unwrap().name, "t1");
    assert!(catalog.entry(7).is_none());
    assert!(catalog.entry(5 * SET_ID_SPAN).is_none());
    let again = catalog.create_entry("main", CatalogType::Table, "t1", &txn).err().unwrap();
    assert_eq!(again.kind, CatalogErrorKind::AlreadyExists);
}

#[test]
fn dependency_needs_both_entries() {
    let mut catalog = Catalog::new();
    let txn = Transaction::new(1, 0);
    let table = catalog.create_entry("main", CatalogType::Table, "t1", &txn).unwrap();
    let refused = catalog.add_dependency(99, table).err().unwrap();
    assert_eq!(refused.kind, CatalogErrorKind::NotFound);
    let refused = catalog.add_dependency(table, 99).err().unwrap();
    assert_eq!(refused.kind, CatalogErrorKind::NotFound);
    assert!(catalog.can_drop(table));
    let index = catalog.create_entry("main", CatalogType::Index, "idx1", &txn).unwrap();
    assert!(catalog.add_dependency(index, table).is_ok());
    assert!(!catalog.can_drop(table));
    assert!(catalog.can_drop(index));
}

#[test]
fn drop_without_cascade_needs_no_dependents() {
    let mut catalog = Catalog::new();
    let txn = Transaction::new(1, 0);
    let table = catalog.create_entry("main", CatalogType::Table, "t1", &txn).unwrap();
    let index = catalog.create_entry("main", CatalogType::Index, "idx1", &txn).unwrap();
    catalog.add_dependency(index, table).unwrap();
    match catalog.drop_entry("main", CatalogType::Table, "t1", &txn, false) {
        Err(DropError::Dependency(DependencyError::HasDependents)) => {}
        other => panic!("unexpected outcome: {:?}", other),
    }
    assert!(catalog.get_entry("main", CatalogType::Table, "t1", &txn).is_some());
    let dropped = catalog.drop_entry("main", CatalogType::Index, "idx1", &txn, false).unwrap();
    assert_eq!(dropped, vec![index]);
    assert!(catalog.get_entry("main", CatalogType::Index, "idx1", &txn).is_none());
}

#[test]
fn drop_with_cascade_takes_the_dependents_along() {
    let mut catalog = Catalog::new();
    let creator = Transaction::new(1, 0);
    let table = catalog.create_entry("main", CatalogType::Table, "t1", &creator).unwrap();
    let index = catalog.create_entry("main", CatalogType::Index, "idx1", &creator).unwrap();
    let view = catalog.create_entry("main", CatalogType::View, "v1", &creator).unwrap();
    let deep = catalog.create_entry("main", CatalogType::View, "v2", &creator).unwrap();
    let apart = catalog.create_entry("main", CatalogType::Table, "t2", &creator).unwrap();
    catalog.add_dependency(index, table).unwrap();
    catalog.add_dependency(view, table).unwrap();
    catalog.add_dependency(deep, view).unwrap();
    catalog.commit(creator.transaction_id, 1);
    let reader = Transaction::new(2, 1);
    let dropper = Transaction::new(3, 2);
    let dropped = catalog.drop_entry("main", CatalogType::Table, "t1", &dropper, true).unwrap();
    assert_eq!(dropped, vec![table, index, view, deep]);
    for (kind, name) in [
        (CatalogType::Table, "t1"),
        (CatalogType::Index, "idx1"),
        (CatalogType::View, "v1"),
        (CatalogType::View, "v2"),
    ] {
        assert!(catalog.get_entry("main", kind, name, &dropper).is_none());
        assert!(catalog.get_entry("main", kind, name, &reader).is_some());
    }
    assert_eq!(catalog.get_entry("main", CatalogType::Table, "t2", &dropper).unwrap().id, apart);
    // The dependencies stay until the versions are reclaimed.
    assert!(!catalog.can_drop(table));
    catalog.commit(dropper.transaction_id, 3);
    catalog.collect(3);
    assert!(catalog.entry(table).is_none());
    assert!(catalog.entry(index).is_none());
    assert!(catalog.can_drop(table));
    assert!(catalog.can_drop(view));
    assert!(catalog.entry(apart).is_some());
}

#[test]
fn drop_of_a_missing_object_is_not_found() {
    let mut catalog = Catalog::new();
    let txn = Transaction::new(1, 0);
    match catalog.drop_entry("main", CatalogType::Table, "t1", &txn, true) {
        Err(DropError::Catalog(e)) => assert_eq!(e.kind, CatalogErrorKind::NotFound),
        other => panic!("unexpected outcome: {:?}", other),
    }
    catalog.create_entry("main", CatalogType::Table, "t2", &txn).unwrap();
    match catalog.drop_entry("main", CatalogType::Table, "t1", &txn, false) {
        Err(DropError::Catalog(e)) => assert_eq!(e.kind, CatalogErrorKind::NotFound),
        other => panic!("unexpected outcome: {:?}", other),
    }
}

#[test]
fn cascade_over_a_conflict_changes_nothing() {
    let mut catalog = Catalog::new();
    let creator = Transaction::new(1, 0);
    let table = catalog.create_entry("main", CatalogType::Table, "t1", &creator).unwrap();
    let index = catalog.create_entry("main", CatalogType::Index, "idx1", &creator).unwrap();
    catalog.add_dependency(index, table).unwrap();
    catalog.commit(creator.transaction_id, 1);
    let rival = Transaction::new(2, 1);
    let dropper = Transaction::new(3, 2);
    catalog.drop_entry("main", CatalogType::Index, "idx1", &rival, false).unwrap();
    match catalog.drop_entry("main", CatalogType::Table, "t1", &dropper, true) {
        Err(DropError::Catalog(e)) => assert_eq!(e.kind, CatalogErrorKind::Conflict),
        other => panic!("unexpected outcome: {:?}", other),
    }
    assert!(catalog.get_entry("main", CatalogType::Table, "t1", &dropper).is_some());
    assert!(catalog.get_entry("main", CatalogType::Index, "idx1", &dropper).is_some());
}

#[test]
fn catalog_rollback_forgets_dependencies_of_undone_versions() {
    let mut catalog = Catalog::new();
    let creator = Transaction::new(1, 0);
    let table = catalog.create_entry("main", CatalogType::Table, "t1", &creator).unwrap();
    catalog.commit(creator.transaction_id, 1);
    let writer = Transaction::new(2, 1);
    let index = catalog.create_entry("main", CatalogType::Index, "idx1", &writer).unwrap();
    catalog.add_dependency(index, table).unwrap();
    assert!(!catalog.can_drop(table));
    catalog.rollback(writer.transaction_id);
    assert!(catalog.entry(index).is_none());
    assert!(catalog.can_drop(table));
    assert!(catalog.get_entry("main", CatalogType::Table, "t1", &writer).is_some());
}

#[test]
fn catalog_alter_is_unsupported_for_base_entries() {
    let mut catalog = Catalog::new();
    let txn = Transaction::new(1, 0);
    let context = ClientContext { transaction: Some(txn) };
    let info = AlterInfo::new(AlterType::AlterTable);
    let missing =
        catalog.alter_entry("main", CatalogType::Table, "t1", &context, &info, &txn).err().unwrap();
    assert_eq!(missing.kind, CatalogErrorKind::NotFound);
    catalog.create_entry("main", CatalogType::Table, "t1", &txn).unwrap();
    let refused =
        catalog.alter_entry("main", CatalogType::Table, "t1", &context, &info, &txn).err().unwrap();
    assert_eq!(refused.kind, CatalogErrorKind::UnsupportedAlter);
}

#[test]
fn uncommitted_work_is_isolated() {
    let mut db = database();
    let t1 = db.start_transaction().unwrap();
    let t2 = db.start_transaction().unwrap();
    assert!(t2.start_timestamp > t1.start_timestamp);
    db.create_entry(t1.transaction_id, "main", CatalogType::Table, "t", ).unwrap();
    assert!(db.get_entry(t2.transaction_id, "main", CatalogType::Table, "t").is_none());
    assert!(db.get_entry(t1.transaction_id, "main", CatalogType::Table, "t").is_some());
    let t3 = db.start_transaction().unwrap();
    assert!(db.get_entry(t3.transaction_id, "main", CatalogType::Table, "t").is_none());
}

#[test]
fn snapshots_are_consistent() {
    let mut db = database();
    let writer = db.start_transaction().unwrap();
    let before = db.start_transaction().unwrap();
    db.create_entry(writer.transaction_id, "main", CatalogType::Table, "t").unwrap();
    let ended = db.commit(writer.transaction_id).unwrap();
    assert_eq!(ended.commit_timestamp, 3);
    let after = db.start_transaction().unwrap();
    assert_eq!(after.start_timestamp, 3);
    assert!(db.get_entry(before.transaction_id, "main", CatalogType::Table, "t").is_none());
    let found = db.get_entry(after.transaction_id, "main", CatalogType::Table, "t").unwrap();
    assert_eq!(found.timestamp, 3);
    assert!(found.committed);
}

#[test]
fn scenario_create_commit_drop_cascade() {
    let mut db = database();
    let a = db.start_transaction().unwrap();
    assert_eq!(a.transaction_id, 1);
    assert_eq!(a.start_timestamp, 1);
    let t1 = db.create_entry(a.transaction_id, "main", CatalogType::Table, "t1").unwrap();
    let idx1 = db.create_entry(a.transaction_id, "main", CatalogType::Index, "idx1").unwrap();
    db.add_dependency(idx1, t1).unwrap();
    let b = db.start_transaction().unwrap();
    assert_eq!(b.start_timestamp, 2);
    assert!(db.get_entry(b.transaction_id, "main", CatalogType::Table, "t1").is_none());
    db.commit(a.transaction_id).unwrap();
    assert!(db.get_entry(b.transaction_id, "main", CatalogType::Table, "t1").is_none());
    let c = db.start_transaction().unwrap();
    assert_eq!(c.start_timestamp, 3);
    assert_eq!(db.get_entry(c.transaction_id, "main", CatalogType::Table, "t1").unwrap().id, t1);
    let d = db.start_transaction().unwrap();
    assert_eq!(d.start_timestamp, 4);
    match db.drop_entry(d.transaction_id, "main", CatalogType::Table, "t1", false) {
        Err(DropError::Dependency(DependencyError::HasDependents)) => {}
        other => panic!("unexpected outcome: {:?}", other),
    }
    let dropped = db.drop_entry(d.transaction_id, "main", CatalogType::Table, "t1", true).unwrap();
    assert_eq!(dropped, vec![t1, idx1]);
    db.commit(d.transaction_id).unwrap();
    let e = db.start_transaction().unwrap();
    assert!(db.get_entry(e.transaction_id, "main", CatalogType::Table, "t1").is_none());
    assert!(db.get_entry(e.transaction_id, "main", CatalogType::Index, "idx1").is_none());
    assert_eq!(db.get_entry(c.transaction_id, "main", CatalogType::Table, "t1").unwrap().id, t1);
    assert_eq!(
        db.get_entry(c.transaction_id, "main", CatalogType::Index, "idx1").unwrap().id,
        idx1
    );
    // Once B and C have ended nobody can see the dropped versions any more.
    db.commit(b.transaction_id).unwrap();
    db.rollback(c.transaction_id).unwrap();
    let f = db.start_transaction().unwrap();
    assert!(db.get_entry(f.transaction_id, "main", CatalogType::Table, "t1").is_none());
    let again = db.create_entry(f.transaction_id, "main", CatalogType::Table, "t1").unwrap();
    assert!(again > idx1 || again > t1);
}

#[test]
fn database_refuses_transactions_that_are_not_active() {
    let mut db = database();
    let r = db.create_entry(5, "main", CatalogType::Table, "t").err().unwrap();
    assert_eq!(r.kind, CatalogErrorKind::NotFound);
    assert!(db.get_entry(5, "main", CatalogType::Table, "t").is_none());
    assert!(db.commit(5).is_none());
    assert!(db.rollback(5).is_none());
    let txn = db.start_transaction().unwrap();
    db.rollback(txn.transaction_id).unwrap();
    assert!(db.commit(txn.transaction_id).is_none());
}

#[test]
fn database_rollback_undoes_the_work() {
    let mut db = database();
    let txn = db.start_transaction().unwrap();
    db.create_entry(txn.transaction_id, "main", CatalogType::Table, "t").unwrap();
    let ended = db.rollback(txn.transaction_id).unwrap();
    assert_eq!(ended.transaction_id, txn.transaction_id);
    let next = db.start_transaction().unwrap();
    assert!(db.get_entry(next.transaction_id, "main", CatalogType::Table, "t").is_none());
    assert!(db.create_entry(next.transaction_id, "main", CatalogType::Table, "t").is_ok());
}

#[test]
fn access_mode_defaults_to_read_write() {
    assert_eq!(DBConfig::default().access_mode, AccessMode::Undefined);
    let (storage, _region) = StorageManager::create();
    let mut db = DuckDB::new(DBConfig { access_mode: AccessMode::ReadOnly }, storage);
    assert!(db.start_transaction().is_some());
    assert_eq!(db.connection_count(), 0);
}

#[test]
fn a_chain_is_ordered_by_time() {
    let mut set = CatalogSet::new(0, 100);
    let first = Transaction::new(1, 1);
    set.create_entry("t", CatalogType::Table, &first).unwrap();
    assert_eq!(set.entry(0).unwrap().timestamp, 1);
    assert!(!set.entry(0).unwrap().committed);
    set.commit(1, 2);
    let second = Transaction::new(2, 2);
    assert_eq!(set.drop_entry("t", &second).unwrap(), 1);
    assert_eq!(set.create_entry("t", CatalogType::View, &second).unwrap(), 2);
    assert_eq!(set.entry(2).unwrap().timestamp, 2);
    set.commit(2, 3);
    let newest = set.entry(set.head("t").unwrap()).unwrap();
    assert_eq!((newest.id, newest.timestamp, newest.child), (2, 3, Some(1)));
    let marker = set.entry(1).unwrap();
    assert_eq!((marker.timestamp, marker.deleted, marker.child), (3, true, Some(0)));
    let oldest = set.entry(0).unwrap();
    assert_eq!((oldest.timestamp, oldest.child, oldest.parent), (2, None, Some(1)));
    assert!(oldest.timestamp < marker.timestamp);
}

#[test]
fn erase_keeps_the_order_of_what_is_left() {
    let mut manager = DependencyManager::new();
    manager.add_dependency(4, 1);
    manager.add_dependency(2, 1);
    manager.add_dependency(3, 1);
    manager.add_dependency(5, 1);
    assert_eq!(manager.dependents(1), vec![4, 2, 3, 5]);
    manager.erase(2);
    assert_eq!(manager.dependents(1), vec![4, 3, 5]);
    assert_eq!(manager.cascade(1), vec![1, 4, 3, 5]);
    manager.erase_each(&vec![4, 5]);
    assert_eq!(manager.dependents(1), vec![3]);
    manager.erase_each(&Vec::new());
    assert_eq!(manager.len(), 1);
}

#[test]
fn a_cascade_drops_each_object_once_and_nothing_else() {
    let mut catalog = Catalog::new();
    let creator = Transaction::new(1, 0);
    let table = catalog.create_entry("main", CatalogType::Table, "t1", &creator).unwrap();
    let first = catalog.create_entry("main", CatalogType::View, "v1", &creator).unwrap();
    let other = catalog.create_entry("main", CatalogType::View, "v2", &creator).unwrap();
    // Both edges lead to the same view, by two ways.
    catalog.add_dependency(first, table).unwrap();
    catalog.add_dependency(first, first).unwrap();
    catalog.commit(creator.transaction_id, 1);
    let dropper = Transaction::new(2, 1);
    let dropped = catalog.drop_entry("main", CatalogType::Table, "t1", &dropper, true).unwrap();
    assert_eq!(dropped, vec![table, first]);
    // One marker on each dropped chain, none on the chain that stands apart.
    assert_eq!(other, first + 1);
    let marker = catalog.entry(other + 1).unwrap();
    assert!(marker.deleted);
    assert_eq!(marker.child, Some(first));
    assert_eq!(marker.timestamp, 1);
    assert!(catalog.entry(other + 2).is_none());
    let gone = catalog.entry(table + 1).unwrap();
    assert!(gone.deleted);
    assert_eq!(gone.child, Some(table));
    assert!(catalog.entry(table + 2).is_none());
    let kept = catalog.get_entry("main", CatalogType::View, "v2", &dropper).unwrap();
    assert_eq!(kept.id, other);
    assert!(kept.parent.is_none());
}
