use carapacedb::alter_table_info::{
    AlterInfo, AlterTableInfo, AlterTableType, AlterType, RenameColumnInfo,
};
use carapacedb::connection::Connection;
use carapacedb::connection_manager::ConnectionManager;
use carapacedb::file_system::{
    check_transfer, is_dot_entry, is_listed, join_path, open_mode, path_separator, FileFlags,
    FileLockType, IoErrorKind, OpenMode, FILE_FLAGS_CREATE, FILE_FLAGS_DIRECT_IO,
    FILE_FLAGS_READ, FILE_FLAGS_WRITE,
};

#[test]
fn alter_info_keeps_its_kind() {
    assert_eq!(AlterInfo::new(AlterType::AlterTable).alter_type, AlterType::AlterTable);
    assert_eq!(AlterInfo::new(AlterType::Invalid).alter_type, AlterType::Invalid);
}

#[test]
fn alter_table_info_names_the_table() {
    let info = AlterTableInfo::new(AlterTableType::RenameColumn, "main", "t1".to_string());
    assert_eq!(info.base.alter_type, AlterType::AlterTable);
    assert_eq!(info.alter_table_type, AlterTableType::RenameColumn);
    assert_eq!(info.schema, "main");
    assert_eq!(info.table, "t1");
}

#[test]
fn rename_column_info_names_both_columns() {
    let info = RenameColumnInfo::new("main", "t1", "a", "b");
    assert_eq!(info.base.base.alter_type, AlterType::AlterTable);
    assert_eq!(info.base.alter_table_type, AlterTableType::RenameColumn);
    assert_eq!(info.base.schema, "main");
    assert_eq!(info.base.table, "t1");
    assert_eq!(info.name, "a");
    assert_eq!(info.new_name, "b");
    assert_eq!(info.clone(), info);
}

#[test]
fn connections_are_kept_once() {
    let mut manager = ConnectionManager::new();
    manager.add_connection(Connection::new(1));
    manager.add_connection(Connection::new(2));
    manager.add_connection(Connection::new(1));
    assert_eq!(manager.len(), 2);
    assert_eq!(manager.scan(|c| c.id), vec![1, 2]);
    manager.remove_connection(&Connection::new(1));
    manager.remove_connection(&Connection::new(7));
    assert_eq!(manager.scan(|c| c.id * 10), vec![20]);
    manager.remove_connection(&Connection::new(2));
    assert_eq!(manager.len(), 0);
    assert_eq!(manager.scan(|c| c.id), Vec::<u64>::new());
}

#[test]
fn scan_visits_every_connection() {
    let mut manager = ConnectionManager::new();
    for id in 0..5 {
        manager.add_connection(Connection::new(id));
    }
    let seen = std::cell::Cell::new(0u64);
    manager.scan(|c| seen.set(seen.get() + c.id + 1));
    assert_eq!(seen.get(), 15);
}

#[test]
fn file_flags_combine() {
    let flags = FileFlags::from_bits_truncate(FILE_FLAGS_WRITE | FILE_FLAGS_CREATE | 64);
    assert_eq!(flags.bits, 10);
    assert!(flags.contains(FILE_FLAGS_WRITE));
    assert!(flags.contains(FILE_FLAGS_CREATE));
    assert!(flags.contains(FILE_FLAGS_WRITE | FILE_FLAGS_CREATE));
    assert!(!flags.contains(FILE_FLAGS_READ));
    assert!(!flags.contains(FILE_FLAGS_WRITE | FILE_FLAGS_READ));
    assert!(flags.is_valid());
    let both = flags.union(FileFlags::from_bits_truncate(FILE_FLAGS_READ));
    assert_eq!(both.bits, 11);
    assert!(!both.is_valid());
    assert!(!FileFlags::from_bits_truncate(FILE_FLAGS_READ | FILE_FLAGS_CREATE).is_valid());
}

#[test]
fn open_mode_follows_the_flags() {
    assert_eq!(
        open_mode(FileFlags::from_bits_truncate(FILE_FLAGS_READ)),
        OpenMode { read_only: true, create: false, direct: false }
    );
    assert_eq!(
        open_mode(FileFlags::from_bits_truncate(
            FILE_FLAGS_WRITE | FILE_FLAGS_CREATE | FILE_FLAGS_DIRECT_IO
        )),
        OpenMode { read_only: false, create: true, direct: true }
    );
    assert_ne!(FileLockType::ReadLock, FileLockType::WriteLock);
    assert_ne!(FileLockType::NoLock, FileLockType::WriteLock);
}

#[test]
fn short_transfer_is_unexpected_eof() {
    assert_eq!(check_transfer(10, 10), Ok(()));
    assert_eq!(check_transfer(10, 9), Err(IoErrorKind::UnexpectedEof));
    assert_eq!(check_transfer(10, 11), Err(IoErrorKind::UnexpectedEof));
    assert_eq!(check_transfer(-1, u64::MAX), Err(IoErrorKind::UnexpectedEof));
    assert_eq!(check_transfer(0, 0), Ok(()));
}

#[test]
fn paths_are_joined_with_a_slash() {
    assert_eq!(path_separator(), "/");
    assert_eq!(join_path("a", "b"), "a/b");
    assert_eq!(join_path("/tmp/db", "wal"), "/tmp/db/wal");
    assert_eq!(join_path("", ""), "/");
}

#[test]
fn hidden_entries_are_not_listed() {
    assert!(is_listed("data.db"));
    assert!(!is_listed(".hidden"));
    assert!(!is_listed("."));
    assert!(!is_listed(""));
    assert!(is_listed("é"));
    assert!(is_dot_entry("."));
    assert!(is_dot_entry(".."));
    assert!(!is_dot_entry("..."));
    assert!(!is_dot_entry(".a"));
    assert!(!is_dot_entry(""));
    assert!(!is_dot_entry("a"));
}
