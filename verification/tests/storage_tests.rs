use carapacedb::block::Block;
use carapacedb::block_manager::{BlockManager, SingleFileBlockManager};
use carapacedb::buffered_file_writer::{BufferedFileWriter, FILE_BUFFER_SIZE};
use carapacedb::file_buffer::FileBuffer;
use carapacedb::free_list::{
    read_free_list, read_free_page, write_free_list, write_free_page, FREE_PAGE_CAPACITY,
};
use carapacedb::serializer::{from_bytes, to_bytes, Serializer};
use carapacedb::storage_info::{
    block_location, header_slot_offset, read_main_header, read_slot, select_active_header,
    DatabaseHeader, MainHeader, StorageError, BLOCK_SIZE, DATABASE_HEADER_BYTES,
    FIRST_HEADER_OFFSET, HEADER_SIZE, INVALID_BLOCK, MAIN_HEADER_BYTES, SECOND_HEADER_OFFSET,
    VERSION_NUMBER,
};
use carapacedb::storage_manager::{BlockSource, DirtyBlocks, StorageManager};
use carapacedb::wal::{read_records, WalRecord, WriteAheadLog};

fn header(iteration: u64, block_count: u64) -> DatabaseHeader {
    DatabaseHeader { iteration, meta_block: INVALID_BLOCK, free_list: INVALID_BLOCK, block_count }
}

fn block_of(id: i64, fill: u8) -> Block {
    Block::with_data(id, vec![fill; BLOCK_SIZE])
}

/// What the file holds after the writes of a checkpoint.
fn apply_header(region: &mut Vec<u8>, offset: u64, bytes: &[u8]) {
    let start = offset as usize;
    region[start..start + bytes.len()].copy_from_slice(bytes);
}

#[test]
fn layout_constants() {
    assert_eq!(BLOCK_SIZE, 262144);
    assert_eq!(HEADER_SIZE, 4096);
    assert_eq!(INVALID_BLOCK, -1);
    assert_eq!(VERSION_NUMBER, 1);
    assert_eq!(block_location(0), Some(4096));
    assert_eq!(block_location(3), Some(4096 + 3 * 262144));
    assert_eq!(block_location(-1), None);
    assert_eq!(block_location(i64::MAX), None);
    assert_eq!(header_slot_offset(0), FIRST_HEADER_OFFSET);
    assert_eq!(header_slot_offset(1), SECOND_HEADER_OFFSET);
}

#[test]
fn database_header_is_four_little_endian_fields() {
    let h = DatabaseHeader { iteration: 3, meta_block: 1, free_list: -1, block_count: 5 };
    let bytes = to_bytes(&h);
    assert_eq!(bytes.len(), DATABASE_HEADER_BYTES);
    assert_eq!(&bytes[0..8], &[3, 0, 0, 0, 0, 0, 0, 0]);
    assert_eq!(&bytes[8..16], &[1, 0, 0, 0, 0, 0, 0, 0]);
    assert_eq!(&bytes[16..24], &[0xff; 8]);
    assert_eq!(&bytes[24..32], &[5, 0, 0, 0, 0, 0, 0, 0]);
    assert_eq!(from_bytes::<DatabaseHeader>(bytes), Ok(h));
}

#[test]
fn main_header_round_trip() {
    let m = MainHeader { version_number: 1, flags: [1, 2, 3, 4] };
    let bytes = to_bytes(&m);
    assert_eq!(bytes.len(), MAIN_HEADER_BYTES);
    let back = from_bytes::<MainHeader>(bytes.clone()).unwrap();
    assert_eq!(back.version_number, 1);
    assert_eq!(back.flags, [1, 2, 3, 4]);
    assert_eq!(read_main_header(&bytes).unwrap().flags, [1, 2, 3, 4]);
    assert_eq!(read_main_header(&bytes[..39]).err(), Some(StorageError::CorruptHeader));
    let other = to_bytes(&MainHeader { version_number: 2, flags: [0; 4] });
    assert_eq!(read_main_header(&other).err(), Some(StorageError::VersionMismatch));
    assert_eq!(MainHeader::new().version_number, VERSION_NUMBER);
}

#[test]
fn slot_must_hold_a_consistent_header() {
    let good = DatabaseHeader { iteration: 2, meta_block: 0, free_list: -1, block_count: 1 };
    assert_eq!(read_slot(&to_bytes(&good)), Some(good));
    assert!(good.is_consistent());
    let bad_meta = DatabaseHeader { iteration: 2, meta_block: 1, free_list: -1, block_count: 1 };
    assert!(!bad_meta.is_consistent());
    assert_eq!(read_slot(&to_bytes(&bad_meta)), None);
    let bad_free = DatabaseHeader { iteration: 2, meta_block: -1, free_list: -2, block_count: 1 };
    assert_eq!(read_slot(&to_bytes(&bad_free)), None);
    assert_eq!(read_slot(&[0u8; 32]), None);
    assert_eq!(read_slot(&to_bytes(&good)[..31]), None);
    assert!(DatabaseHeader::initial().is_consistent());
}

#[test]
fn active_header_has_the_higher_iteration() {
    let low = header(4, 1);
    let high = header(5, 2);
    assert_eq!(select_active_header(Some(low), Some(high)), Ok((1, high)));
    assert_eq!(select_active_header(Some(high), Some(low)), Ok((0, high)));
    assert_eq!(select_active_header(Some(low), Some(low)), Ok((0, low)));
    assert_eq!(select_active_header(Some(low), None), Ok((0, low)));
    assert_eq!(select_active_header(None, Some(low)), Ok((1, low)));
    assert_eq!(select_active_header(None, None), Err(StorageError::CorruptHeader));
}

#[test]
fn freed_blocks_are_reused_exactly() {
    let mut manager = SingleFileBlockManager::new(0, &header(0, 0), vec![], vec![]);
    let mut ids = Vec::new();
    for _ in 0..6 {
        ids.push(manager.get_free_block_id());
    }
    assert_eq!(ids, vec![0, 1, 2, 3, 4, 5]);
    assert!(manager.free_block(1));
    assert!(manager.free_block(4));
    assert!(manager.free_block(2));
    assert!(!manager.free_block(2));
    assert!(!manager.free_block(6));
    assert!(!manager.free_block(-1));
    assert!(!manager.is_allocated(4));
    assert_eq!(manager.free_blocks(), vec![1, 4, 2]);
    let mut again = vec![
        manager.get_free_block_id(),
        manager.get_free_block_id(),
        manager.get_free_block_id(),
    ];
    assert_eq!(again, vec![2, 4, 1]);
    again.sort();
    assert_eq!(again, vec![1, 2, 4]);
    assert_eq!(manager.get_free_block_id(), 6);
    assert_eq!(manager.block_count(), 7);
    for id in 0..7 {
        assert!(manager.is_allocated(id));
    }
}

#[test]
fn created_block_is_blank_and_block_sized() {
    let mut manager = SingleFileBlockManager::new(0, &header(0, 2), vec![], vec![]);
    let block = manager.create_block();
    assert_eq!(block.block_id, 2);
    assert_eq!(block.file_buffer.size(), BLOCK_SIZE);
    assert!(block.file_buffer.buffer.iter().all(|b| *b == 0));
    let transfer = manager.write(&block);
    assert_eq!(transfer.offset, 4096 + 2 * 262144);
    assert_eq!(transfer.length, 262144);
    assert_eq!(manager.read(&block), transfer);
}

#[test]
fn meta_block_must_be_in_use() {
    let mut manager = SingleFileBlockManager::new(0, &header(0, 2), vec![], vec![]);
    assert_eq!(manager.get_meta_block(), INVALID_BLOCK);
    assert!(!manager.set_meta_block(2));
    assert!(manager.set_meta_block(1));
    assert_eq!(manager.get_meta_block(), 1);
    assert!(!manager.free_block(1));
    assert!(manager.set_meta_block(INVALID_BLOCK));
    assert!(manager.free_block(1));
    assert!(!manager.set_meta_block(1));
}

#[test]
fn header_goes_to_the_inactive_slot() {
    let mut manager = SingleFileBlockManager::new(0, &header(7, 3), vec![], vec![]);
    let next = manager.checkpoint_header();
    assert_eq!(next, header(8, 3));
    let write = manager.write_header(&next);
    assert_eq!(write.slot, 1);
    assert_eq!(write.offset, SECOND_HEADER_OFFSET as u64);
    assert_eq!(write.bytes, to_bytes(&header(8, 3)));
    assert_eq!(manager.active_slot(), 1);
    assert_eq!(manager.iteration(), 8);
    let write = manager.write_header(&manager.checkpoint_header());
    assert_eq!(write.slot, 0);
    assert_eq!(write.offset, FIRST_HEADER_OFFSET as u64);
    assert_eq!(read_slot(&write.bytes), Some(header(9, 3)));
}

#[test]
fn file_buffer_and_block() {
    let buffer = FileBuffer::new(5);
    assert_eq!(buffer.buffer, vec![0; 5]);
    assert_eq!(buffer.size(), 5);
    let held = FileBuffer::from_bytes(vec![1, 2]);
    assert_eq!(held.duplicate().buffer, vec![1, 2]);
    let block = Block::new(3);
    assert_eq!(block.block_id, 3);
    assert_eq!(block.file_buffer.size(), BLOCK_SIZE);
    let copy = Block::with_data(4, vec![9]).duplicate();
    assert_eq!(copy.block_id, 4);
    assert_eq!(copy.file_buffer.buffer, vec![9]);
}

#[test]
fn writer_gives_up_whole_buffers() {
    let mut writer = BufferedFileWriter::new();
    writer.write(&[1u8; 100]);
    assert_eq!(writer.waiting(), 100);
    assert_eq!(writer.take_output(), Vec::<u8>::new());
    writer.write(&vec![2u8; FILE_BUFFER_SIZE]);
    assert_eq!(writer.waiting(), 100);
    let out = writer.take_output();
    assert_eq!(out.len(), FILE_BUFFER_SIZE);
    assert_eq!(&out[..100], &[1u8; 100][..]);
    assert_eq!(&out[100..], &vec![2u8; FILE_BUFFER_SIZE - 100][..]);
    writer.write(&vec![3u8; 2 * FILE_BUFFER_SIZE - 100]);
    assert_eq!(writer.waiting(), 0);
    assert_eq!(writer.take_output().len(), 2 * FILE_BUFFER_SIZE);
    writer.write(&[4, 5]);
    writer.sync();
    assert_eq!(writer.waiting(), 0);
    assert_eq!(writer.take_output(), vec![4, 5]);
}

#[test]
fn writer_is_a_serializer() {
    let mut writer = BufferedFileWriter::new();
    writer.write_u32(1).unwrap();
    writer.write_string("ab").unwrap();
    writer.sync();
    assert_eq!(writer.take_output(), vec![1, 0, 0, 0, 2, 0, 0, 0, 97, 98]);
}

#[test]
fn log_records_read_back() {
    let mut log = WriteAheadLog::new();
    assert!(!log.is_initialized());
    log.reset(3);
    assert!(log.is_initialized());
    log.append(&WalRecord::Allocate(0));
    log.append(&WalRecord::Write(0, vec![7, 8]));
    log.append(&WalRecord::SetMeta(0));
    log.append(&WalRecord::Free(5));
    assert_eq!(log.take_output(), Vec::<u8>::new());
    log.sync();
    let bytes = log.take_output();
    assert_eq!(&bytes[..8], &[3, 0, 0, 0, 0, 0, 0, 0]);
    assert_eq!(&bytes[8..17], &[1, 0, 0, 0, 0, 0, 0, 0, 0]);
    assert_eq!(&bytes[17..32], &[3, 0, 0, 0, 0, 0, 0, 0, 0, 2, 0, 0, 0, 7, 8]);
    let records = read_records(&bytes[8..]).unwrap();
    assert_eq!(records.len(), 4);
    assert!(matches!(records[0], WalRecord::Allocate(0)));
    assert!(matches!(&records[1], WalRecord::Write(0, data) if *data == vec![7, 8]));
    assert!(matches!(records[2], WalRecord::SetMeta(0)));
    assert!(matches!(records[3], WalRecord::Free(5)));
    assert_eq!(read_records(&[]).unwrap().len(), 0);
}

#[test]
fn corrupt_or_truncated_records_are_a_corrupt_log() {
    assert_eq!(read_records(&[9, 0, 0, 0, 0, 0, 0, 0, 0]).err(), Some(StorageError::CorruptLog));
    assert_eq!(read_records(&[0]).err(), Some(StorageError::CorruptLog));
    assert_eq!(read_records(&[1, 0, 0, 0]).err(), Some(StorageError::CorruptLog));
    assert_eq!(
        read_records(&[3, 0, 0, 0, 0, 0, 0, 0, 0, 2, 0, 0, 0, 7]).err(),
        Some(StorageError::CorruptLog)
    );
    let resumed = WriteAheadLog::resume(&[1, 2, 3]);
    assert!(resumed.is_initialized());
}

#[test]
fn dirty_blocks_hold_the_last_content() {
    let mut dirty = DirtyBlocks::new();
    assert!(dirty.get(1).is_none());
    dirty.put(Block::with_data(1, vec![1]));
    dirty.put(Block::with_data(2, vec![2]));
    dirty.put(Block::with_data(1, vec![3]));
    assert_eq!(dirty.get(1).unwrap().file_buffer.buffer, vec![3]);
    dirty.remove(1);
    dirty.remove(7);
    assert!(dirty.get(1).is_none());
    let all = dirty.take_all();
    assert_eq!(all.len(), 1);
    assert_eq!(all[0].block_id, 2);
    assert!(dirty.get(2).is_none());
}

#[test]
fn new_database_opens_again() {
    let (manager, region) = StorageManager::create();
    assert_eq!(region.len(), HEADER_SIZE);
    assert_eq!(manager.block_count(), 0);
    assert_eq!(manager.iteration(), 0);
    assert!(!manager.read_only());
    let opened = StorageManager::open(&region, &vec![], &[], false).unwrap();
    assert_eq!(opened.manager.block_count(), 0);
    assert_eq!(opened.new_log, Some(vec![0; 8]));
    let read_only = StorageManager::open(&region, &vec![], &[], true).unwrap();
    assert!(read_only.manager.read_only());
    assert_eq!(read_only.new_log, None);
}

#[test]
fn replay_after_a_crash_reproduces_the_state() {
    let (mut manager, region) = StorageManager::create();
    let mut log = Vec::new();
    let a = manager.create_block().unwrap();
    let b = manager.create_block().unwrap();
    let c = manager.create_block().unwrap();
    assert_eq!((a.block_id, b.block_id, c.block_id), (0, 1, 2));
    manager.write_block(&block_of(0, 0xaa)).unwrap();
    manager.write_block(&block_of(1, 0xbb)).unwrap();
    log.extend(manager.sync_log());
    manager.free_block(1).unwrap();
    manager.set_meta_block(2).unwrap();
    manager.write_block(&block_of(0, 0xcc)).unwrap();
    log.extend(manager.sync_log());
    // The crash: what is left is the file as of the last checkpoint, and the
    // log.
    let recovered = StorageManager::open(&region, &vec![], &log, false).unwrap();
    assert_eq!(recovered.new_log, None);
    let recovered = recovered.manager;
    assert_eq!(recovered.block_count(), manager.block_count());
    assert_eq!(recovered.free_blocks(), manager.free_blocks());
    assert_eq!(recovered.free_blocks(), vec![1]);
    assert_eq!(recovered.get_meta_block(), 2);
    assert_eq!(recovered.iteration(), 0);
    for id in 0..3 {
        assert_eq!(recovered.is_allocated(id), manager.is_allocated(id));
    }
    match recovered.read_block(0).unwrap() {
        BlockSource::Memory(block) => assert_eq!(block.file_buffer.buffer, vec![0xcc; BLOCK_SIZE]),
        BlockSource::File(_) => panic!("the block was written since the checkpoint"),
    }
    match recovered.read_block(2).unwrap() {
        BlockSource::File(transfer) => {
            assert_eq!(transfer.offset, 4096 + 2 * 262144);
            assert_eq!(transfer.length, 262144);
        }
        BlockSource::Memory(_) => panic!("the block was not written"),
    }
    assert_eq!(recovered.read_block(1).err(), Some(StorageError::InvalidBlock));
    // The next allocation is the same in both.
    let mut recovered = recovered;
    assert_eq!(recovered.create_block().unwrap().block_id, 1);
    assert_eq!(manager.create_block().unwrap().block_id, 1);
}

#[test]
fn records_that_were_not_synced_are_lost() {
    let (mut manager, region) = StorageManager::create();
    manager.create_block().unwrap();
    let log = manager.sync_log();
    manager.create_block().unwrap();
    let recovered = StorageManager::open(&region, &vec![], &log, false).unwrap().manager;
    assert_eq!(recovered.block_count(), 1);
}

#[test]
fn corrupt_log_prevents_opening() {
    let (mut manager, region) = StorageManager::create();
    manager.create_block().unwrap();
    let log = manager.sync_log();
    let cut = &log[..log.len() - 1];
    assert_eq!(StorageManager::open(&region, &vec![], cut, false).err(), Some(StorageError::CorruptLog));
    assert_eq!(StorageManager::open(&region, &vec![], &log[..5], false).err(), Some(StorageError::CorruptLog));
    let mut wrong = log.clone();
    wrong[8] = 9;
    assert_eq!(StorageManager::open(&region, &vec![], &wrong, true).err(), Some(StorageError::CorruptLog));
    // A record that does not apply: block 1 is not the next block.
    let mut misplaced = log.clone();
    misplaced[9] = 1;
    assert_eq!(
        StorageManager::open(&region, &vec![], &misplaced, false).err(),
        Some(StorageError::CorruptLog)
    );
    // A log of a checkpoint that is still to come.
    let mut early = log.clone();
    early[0] = 1;
    assert_eq!(StorageManager::open(&region, &vec![], &early, false).err(), Some(StorageError::CorruptLog));
}

#[test]
fn corrupt_header_prevents_opening() {
    let (_manager, region) = StorageManager::create();
    assert_eq!(
        StorageManager::open(&region[..100], &vec![], &[], false).err(),
        Some(StorageError::CorruptHeader)
    );
    let mut no_slots = region.clone();
    for byte in no_slots[FIRST_HEADER_OFFSET..FIRST_HEADER_OFFSET + 32].iter_mut() {
        *byte = 0;
    }
    assert_eq!(
        StorageManager::open(&no_slots, &vec![], &[], false).err(),
        Some(StorageError::CorruptHeader)
    );
    let mut other_version = region.clone();
    other_version[0] = 2;
    assert_eq!(
        StorageManager::open(&other_version, &vec![], &[], false).err(),
        Some(StorageError::VersionMismatch)
    );
}

#[test]
fn checkpoint_writes_blocks_then_header_then_resets_the_log() {
    let (mut manager, mut region) = StorageManager::create();
    manager.create_block().unwrap();
    manager.create_block().unwrap();
    manager.create_block().unwrap();
    manager.write_block(&block_of(2, 5)).unwrap();
    manager.write_block(&block_of(0, 6)).unwrap();
    manager.free_block(1).unwrap();
    manager.set_meta_block(0).unwrap();
    let old_log = manager.sync_log();
    let cp = manager.checkpoint().unwrap();
    assert_eq!(cp.blocks.len(), 2);
    assert_eq!(cp.blocks[0].block_id, 2);
    assert_eq!(cp.blocks[1].block_id, 0);
    assert_eq!(cp.transfers[0].offset, 4096 + 2 * 262144);
    assert_eq!(cp.transfers[1].offset, 4096);
    assert_eq!(cp.transfers[0].length, 262144);
    // The free list, block 1, goes to a fresh page behind the three blocks.
    assert_eq!(cp.free_pages.len(), 1);
    assert_eq!(cp.free_pages[0].block_id, 3);
    assert_eq!(cp.free_pages[0].file_buffer.size(), BLOCK_SIZE);
    assert_eq!(cp.free_page_transfers[0].offset, 4096 + 3 * 262144);
    assert_eq!(read_free_page(&cp.free_pages[0].file_buffer.buffer), Some((-1, vec![1])));
    assert_eq!(cp.header.slot, 1);
    assert_eq!(cp.header.offset, SECOND_HEADER_OFFSET as u64);
    assert_eq!(
        read_slot(&cp.header.bytes),
        Some(DatabaseHeader { iteration: 1, meta_block: 0, free_list: 3, block_count: 4 })
    );
    // The new log builds on iteration 1.
    assert_eq!(cp.log, vec![1, 0, 0, 0, 0, 0, 0, 0]);
    assert_eq!(manager.iteration(), 1);
    assert_eq!(manager.block_count(), 4);
    assert_eq!(manager.free_blocks(), vec![1]);
    assert!(!manager.is_allocated(3));
    assert!(matches!(manager.read_block(0), Ok(BlockSource::File(_))));
    assert_eq!(manager.read_block(3).err(), Some(StorageError::InvalidBlock));
    assert_eq!(manager.free_block(3).err(), Some(StorageError::InvalidBlock));

    // A crash before the header is written: the old header and the old log.
    let before = StorageManager::open(&region, &vec![], &old_log, false).unwrap().manager;
    assert_eq!(before.iteration(), 0);
    assert_eq!(before.block_count(), 3);
    assert_eq!(before.free_blocks(), vec![1]);
    assert!(matches!(before.read_block(0), Ok(BlockSource::Memory(_))));

    // A crash after the header is written and before the log is replaced:
    // the old log is of no use any more.
    apply_header(&mut region, cp.header.offset, &cp.header.bytes);
    assert_eq!(StorageManager::first_free_page(&region), Ok(3));
    let pages = vec![cp.free_pages[0].file_buffer.buffer.clone()];
    assert_eq!(StorageManager::next_page(&pages[0]), Some(-1));
    let between = StorageManager::open(&region, &pages, &old_log, false).unwrap();
    assert_eq!(between.manager.iteration(), 1);
    assert_eq!(between.manager.block_count(), 4);
    assert_eq!(between.manager.get_meta_block(), 0);
    assert_eq!(between.manager.free_blocks(), vec![1]);
    assert_eq!(between.new_log, Some(vec![1, 0, 0, 0, 0, 0, 0, 0]));

    // After the checkpoint.
    let after = StorageManager::open(&region, &pages, &cp.log, false).unwrap();
    assert_eq!(after.new_log, None);
    assert_eq!(after.manager.iteration(), 1);
    assert_eq!(after.manager.free_blocks(), vec![1]);
    assert_eq!(after.manager.get_meta_block(), 0);
    assert!(matches!(after.manager.read_block(2), Ok(BlockSource::File(_))));
    assert_eq!(after.manager.read_block(3).err(), Some(StorageError::InvalidBlock));

    // Without the page of the free list, or with a wrong one, the header is
    // corrupt.
    assert_eq!(
        StorageManager::open(&region, &vec![], &cp.log, false).err(),
        Some(StorageError::CorruptHeader)
    );
    assert_eq!(
        StorageManager::open(&region, &vec![vec![0u8; 10]], &cp.log, false).err(),
        Some(StorageError::CorruptHeader)
    );
    let twice = write_free_page(-1, &[1, 1]);
    assert_eq!(
        StorageManager::open(&region, &vec![twice], &cp.log, false).err(),
        Some(StorageError::CorruptHeader)
    );
    let beyond = write_free_page(-1, &[9]);
    assert_eq!(
        StorageManager::open(&region, &vec![beyond], &cp.log, false).err(),
        Some(StorageError::CorruptHeader)
    );
    let the_meta_block = write_free_page(-1, &[0]);
    assert_eq!(
        StorageManager::open(&region, &vec![the_meta_block], &cp.log, false).err(),
        Some(StorageError::CorruptHeader)
    );
    let the_page_itself = write_free_page(-1, &[3]);
    assert_eq!(
        StorageManager::open(&region, &vec![the_page_itself], &cp.log, false).err(),
        Some(StorageError::CorruptHeader)
    );

    // The next checkpoint goes to the other slot, gives the free list a
    // fresh page, and frees the page of before through the log.
    let cp = manager.checkpoint().unwrap();
    assert_eq!(cp.header.slot, 0);
    assert_eq!(cp.header.offset, FIRST_HEADER_OFFSET as u64);
    assert_eq!(cp.blocks.len(), 0);
    assert_eq!(cp.free_pages.len(), 1);
    assert_eq!(cp.free_pages[0].block_id, 4);
    assert_eq!(read_free_page(&cp.free_pages[0].file_buffer.buffer), Some((-1, vec![1])));
    assert_eq!(cp.log, vec![2, 0, 0, 0, 0, 0, 0, 0, 2, 3, 0, 0, 0, 0, 0, 0, 0]);
    assert_eq!(manager.free_blocks(), vec![1, 3]);
    apply_header(&mut region, cp.header.offset, &cp.header.bytes);
    let pages = vec![cp.free_pages[0].file_buffer.buffer.clone()];
    let reopened = StorageManager::open(&region, &pages, &cp.log, true).unwrap().manager;
    assert_eq!(reopened.iteration(), 2);
    assert_eq!(reopened.block_count(), 5);
    assert_eq!(reopened.free_blocks(), vec![1, 3]);
    assert_eq!(manager.create_block().unwrap().block_id, 3);
}

#[test]
fn checkpoint_without_free_blocks_takes_no_page() {
    let (mut manager, mut region) = StorageManager::create();
    manager.create_block().unwrap();
    let cp = manager.checkpoint().unwrap();
    assert_eq!(cp.free_pages.len(), 0);
    assert_eq!(cp.free_page_transfers.len(), 0);
    assert_eq!(
        read_slot(&cp.header.bytes),
        Some(DatabaseHeader { iteration: 1, meta_block: -1, free_list: -1, block_count: 1 })
    );
    apply_header(&mut region, cp.header.offset, &cp.header.bytes);
    assert_eq!(StorageManager::first_free_page(&region), Ok(-1));
    let reopened = StorageManager::open(&region, &vec![], &cp.log, false).unwrap().manager;
    assert_eq!(reopened.block_count(), 1);
    assert_eq!(reopened.free_blocks(), Vec::<i64>::new());
}

#[test]
fn free_page_holds_next_and_identifiers() {
    let page = write_free_page(7, &[3, 1, 2]);
    assert_eq!(page.len(), BLOCK_SIZE);
    assert_eq!(&page[..8], &[7, 0, 0, 0, 0, 0, 0, 0]);
    assert_eq!(&page[8..12], &[3, 0, 0, 0]);
    assert_eq!(&page[12..20], &[3, 0, 0, 0, 0, 0, 0, 0]);
    assert!(page[36..].iter().all(|b| *b == 0));
    assert_eq!(read_free_page(&page), Some((7, vec![3, 1, 2])));
    assert_eq!(read_free_page(&page[..100]), None);
    let mut too_many = page.clone();
    too_many[8..12].copy_from_slice(&[0xff, 0x7f, 0, 0]);
    assert_eq!(read_free_page(&too_many), None);
    assert_eq!(read_free_page(&write_free_page(-1, &[])), Some((-1, vec![])));
}

#[test]
fn free_list_chain_round_trip() {
    let free: Vec<i64> = (0..(2 * FREE_PAGE_CAPACITY as i64 + 5)).rev().collect();
    let pages = write_free_list(&free, 100_000);
    assert_eq!(pages.len(), 3);
    assert_eq!(read_free_page(&pages[0]).unwrap().0, 100_001);
    assert_eq!(read_free_page(&pages[1]).unwrap().0, 100_002);
    assert_eq!(read_free_page(&pages[2]).unwrap().0, -1);
    assert_eq!(read_free_page(&pages[0]).unwrap().1.len(), FREE_PAGE_CAPACITY);
    assert_eq!(read_free_page(&pages[2]).unwrap().1.len(), 5);
    let (list, chain) = read_free_list(&pages, 100_000).unwrap();
    assert_eq!(list, free);
    assert_eq!(chain, vec![100_000, 100_001, 100_002]);
    // A chain that is cut short, runs on, or does not begin where it should.
    assert_eq!(read_free_list(&pages[..2].to_vec(), 100_000), None);
    assert_eq!(read_free_list(&pages, -1), None);
    let mut longer = pages.clone();
    longer.push(write_free_page(-1, &[]));
    assert_eq!(read_free_list(&longer, 100_000), None);
    assert_eq!(read_free_list(&vec![], -1), Some((vec![], vec![])));
    assert_eq!(read_free_list(&vec![], 5), None);
    assert_eq!(write_free_list(&vec![], 9).len(), 0);
    let exact: Vec<i64> = (0..FREE_PAGE_CAPACITY as i64).collect();
    assert_eq!(write_free_list(&exact, 0).len(), 1);
}

#[test]
fn block_manager_keeps_the_pages_of_the_free_list_out_of_reach() {
    let mut manager =
        SingleFileBlockManager::new(1, &header(4, 6), vec![2, 0], vec![5]);
    assert!(!manager.is_allocated(5));
    assert!(!manager.is_allocated(0));
    assert!(manager.is_allocated(1));
    assert!(!manager.free_block(5));
    assert!(!manager.set_meta_block(5));
    assert_eq!(manager.free_list_pages(), vec![5]);
    assert_eq!(manager.checkpoint_header().free_list, 5);
    assert!(manager.can_repage());
    let (pages, old) = manager.store_free_list();
    assert_eq!(old, vec![5]);
    assert_eq!(pages.len(), 1);
    assert_eq!(manager.free_list_pages(), vec![6]);
    assert_eq!(manager.block_count(), 7);
    assert!(manager.is_allocated(5));
    assert_eq!(read_free_list(&pages, 6), Some((vec![2, 0], vec![6])));
    assert_eq!(manager.locate(6).offset, 4096 + 6 * 262144);
    assert_eq!(SingleFileBlockManager::empty().block_count(), 0);
}

#[test]
fn read_only_database_refuses_writes() {
    let (mut manager, region) = StorageManager::create();
    manager.create_block().unwrap();
    let log = manager.sync_log();
    let mut read_only = StorageManager::open(&region, &vec![], &log, true).unwrap().manager;
    assert_eq!(read_only.block_count(), 1);
    assert_eq!(read_only.create_block().err(), Some(StorageError::ReadOnly));
    assert_eq!(read_only.write_block(&block_of(0, 1)).err(), Some(StorageError::ReadOnly));
    assert_eq!(read_only.free_block(0).err(), Some(StorageError::ReadOnly));
    assert_eq!(read_only.set_meta_block(0).err(), Some(StorageError::ReadOnly));
    assert_eq!(read_only.checkpoint().err(), Some(StorageError::ReadOnly));
    assert!(matches!(read_only.close(), Ok(None)));
}

#[test]
fn invalid_blocks_are_refused() {
    let (mut manager, _region) = StorageManager::create();
    manager.create_block().unwrap();
    assert_eq!(manager.write_block(&block_of(1, 1)).err(), Some(StorageError::InvalidBlock));
    assert_eq!(
        manager.write_block(&Block::with_data(0, vec![1, 2, 3])).err(),
        Some(StorageError::InvalidBlock)
    );
    assert_eq!(manager.free_block(3).err(), Some(StorageError::InvalidBlock));
    assert_eq!(manager.set_meta_block(3).err(), Some(StorageError::InvalidBlock));
    manager.set_meta_block(0).unwrap();
    assert_eq!(manager.free_block(0).err(), Some(StorageError::InvalidBlock));
    assert_eq!(manager.read_block(-1).err(), Some(StorageError::InvalidBlock));
}

#[test]
fn close_checkpoints() {
    let (mut manager, _region) = StorageManager::create();
    manager.create_block().unwrap();
    manager.write_block(&block_of(0, 3)).unwrap();
    let cp = manager.close().unwrap().unwrap();
    assert_eq!(cp.blocks.len(), 1);
    assert_eq!(cp.free_pages.len(), 0);
    assert_eq!(cp.header.slot, 1);
    assert_eq!(cp.log, vec![1, 0, 0, 0, 0, 0, 0, 0]);
}

#[test]
fn sync_log_hands_over_the_rest_of_the_log() {
    let (mut manager, _region) = StorageManager::create();
    // The log begins with the iteration count of the checkpoint it builds on.
    assert_eq!(manager.sync_log(), vec![0u8; 8]);
    assert_eq!(manager.sync_log(), Vec::<u8>::new());
    manager.create_block().unwrap();
    manager.set_meta_block(0).unwrap();
    let rest = manager.sync_log();
    // Two records of a tag byte and a block identifier each.
    assert_eq!(rest.len(), 18);
    assert_eq!(&rest[1..9], &[0u8; 8]);
    assert_eq!(&rest[10..18], &[0u8; 8]);
    assert_ne!(rest[0], rest[9]);
    assert_eq!(manager.sync_log(), Vec::<u8>::new());
    // A checkpoint hands the new log over whole.
    let cp = manager.checkpoint().unwrap();
    assert_eq!(cp.log, 1u64.to_le_bytes().to_vec());
    assert_eq!(manager.sync_log(), Vec::<u8>::new());
    manager.create_block().unwrap();
    assert_eq!(manager.sync_log().len(), 9);
}
