//! The storage manager: it owns the life of one database file, from opening
//! it, with a replay of the write-ahead log if there is one, through
//! checkpoints to closing it.
//!
//! The manager performs no input or output itself. It is handed the bytes of
//! the header region and of the log when the file is opened, and it hands
//! out the transfers that the file collaborator is to perform.

use vstd::prelude::*;
use vstd::bytes::{
    lemma_auto_spec_u64_to_from_le_bytes, spec_u64_from_le_bytes, spec_u64_to_le_bytes,
    u64_from_le_bytes,
};
use vstd::slice::{slice_subrange, slice_to_vec};
use std::collections::HashSet;
use crate::block::Block;
use crate::block_manager::{
    BlockManager, BlockManagerView, HeaderWrite, SingleFileBlockManager, Transfer,
};
use crate::file_system::IoErrorKind;
use crate::free_list::{free_list_of, page_views, read_free_list};
use crate::storage_info::{
    active_of, read_main_header, read_slot, select_active_header, slot_header, BlockId,
    DatabaseHeader, StorageError, BLOCK_SIZE, DATABASE_HEADER_BYTES, FIRST_HEADER_OFFSET,
    HEADER_SIZE, INVALID_BLOCK, MAIN_HEADER_BYTES, SECOND_HEADER_OFFSET, VERSION_NUMBER,
};
use crate::serializer::{to_bytes, Serializable};
use crate::storage_info::MainHeader;
use crate::wal::{
    decode_log, encode_log, encode_record, lemma_encode_log_push, lemma_log_round_trip,
    log_encodable, log_stamp, read_records, views, WalRecord, WalRecordView, WriteAheadLog,
};

verus! {

/// The blocks that were written since the last checkpoint, each once.
pub struct DirtyBlocks {
    blocks: Vec<Block>,
}

/// Whether the block `id` stands at position `i` of `blocks`.
pub open spec fn block_at(blocks: Seq<Block>, i: int, id: BlockId) -> bool {
    0 <= i < blocks.len() && blocks[i].block_id == id
}

/// The content of each block of `blocks`.
pub open spec fn block_contents(blocks: Seq<Block>) -> Map<BlockId, Seq<u8>> {
    Map::new(
        |id: BlockId| exists|i: int| block_at(blocks, i, id),
        |id: BlockId| blocks[choose|i: int| block_at(blocks, i, id)]@,
    )
}

/// Whether no block stands twice in `blocks`.
pub open spec fn blocks_distinct(blocks: Seq<Block>) -> bool {
    forall|i: int, j: int|
        0 <= i < j < blocks.len() ==> (#[trigger] blocks[i]).block_id != (
        #[trigger] blocks[j]).block_id
}

/// Among distinct blocks a block stands at one position only.
pub proof fn lemma_block_at(blocks: Seq<Block>, i: int, id: BlockId)
    requires
        blocks_distinct(blocks),
        block_at(blocks, i, id),
    ensures
        block_contents(blocks).dom().contains(id),
        block_contents(blocks)[id] == blocks[i]@,
{
    let j = choose|j: int| block_at(blocks, j, id);
    if i < j {
        assert(blocks[i].block_id != blocks[j].block_id);
    } else if j < i {
        assert(blocks[j].block_id != blocks[i].block_id);
    }
}

impl DirtyBlocks {
    /// The content of each block.
    pub closed spec fn view(&self) -> Map<BlockId, Seq<u8>> {
        block_contents(self.blocks@)
    }

    /// The blocks in the order in which they were first written.
    pub closed spec fn order(&self) -> Seq<Block> {
        self.blocks@
    }

    /// The invariant: no block stands twice.
    pub closed spec fn wf(&self) -> bool {
        blocks_distinct(self.blocks@)
    }

    /// The blocks in order are the blocks, each once.
    pub proof fn lemma_order(&self)
        requires
            self.wf(),
        ensures
            blocks_distinct(self.order()),
            self@ == block_contents(self.order()),
    {
    }

    /// No blocks.
    pub fn new() -> (dirty: Self)
        ensures
            dirty.wf(),
            dirty@ == Map::<BlockId, Seq<u8>>::empty(),
            dirty.order() == Seq::<Block>::empty(),
    {
        let dirty = DirtyBlocks { blocks: Vec::new() };
        assert(dirty@ =~= Map::<BlockId, Seq<u8>>::empty());
        dirty
    }

    /// The position of the block `id`.
    fn find(&self, id: BlockId) -> (r: Option<usize>)
        requires
            self.wf(),
        ensures
            match r {
                Some(i) => block_at(self.blocks@, i as int, id),
                None => !self@.dom().contains(id),
            },
    {
        let mut i: usize = 0;
        while i < self.blocks.len()
            invariant
                i <= self.blocks@.len(),
                forall|k: int| 0 <= k < i ==> !block_at(self.blocks@, k, id),
            decreases self.blocks@.len() - i,
        {
            if self.blocks[i].block_id == id {
                return Some(i);
            }
            i += 1;
        }
        None
    }

    /// The block `id`, if it was written.
    pub fn get(&self, id: BlockId) -> (r: Option<&Block>)
        requires
            self.wf(),
        ensures
            match r {
                Some(block) => self@.dom().contains(id) && block.block_id == id && block@
                    == self@[id],
                None => !self@.dom().contains(id),
            },
    {
        match self.find(id) {
            Some(i) => {
                proof {
                    lemma_block_at(self.blocks@, i as int, id);
                }
                Some(&self.blocks[i])
            },
            None => None,
        }
    }

    /// Keeps `block` as the content of its block.
    pub fn put(&mut self, block: Block)
        requires
            old(self).wf(),
        ensures
            final(self).wf(),
            final(self)@ == old(self)@.insert(block.block_id, block@),
    {
        let ghost before = self.blocks@;
        let id = block.block_id;
        let ghost data = block@;
        match self.find(id) {
            Some(i) => {
                self.blocks[i] = block;
                proof {
                    let after = self.blocks@;
                    assert forall|k: int, other: BlockId| block_at(after, k, other) == block_at(
                        before,
                        k,
                        other,
                    ) by {}
                    assert forall|other: BlockId|
                        block_contents(after).dom().contains(other) == block_contents(
                            before,
                        ).insert(id, data).dom().contains(other) by {
                        if exists|k: int| block_at(after, k, other) {
                            let k = choose|k: int| block_at(after, k, other);
                            assert(block_at(before, k, other));
                        }
                        if exists|k: int| block_at(before, k, other) {
                            let k = choose|k: int| block_at(before, k, other);
                            assert(block_at(after, k, other));
                        }
                        if other == id {
                            assert(block_at(after, i as int, id));
                        }
                    }
                    assert forall|other: BlockId|
                        block_contents(after).dom().contains(other) implies block_contents(
                        after,
                    )[other] == block_contents(before).insert(id, data)[other] by {
                        let k = choose|k: int| block_at(after, k, other);
                        lemma_block_at(after, k, other);
                        if other != id {
                            assert(block_at(before, k, other));
                            lemma_block_at(before, k, other);
                        } else {
                            lemma_block_at(after, i as int, id);
                        }
                    }
                    assert(block_contents(after) =~= block_contents(before).insert(id, data));
                }
            },
            None => {
                self.blocks.push(block);
                proof {
                    let after = self.blocks@;
                    assert(block_at(after, before.len() as int, id));
                    assert forall|a: int, b: int| 0 <= a < b < after.len() implies (
                    #[trigger] after[a]).block_id != (#[trigger] after[b]).block_id by {
                        if b == before.len() {
                            assert(!block_at(before, a, id));
                        }
                    }
                    assert forall|other: BlockId|
                        block_contents(after).dom().contains(other) == block_contents(
                            before,
                        ).insert(id, data).dom().contains(other) by {
                        if exists|k: int| block_at(after, k, other) {
                            let k = choose|k: int| block_at(after, k, other);
                            if k < before.len() {
                                assert(block_at(before, k, other));
                            }
                        }
                        if exists|k: int| block_at(before, k, other) {
                            let k = choose|k: int| block_at(before, k, other);
                            assert(block_at(after, k, other));
                        }
                    }
                    assert forall|other: BlockId|
                        block_contents(after).dom().contains(other) implies block_contents(
                        after,
                    )[other] == block_contents(before).insert(id, data)[other] by {
                        let k = choose|k: int| block_at(after, k, other);
                        lemma_block_at(after, k, other);
                        if other != id {
                            assert(block_at(before, k, other));
                            lemma_block_at(before, k, other);
                        } else {
                            lemma_block_at(after, before.len() as int, id);
                        }
                    }
                    assert(block_contents(after) =~= block_contents(before).insert(id, data));
                }
            },
        }
    }

    /// Forgets the content of the block `id`.
    pub fn remove(&mut self, id: BlockId)
        requires
            old(self).wf(),
        ensures
            final(self).wf(),
            final(self)@ == old(self)@.remove(id),
    {
        let ghost before = self.blocks@;
        match self.find(id) {
            Some(i) => {
                self.blocks.remove(i);
                proof {
                    let after = self.blocks@;
                    assert forall|a: int, b: int| 0 <= a < b < after.len() implies (
                    #[trigger] after[a]).block_id != (#[trigger] after[b]).block_id by {
                        let a0 = if a < i { a } else { a + 1 };
                        let b0 = if b < i { b } else { b + 1 };
                        assert(before[a0].block_id != before[b0].block_id);
                    }
                    assert forall|other: BlockId|
                        block_contents(after).dom().contains(other) == block_contents(
                            before,
                        ).remove(id).dom().contains(other) by {
                        if exists|k: int| block_at(after, k, other) {
                            let k = choose|k: int| block_at(after, k, other);
                            let k0 = if k < i { k } else { k + 1 };
                            assert(block_at(before, k0, other));
                            if other == id {
                                if k0 < i {
                                    assert(before[k0].block_id != before[i as int].block_id);
                                } else {
                                    assert(before[i as int].block_id != before[k0].block_id);
                                }
                            }
                        }
                        if other != id && exists|k: int| block_at(before, k, other) {
                            let k = choose|k: int| block_at(before, k, other);
                            let k1 = if k < i { k } else { k - 1 };
                            assert(block_at(after, k1, other));
                        }
                    }
                    assert forall|other: BlockId|
                        block_contents(after).dom().contains(other) implies block_contents(
                        after,
                    )[other] == block_contents(before).remove(id)[other] by {
                        let k = choose|k: int| block_at(after, k, other);
                        lemma_block_at(after, k, other);
                        let k0 = if k < i { k } else { k + 1 };
                        assert(block_at(before, k0, other));
                        lemma_block_at(before, k0, other);
                    }
                    assert(block_contents(after) =~= block_contents(before).remove(id));
                }
            },
            None => {
                assert(self@.remove(id) =~= self@);
            },
        }
    }

    /// Hands over the blocks, in the order in which they were first written,
    /// and keeps none.
    pub fn take_all(&mut self) -> (blocks: Vec<Block>)
        requires
            old(self).wf(),
        ensures
            final(self).wf(),
            final(self)@ == Map::<BlockId, Seq<u8>>::empty(),
            blocks@ == old(self).order(),
    {
        let mut blocks: Vec<Block> = Vec::new();
        blocks.append(&mut self.blocks);
        proof {
            assert(blocks@ =~= old(self).blocks@);
            assert(self.blocks@ =~= Seq::<Block>::empty());
            assert(self@ =~= Map::<BlockId, Seq<u8>>::empty());
        }
        blocks
    }
}


/// The state that the storage manager keeps in memory: the allocation of the
/// blocks, and the content of the blocks written since the last checkpoint.
pub struct StorageState {
    pub blocks: BlockManagerView,
    pub dirty: Map<BlockId, Seq<u8>>,
}

impl StorageState {
    /// The invariant: a well-formed allocation, and written blocks that are
    /// in use and one block long.
    pub open spec fn wf(self) -> bool {
        &&& self.blocks.wf()
        &&& forall|id: BlockId| #[trigger]
            self.dirty.dom().contains(id) ==> self.blocks.allocated(id) && self.dirty[id].len()
                == BLOCK_SIZE
    }

    /// The state after the record `r` has been applied, or `None` if the
    /// record does not apply to this state: an allocation must name the
    /// block that is next to be allocated, and a block that is freed,
    /// written or made the first block of the metadata must be in use.
    pub open spec fn step(self, r: WalRecordView) -> Option<StorageState> {
        match r {
            WalRecordView::Allocate(id) => if self.blocks.can_allocate() && id
                == self.blocks.next_id() {
                Some(StorageState { blocks: self.blocks.taken(), ..self })
            } else {
                None
            },
            WalRecordView::Free(id) => if self.blocks.allocated(id) && id
                != self.blocks.meta_block {
                Some(
                    StorageState {
                        blocks: self.blocks.released(id),
                        dirty: self.dirty.remove(id),
                    },
                )
            } else {
                None
            },
            WalRecordView::Write(id, data) => if self.blocks.allocated(id) && data.len()
                == BLOCK_SIZE {
                Some(StorageState { dirty: self.dirty.insert(id, data), ..self })
            } else {
                None
            },
            WalRecordView::SetMeta(id) => if id == INVALID_BLOCK || self.blocks.allocated(id) {
                Some(
                    StorageState {
                        blocks: BlockManagerView { meta_block: id, ..self.blocks },
                        ..self
                    },
                )
            } else {
                None
            },
        }
    }

    /// The state after the records have been applied in order, or `None` if
    /// one of them does not apply.
    pub open spec fn run(self, records: Seq<WalRecordView>) -> Option<StorageState>
        decreases records.len(),
    {
        if records.len() == 0 {
            Some(self)
        } else {
            match self.run(records.drop_last()) {
                Some(state) => state.step(records.last()),
                None => None,
            }
        }
    }

    /// A record that applies to a well-formed state leaves a well-formed
    /// state.
    pub proof fn lemma_step_wf(self, r: WalRecordView)
        requires
            self.wf(),
            self.step(r) is Some,
        ensures
            self.step(r)->0.wf(),
            self.step(r)->0.blocks.iteration == self.blocks.iteration,
            self.step(r)->0.blocks.active_slot == self.blocks.active_slot,
    {
        let after = self.step(r)->0;
        match r {
            WalRecordView::Allocate(id) => {
                self.blocks.lemma_taken();
                assert forall|other: BlockId| #[trigger]
                    after.dirty.dom().contains(other) implies after.blocks.allocated(other)
                    && after.dirty[other].len() == BLOCK_SIZE by {
                    assert(self.blocks.allocated(other));
                    assert(after.blocks.allocated(other) == self.blocks.allocated(other));
                }
            },
            WalRecordView::Free(id) => {
                self.blocks.lemma_released(id);
                assert forall|other: BlockId| #[trigger]
                    after.dirty.dom().contains(other) implies after.blocks.allocated(other)
                    && after.dirty[other].len() == BLOCK_SIZE by {
                    assert(self.dirty.dom().contains(other));
                    assert(after.blocks.allocated(other) == self.blocks.allocated(other));
                }
            },
            WalRecordView::Write(id, data) => {
                assert forall|other: BlockId| #[trigger]
                    after.dirty.dom().contains(other) implies after.blocks.allocated(other)
                    && after.dirty[other].len() == BLOCK_SIZE by {
                    if other != id {
                        assert(self.dirty.dom().contains(other));
                    }
                }
            },
            WalRecordView::SetMeta(id) => {
                assert forall|other: BlockId| #[trigger]
                    after.dirty.dom().contains(other) implies after.blocks.allocated(other)
                    && after.dirty[other].len() == BLOCK_SIZE by {
                    assert(self.dirty.dom().contains(other));
                }
            },
        }
    }

    /// One more record at the end of a run is one more step.
    pub proof fn lemma_run_push(self, records: Seq<WalRecordView>, r: WalRecordView)
        ensures
            self.run(records.push(r)) == match self.run(records) {
                Some(state) => state.step(r),
                None => None,
            },
    {
        assert(records.push(r).drop_last() =~= records);
    }

    /// The state that a recovery arrives at from the state `self` of the
    /// last checkpoint and the bytes `log` of the write-ahead log. An empty
    /// log, and a log that builds on an earlier checkpoint, which the last
    /// checkpoint has made redundant, leave the state as it is. A log that
    /// builds on the last checkpoint is replayed record by record. Anything
    /// else is a corrupt log.
    pub open spec fn recovered(self, log: Seq<u8>) -> Result<StorageState, StorageError> {
        if log.len() == 0 {
            Ok(self)
        } else if log.len() < 8 {
            Err(StorageError::CorruptLog)
        } else if spec_u64_from_le_bytes(log.subrange(0, 8)) < self.blocks.iteration {
            Ok(self)
        } else if spec_u64_from_le_bytes(log.subrange(0, 8)) > self.blocks.iteration {
            Err(StorageError::CorruptLog)
        } else {
            match decode_log(log.skip(8)) {
                Err(_) => Err(StorageError::CorruptLog),
                Ok(records) => match self.run(records) {
                    Some(state) => Ok(state),
                    None => Err(StorageError::CorruptLog),
                },
            }
        }
    }

    /// Replaying the log reproduces the state: if the records `records`,
    /// applied to the state of the last checkpoint, gave the state `now`,
    /// then a recovery from the state of the last checkpoint and the log of
    /// those records arrives at `now`.
    pub proof fn lemma_replay_reproduces(self, records: Seq<WalRecordView>, now: StorageState)
        requires
            log_encodable(records),
            self.run(records) == Some(now),
        ensures
            self.recovered(log_stamp(self.blocks.iteration) + encode_log(records)) == Ok::<
                StorageState,
                StorageError,
            >(now),
    {
        lemma_auto_spec_u64_to_from_le_bytes();
        let stamp = log_stamp(self.blocks.iteration);
        let log = stamp + encode_log(records);
        assert(stamp.len() == 8);
        assert(log.subrange(0, 8) =~= stamp);
        assert(log.skip(8) =~= encode_log(records));
        lemma_log_round_trip(records);
    }
}

/// From where the content of a block is to be had.
#[derive(Debug)]
pub enum BlockSource {
    /// The block was written since the last checkpoint: this is its content.
    Memory(Block),
    /// The block is as the file holds it: this transfer reads it.
    File(Transfer),
}

/// What a checkpoint asks of the file collaborator, in this order: write
/// the blocks and the pages of the free list, each at its transfer; secure
/// them; write the header; secure it; replace the log by the new log.
#[derive(Debug)]
pub struct Checkpoint {
    /// The blocks written since the last checkpoint.
    pub blocks: Vec<Block>,
    /// Where each of the blocks goes, in the same order.
    pub transfers: Vec<Transfer>,
    /// The pages of the free list, in the order of their chain.
    pub free_pages: Vec<Block>,
    /// Where each of the pages goes, in the same order.
    pub free_page_transfers: Vec<Transfer>,
    /// The write of the database header.
    pub header: HeaderWrite,
    /// The content of the log after the checkpoint.
    pub log: Vec<u8>,
}

/// The contents of the blocks of `blocks`.
pub open spec fn block_views(blocks: Seq<Block>) -> Seq<Seq<u8>> {
    blocks.map_values(|block: Block| block@)
}

/// The identifiers of the blocks of `blocks`.
pub open spec fn block_ids(blocks: Seq<Block>) -> Seq<BlockId> {
    blocks.map_values(|block: Block| block.block_id)
}

/// The storage manager of one database file.
pub struct StorageManager {
    /// Whether the database was opened read-only.
    read_only: bool,
    /// The allocation of the blocks.
    block_manager: SingleFileBlockManager,
    /// The write-ahead log.
    wal: WriteAheadLog,
    /// The blocks written since the last checkpoint.
    dirty: DirtyBlocks,
    /// The state as of the last checkpoint.
    base: Ghost<StorageState>,
    /// The records logged since the last checkpoint.
    logged: Ghost<Seq<WalRecordView>>,
}

impl StorageManager {
    /// The state in memory.
    pub closed spec fn view(&self) -> StorageState {
        StorageState { blocks: self.block_manager@, dirty: self.dirty@ }
    }

    /// The state as of the last checkpoint, which is what the file holds.
    pub closed spec fn base(&self) -> StorageState {
        self.base@
    }

    /// The records logged since the last checkpoint.
    pub closed spec fn logged(&self) -> Seq<WalRecordView> {
        self.logged@
    }

    /// Every byte of the write-ahead log, written out or not.
    pub closed spec fn log(&self) -> Seq<u8> {
        self.wal.contents()
    }

    /// The beginning of the write-ahead log that has been handed over for
    /// the file: what the log in the file holds once the file collaborator
    /// has done what it was handed.
    pub closed spec fn log_sent(&self) -> Seq<u8> {
        self.wal@.flushed
    }

    /// Whether the database was opened read-only.
    pub closed spec fn is_read_only(&self) -> bool {
        self.read_only
    }

    /// What has been handed over of the log is the beginning of the log.
    pub proof fn lemma_log_sent(&self)
        ensures
            self.log_sent().is_prefix_of(self.log()),
    {
        let log = self.wal@;
        assert(log.all().subrange(0, log.flushed.len() as int) =~= log.flushed);
    }

    /// The invariant: the state in memory is the state of the last
    /// checkpoint with the logged records applied, and the log holds those
    /// records on top of the iteration count of that checkpoint.
    pub closed spec fn wf(&self) -> bool {
        &&& self@.wf()
        &&& self.dirty.wf()
        &&& self.base@.wf()
        &&& log_encodable(self.logged@)
        &&& self.base@.run(self.logged@) == Some(self@)
        &&& self@.blocks.iteration == self.base@.blocks.iteration
        &&& if self.read_only {
            self.logged@.len() == 0
        } else {
            self.wal.begun() && self.wal.contents() == log_stamp(self.base@.blocks.iteration)
                + encode_log(self.logged@)
        }
    }

    /// What the invariant says of the state.
    pub proof fn lemma_wf(&self)
        requires
            self.wf(),
        ensures
            self@.wf(),
            self.base().wf(),
            self.base().run(self.logged()) == Some(self@),
            log_encodable(self.logged()),
            !self.is_read_only() ==> self.log() == log_stamp(self.base().blocks.iteration)
                + encode_log(self.logged()),
    {
    }

    /// Crash recovery: at every moment, a recovery from what the file holds
    /// as of the last checkpoint and from the whole write-ahead log arrives
    /// at exactly the state that the manager has in memory.
    pub proof fn lemma_recovery(&self)
        requires
            self.wf(),
            !self.is_read_only(),
        ensures
            self.base().recovered(self.log()) == Ok::<StorageState, StorageError>(self@),
    {
        self.base@.lemma_replay_reproduces(self.logged@, self@);
    }
}


/// Applies one record to the state in memory, if it applies.
fn apply_record(
    block_manager: &mut SingleFileBlockManager,
    dirty: &mut DirtyBlocks,
    record: &WalRecord,
) -> (applied: bool)
    requires
        old(block_manager).wf(),
        old(dirty).wf(),
        (StorageState { blocks: old(block_manager)@, dirty: old(dirty)@ }).wf(),
    ensures
        final(block_manager).wf(),
        final(dirty).wf(),
        match (StorageState { blocks: old(block_manager)@, dirty: old(dirty)@ }).step(record@) {
            Some(state) => applied && state == (StorageState {
                blocks: final(block_manager)@,
                dirty: final(dirty)@,
            }),
            None => !applied && final(block_manager)@ == old(block_manager)@ && final(dirty)@
                == old(dirty)@,
        },
{
    let ghost before = StorageState { blocks: block_manager@, dirty: dirty@ };
    proof {
        if before.step(record@) is Some {
            before.lemma_step_wf(record@);
        }
    }
    match record {
        WalRecord::Allocate(id) => {
            if block_manager.can_allocate() && block_manager.peek_free_block_id() == *id {
                let taken = block_manager.get_free_block_id();
                true
            } else {
                false
            }
        },
        WalRecord::Free(id) => {
            if block_manager.is_allocated(*id) && *id != block_manager.get_meta_block() {
                let freed = block_manager.free_block(*id);
                dirty.remove(*id);
                true
            } else {
                false
            }
        },
        WalRecord::Write(id, data) => {
            if block_manager.is_allocated(*id) && data.len() == BLOCK_SIZE {
                dirty.put(Block::with_data(*id, slice_to_vec(data.as_slice())));
                true
            } else {
                false
            }
        },
        WalRecord::SetMeta(id) => block_manager.set_meta_block(*id),
    }
}

impl StorageManager {
    /// Logs `record`, which applies to the state, and applies it.
    fn log_and_apply(&mut self, record: WalRecord)
        requires
            old(self).wf(),
            !old(self).is_read_only(),
            record@.encodable(),
            old(self)@.step(record@) is Some,
        ensures
            final(self).wf(),
            !final(self).is_read_only(),
            final(self)@ == old(self)@.step(record@)->0,
            final(self).base() == old(self).base(),
            final(self).logged() == old(self).logged().push(record@),
            final(self).log_sent() == old(self).log_sent(),
    {
        let ghost before = self@;
        self.wal.append(&record);
        let applied = apply_record(&mut self.block_manager, &mut self.dirty, &record);
        proof {
            let records = self.logged@;
            self.logged = Ghost(records.push(record@));
            lemma_encode_log_push(records, record@);
            self.base@.lemma_run_push(records, record@);
            before.lemma_step_wf(record@);
            assert(log_stamp(self.base@.blocks.iteration) + encode_log(records) + encode_record(
                record@,
            ) =~= log_stamp(self.base@.blocks.iteration) + encode_log(records.push(record@)));
        }
    }

    /// Allocates a block and returns it, filled with zero bytes. The
    /// allocation is logged first. Refused with `ReadOnly` in a read-only
    /// database and with `Full` if the file cannot hold another block.
    pub fn create_block(&mut self) -> (r: Result<Block, StorageError>)
        requires
            old(self).wf(),
        ensures
            final(self).wf(),
            final(self).is_read_only() == old(self).is_read_only(),
            final(self).base() == old(self).base(),
            final(self).log_sent() == old(self).log_sent(),
            if old(self).is_read_only() {
                r == Err::<Block, StorageError>(StorageError::ReadOnly) && final(self)@ == old(self)@
            } else if !old(self)@.blocks.can_allocate() {
                r == Err::<Block, StorageError>(StorageError::Full) && final(self)@ == old(self)@
            } else {
                &&& r matches Ok(block)
                &&& block.block_id == old(self)@.blocks.next_id()
                &&& block@ == Seq::new(BLOCK_SIZE as nat, |i: int| 0u8)
                &&& Some(final(self)@) == old(self)@.step(
                    WalRecordView::Allocate(block.block_id),
                )
                &&& final(self).logged() == old(self).logged().push(
                    WalRecordView::Allocate(block.block_id),
                )
            },
    {
        if self.read_only {
            return Err(StorageError::ReadOnly);
        }
        if !self.block_manager.can_allocate() {
            return Err(StorageError::Full);
        }
        let id = self.block_manager.peek_free_block_id();
        self.log_and_apply(WalRecord::Allocate(id));
        Ok(Block::new(id))
    }

    /// Gives the block of `block` the content of `block`. The write is
    /// logged first; the file gets the content at the next checkpoint.
    /// Refused with `ReadOnly` in a read-only database and with
    /// `InvalidBlock` if the block is not in use or the content is not one
    /// block long.
    pub fn write_block(&mut self, block: &Block) -> (r: Result<(), StorageError>)
        requires
            old(self).wf(),
        ensures
            final(self).wf(),
            final(self).is_read_only() == old(self).is_read_only(),
            final(self).base() == old(self).base(),
            final(self).log_sent() == old(self).log_sent(),
            if old(self).is_read_only() {
                r == Err::<(), StorageError>(StorageError::ReadOnly) && final(self)@ == old(self)@
            } else {
                match old(self)@.step(WalRecordView::Write(block.block_id, block@)) {
                    Some(state) => r is Ok && final(self)@ == state && final(self).logged() == old(self).logged().push(WalRecordView::Write(block.block_id, block@)),
                    None => r == Err::<(), StorageError>(StorageError::InvalidBlock) && final(self)@ == old(self)@,
                }
            },
    {
        if self.read_only {
            return Err(StorageError::ReadOnly);
        }
        if !self.block_manager.is_allocated(block.block_id) || block.file_buffer.size()
            != BLOCK_SIZE {
            return Err(StorageError::InvalidBlock);
        }
        let data = slice_to_vec(block.file_buffer.buffer.as_slice());
        self.log_and_apply(WalRecord::Write(block.block_id, data));
        Ok(())
    }

    /// Frees the block `id`. The release is logged first. Refused with
    /// `ReadOnly` in a read-only database and with `InvalidBlock` if the
    /// block is not in use or is the first block of the metadata.
    pub fn free_block(&mut self, id: BlockId) -> (r: Result<(), StorageError>)
        requires
            old(self).wf(),
        ensures
            final(self).wf(),
            final(self).is_read_only() == old(self).is_read_only(),
            final(self).base() == old(self).base(),
            final(self).log_sent() == old(self).log_sent(),
            if old(self).is_read_only() {
                r == Err::<(), StorageError>(StorageError::ReadOnly) && final(self)@ == old(self)@
            } else {
                match old(self)@.step(WalRecordView::Free(id)) {
                    Some(state) => r is Ok && final(self)@ == state && final(self).logged() == old(self).logged().push(WalRecordView::Free(id)),
                    None => r == Err::<(), StorageError>(StorageError::InvalidBlock) && final(self)@ == old(self)@,
                }
            },
    {
        if self.read_only {
            return Err(StorageError::ReadOnly);
        }
        if !self.block_manager.is_allocated(id) || id == self.block_manager.get_meta_block() {
            return Err(StorageError::InvalidBlock);
        }
        self.log_and_apply(WalRecord::Free(id));
        Ok(())
    }

    /// Makes `id`, a block in use or `INVALID_BLOCK`, the first block of the
    /// metadata. The change is logged first. Refused with `ReadOnly` in a
    /// read-only database and with `InvalidBlock` if `id` names a block that
    /// is not in use.
    pub fn set_meta_block(&mut self, id: BlockId) -> (r: Result<(), StorageError>)
        requires
            old(self).wf(),
        ensures
            final(self).wf(),
            final(self).is_read_only() == old(self).is_read_only(),
            final(self).base() == old(self).base(),
            final(self).log_sent() == old(self).log_sent(),
            if old(self).is_read_only() {
                r == Err::<(), StorageError>(StorageError::ReadOnly) && final(self)@ == old(self)@
            } else {
                match old(self)@.step(WalRecordView::SetMeta(id)) {
                    Some(state) => r is Ok && final(self)@ == state && final(self).logged() == old(self).logged().push(WalRecordView::SetMeta(id)),
                    None => r == Err::<(), StorageError>(StorageError::InvalidBlock) && final(self)@ == old(self)@,
                }
            },
    {
        if self.read_only {
            return Err(StorageError::ReadOnly);
        }
        if id != INVALID_BLOCK && !self.block_manager.is_allocated(id) {
            return Err(StorageError::InvalidBlock);
        }
        self.log_and_apply(WalRecord::SetMeta(id));
        Ok(())
    }

    /// From where the content of the block `id` is to be had: from memory if
    /// the block was written since the last checkpoint, from the file
    /// otherwise. Refused with `InvalidBlock` if the block is not in use.
    pub fn read_block(&self, id: BlockId) -> (r: Result<BlockSource, StorageError>)
        requires
            self.wf(),
        ensures
            if !self@.blocks.allocated(id) {
                r == Err::<BlockSource, StorageError>(StorageError::InvalidBlock)
            } else if self@.dirty.dom().contains(id) {
                r matches Ok(BlockSource::Memory(block)) && block.block_id == id && block@
                    == self@.dirty[id]
            } else {
                r matches Ok(BlockSource::File(transfer)) && transfer.offset
                    == crate::storage_info::block_offset(id) && transfer.length == BLOCK_SIZE
            },
    {
        if !self.block_manager.is_allocated(id) {
            return Err(StorageError::InvalidBlock);
        }
        match self.dirty.get(id) {
            Some(block) => Ok(BlockSource::Memory(block.duplicate())),
            None => {
                let probe = Block::with_data(id, Vec::new());
                Ok(BlockSource::File(self.block_manager.read(&probe)))
            },
        }
    }

    /// The first block of the metadata, or `INVALID_BLOCK`.
    pub fn get_meta_block(&self) -> (id: BlockId)
        ensures
            id == self@.blocks.meta_block,
    {
        self.block_manager.get_meta_block()
    }

    /// Whether `id` names a block of the file that is in use.
    pub fn is_allocated(&self, id: BlockId) -> (r: bool)
        ensures
            r == self@.blocks.allocated(id),
    {
        self.block_manager.is_allocated(id)
    }

    /// The free blocks, the one freed last at the end.
    pub fn free_blocks(&self) -> (free: Vec<BlockId>)
        ensures
            free@ == self@.blocks.free,
    {
        self.block_manager.free_blocks()
    }

    /// The number of blocks of the file.
    pub fn block_count(&self) -> (n: u64)
        ensures
            n == self@.blocks.block_count,
    {
        self.block_manager.block_count()
    }

    /// The iteration count of the last checkpoint.
    pub fn iteration(&self) -> (n: u64)
        ensures
            n == self@.blocks.iteration,
    {
        self.block_manager.iteration()
    }

    /// Whether the database was opened read-only.
    pub fn read_only(&self) -> (r: bool)
        ensures
            r == self.is_read_only(),
    {
        self.read_only
    }

    /// Gives up everything that was logged to the file and hands over the
    /// bytes that the file is to append to the log and to secure: the rest
    /// of the log, from where the last handing over ended. With these bytes
    /// the whole log has been handed over.
    pub fn sync_log(&mut self) -> (bytes: Vec<u8>)
        requires
            old(self).wf(),
        ensures
            final(self).wf(),
            final(self)@ == old(self)@,
            final(self).base() == old(self).base(),
            final(self).logged() == old(self).logged(),
            final(self).log() == old(self).log(),
            final(self).is_read_only() == old(self).is_read_only(),
            old(self).log() == old(self).log_sent() + bytes@,
            final(self).log_sent() == old(self).log(),
    {
        let ghost before = self.wal@;
        self.wal.sync();
        let ghost synced = self.wal@;
        let bytes = self.wal.take_output();
        proof {
            assert(synced.all() == before.all());
            assert(synced.all() =~= synced.flushed + synced.outbox);
            assert(self.wal@.all() =~= synced.flushed + bytes@);
        }
        bytes
    }
}


/// The allocation that the file holds when `header`, in slot `slot`, is its
/// active database header and its free list, in the pages `pages`, is
/// `free`.
pub open spec fn header_blocks(
    slot: int,
    header: DatabaseHeader,
    free: Seq<BlockId>,
    pages: Seq<BlockId>,
) -> BlockManagerView {
    BlockManagerView {
        free,
        block_count: header.block_count,
        meta_block: header.meta_block,
        active_slot: slot,
        iteration: header.iteration,
        pages,
    }
}

/// The state that the file holds when its allocation is `blocks`: no block
/// has been written since.
pub open spec fn clean_state(blocks: BlockManagerView) -> StorageState {
    StorageState { blocks, dirty: Map::empty() }
}

/// The records that free the blocks `ids`, in order.
pub open spec fn releases(ids: Seq<BlockId>) -> Seq<WalRecordView> {
    ids.map_values(|id: BlockId| WalRecordView::Free(id))
}

/// The first database header slot of a header region.
pub open spec fn first_slot(region: Seq<u8>) -> Seq<u8> {
    region.subrange(FIRST_HEADER_OFFSET as int, FIRST_HEADER_OFFSET + DATABASE_HEADER_BYTES)
}

/// The second database header slot of a header region.
pub open spec fn second_slot(region: Seq<u8>) -> Seq<u8> {
    region.subrange(SECOND_HEADER_OFFSET as int, SECOND_HEADER_OFFSET + DATABASE_HEADER_BYTES)
}

/// The state that the file with the header region `region` and the pages
/// `pages` of the free list holds, or why the file cannot be opened: a main
/// header of another version is a version mismatch; a region that is too
/// short or has no usable database header, pages that are not the chain that
/// the header names, and a free list that does not fit the header are a
/// corrupt header.
pub open spec fn file_state(region: Seq<u8>, pages: Seq<Seq<u8>>) -> Result<
    StorageState,
    StorageError,
> {
    if region.len() < HEADER_SIZE {
        Err(StorageError::CorruptHeader)
    } else if region.subrange(0, 8) != spec_u64_to_le_bytes(VERSION_NUMBER) {
        Err(StorageError::VersionMismatch)
    } else {
        match active_of(slot_header(first_slot(region)), slot_header(second_slot(region))) {
            Some((slot, header)) => match free_list_of(pages, header.free_list) {
                Some((free, ids)) => if header_blocks(slot, header, free, ids).wf() {
                    Ok(clean_state(header_blocks(slot, header, free, ids)))
                } else {
                    Err(StorageError::CorruptHeader)
                },
                None => Err(StorageError::CorruptHeader),
            },
            None => Err(StorageError::CorruptHeader),
        }
    }
}

/// The first page of the free list that the file with the header region
/// `region` names, or `INVALID_BLOCK` if its free list has no page.
pub open spec fn free_list_head(region: Seq<u8>) -> Result<BlockId, StorageError> {
    if region.len() < HEADER_SIZE {
        Err(StorageError::CorruptHeader)
    } else if region.subrange(0, 8) != spec_u64_to_le_bytes(VERSION_NUMBER) {
        Err(StorageError::VersionMismatch)
    } else {
        match active_of(slot_header(first_slot(region)), slot_header(second_slot(region))) {
            Some((slot, header)) => Ok(header.free_list),
            None => Err(StorageError::CorruptHeader),
        }
    }
}

/// The state that opening the file with the header region `region`, the
/// pages `pages` of the free list and the write-ahead log `log` arrives at,
/// or why it cannot be opened.
pub open spec fn opened_state(region: Seq<u8>, pages: Seq<Seq<u8>>, log: Seq<u8>) -> Result<
    StorageState,
    StorageError,
> {
    match file_state(region, pages) {
        Ok(base) => base.recovered(log),
        Err(e) => Err(e),
    }
}

/// A state without written blocks is well formed if its allocation is.
pub proof fn lemma_clean_state(blocks: BlockManagerView)
    requires
        blocks.wf(),
    ensures
        clean_state(blocks).wf(),
{
}

/// Freeing blocks that are in use, one after another, adds them to the free
/// blocks in that order.
pub proof fn lemma_releases(state: StorageState, ids: Seq<BlockId>)
    requires
        state.wf(),
        ids.no_duplicates(),
        forall|i: int|
            0 <= i < ids.len() ==> state.blocks.allocated(#[trigger] ids[i]) && ids[i]
                != state.blocks.meta_block && !state.dirty.dom().contains(ids[i]),
    ensures
        state.run(releases(ids)) == Some(
            StorageState {
                blocks: BlockManagerView { free: state.blocks.free + ids, ..state.blocks },
                ..state
            },
        ),
        log_encodable(releases(ids)),
    decreases ids.len(),
{
    if ids.len() == 0 {
        assert(state.blocks.free + ids =~= state.blocks.free);
    } else {
        let front = ids.drop_last();
        let last = ids.last();
        assert(front.no_duplicates());
        assert forall|i: int| 0 <= i < front.len() implies state.blocks.allocated(
            #[trigger] front[i],
        ) && front[i] != state.blocks.meta_block && !state.dirty.dom().contains(front[i]) by {
            assert(front[i] == ids[i]);
        }
        lemma_releases(state, front);
        assert(releases(ids).drop_last() =~= releases(front));
        assert(releases(ids).last() == WalRecordView::Free(last));
        let mid = StorageState {
            blocks: BlockManagerView { free: state.blocks.free + front, ..state.blocks },
            ..state
        };
        assert(!front.contains(last)) by {
            if front.contains(last) {
                let k = choose|k: int| 0 <= k < front.len() && front[k] == last;
                assert(ids[k] == ids[ids.len() - 1]);
            }
        }
        assert(state.blocks.allocated(ids[ids.len() - 1]));
        assert(!(state.blocks.free + front).contains(last)) by {
            if (state.blocks.free + front).contains(last) {
                let k = choose|k: int|
                    0 <= k < (state.blocks.free + front).len() && (state.blocks.free + front)[k]
                        == last;
                if k < state.blocks.free.len() {
                    assert(state.blocks.free[k] == last);
                } else {
                    assert(front[k - state.blocks.free.len()] == last);
                }
            }
        }
        assert(mid.blocks.allocated(last));
        assert(mid.dirty.remove(last) =~= mid.dirty);
        assert((state.blocks.free + front).push(last) =~= state.blocks.free + ids);
    }
}

/// What opening a file gives: the storage manager and, if the file holds no
/// log that is still of use, the content that the log is to be replaced by.
pub struct Opened {
    pub manager: StorageManager,
    pub new_log: Option<Vec<u8>>,
}

impl StorageManager {
    /// The storage manager of a database without blocks, and the header
    /// region of its file. The write-ahead log of the new database begins
    /// with the next call of `sync_log`.
    pub fn create() -> (r: (StorageManager, Vec<u8>))
        ensures
            r.0.wf(),
            !r.0.is_read_only(),
            r.0@ == clean_state(SingleFileBlockManager::empty_view()),
            r.0.base() == r.0@,
            r.0.logged() == Seq::<WalRecordView>::empty(),
            r.0.log_sent() == Seq::<u8>::empty(),
            r.1@.len() == HEADER_SIZE,
            file_state(r.1@, Seq::empty()) == Ok::<StorageState, StorageError>(r.0@),
    {
        let header = DatabaseHeader::initial();
        let main_bytes = to_bytes(&MainHeader::new());
        let header_bytes = to_bytes(&header);
        proof {
            header.lemma_encoding_len();
        }
        let mut region: Vec<u8> = Vec::new();
        region.extend_from_slice(main_bytes.as_slice());
        let ghost main = main_bytes@;
        proof {
            let m = MainHeader::new_spec();
            m.lemma_encoding_len();
        }
        while region.len() < FIRST_HEADER_OFFSET
            invariant
                MAIN_HEADER_BYTES <= region@.len() <= FIRST_HEADER_OFFSET,
                region@.subrange(0, MAIN_HEADER_BYTES as int) == main,
            decreases FIRST_HEADER_OFFSET - region@.len(),
        {
            let ghost prior = region@;
            region.push(0u8);
            assert(region@.subrange(0, MAIN_HEADER_BYTES as int) =~= prior.subrange(
                0,
                MAIN_HEADER_BYTES as int,
            ));
        }
        region.extend_from_slice(header_bytes.as_slice());
        let ghost filled = region@;
        while region.len() < HEADER_SIZE
            invariant
                filled.len() == FIRST_HEADER_OFFSET + DATABASE_HEADER_BYTES,
                filled.len() <= region@.len() <= HEADER_SIZE,
                region@.subrange(0, filled.len() as int) == filled,
                forall|i: int| filled.len() <= i < region@.len() ==> region@[i] == 0u8,
            decreases HEADER_SIZE - region@.len(),
        {
            let ghost prior = region@;
            region.push(0u8);
            assert(region@.subrange(0, filled.len() as int) =~= prior.subrange(
                0,
                filled.len() as int,
            ));
        }
        let block_manager = SingleFileBlockManager::empty();
        let mut wal = WriteAheadLog::new();
        wal.reset(header.iteration);
        let manager = StorageManager {
            read_only: false,
            block_manager,
            wal,
            dirty: DirtyBlocks::new(),
            base: Ghost(clean_state(SingleFileBlockManager::empty_view())),
            logged: Ghost(Seq::empty()),
        };
        proof {
            let bytes = region@;
            assert(first_slot(bytes) =~= header.encoding()) by {
                assert(filled.subrange(
                    FIRST_HEADER_OFFSET as int,
                    FIRST_HEADER_OFFSET + DATABASE_HEADER_BYTES,
                ) =~= header.encoding());
                assert(first_slot(bytes) =~= filled.subrange(
                    FIRST_HEADER_OFFSET as int,
                    FIRST_HEADER_OFFSET + DATABASE_HEADER_BYTES,
                ));
            }
            assert(first_slot(bytes).subrange(0, DATABASE_HEADER_BYTES as int)
                =~= header.encoding());
            crate::storage_info::lemma_slot_header(first_slot(bytes), header);
            lemma_zero_slot(second_slot(bytes));
            assert(bytes.subrange(0, 8) =~= spec_u64_to_le_bytes(VERSION_NUMBER)) by {
                let m = MainHeader::new_spec();
                let rest = spec_u64_to_le_bytes(m.flags@[0]) + (spec_u64_to_le_bytes(
                    m.flags@[1],
                ) + (spec_u64_to_le_bytes(m.flags@[2]) + spec_u64_to_le_bytes(m.flags@[3])));
                crate::storage_info::lemma_field(VERSION_NUMBER, rest);
                assert(bytes.subrange(0, 8) =~= main.subrange(0, 8));
            }
            assert(encode_log(Seq::<WalRecordView>::empty()) =~= Seq::<u8>::empty());
            assert(log_stamp(header.iteration) + encode_log(Seq::<WalRecordView>::empty())
                =~= log_stamp(header.iteration));
            assert(manager@.dirty =~= Map::<BlockId, Seq<u8>>::empty());
            assert(manager@ == clean_state(SingleFileBlockManager::empty_view()));
            assert(header_blocks(
                0,
                header,
                Seq::<BlockId>::empty(),
                Seq::<BlockId>::empty(),
            ) == SingleFileBlockManager::empty_view());
        }
        (manager, region)
    }
}

/// A slot of zero bytes holds no usable database header.
pub proof fn lemma_zero_slot(slot: Seq<u8>)
    requires
        slot.len() >= DATABASE_HEADER_BYTES,
        forall|i: int| 0 <= i < slot.len() ==> slot[i] == 0u8,
    ensures
        slot_header(slot) is None,
{
    if exists|h: DatabaseHeader| crate::storage_info::header_in_slot(slot, h) {
        let h = choose|h: DatabaseHeader| crate::storage_info::header_in_slot(slot, h);
        // A consistent header has a first metadata block below its block
        // count or none; all zero bytes say block 0 of 0 blocks.
        let tail = crate::serializer::encode_i64(h.meta_block) + (crate::serializer::encode_i64(
            h.free_list,
        ) + spec_u64_to_le_bytes(h.block_count));
        crate::storage_info::lemma_field(h.iteration, tail);
        let rest = crate::serializer::encode_i64(h.free_list) + spec_u64_to_le_bytes(
            h.block_count,
        );
        crate::storage_info::lemma_field(h.meta_block as u64, rest);
        crate::storage_info::lemma_field(h.free_list as u64, spec_u64_to_le_bytes(h.block_count));
        let zero = spec_u64_to_le_bytes(0u64);
        lemma_zero_field();
        let encoded = h.encoding();
        assert(encoded.skip(8).subrange(0, 8) =~= zero) by {
            assert forall|i: int| 0 <= i < 8 implies encoded.skip(8).subrange(0, 8)[i]
                == zero[i] by {
                assert(encoded[8 + i] == slot[8 + i]);
            }
        }
        assert(encoded.skip(8) =~= tail);
        crate::storage_info::lemma_field_injective(h.meta_block as u64, 0u64);
        assert(tail.skip(8).skip(8) =~= spec_u64_to_le_bytes(h.block_count));
        assert(tail.skip(8) =~= rest);
        assert(spec_u64_to_le_bytes(h.block_count) =~= zero) by {
            assert forall|i: int| 0 <= i < 8 implies spec_u64_to_le_bytes(h.block_count)[i]
                == zero[i] by {
                assert(encoded[24 + i] == slot[24 + i]);
                assert(encoded[24 + i] == encoded.skip(8).skip(8).skip(8)[i]);
            }
        }
        crate::storage_info::lemma_field_injective(h.block_count, 0u64);
        crate::storage_info::lemma_signed_injective(h.meta_block, 0i64);
    }
}

/// The eight-byte field that holds 0 is eight zero bytes.
pub proof fn lemma_zero_field()
    ensures
        spec_u64_to_le_bytes(0u64).len() == 8,
        forall|i: int| 0 <= i < 8 ==> spec_u64_to_le_bytes(0u64)[i] == 0u8,
{
    lemma_auto_spec_u64_to_from_le_bytes();
    assert(spec_u64_to_le_bytes(0u64).len() == 8);
    vstd::bytes::spec_u64_to_le_bytes_to_open(0u64);
    assert(0u64 & 0xff == 0 && (0u64 >> 8) & 0xff == 0 && (0u64 >> 16) & 0xff == 0 && (0u64 >> 24)
        & 0xff == 0 && (0u64 >> 32) & 0xff == 0 && (0u64 >> 40) & 0xff == 0 && (0u64 >> 48) & 0xff
        == 0 && (0u64 >> 56) & 0xff == 0) by (bit_vector);
}


impl StorageManager {
    /// Reads the active database header from the header region: the main
    /// header must be of this version, and one of the two database header
    /// slots must be usable.
    fn read_active_header(region: &[u8]) -> (r: Result<(usize, DatabaseHeader), StorageError>)
        ensures
            match r {
                Ok((slot, header)) => {
                    &&& slot < 2
                    &&& header.consistent()
                    &&& region@.len() >= HEADER_SIZE
                    &&& region@.subrange(0, 8) == spec_u64_to_le_bytes(VERSION_NUMBER)
                    &&& active_of(
                        slot_header(first_slot(region@)),
                        slot_header(second_slot(region@)),
                    ) == Some((slot as int, header))
                },
                Err(e) => free_list_head(region@) == Err::<BlockId, StorageError>(e),
            },
    {
        if region.len() < HEADER_SIZE {
            return Err(StorageError::CorruptHeader);
        }
        match read_main_header(region) {
            Ok(_) => {},
            Err(e) => {
                return Err(e);
            },
        }
        let first = read_slot(
            slice_subrange(region, FIRST_HEADER_OFFSET, FIRST_HEADER_OFFSET + DATABASE_HEADER_BYTES),
        );
        let second = read_slot(
            slice_subrange(
                region,
                SECOND_HEADER_OFFSET,
                SECOND_HEADER_OFFSET + DATABASE_HEADER_BYTES,
            ),
        );
        proof {
            if let Some(h) = first {
                assert(crate::storage_info::header_in_slot(first_slot(region@), h));
            }
            if let Some(h) = second {
                assert(crate::storage_info::header_in_slot(second_slot(region@), h));
            }
        }
        select_active_header(first, second)
    }

    /// The first page of the free list of the file with the header region
    /// `region`, or `INVALID_BLOCK` if the free list has no page. The pages
    /// of the free list form a chain: each names the next, as `next_page`
    /// tells, and the last names none.
    pub fn first_free_page(region: &[u8]) -> (r: Result<BlockId, StorageError>)
        ensures
            r == free_list_head(region@),
    {
        match Self::read_active_header(region) {
            Ok((_, header)) => Ok(header.free_list),
            Err(e) => Err(e),
        }
    }

    /// The page that the page `page` of a free list names as the next one,
    /// or `INVALID_BLOCK` if it names none; `None` if `page` is no page of a
    /// free list.
    pub fn next_page(page: &[u8]) -> (r: Option<BlockId>)
        ensures
            r == match crate::free_list::decode_page(page@) {
                Some((next, _)) => Some(next),
                None => None,
            },
    {
        match crate::free_list::read_free_page(page) {
            Some((next, _)) => Some(next),
            None => None,
        }
    }

    /// Whether the free list `free`, in the pages `pages`, fits the database
    /// header `header`.
    fn free_list_fits(
        slot: usize,
        header: &DatabaseHeader,
        free: &Vec<BlockId>,
        pages: &Vec<BlockId>,
    ) -> (ok: bool)
        requires
            slot < 2,
            header.consistent(),
        ensures
            ok == header_blocks(slot as int, *header, free@, pages@).wf(),
    {
        broadcast use vstd::std_specs::hash::group_hash_axioms;

        let ghost blocks = header_blocks(slot as int, *header, free@, pages@);
        let mut seen: HashSet<BlockId> = HashSet::new();
        let mut i: usize = 0;
        while i < free.len()
            invariant
                i <= free@.len(),
                seen@ == free@.subrange(0, i as int).to_set(),
                free@.subrange(0, i as int).no_duplicates(),
                forall|k: int| 0 <= k < i ==> 0 <= #[trigger] free@[k] < header.block_count,
            decreases free@.len() - i,
        {
            let id = free[i];
            let ghost done = free@.subrange(0, i as int);
            if id < 0 || id as u64 >= header.block_count {
                return false;
            }
            if !seen.insert(id) {
                proof {
                    assert(done.contains(id));
                    let k = choose|k: int| 0 <= k < done.len() && done[k] == id;
                    assert(free@[k] == free@[i as int]);
                }
                return false;
            }
            proof {
                let next = free@.subrange(0, i + 1);
                assert(next =~= done.push(id));
                done.lemma_push_to_set_commute(id);
                assert(!done.contains(id));
                assert forall|a: int, b: int| 0 <= a < b < next.len() implies next[a]
                    != next[b] by {
                    if b == done.len() {
                        assert(done[a] == next[a]);
                        assert(done.contains(next[a]));
                    } else {
                        assert(done[a] != done[b]);
                    }
                }
            }
            i += 1;
        }
        proof {
            assert(free@.subrange(0, i as int) =~= free@);
        }
        let mut j: usize = 0;
        while j < pages.len()
            invariant
                j <= pages@.len(),
                free@.no_duplicates(),
                forall|k: int| 0 <= k < free@.len() ==> 0 <= #[trigger] free@[k] < header.block_count,
                seen@ == free@.to_set().union(pages@.subrange(0, j as int).to_set()),
                pages@.subrange(0, j as int).no_duplicates(),
                forall|k: int|
                    0 <= k < j ==> 0 <= #[trigger] pages@[k] < header.block_count
                        && !free@.contains(pages@[k]),
            decreases pages@.len() - j,
        {
            let id = pages[j];
            let ghost done = pages@.subrange(0, j as int);
            if id < 0 || id as u64 >= header.block_count {
                return false;
            }
            if !seen.insert(id) {
                proof {
                    if done.contains(id) {
                        let k = choose|k: int| 0 <= k < done.len() && done[k] == id;
                        assert(pages@[k] == pages@[j as int]);
                    } else {
                        assert(free@.contains(pages@[j as int]));
                    }
                }
                return false;
            }
            proof {
                let next = pages@.subrange(0, j + 1);
                assert(next =~= done.push(id));
                done.lemma_push_to_set_commute(id);
                assert(!done.contains(id));
                assert(!free@.contains(id));
                assert(seen@ =~= free@.to_set().union(next.to_set()));
                assert forall|a: int, b: int| 0 <= a < b < next.len() implies next[a]
                    != next[b] by {
                    if b == done.len() {
                        assert(done[a] == next[a]);
                        assert(done.contains(next[a]));
                    } else {
                        assert(done[a] != done[b]);
                    }
                }
            }
            j += 1;
        }
        proof {
            assert(pages@.subrange(0, j as int) =~= pages@);
        }
        if header.meta_block != INVALID_BLOCK && seen.contains(&header.meta_block) {
            return false;
        }
        true
    }

    /// Opens the database whose file has the header region `region`, the
    /// free list in the pages `pages`, and the write-ahead log `log`: finds
    /// the active database header, reads the free list, and replays the log
    /// if it builds on that header. A log that is empty or builds on an
    /// earlier checkpoint is of no use any more; unless the database is
    /// opened read-only, the caller is handed the content to replace it by.
    pub fn open(region: &[u8], pages: &Vec<Vec<u8>>, log: &[u8], read_only: bool) -> (r: Result<
        Opened,
        StorageError,
    >)
        ensures
            match opened_state(region@, page_views(pages@), log@) {
                Ok(state) => {
                    &&& r matches Ok(opened)
                    &&& opened.manager.wf()
                    &&& opened.manager@ == state
                    &&& opened.manager.is_read_only() == read_only
                    &&& !read_only ==> opened.manager.base() == file_state(
                        region@,
                        page_views(pages@),
                    )->Ok_0
                    &&& !read_only ==> match opened.new_log {
                        Some(bytes) => opened.manager.log() == bytes@ && opened.manager.log()
                            == log_stamp(state.blocks.iteration) && opened.manager@
                            == opened.manager.base(),
                        None => opened.manager.log() == log@,
                    }
                    &&& read_only ==> opened.new_log is None
                    &&& opened.manager.log_sent() == opened.manager.log()
                },
                Err(e) => r matches Err(why) && why == e,
            },
    {
        let (slot, header) = match Self::read_active_header(region) {
            Ok(found) => found,
            Err(e) => {
                return Err(e);
            },
        };
        let (free, chain) = match read_free_list(pages, header.free_list) {
            Some(found) => found,
            None => {
                return Err(StorageError::CorruptHeader);
            },
        };
        if !Self::free_list_fits(slot, &header, &free, &chain) {
            return Err(StorageError::CorruptHeader);
        }
        let ghost base = clean_state(header_blocks(slot as int, header, free@, chain@));
        let mut block_manager = SingleFileBlockManager::new(slot, &header, free, chain);
        let mut dirty = DirtyBlocks::new();
        proof {
            assert((StorageState { blocks: block_manager@, dirty: dirty@ }) == base);
        }
        let mut fresh = false;
        let mut replayed: Ghost<Seq<WalRecordView>> = Ghost(Seq::empty());
        if log.len() > 0 {
            if log.len() < 8 {
                return Err(StorageError::CorruptLog);
            }
            let stamp = u64_from_le_bytes(slice_subrange(log, 0, 8));
            if stamp > header.iteration {
                return Err(StorageError::CorruptLog);
            }
            if stamp == header.iteration {
                let records = match read_records(slice_subrange(log, 8, log.len())) {
                    Ok(records) => records,
                    Err(e) => {
                        return Err(e);
                    },
                };
                let ghost wanted = views(records@);
                let mut i: usize = 0;
                proof {
                    assert(wanted.subrange(0, 0) =~= Seq::<WalRecordView>::empty());
                    assert(log@.subrange(8, log@.len() as int) =~= log@.skip(8));
                }
                while i < records.len()
                    invariant
                        i <= records@.len(),
                        wanted == views(records@),
                        file_state(region@, page_views(pages@)) == Ok::<
                            StorageState,
                            StorageError,
                        >(base),
                        log@.len() >= 8,
                        spec_u64_from_le_bytes(log@.subrange(0, 8)) == base.blocks.iteration,
                        decode_log(log@.skip(8)) == Ok::<Seq<WalRecordView>, IoErrorKind>(wanted),
                        base.wf(),
                        block_manager.wf(),
                        dirty.wf(),
                        base.run(wanted.subrange(0, i as int)) == Some(
                            StorageState { blocks: block_manager@, dirty: dirty@ },
                        ),
                        (StorageState { blocks: block_manager@, dirty: dirty@ }).wf(),
                        block_manager@.iteration == base.blocks.iteration,
                    decreases records@.len() - i,
                {
                    let ghost state = StorageState { blocks: block_manager@, dirty: dirty@ };
                    proof {
                        assert(wanted.subrange(0, i + 1) =~= wanted.subrange(0, i as int).push(
                            wanted[i as int],
                        ));
                        base.lemma_run_push(wanted.subrange(0, i as int), wanted[i as int]);
                        assert(wanted[i as int] == records@[i as int]@);
                        if state.step(wanted[i as int]) is Some {
                            state.lemma_step_wf(wanted[i as int]);
                        }
                    }
                    if !apply_record(&mut block_manager, &mut dirty, &records[i]) {
                        proof {
                            lemma_run_stuck(base, wanted, i as int);
                            assert(wanted.subrange(0, wanted.len() as int) =~= wanted);
                        }
                        return Err(StorageError::CorruptLog);
                    }
                    i += 1;
                }
                proof {
                    assert(wanted.subrange(0, i as int) =~= wanted);
                    replayed@ = wanted;
                }
                fresh = true;
            }
        }
        let ghost state = StorageState { blocks: block_manager@, dirty: dirty@ };
        if read_only {
            let manager = StorageManager {
                read_only: true,
                block_manager,
                wal: WriteAheadLog::new(),
                dirty,
                base: Ghost(state),
                logged: Ghost(Seq::empty()),
            };
            Ok(Opened { manager, new_log: None })
        } else if fresh {
            let manager = StorageManager {
                read_only: false,
                block_manager,
                wal: WriteAheadLog::resume(log),
                dirty,
                base: Ghost(base),
                logged: replayed,
            };
            proof {
                lemma_auto_spec_u64_to_from_le_bytes();
                lemma_log_round_trip(replayed@);
                assert(log@ =~= log@.subrange(0, 8) + log@.skip(8));
                assert(log@.subrange(8, log@.len() as int) =~= log@.skip(8));
                lemma_log_unique(log@.skip(8), replayed@);
            }
            Ok(Opened { manager, new_log: None })
        } else {
            let mut wal = WriteAheadLog::new();
            wal.reset(header.iteration);
            wal.sync();
            let bytes = wal.take_output();
            let manager = StorageManager {
                read_only: false,
                block_manager,
                wal,
                dirty,
                base: Ghost(base),
                logged: Ghost(Seq::empty()),
            };
            proof {
                assert(encode_log(Seq::<WalRecordView>::empty()) =~= Seq::<u8>::empty());
                assert(log_stamp(header.iteration) + encode_log(Seq::<WalRecordView>::empty())
                    =~= log_stamp(header.iteration));
                assert(bytes@ =~= manager.log());
            }
            Ok(Opened { manager, new_log: Some(bytes) })
        }
    }
}

/// A run that is stuck at a record stays stuck.
pub proof fn lemma_run_stuck(base: StorageState, records: Seq<WalRecordView>, i: int)
    requires
        0 <= i < records.len(),
        base.run(records.subrange(0, i + 1)) is None,
    ensures
        base.run(records) is None,
    decreases records.len() - i,
{
    if i + 1 < records.len() {
        assert(records.subrange(0, i + 2).drop_last() =~= records.subrange(0, i + 1));
        lemma_run_stuck(base, records, i + 1);
    } else {
        assert(records.subrange(0, i + 1) =~= records);
    }
}

/// Bytes are the log of one sequence of records only: the log of the
/// records that they decode as.
pub proof fn lemma_log_unique(bytes: Seq<u8>, records: Seq<WalRecordView>)
    requires
        decode_log(bytes) == Ok::<Seq<WalRecordView>, IoErrorKind>(records),
    ensures
        encode_log(records) == bytes,
    decreases bytes.len(),
{
    if bytes.len() > 0 {
        let (first, taken) = crate::wal::decode_record(bytes)->Ok_0;
        let rest = decode_log(bytes.skip(taken))->Ok_0;
        assert(records =~= seq![first] + rest);
        lemma_log_unique(bytes.skip(taken), rest);
        crate::wal::lemma_encode_decode(bytes);
        assert(records.skip(1) =~= rest);
        assert(bytes =~= bytes.subrange(0, taken) + bytes.skip(taken));
    } else {
        assert(records =~= Seq::<WalRecordView>::empty());
        assert(encode_log(records) =~= bytes);
    }
}


impl StorageManager {
    /// The allocation that the file holds after a checkpoint of the
    /// allocation `before`: the free list has fresh pages at the end of the
    /// file, and the other database header slot is the active one, with the
    /// next iteration count.
    pub open spec fn checkpointed(before: BlockManagerView) -> BlockManagerView {
        BlockManagerView {
            active_slot: 1 - before.active_slot,
            iteration: (before.iteration + 1) as u64,
            ..before.repaged()
        }
    }

    /// Whether a checkpoint of the state `before` can be made: whether the
    /// iteration count can grow and the file has room for the pages of the
    /// free list.
    pub open spec fn can_checkpoint(before: StorageState) -> bool {
        before.blocks.iteration < u64::MAX && before.blocks.can_repage()
    }

    /// What a checkpoint leaves and hands out: see `checkpoint`.
    pub open spec fn checkpoint_outcome(
        before: StorageManager,
        after: StorageManager,
        r: Result<Checkpoint, StorageError>,
    ) -> bool {
        if before.is_read_only() {
            r matches Err(e) && e == StorageError::ReadOnly && after@ == before@
                && after.base() == before.base() && after.logged() == before.logged()
                && after.log_sent() == before.log_sent()
        } else if !Self::can_checkpoint(before@) {
            r matches Err(e) && e == StorageError::Full && after@ == before@
                && after.base() == before.base() && after.logged() == before.logged()
                && after.log_sent() == before.log_sent()
        } else {
            &&& r matches Ok(cp)
            &&& blocks_distinct(cp.blocks@)
            &&& block_contents(cp.blocks@) == before@.dirty
            &&& cp.transfers@.len() == cp.blocks@.len()
            &&& forall|i: int|
                0 <= i < cp.blocks@.len() ==> (#[trigger] cp.transfers@[i]).offset
                    == crate::storage_info::block_offset(cp.blocks@[i].block_id)
                    && cp.transfers@[i].length == BLOCK_SIZE
            &&& block_ids(cp.free_pages@) == after.base().blocks.pages
            &&& free_list_of(
                block_views(cp.free_pages@),
                after.base().blocks.first_page(),
            ) == Some((before@.blocks.free, after.base().blocks.pages))
            &&& cp.free_page_transfers@.len() == cp.free_pages@.len()
            &&& forall|i: int|
                0 <= i < cp.free_pages@.len() ==> (#[trigger] cp.free_page_transfers@[i]).offset
                    == crate::storage_info::block_offset(cp.free_pages@[i].block_id)
                    && cp.free_page_transfers@[i].length == BLOCK_SIZE
                    && cp.free_pages@[i].full_size()
            &&& cp.header.slot == 1 - before@.blocks.active_slot
            &&& cp.header.offset == if cp.header.slot == 0 {
                FIRST_HEADER_OFFSET
            } else {
                SECOND_HEADER_OFFSET
            }
            &&& cp.header.bytes@ == before@.blocks.repaged().checkpoint_header().encoding()
            &&& cp.log@ == after.log()
            &&& after.log_sent() == after.log()
            &&& after.base() == clean_state(Self::checkpointed(before@.blocks))
            &&& after.logged() == releases(before@.blocks.pages)
            &&& after@ == (StorageState {
                blocks: BlockManagerView {
                    free: before@.blocks.free + before@.blocks.pages,
                    ..Self::checkpointed(before@.blocks)
                },
                dirty: Map::empty(),
            })
        }
    }

    /// Makes the state in memory durable. The checkpoint that is handed
    /// out says what the file collaborator is to do, in this order: write
    /// the blocks that were written since the last checkpoint, and the free
    /// list to fresh pages at the end of the file; write the database header
    /// to the slot that is not the active one; and replace the log by a new
    /// log, which builds on the new header and frees the pages that held the
    /// free list before. Refused with `ReadOnly` in a read-only database and
    /// with `Full` if the iteration count has reached its limit or the file
    /// has no room for the pages; a refusal changes nothing.
    pub fn checkpoint(&mut self) -> (r: Result<Checkpoint, StorageError>)
        requires
            old(self).wf(),
        ensures
            final(self).wf(),
            final(self).is_read_only() == old(self).is_read_only(),
            Self::checkpoint_outcome(*old(self), *final(self), r),
    {
        if self.read_only {
            return Err(StorageError::ReadOnly);
        }
        let ghost before = self@;
        proof {
            self.dirty.lemma_order();
        }
        if self.block_manager.iteration() == u64::MAX || !self.block_manager.can_repage() {
            return Err(StorageError::Full);
        }
        let blocks = self.dirty.take_all();
        let mut transfers: Vec<Transfer> = Vec::new();
        let mut i: usize = 0;
        while i < blocks.len()
            invariant
                i <= blocks@.len(),
                self.block_manager.wf(),
                self.block_manager@ == before.blocks,
                self.dirty.wf(),
                self.dirty@ == Map::<BlockId, Seq<u8>>::empty(),
                self.read_only == old(self).read_only,
                before.wf(),
                blocks_distinct(blocks@),
                block_contents(blocks@) == before.dirty,
                transfers@.len() == i,
                forall|k: int|
                    0 <= k < i ==> (#[trigger] transfers@[k]).offset
                        == crate::storage_info::block_offset(blocks@[k].block_id)
                        && transfers@[k].length == BLOCK_SIZE,
            decreases blocks@.len() - i,
        {
            proof {
                lemma_block_at(blocks@, i as int, blocks@[i as int].block_id);
            }
            let transfer = self.block_manager.write(&blocks[i]);
            transfers.push(transfer);
            i += 1;
        }
        proof {
            before.blocks.lemma_repaged();
        }
        let (contents, old_pages) = self.block_manager.store_free_list();
        let page_ids = self.block_manager.free_list_pages();
        let ghost repaged = self.block_manager@;
        let mut free_pages: Vec<Block> = Vec::new();
        let mut free_page_transfers: Vec<Transfer> = Vec::new();
        let mut p: usize = 0;
        while p < contents.len()
            invariant
                p <= contents@.len(),
                contents@.len() == page_ids@.len(),
                page_ids@ == repaged.pages,
                self.block_manager.wf(),
                self.block_manager@ == repaged,
                self.dirty.wf(),
                self.dirty@ == Map::<BlockId, Seq<u8>>::empty(),
                self.read_only == old(self).read_only,
                forall|k: int| 0 <= k < contents@.len() ==> (#[trigger] contents@[k])@.len() == BLOCK_SIZE,
                free_pages@.len() == p,
                free_page_transfers@.len() == p,
                forall|k: int|
                    0 <= k < p ==> (#[trigger] free_pages@[k]).block_id == page_ids@[k]
                        && free_pages@[k]@ == contents@[k]@,
                forall|k: int|
                    0 <= k < p ==> (#[trigger] free_page_transfers@[k]).offset
                        == crate::storage_info::block_offset(page_ids@[k])
                        && free_page_transfers@[k].length == BLOCK_SIZE,
            decreases contents@.len() - p,
        {
            let id = page_ids[p];
            assert(0 <= repaged.pages[p as int] < repaged.block_count);
            free_page_transfers.push(self.block_manager.locate(id));
            free_pages.push(Block::with_data(id, slice_to_vec(contents[p].as_slice())));
            p += 1;
        }
        let header = self.block_manager.checkpoint_header();
        let write = self.block_manager.write_header(&header);
        let ghost next_blocks = self.block_manager@;
        let ghost next_base = clean_state(next_blocks);
        self.wal.reset(header.iteration);
        let mut k: usize = 0;
        proof {
            assert(next_blocks == Self::checkpointed(before.blocks));
            assert(old_pages@.subrange(0, 0) =~= Seq::<BlockId>::empty());
            assert(releases(old_pages@.subrange(0, 0)) =~= Seq::<WalRecordView>::empty());
            assert(encode_log(Seq::<WalRecordView>::empty()) =~= Seq::<u8>::empty());
            assert(log_stamp(header.iteration) + encode_log(releases(old_pages@.subrange(0, 0)))
                =~= log_stamp(header.iteration));
            assert(next_blocks.free + old_pages@.subrange(0, 0) =~= next_blocks.free);
        }
        while k < old_pages.len()
            invariant
                k <= old_pages@.len(),
                old_pages@ == before.blocks.pages,
                before.wf(),
                before.blocks.can_repage(),
                next_blocks == Self::checkpointed(before.blocks),
                self.wal.begun(),
                self.wal@.flushed == Seq::<u8>::empty(),
                self.wal.contents() == log_stamp(header.iteration) + encode_log(
                    releases(old_pages@.subrange(0, k as int)),
                ),
                self.block_manager.wf(),
                self.block_manager@ == (BlockManagerView {
                    free: next_blocks.free + old_pages@.subrange(0, k as int),
                    ..next_blocks
                }),
                self.dirty.wf(),
                self.dirty@ == Map::<BlockId, Seq<u8>>::empty(),
                self.read_only == old(self).read_only,
            decreases old_pages@.len() - k,
        {
            let id = old_pages[k];
            proof {
                let done = old_pages@.subrange(0, k as int);
                let record = WalRecordView::Free(id);
                assert(releases(old_pages@.subrange(0, k + 1)) =~= releases(done).push(record));
                lemma_encode_log_push(releases(done), record);
                assert(log_stamp(header.iteration) + encode_log(releases(done)) + encode_record(
                    record,
                ) =~= log_stamp(header.iteration) + encode_log(releases(done).push(record)));
                // The page is in use still: it is no free block, no page of
                // the free list any more, and was not freed a moment ago.
                before.blocks.lemma_repaged();
                assert(before.blocks.repaged().allocated(before.blocks.pages[k as int]));
                assert(!(next_blocks.free + done).contains(id)) by {
                    if (next_blocks.free + done).contains(id) {
                        let j = choose|j: int|
                            0 <= j < (next_blocks.free + done).len() && (next_blocks.free
                                + done)[j] == id;
                        if j < next_blocks.free.len() {
                            assert(next_blocks.free[j] == id);
                            assert(next_blocks.free.contains(id));
                        } else {
                            assert(old_pages@[j - next_blocks.free.len()] == old_pages@[k as int]);
                        }
                    }
                }
                assert(id != next_blocks.meta_block) by {
                    if id == before.blocks.meta_block {
                        assert(before.blocks.pages.contains(before.blocks.pages[k as int]));
                    }
                }
                assert((next_blocks.free + done).push(id) =~= next_blocks.free
                    + old_pages@.subrange(0, k + 1));
            }
            self.wal.append(&WalRecord::Free(id));
            let freed = self.block_manager.free_block(id);
            assert(freed);
            k += 1;
        }
        self.wal.sync();
        let log = self.wal.take_output();
        proof {
            assert(old_pages@.subrange(0, k as int) =~= old_pages@);
            self.base = Ghost(next_base);
            self.logged = Ghost(releases(old_pages@));
            before.blocks.lemma_repaged();
            assert(next_blocks.wf());
            lemma_clean_state(next_blocks);
            assert forall|j: int| 0 <= j < old_pages@.len() implies next_base.blocks.allocated(
                #[trigger] old_pages@[j],
            ) && old_pages@[j] != next_base.blocks.meta_block && !next_base.dirty.dom().contains(
                old_pages@[j],
            ) by {
                assert(before.blocks.repaged().allocated(before.blocks.pages[j]));
                if old_pages@[j] == before.blocks.meta_block {
                    assert(before.blocks.pages.contains(before.blocks.pages[j]));
                }
            }
            lemma_releases(next_base, old_pages@);
            assert(self@.dirty =~= Map::<BlockId, Seq<u8>>::empty());
            assert(log@ =~= self.wal.contents());
            assert(block_ids(free_pages@) =~= next_blocks.pages);
            assert(block_views(free_pages@) =~= page_views(contents@));
        }
        Ok(Checkpoint { blocks, transfers, free_pages, free_page_transfers, header: write, log })
    }

    /// What closing hands out: see `close`.
    pub open spec fn close_outcome(
        before: StorageManager,
        r: Result<Option<Checkpoint>, StorageError>,
    ) -> bool {
        if before.is_read_only() {
            r matches Ok(None)
        } else if !Self::can_checkpoint(before@) {
            r matches Err(e) && e == StorageError::Full
        } else {
            &&& r matches Ok(Some(cp))
            &&& blocks_distinct(cp.blocks@)
            &&& block_contents(cp.blocks@) == before@.dirty
            &&& block_ids(cp.free_pages@) == before@.blocks.repaged().pages
            &&& free_list_of(
                block_views(cp.free_pages@),
                before@.blocks.repaged().first_page(),
            ) == Some((before@.blocks.free, before@.blocks.repaged().pages))
            &&& cp.header.slot == 1 - before@.blocks.active_slot
            &&& cp.header.bytes@ == before@.blocks.repaged().checkpoint_header().encoding()
            &&& cp.log@ == log_stamp((before@.blocks.iteration + 1) as u64) + encode_log(
                releases(before@.blocks.pages),
            )
        }
    }

    /// Closes the database: a last checkpoint makes the state durable,
    /// unless the database is read-only, which has nothing to write.
    pub fn close(self) -> (r: Result<Option<Checkpoint>, StorageError>)
        requires
            self.wf(),
        ensures
            Self::close_outcome(self, r),
    {
        if self.read_only {
            return Ok(None);
        }
        let mut manager = self;
        match manager.checkpoint() {
            Ok(cp) => Ok(Some(cp)),
            Err(e) => Err(e),
        }
    }
}

} // verus!
