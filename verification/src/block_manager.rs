//! The allocation of the blocks of the storage file, and the switch between
//! the two database headers at a checkpoint.

use vstd::prelude::*;
use crate::block::Block;
use crate::free_list::{free_list_of, page_ids, page_views, pages_needed, write_free_list};
use crate::serializer::{to_bytes, Serializable};
use crate::storage_info::{
    active_of, block_offset, BlockId, DatabaseHeader, BLOCK_SIZE, FIRST_HEADER_OFFSET,
    HEADER_SIZE, INVALID_BLOCK, MAX_BLOCKS, SECOND_HEADER_OFFSET,
};

verus! {

/// A positioned transfer that the file collaborator is to perform: `length`
/// bytes at `offset`.
#[derive(Debug, Clone, Copy, PartialEq, Eq, Structural)]
pub struct Transfer {
    pub offset: u64,
    pub length: u64,
}

/// The write that makes a checkpoint durable: `bytes` at `offset`, which is
/// the start of the database header slot `slot`.
#[derive(Debug)]
pub struct HeaderWrite {
    pub slot: usize,
    pub offset: u64,
    pub bytes: Vec<u8>,
}

/// The mathematical content of a block manager.
pub struct BlockManagerView {
    /// The blocks that were allocated once and are free now, the one freed
    /// last at the end.
    pub free: Seq<BlockId>,
    /// The number of blocks of the file.
    pub block_count: u64,
    /// The first block of the metadata, or `INVALID_BLOCK`.
    pub meta_block: BlockId,
    /// The database header slot that the last checkpoint wrote.
    pub active_slot: int,
    /// The iteration count of the last checkpoint.
    pub iteration: u64,
    /// The blocks that hold the free list as of the last checkpoint.
    pub pages: Seq<BlockId>,
}

impl BlockManagerView {
    /// Whether `id` names a block of the file that is in use, and not by
    /// the free list of the last checkpoint.
    pub open spec fn allocated(self, id: BlockId) -> bool {
        0 <= id < self.block_count && !self.free.contains(id) && !self.pages.contains(id)
    }

    /// The invariant: the free blocks and the pages of the free list are
    /// blocks of the file, each listed once, and no block is both; the first
    /// block of the metadata, if there is one, is in use; and the file is no
    /// larger than its addressing allows.
    pub open spec fn wf(self) -> bool {
        &&& self.block_count <= MAX_BLOCKS
        &&& self.free.no_duplicates()
        &&& forall|i: int| 0 <= i < self.free.len() ==> 0 <= #[trigger] self.free[i] < self.block_count
        &&& self.pages.no_duplicates()
        &&& forall|i: int|
            0 <= i < self.pages.len() ==> 0 <= #[trigger] self.pages[i] < self.block_count
                && !self.free.contains(self.pages[i])
        &&& self.meta_block == INVALID_BLOCK || self.allocated(self.meta_block)
        &&& (self.active_slot == 0 || self.active_slot == 1)
    }

    /// Whether another block can be allocated.
    pub open spec fn can_allocate(self) -> bool {
        self.free.len() > 0 || self.block_count < MAX_BLOCKS
    }

    /// The block that the next allocation hands out: the one freed last, or
    /// the one that extends the file if no block is free.
    pub open spec fn next_id(self) -> BlockId {
        if self.free.len() > 0 {
            self.free.last()
        } else {
            self.block_count as BlockId
        }
    }

    /// The state after the next allocation.
    pub open spec fn taken(self) -> BlockManagerView {
        if self.free.len() > 0 {
            BlockManagerView { free: self.free.drop_last(), ..self }
        } else {
            BlockManagerView { block_count: (self.block_count + 1) as u64, ..self }
        }
    }

    /// The state after the block `id` has been freed.
    pub open spec fn released(self, id: BlockId) -> BlockManagerView {
        BlockManagerView { free: self.free.push(id), ..self }
    }

    /// The state after the blocks `ids` have been freed, in order.
    pub open spec fn released_all(self, ids: Seq<BlockId>) -> BlockManagerView
        decreases ids.len(),
    {
        if ids.len() == 0 {
            self
        } else {
            self.released_all(ids.drop_last()).released(ids.last())
        }
    }

    /// The state after `count` allocations, and the blocks they hand out, in
    /// order.
    pub open spec fn taken_many(self, count: nat) -> (BlockManagerView, Seq<BlockId>)
        decreases count,
    {
        if count == 0 {
            (self, Seq::empty())
        } else {
            let (rest, ids) = self.taken().taken_many((count - 1) as nat);
            (rest, seq![self.next_id()] + ids)
        }
    }

    /// An allocation hands out a block that was not in use, and afterwards
    /// that block is in use and nothing else has changed hands.
    pub proof fn lemma_taken(self)
        requires
            self.wf(),
            self.can_allocate(),
        ensures
            self.taken().wf(),
            !self.allocated(self.next_id()),
            self.taken().allocated(self.next_id()),
            forall|id: BlockId|
                id != self.next_id() ==> #[trigger] self.taken().allocated(id) == self.allocated(id),
    {
        let after = self.taken();
        let id = self.next_id();
        if self.free.len() > 0 {
            let last = self.free.len() - 1;
            assert(self.free[last] == id);
            assert(self.free.contains(id));
            assert(!after.free.contains(id)) by {
                if after.free.contains(id) {
                    let k = choose|k: int| 0 <= k < after.free.len() && after.free[k] == id;
                    assert(self.free[k] == self.free[last]);
                }
            }
            assert forall|other: BlockId| other != id implies #[trigger] after.allocated(other)
                == self.allocated(other) by {
                if self.free.contains(other) {
                    let k = choose|k: int| 0 <= k < self.free.len() && self.free[k] == other;
                    assert(after.free[k] == other);
                }
                if after.free.contains(other) {
                    let k = choose|k: int| 0 <= k < after.free.len() && after.free[k] == other;
                    assert(self.free[k] == other);
                }
            }
        } else {
            assert forall|other: BlockId| other != id implies #[trigger] after.allocated(other)
                == self.allocated(other) by {}
        }
    }

    /// Freeing a block that is in use, and is not the first block of the
    /// metadata, leaves a well-formed state in which that block is free and
    /// nothing else has changed hands.
    pub proof fn lemma_released(self, id: BlockId)
        requires
            self.wf(),
            self.allocated(id),
            id != self.meta_block,
        ensures
            self.released(id).wf(),
            self.released(id).can_allocate(),
            !self.released(id).allocated(id),
            forall|other: BlockId|
                other != id ==> #[trigger] self.released(id).allocated(other) == self.allocated(
                    other,
                ),
            self.released(id).next_id() == id,
            self.released(id).taken() == self,
    {
        let after = self.released(id);
        assert(after.free[after.free.len() - 1] == id);
        assert(after.free.contains(id));
        assert(after.free.drop_last() =~= self.free);
        assert forall|other: BlockId| other != id implies #[trigger] after.allocated(other)
            == self.allocated(other) by {
            if self.free.contains(other) {
                let k = choose|k: int| 0 <= k < self.free.len() && self.free[k] == other;
                assert(after.free[k] == other);
            }
            if after.free.contains(other) {
                let k = choose|k: int| 0 <= k < after.free.len() && after.free[k] == other;
                assert(self.free[k] == other);
            }
        }
        assert forall|a: int, b: int| 0 <= a < b < after.free.len() implies after.free[a]
            != after.free[b] by {
            if b == self.free.len() {
                assert(self.free[a] == after.free[a]);
                assert(self.free.contains(after.free[a]));
            } else {
                assert(self.free[a] != self.free[b]);
            }
        }
    }

    /// Blocks that are freed are the blocks that the next allocations hand
    /// out: after the blocks `ids`, all in use and all different, have been
    /// freed, as many allocations hand out exactly those blocks, the one
    /// freed last first, and leave the state as it was before the blocks
    /// were freed.
    pub proof fn lemma_reuse(self, ids: Seq<BlockId>)
        requires
            self.wf(),
            ids.no_duplicates(),
            forall|i: int|
                0 <= i < ids.len() ==> self.allocated(#[trigger] ids[i]) && ids[i]
                    != self.meta_block,
        ensures
            self.released_all(ids).wf(),
            self.released_all(ids).taken_many(ids.len()) == (self, ids.reverse()),
            forall|id: BlockId|
                #[trigger] self.released_all(ids).allocated(id) == (self.allocated(id)
                    && !ids.contains(id)),
        decreases ids.len(),
    {
        if ids.len() == 0 {
            assert(ids.reverse() =~= Seq::<BlockId>::empty());
            assert forall|id: BlockId| #[trigger]
                self.released_all(ids).allocated(id) == (self.allocated(id) && !ids.contains(
                    id,
                )) by {}
        } else {
            let front = ids.drop_last();
            let last = ids.last();
            assert forall|i: int| 0 <= i < front.len() implies self.allocated(
                #[trigger] front[i],
            ) && front[i] != self.meta_block by {
                assert(front[i] == ids[i]);
            }
            assert(self.released_all(front).meta_block == self.meta_block) by {
                self.lemma_released_all_keeps(front);
            }
            assert(front.no_duplicates());
            self.lemma_reuse(front);
            let mid = self.released_all(front);
            assert(!front.contains(last)) by {
                if front.contains(last) {
                    let k = choose|k: int| 0 <= k < front.len() && front[k] == last;
                    assert(ids[k] == ids[ids.len() - 1]);
                }
            }
            assert(mid.allocated(last));
            mid.lemma_released(last);
            let after = mid.released(last);
            assert(after.taken_many(ids.len()) == (self, ids.reverse())) by {
                let (rest, tail) = after.taken().taken_many((ids.len() - 1) as nat);
                assert(after.taken() == mid);
                assert(rest == self);
                assert(tail == front.reverse());
                assert(seq![last] + front.reverse() =~= ids.reverse());
            }
            assert forall|id: BlockId| #[trigger]
                after.allocated(id) == (self.allocated(id) && !ids.contains(id)) by {
                if ids.contains(id) {
                    let k = choose|k: int| 0 <= k < ids.len() && ids[k] == id;
                    if k < front.len() {
                        assert(front[k] == id);
                        assert(front.contains(id));
                    }
                }
                if front.contains(id) {
                    let k = choose|k: int| 0 <= k < front.len() && front[k] == id;
                    assert(ids[k] == id);
                }
                if id == last {
                    assert(ids[ids.len() - 1] == id);
                } else {
                    assert(after.allocated(id) == mid.allocated(id));
                }
            }
        }
    }

    /// Freeing blocks changes the free blocks only.
    pub proof fn lemma_released_all_keeps(self, ids: Seq<BlockId>)
        ensures
            self.released_all(ids) == (BlockManagerView {
                free: self.released_all(ids).free,
                ..self
            }),
            self.released_all(ids).free == self.free + ids,
        decreases ids.len(),
    {
        if ids.len() > 0 {
            self.lemma_released_all_keeps(ids.drop_last());
            assert(self.free + ids =~= (self.free + ids.drop_last()).push(ids.last()));
        } else {
            assert(self.free + ids =~= self.free);
        }
    }

    /// The first page of the free list, or `INVALID_BLOCK` if the free list
    /// has no page.
    pub open spec fn first_page(self) -> BlockId {
        if self.pages.len() > 0 {
            self.pages.first()
        } else {
            INVALID_BLOCK
        }
    }

    /// The database header that stands for this state at its next
    /// checkpoint.
    pub open spec fn checkpoint_header(self) -> DatabaseHeader {
        DatabaseHeader {
            iteration: (self.iteration + 1) as u64,
            meta_block: self.meta_block,
            free_list: self.first_page(),
            block_count: self.block_count,
        }
    }

    /// The state after the free list has been given fresh pages at the end
    /// of the file. The pages that held the free list before are in use
    /// still, until they are freed.
    pub open spec fn repaged(self) -> BlockManagerView {
        BlockManagerView {
            block_count: (self.block_count + pages_needed(self.free.len() as int)) as u64,
            pages: page_ids(self.block_count as int, pages_needed(self.free.len() as int)),
            ..self
        }
    }

    /// Whether the file has room for fresh pages for the free list.
    pub open spec fn can_repage(self) -> bool {
        self.block_count + pages_needed(self.free.len() as int) <= MAX_BLOCKS
    }

    /// Fresh pages for the free list leave a well-formed state, in which the
    /// pages of before are blocks in use like any other.
    pub proof fn lemma_repaged(self)
        requires
            self.wf(),
            self.can_repage(),
        ensures
            self.repaged().wf(),
            forall|i: int|
                0 <= i < self.pages.len() ==> self.repaged().allocated(#[trigger] self.pages[i]),
            forall|id: BlockId| self.allocated(id) ==> #[trigger] self.repaged().allocated(id),
    {
        let after = self.repaged();
        let count = pages_needed(self.free.len() as int);
        assert(count >= 0) by (nonlinear_arith)
            requires
                count == (self.free.len() as int + 32766 - 1) / 32766,
        ;
        assert forall|i: int| 0 <= i < after.pages.len() implies 0 <= #[trigger] after.pages[i]
            < after.block_count && !after.free.contains(after.pages[i]) by {
            if after.free.contains(after.pages[i]) {
                let k = choose|k: int| 0 <= k < self.free.len() && self.free[k] == after.pages[i];
                assert(self.free[k] < self.block_count);
            }
        }
        assert forall|id: BlockId| 0 <= id < self.block_count implies !after.pages.contains(id) by {
            if after.pages.contains(id) {
                let k = choose|k: int| 0 <= k < after.pages.len() && after.pages[k] == id;
            }
        }
        assert forall|i: int| 0 <= i < self.pages.len() implies after.allocated(
            #[trigger] self.pages[i],
        ) by {
            assert(!self.free.contains(self.pages[i]));
        }
    }
}

/// The checkpoint switches the headers safely: the new header, once it is
/// whole in its slot, is the active one; and as long as its slot is not
/// usable, the header of the checkpoint before stays the active one.
pub proof fn lemma_header_switch(active: DatabaseHeader, next: DatabaseHeader, slot: int)
    requires
        slot == 0 || slot == 1,
        next.iteration > active.iteration,
    ensures
        slot == 0 ==> active_of(Some(active), Some(next)) == Some((1int, next)),
        slot == 1 ==> active_of(Some(next), Some(active)) == Some((0int, next)),
        slot == 0 ==> active_of(Some(active), None) == Some((0int, active)),
        slot == 1 ==> active_of(None, Some(active)) == Some((1int, active)),
{
}


/// Where the block `id` begins in the storage file.
fn offset_of(id: BlockId) -> (offset: u64)
    requires
        0 <= id < MAX_BLOCKS,
    ensures
        offset == block_offset(id),
{
    let index: u64 = id as u64;
    assert(index * 262144 + 4096 <= u64::MAX) by (nonlinear_arith)
        requires
            index < 0x3fff_ffff_ffff,
    ;
    HEADER_SIZE as u64 + index * (BLOCK_SIZE as u64)
}

/// Whether `ids` holds `id`.
fn holds(ids: &Vec<BlockId>, id: BlockId) -> (r: bool)
    ensures
        r == ids@.contains(id),
{
    let mut i: usize = 0;
    while i < ids.len()
        invariant
            i <= ids@.len(),
            forall|k: int| 0 <= k < i ==> ids@[k] != id,
        decreases ids@.len() - i,
    {
        if ids[i] == id {
            return true;
        }
        i += 1;
    }
    false
}

/// What manages the blocks of a storage file.
pub trait BlockManager: Sized {
    /// The allocation state.
    spec fn view(&self) -> BlockManagerView;

    /// The invariant that every operation keeps.
    spec fn wf(&self) -> bool;

    /// Allocates a block and returns it, filled with zero bytes.
    fn create_block(&mut self) -> (block: Block)
        requires
            old(self).wf(),
            old(self)@.can_allocate(),
        ensures
            final(self).wf(),
            final(self)@ == old(self)@.taken(),
            block.block_id == old(self)@.next_id(),
            block@ == Seq::new(BLOCK_SIZE as nat, |i: int| 0u8),
    ;

    /// Allocates a block: the block that was freed last, or, if no block is
    /// free, the block that extends the file by one.
    fn get_free_block_id(&mut self) -> (id: BlockId)
        requires
            old(self).wf(),
            old(self)@.can_allocate(),
        ensures
            final(self).wf(),
            final(self)@ == old(self)@.taken(),
            id == old(self)@.next_id(),
    ;

    /// The first block of the metadata, or `INVALID_BLOCK`.
    fn get_meta_block(&self) -> (id: BlockId)
        ensures
            id == self@.meta_block,
    ;

    /// The transfer that reads the content of `block` from the file: exactly
    /// `BLOCK_SIZE` bytes at the position of the block.
    fn read(&self, block: &Block) -> (transfer: Transfer)
        requires
            self.wf(),
            self@.allocated(block.block_id),
        ensures
            transfer.offset == block_offset(block.block_id),
            transfer.length == BLOCK_SIZE,
    ;

    /// The transfer that writes the content of `block` to the file: exactly
    /// `BLOCK_SIZE` bytes at the position of the block.
    fn write(&self, block: &Block) -> (transfer: Transfer)
        requires
            self.wf(),
            self@.allocated(block.block_id),
            block.full_size(),
        ensures
            transfer.offset == block_offset(block.block_id),
            transfer.length == BLOCK_SIZE,
    ;

    /// The last step of a checkpoint: the write of `header`, with the next
    /// iteration count, to the slot that is not the active one, which
    /// thereby becomes the active one.
    fn write_header(&mut self, header: &DatabaseHeader) -> (write: HeaderWrite)
        requires
            old(self).wf(),
            old(self)@.iteration < u64::MAX,
        ensures
            final(self).wf(),
            final(self)@ == (BlockManagerView {
                active_slot: 1 - old(self)@.active_slot,
                iteration: (old(self)@.iteration + 1) as u64,
                ..old(self)@
            }),
            write.slot == 1 - old(self)@.active_slot,
            write.offset == if write.slot == 0 {
                FIRST_HEADER_OFFSET
            } else {
                SECOND_HEADER_OFFSET
            },
            write.bytes@ == (DatabaseHeader {
                iteration: (old(self)@.iteration + 1) as u64,
                ..*header
            }).encoding(),
            write.offset + write.bytes@.len() <= HEADER_SIZE,
    ;
}

/// The block manager of a database that lives in one file.
pub struct SingleFileBlockManager {
    /// The free blocks, the one freed last at the end.
    free_list: Vec<BlockId>,
    /// The number of blocks of the file.
    max_block: u64,
    /// The first block of the metadata, or `INVALID_BLOCK`.
    meta_block: BlockId,
    /// The database header slot that the last checkpoint wrote.
    active_header: usize,
    /// The iteration count of the last checkpoint.
    iteration_count: u64,
    /// The blocks that hold the free list as of the last checkpoint.
    free_list_pages: Vec<BlockId>,
}

impl SingleFileBlockManager {
    /// The block manager of a file whose active database header is `header`,
    /// in slot `slot`, and whose free list, in the pages `pages`, is `free`.
    pub fn new(slot: usize, header: &DatabaseHeader, free: Vec<BlockId>, pages: Vec<BlockId>) -> (manager:
        Self)
        requires
            slot < 2,
            (BlockManagerView {
                free: free@,
                block_count: header.block_count,
                meta_block: header.meta_block,
                active_slot: slot as int,
                iteration: header.iteration,
                pages: pages@,
            }).wf(),
        ensures
            manager.wf(),
            manager@ == (BlockManagerView {
                free: free@,
                block_count: header.block_count,
                meta_block: header.meta_block,
                active_slot: slot as int,
                iteration: header.iteration,
                pages: pages@,
            }),
    {
        SingleFileBlockManager {
            free_list: free,
            max_block: header.block_count,
            meta_block: header.meta_block,
            active_header: slot,
            iteration_count: header.iteration,
            free_list_pages: pages,
        }
    }

    /// The allocation of a file without blocks, before the first
    /// checkpoint.
    pub open spec fn empty_view() -> BlockManagerView {
        BlockManagerView {
            free: Seq::empty(),
            block_count: 0,
            meta_block: INVALID_BLOCK,
            active_slot: 0,
            iteration: 0,
            pages: Seq::empty(),
        }
    }

    /// The block manager of a file without blocks, before the first
    /// checkpoint.
    pub fn empty() -> (manager: Self)
        ensures
            manager.wf(),
            manager@ == Self::empty_view(),
    {
        SingleFileBlockManager {
            free_list: Vec::new(),
            max_block: 0,
            meta_block: INVALID_BLOCK,
            active_header: 0,
            iteration_count: 0,
            free_list_pages: Vec::new(),
        }
    }

    /// Whether another block can be allocated.
    pub fn can_allocate(&self) -> (r: bool)
        ensures
            r == self@.can_allocate(),
    {
        self.free_list.len() > 0 || self.max_block < MAX_BLOCKS
    }

    /// Whether `id` names a block of the file that is in use, and not by
    /// the free list of the last checkpoint.
    pub fn is_allocated(&self, id: BlockId) -> (r: bool)
        ensures
            r == self@.allocated(id),
    {
        if id < 0 || id as u64 >= self.max_block {
            return false;
        }
        !holds(&self.free_list, id) && !holds(&self.free_list_pages, id)
    }

    /// The block that the next allocation hands out.
    pub fn peek_free_block_id(&self) -> (id: BlockId)
        requires
            self.wf(),
        ensures
            id == self@.next_id(),
    {
        let free: usize = self.free_list.len();
        if free > 0 {
            self.free_list[free - 1]
        } else {
            self.max_block as BlockId
        }
    }

    /// Frees the block `id`, which is the next block to be allocated again.
    /// Returns whether the block was freed: a block that is not in use, and
    /// the first block of the metadata, are not, and nothing changes.
    pub fn free_block(&mut self, id: BlockId) -> (freed: bool)
        requires
            old(self).wf(),
        ensures
            final(self).wf(),
            freed == (old(self)@.allocated(id) && id != old(self)@.meta_block),
            final(self)@ == if freed {
                old(self)@.released(id)
            } else {
                old(self)@
            },
    {
        if !self.is_allocated(id) || id == self.meta_block {
            return false;
        }
        proof {
            self@.lemma_released(id);
        }
        self.free_list.push(id);
        true
    }

    /// Makes `id`, a block in use or `INVALID_BLOCK`, the first block of the
    /// metadata. Returns whether `id` was accepted; if not, nothing changes.
    pub fn set_meta_block(&mut self, id: BlockId) -> (accepted: bool)
        requires
            old(self).wf(),
        ensures
            final(self).wf(),
            accepted == (id == INVALID_BLOCK || old(self)@.allocated(id)),
            final(self)@ == if accepted {
                BlockManagerView { meta_block: id, ..old(self)@ }
            } else {
                old(self)@
            },
    {
        if id == INVALID_BLOCK || self.is_allocated(id) {
            self.meta_block = id;
            true
        } else {
            false
        }
    }

    /// The number of blocks of the file.
    pub fn block_count(&self) -> (n: u64)
        ensures
            n == self@.block_count,
    {
        self.max_block
    }

    /// The iteration count of the last checkpoint.
    pub fn iteration(&self) -> (n: u64)
        ensures
            n == self@.iteration,
    {
        self.iteration_count
    }

    /// The database header slot that the last checkpoint wrote.
    pub fn active_slot(&self) -> (slot: usize)
        ensures
            slot == self@.active_slot,
    {
        self.active_header
    }

    /// The blocks that hold the free list as of the last checkpoint.
    pub fn free_list_pages(&self) -> (pages: Vec<BlockId>)
        ensures
            pages@ == self@.pages,
    {
        vstd::slice::slice_to_vec(self.free_list_pages.as_slice())
    }

    /// The transfer that reads or writes the block `id` of the file: exactly
    /// `BLOCK_SIZE` bytes at the position of the block.
    pub fn locate(&self, id: BlockId) -> (transfer: Transfer)
        requires
            self.wf(),
            0 <= id < self@.block_count,
        ensures
            transfer.offset == block_offset(id),
            transfer.length == BLOCK_SIZE,
    {
        Transfer { offset: offset_of(id), length: BLOCK_SIZE as u64 }
    }

    /// The free blocks, the one freed last at the end.
    pub fn free_blocks(&self) -> (free: Vec<BlockId>)
        ensures
            free@ == self@.free,
    {
        vstd::slice::slice_to_vec(self.free_list.as_slice())
    }

    /// The database header that stands for the current state at its next
    /// checkpoint.
    pub fn checkpoint_header(&self) -> (header: DatabaseHeader)
        requires
            self.wf(),
            self@.iteration < u64::MAX,
        ensures
            header == self@.checkpoint_header(),
            header.consistent(),
    {
        let free_list = if self.free_list_pages.len() > 0 {
            self.free_list_pages[0]
        } else {
            INVALID_BLOCK
        };
        proof {
            if self@.pages.len() > 0 {
                assert(0 <= self@.pages[0] < self@.block_count);
            }
        }
        DatabaseHeader {
            iteration: self.iteration_count + 1,
            meta_block: self.meta_block,
            free_list,
            block_count: self.max_block,
        }
    }

    /// Whether the file has room for fresh pages for the free list.
    pub fn can_repage(&self) -> (r: bool)
        ensures
            r == self@.can_repage(),
    {
        let total: usize = self.free_list.len();
        let count: usize = if total == 0 {
            0
        } else {
            (total - 1) / crate::free_list::FREE_PAGE_CAPACITY + 1
        };
        assert(count == pages_needed(total as int)) by {
            if total > 0 {
                assert((total as int - 1) / 32766 + 1 == (total as int + 32766 - 1) / 32766)
                    by (nonlinear_arith)
                    requires
                        total > 0,
                ;
            }
        }
        self.max_block <= MAX_BLOCKS && count as u64 <= MAX_BLOCKS - self.max_block
    }

    /// Gives the free list fresh pages at the end of the file. Returns the
    /// content of the pages, and the pages that held the free list before,
    /// which are in use still, until they are freed.
    pub fn store_free_list(&mut self) -> (r: (Vec<Vec<u8>>, Vec<BlockId>))
        requires
            old(self).wf(),
            old(self)@.can_repage(),
        ensures
            final(self).wf(),
            final(self)@ == old(self)@.repaged(),
            r.1@ == old(self)@.pages,
            r.0@.len() == final(self)@.pages.len(),
            forall|i: int| 0 <= i < r.0@.len() ==> (#[trigger] r.0@[i])@.len() == BLOCK_SIZE,
            free_list_of(page_views(r.0@), final(self)@.first_page()) == Some(
                (old(self)@.free, final(self)@.pages),
            ),
    {
        proof {
            self@.lemma_repaged();
        }
        let first: BlockId = self.max_block as BlockId;
        let contents = write_free_list(&self.free_list, first);
        let count: usize = contents.len();
        let mut fresh: Vec<BlockId> = Vec::new();
        let mut i: usize = 0;
        while i < count
            invariant
                i <= count,
                0 <= first,
                first + count <= MAX_BLOCKS,
                fresh@ == page_ids(first as int, i as int),
            decreases count - i,
        {
            fresh.push(first + i as i64);
            assert(fresh@ =~= page_ids(first as int, i + 1));
            i += 1;
        }
        let mut old_pages: Vec<BlockId> = Vec::new();
        old_pages.append(&mut self.free_list_pages);
        self.free_list_pages = fresh;
        self.max_block = self.max_block + count as u64;
        proof {
            assert(old_pages@ =~= old(self)@.pages);
            if old(self)@.free.len() == 0 {
                assert(count == 0);
            } else {
                let total = old(self)@.free.len() as int;
                assert(count > 0) by (nonlinear_arith)
                    requires
                        count == (total + 32766 - 1) / 32766,
                        total > 0,
                ;
            }
        }
        (contents, old_pages)
    }
}

impl BlockManager for SingleFileBlockManager {
    closed spec fn view(&self) -> BlockManagerView {
        BlockManagerView {
            free: self.free_list@,
            block_count: self.max_block,
            meta_block: self.meta_block,
            active_slot: self.active_header as int,
            iteration: self.iteration_count,
            pages: self.free_list_pages@,
        }
    }

    open spec fn wf(&self) -> bool {
        self@.wf()
    }

    fn create_block(&mut self) -> (block: Block) {
        let id = self.get_free_block_id();
        Block::new(id)
    }

    fn get_free_block_id(&mut self) -> (id: BlockId) {
        proof {
            self@.lemma_taken();
        }
        match self.free_list.pop() {
            Some(id) => id,
            None => {
                let id = self.max_block as BlockId;
                self.max_block += 1;
                id
            },
        }
    }

    fn get_meta_block(&self) -> (id: BlockId) {
        self.meta_block
    }

    fn read(&self, block: &Block) -> (transfer: Transfer) {
        Transfer { offset: offset_of(block.block_id), length: BLOCK_SIZE as u64 }
    }

    fn write(&self, block: &Block) -> (transfer: Transfer) {
        Transfer { offset: offset_of(block.block_id), length: BLOCK_SIZE as u64 }
    }

    fn write_header(&mut self, header: &DatabaseHeader) -> (write: HeaderWrite) {
        let slot: usize = 1 - self.active_header;
        let stamped = DatabaseHeader { iteration: self.iteration_count + 1, ..*header };
        let bytes = to_bytes(&stamped);
        proof {
            stamped.lemma_encoding_len();
        }
        let offset: u64 = if slot == 0 {
            FIRST_HEADER_OFFSET as u64
        } else {
            SECOND_HEADER_OFFSET as u64
        };
        self.active_header = slot;
        self.iteration_count = self.iteration_count + 1;
        HeaderWrite { slot, offset, bytes }
    }
}

} // verus!
