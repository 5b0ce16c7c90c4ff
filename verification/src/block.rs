//! One block of the storage file, in memory.

use vstd::prelude::*;
use crate::file_buffer::FileBuffer;
use crate::storage_info::{BlockId, BLOCK_SIZE};

verus! {

/// One block of the storage file: its identifier and its bytes.
#[derive(Debug)]
pub struct Block {
    pub file_buffer: FileBuffer,
    pub block_id: BlockId,
}

impl Block {
    /// The bytes of the block.
    pub open spec fn view(&self) -> Seq<u8> {
        self.file_buffer@
    }

    /// Whether the block holds exactly `BLOCK_SIZE` bytes.
    pub open spec fn full_size(&self) -> bool {
        self@.len() == BLOCK_SIZE
    }

    /// The block `block_id`, filled with zero bytes.
    pub fn new(block_id: BlockId) -> (block: Self)
        ensures
            block.block_id == block_id,
            block@ == Seq::new(BLOCK_SIZE as nat, |i: int| 0u8),
            block.full_size(),
    {
        Block { file_buffer: FileBuffer::new(BLOCK_SIZE), block_id }
    }

    /// The block `block_id` with the given bytes.
    pub fn with_data(block_id: BlockId, data: Vec<u8>) -> (block: Self)
        ensures
            block.block_id == block_id,
            block@ == data@,
    {
        Block { file_buffer: FileBuffer::from_bytes(data), block_id }
    }

    /// A copy of the block.
    pub fn duplicate(&self) -> (block: Self)
        ensures
            block.block_id == self.block_id,
            block@ == self@,
    {
        Block { file_buffer: self.file_buffer.duplicate(), block_id: self.block_id }
    }
}

} // verus!
