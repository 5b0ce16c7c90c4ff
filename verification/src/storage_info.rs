//! The layout of the storage file: the sizes, the main header and the two
//! database headers.
//!
//! The file begins with a header region of `HEADER_SIZE` bytes. The main
//! header stands at its start; the two database header slots stand at
//! `FIRST_HEADER_OFFSET` and `SECOND_HEADER_OFFSET`. The blocks follow the
//! header region, block `id` at `HEADER_SIZE + id * BLOCK_SIZE`. All integers
//! are little-endian.

use vstd::prelude::*;
use vstd::bytes::{lemma_auto_spec_u64_to_from_le_bytes, spec_u64_to_le_bytes};
use vstd::slice::{slice_subrange, slice_to_vec};
use crate::file_system::IoErrorKind;
use crate::serializer::{
    encode_i64, from_bytes, parse_fixed, Deserializable, Deserializer, Serializable, Serializer,
};

verus! {

/// The version number of the database storage format.
pub const VERSION_NUMBER: u64 = 1;

/// The size of a block, the quantum of allocation in the storage file.
pub const BLOCK_SIZE: usize = 262144;

/// The size of the header region at the start of the storage file.
pub const HEADER_SIZE: usize = 4096;

/// Identifies a block of the storage file.
pub type BlockId = i64;

/// The identifier that stands for no block.
pub const INVALID_BLOCK: BlockId = -1;

/// The largest number of blocks whose positions the file's addressing can
/// hold.
pub const MAX_BLOCKS: u64 = 0x3fff_ffff_ffff;

/// The size of an encoded main header.
pub const MAIN_HEADER_BYTES: usize = 40;

/// The size of an encoded database header.
pub const DATABASE_HEADER_BYTES: usize = 32;

/// Where the first database header slot begins.
pub const FIRST_HEADER_OFFSET: usize = 512;

/// Where the second database header slot begins.
pub const SECOND_HEADER_OFFSET: usize = 1024;

/// Why the storage layer refused an operation.
#[derive(Debug, Clone, Copy, PartialEq, Eq, Structural)]
pub enum StorageError {
    /// The file collaborator failed.
    Io(IoErrorKind),
    /// The main header is unreadable, or neither database header is usable.
    CorruptHeader,
    /// The file was written in another version of the storage format.
    VersionMismatch,
    /// A record of the write-ahead log is corrupt or cut short, or does not
    /// apply to the state that it is replayed against.
    CorruptLog,
    /// The database was opened read-only.
    ReadOnly,
    /// The block is not allocated, or the data is not one block long.
    InvalidBlock,
    /// The file cannot hold another block.
    Full,
}

/// Where the block `id` begins in the storage file.
pub open spec fn block_offset(id: BlockId) -> int {
    HEADER_SIZE + id * BLOCK_SIZE
}

/// Where the block `id` begins in the storage file, if `id` names a block
/// and the position fits the file's addressing.
pub fn block_location(id: BlockId) -> (r: Option<u64>)
    ensures
        r == if 0 <= id && block_offset(id) <= u64::MAX {
            Some(block_offset(id) as u64)
        } else {
            None
        },
{
    if id < 0 {
        return None;
    }
    let index: u64 = id as u64;
    match index.checked_mul(BLOCK_SIZE as u64) {
        Some(bytes) => bytes.checked_add(HEADER_SIZE as u64),
        None => None,
    }
}

/// The first header of the storage file, written once.
#[derive(Debug, Clone, Copy)]
pub struct MainHeader {
    pub version_number: u64,
    pub flags: [u64; 4],
}

/// The state of the database as of one checkpoint. The storage file has two
/// slots for it; the one with the higher iteration count is the active one.
#[derive(Debug, Clone, Copy, PartialEq, Eq, Structural)]
pub struct DatabaseHeader {
    /// The iteration count, which grows by one with each checkpoint.
    pub iteration: u64,
    /// The first block of the metadata, or `INVALID_BLOCK`.
    pub meta_block: BlockId,
    /// The first block of the free list, or `INVALID_BLOCK`.
    pub free_list: BlockId,
    /// The number of blocks in the file as of this header.
    pub block_count: u64,
}

impl DeepView for DatabaseHeader {
    type V = DatabaseHeader;

    open spec fn deep_view(&self) -> DatabaseHeader {
        *self
    }
}

/// What splits off the front of bytes that begin with an eight-byte field.
pub proof fn lemma_field(value: u64, rest: Seq<u8>)
    ensures
        spec_u64_to_le_bytes(value).len() == 8,
        (spec_u64_to_le_bytes(value) + rest).subrange(0, 8) == spec_u64_to_le_bytes(value),
        (spec_u64_to_le_bytes(value) + rest).skip(8) == rest,
        (spec_u64_to_le_bytes(value) + rest).len() == 8 + rest.len(),
{
    lemma_auto_spec_u64_to_from_le_bytes();
    assert(spec_u64_to_le_bytes(value).len() == 8);
    assert((spec_u64_to_le_bytes(value) + rest).subrange(0, 8) =~= spec_u64_to_le_bytes(value));
    assert((spec_u64_to_le_bytes(value) + rest).skip(8) =~= rest);
}

/// Eight-byte fields with the same bytes hold the same value.
pub proof fn lemma_field_injective(a: u64, b: u64)
    requires
        spec_u64_to_le_bytes(a) == spec_u64_to_le_bytes(b),
    ensures
        a == b,
{
    lemma_auto_spec_u64_to_from_le_bytes();
    assert(spec_u64_to_le_bytes(a).len() == 8);
    assert(spec_u64_to_le_bytes(b).len() == 8);
}

/// Signed values with the same two's complement are the same value.
pub proof fn lemma_signed_injective(a: i64, b: i64)
    requires
        a as u64 == b as u64,
    ensures
        a == b,
{
    assert(a as u64 == b as u64 ==> a == b) by (bit_vector);
}

impl Serializable for DatabaseHeader {
    open spec fn encoding(&self) -> Seq<u8> {
        spec_u64_to_le_bytes(self.iteration) + (encode_i64(self.meta_block) + (encode_i64(
            self.free_list,
        ) + spec_u64_to_le_bytes(self.block_count)))
    }

    open spec fn encodable(&self) -> bool {
        true
    }

    fn serialize<S: Serializer>(&self, serializer: &mut S) -> (r: Result<(), IoErrorKind>) {
        match serializer.write_u64(self.iteration) {
            Ok(()) => {},
            Err(e) => {
                return Err(e);
            },
        }
        match serializer.write_i64(self.meta_block) {
            Ok(()) => {},
            Err(e) => {
                return Err(e);
            },
        }
        match serializer.write_i64(self.free_list) {
            Ok(()) => {},
            Err(e) => {
                return Err(e);
            },
        }
        let r = serializer.write_u64(self.block_count);
        assert(old(serializer).written() + spec_u64_to_le_bytes(self.iteration) + encode_i64(
            self.meta_block,
        ) + encode_i64(self.free_list) + spec_u64_to_le_bytes(self.block_count) =~= old(serializer).written() + self.encoding());
        r
    }
}

impl DatabaseHeader {
    /// An encoded database header is `DATABASE_HEADER_BYTES` long.
    pub proof fn lemma_encoding_len(&self)
        ensures
            self.encoding().len() == DATABASE_HEADER_BYTES,
    {
        lemma_auto_spec_u64_to_from_le_bytes();
        assert(spec_u64_to_le_bytes(self.iteration).len() == 8);
        assert(spec_u64_to_le_bytes(self.meta_block as u64).len() == 8);
        assert(spec_u64_to_le_bytes(self.free_list as u64).len() == 8);
        assert(spec_u64_to_le_bytes(self.block_count).len() == 8);
    }
}

impl Deserializable for DatabaseHeader {
    open spec fn parse(bytes: Seq<u8>) -> Result<int, IoErrorKind> {
        parse_fixed(bytes, DATABASE_HEADER_BYTES as int)
    }

    fn deserialize<D: Deserializer>(deserializer: &mut D) -> (r: Result<Self, IoErrorKind>) {
        let ghost start = deserializer.remaining();
        let iteration = match deserializer.read_u64() {
            Ok(v) => v,
            Err(e) => {
                return Err(e);
            },
        };
        let ghost after_one = deserializer.remaining();
        let meta_block = match deserializer.read_i64() {
            Ok(v) => v,
            Err(e) => {
                proof {
                    lemma_field(iteration, after_one);
                }
                return Err(e);
            },
        };
        let ghost after_two = deserializer.remaining();
        let free_list = match deserializer.read_i64() {
            Ok(v) => v,
            Err(e) => {
                proof {
                    lemma_field(iteration, after_one);
                    lemma_field(meta_block as u64, after_two);
                }
                return Err(e);
            },
        };
        let ghost after_three = deserializer.remaining();
        let block_count = match deserializer.read_u64() {
            Ok(v) => v,
            Err(e) => {
                proof {
                    lemma_field(iteration, after_one);
                    lemma_field(meta_block as u64, after_two);
                    lemma_field(free_list as u64, after_three);
                }
                return Err(e);
            },
        };
        let header = DatabaseHeader { iteration, meta_block, free_list, block_count };
        proof {
            header.lemma_encoding_len();
            assert(start =~= header.encoding() + deserializer.remaining());
        }
        Ok(header)
    }

    proof fn lemma_parse_encoding(&self, rest: Seq<u8>) {
        self.lemma_encoding_len();
    }

    proof fn lemma_encoding_injective(&self, other: &Self) {
        let tail_a = encode_i64(self.meta_block) + (encode_i64(self.free_list)
            + spec_u64_to_le_bytes(self.block_count));
        let tail_b = encode_i64(other.meta_block) + (encode_i64(other.free_list)
            + spec_u64_to_le_bytes(other.block_count));
        lemma_field(self.iteration, tail_a);
        lemma_field(other.iteration, tail_b);
        lemma_field_injective(self.iteration, other.iteration);
        let rest_a = encode_i64(self.free_list) + spec_u64_to_le_bytes(self.block_count);
        let rest_b = encode_i64(other.free_list) + spec_u64_to_le_bytes(other.block_count);
        lemma_field(self.meta_block as u64, rest_a);
        lemma_field(other.meta_block as u64, rest_b);
        lemma_field_injective(self.meta_block as u64, other.meta_block as u64);
        lemma_signed_injective(self.meta_block, other.meta_block);
        lemma_field(self.free_list as u64, spec_u64_to_le_bytes(self.block_count));
        lemma_field(other.free_list as u64, spec_u64_to_le_bytes(other.block_count));
        lemma_field_injective(self.free_list as u64, other.free_list as u64);
        lemma_signed_injective(self.free_list, other.free_list);
        lemma_field_injective(self.block_count, other.block_count);
    }
}

impl DatabaseHeader {
    /// Whether the fields fit together: the two block references name no
    /// block or a block of the file, and the blocks can be addressed.
    pub open spec fn consistent(&self) -> bool {
        &&& self.block_count <= MAX_BLOCKS
        &&& INVALID_BLOCK <= self.meta_block < self.block_count
        &&& INVALID_BLOCK <= self.free_list < self.block_count
    }

    pub fn is_consistent(&self) -> (r: bool)
        ensures
            r == self.consistent(),
    {
        self.block_count <= MAX_BLOCKS && INVALID_BLOCK <= self.meta_block
            && self.meta_block < self.block_count as i64 && INVALID_BLOCK <= self.free_list
            && self.free_list < self.block_count as i64
    }

    /// The header of a file without blocks, before the first checkpoint.
    pub open spec fn initial_spec() -> DatabaseHeader {
        DatabaseHeader {
            iteration: 0,
            meta_block: INVALID_BLOCK,
            free_list: INVALID_BLOCK,
            block_count: 0,
        }
    }

    /// The header of a file without blocks, before the first checkpoint.
    #[verifier::when_used_as_spec(initial_spec)]
    pub fn initial() -> (header: Self)
        ensures
            header == Self::initial_spec(),
            header.consistent(),
    {
        DatabaseHeader {
            iteration: 0,
            meta_block: INVALID_BLOCK,
            free_list: INVALID_BLOCK,
            block_count: 0,
        }
    }
}

/// The database header that a slot holds: the header that its first
/// `DATABASE_HEADER_BYTES` bytes encode, if they are there and the header is
/// consistent.
pub open spec fn slot_header(slot: Seq<u8>) -> Option<DatabaseHeader> {
    if exists|h: DatabaseHeader| header_in_slot(slot, h) {
        Some(choose|h: DatabaseHeader| header_in_slot(slot, h))
    } else {
        None
    }
}

/// Whether `slot` begins with the encoding of the consistent header `h`.
pub open spec fn header_in_slot(slot: Seq<u8>, h: DatabaseHeader) -> bool {
    &&& slot.len() >= DATABASE_HEADER_BYTES
    &&& slot.subrange(0, DATABASE_HEADER_BYTES as int) == h.encoding()
    &&& h.consistent()
}

/// A slot holds at most one header.
pub proof fn lemma_slot_header(slot: Seq<u8>, h: DatabaseHeader)
    requires
        header_in_slot(slot, h),
    ensures
        slot_header(slot) == Some(h),
{
    let other = choose|other: DatabaseHeader| header_in_slot(slot, other);
    other.lemma_encoding_injective(&h);
}

/// Reads the database header that `slot` holds.
pub fn read_slot(slot: &[u8]) -> (r: Option<DatabaseHeader>)
    ensures
        r == slot_header(slot@),
{
    if slot.len() < DATABASE_HEADER_BYTES {
        return None;
    }
    let bytes = slice_to_vec(slice_subrange(slot, 0, DATABASE_HEADER_BYTES));
    match from_bytes::<DatabaseHeader>(bytes) {
        Ok(header) => {
            if header.is_consistent() {
                proof {
                    lemma_slot_header(slot@, header);
                }
                Some(header)
            } else {
                proof {
                    if exists|h: DatabaseHeader| header_in_slot(slot@, h) {
                        let h = choose|h: DatabaseHeader| header_in_slot(slot@, h);
                        h.lemma_encoding_injective(&header);
                    }
                }
                None
            }
        },
        Err(_) => None,
    }
}

/// Which of the two slots is active, and the header it holds: the usable
/// slot with the higher iteration count, the first one if the counts are
/// equal; `None` if neither slot is usable.
pub open spec fn active_of(first: Option<DatabaseHeader>, second: Option<DatabaseHeader>) -> Option<
    (int, DatabaseHeader),
> {
    match (first, second) {
        (Some(a), Some(b)) => if b.iteration > a.iteration {
            Some((1, b))
        } else {
            Some((0, a))
        },
        (Some(a), None) => Some((0, a)),
        (None, Some(b)) => Some((1, b)),
        (None, None) => None,
    }
}

/// Selects the active database header among the two slots. That neither
/// slot is usable is a corrupt header.
pub fn select_active_header(first: Option<DatabaseHeader>, second: Option<DatabaseHeader>) -> (r:
    Result<(usize, DatabaseHeader), StorageError>)
    ensures
        match active_of(first, second) {
            Some((slot, header)) => r == Ok::<(usize, DatabaseHeader), StorageError>(
                (slot as usize, header),
            ),
            None => r == Err::<(usize, DatabaseHeader), StorageError>(StorageError::CorruptHeader),
        },
{
    match (first, second) {
        (Some(a), Some(b)) => if b.iteration > a.iteration {
            Ok((1, b))
        } else {
            Ok((0, a))
        },
        (Some(a), None) => Ok((0, a)),
        (None, Some(b)) => Ok((1, b)),
        (None, None) => Err(StorageError::CorruptHeader),
    }
}

/// Where the database header slot `slot` begins.
pub fn header_slot_offset(slot: usize) -> (offset: usize)
    requires
        slot < 2,
    ensures
        offset == if slot == 0 {
            FIRST_HEADER_OFFSET
        } else {
            SECOND_HEADER_OFFSET
        },
{
    if slot == 0 {
        FIRST_HEADER_OFFSET
    } else {
        SECOND_HEADER_OFFSET
    }
}


impl DeepView for MainHeader {
    type V = (u64, Seq<u64>);

    open spec fn deep_view(&self) -> (u64, Seq<u64>) {
        (self.version_number, self.flags@)
    }
}

impl Serializable for MainHeader {
    open spec fn encoding(&self) -> Seq<u8> {
        spec_u64_to_le_bytes(self.version_number) + (spec_u64_to_le_bytes(self.flags@[0]) + (
        spec_u64_to_le_bytes(self.flags@[1]) + (spec_u64_to_le_bytes(self.flags@[2])
            + spec_u64_to_le_bytes(self.flags@[3]))))
    }

    open spec fn encodable(&self) -> bool {
        true
    }

    fn serialize<S: Serializer>(&self, serializer: &mut S) -> (r: Result<(), IoErrorKind>) {
        match serializer.write_u64(self.version_number) {
            Ok(()) => {},
            Err(e) => {
                return Err(e);
            },
        }
        match serializer.write_u64(self.flags[0]) {
            Ok(()) => {},
            Err(e) => {
                return Err(e);
            },
        }
        match serializer.write_u64(self.flags[1]) {
            Ok(()) => {},
            Err(e) => {
                return Err(e);
            },
        }
        match serializer.write_u64(self.flags[2]) {
            Ok(()) => {},
            Err(e) => {
                return Err(e);
            },
        }
        let r = serializer.write_u64(self.flags[3]);
        assert(old(serializer).written() + spec_u64_to_le_bytes(self.version_number)
            + spec_u64_to_le_bytes(self.flags@[0]) + spec_u64_to_le_bytes(self.flags@[1])
            + spec_u64_to_le_bytes(self.flags@[2]) + spec_u64_to_le_bytes(self.flags@[3])
            =~= old(serializer).written() + self.encoding());
        r
    }
}

impl MainHeader {
    /// An encoded main header is `MAIN_HEADER_BYTES` long.
    pub proof fn lemma_encoding_len(&self)
        ensures
            self.encoding().len() == MAIN_HEADER_BYTES,
    {
        lemma_auto_spec_u64_to_from_le_bytes();
        assert(spec_u64_to_le_bytes(self.version_number).len() == 8);
        assert(spec_u64_to_le_bytes(self.flags@[0]).len() == 8);
        assert(spec_u64_to_le_bytes(self.flags@[1]).len() == 8);
        assert(spec_u64_to_le_bytes(self.flags@[2]).len() == 8);
        assert(spec_u64_to_le_bytes(self.flags@[3]).len() == 8);
    }

    /// The main header of a new file: the current version, no flags.
    pub open spec fn new_spec() -> MainHeader {
        MainHeader { version_number: VERSION_NUMBER, flags: [0u64, 0u64, 0u64, 0u64] }
    }

    /// The main header of a new file: the current version, no flags.
    #[verifier::when_used_as_spec(new_spec)]
    pub fn new() -> (header: Self)
        ensures
            header == Self::new_spec(),
            header.version_number == VERSION_NUMBER,
    {
        MainHeader { version_number: VERSION_NUMBER, flags: [0, 0, 0, 0] }
    }
}

impl Deserializable for MainHeader {
    open spec fn parse(bytes: Seq<u8>) -> Result<int, IoErrorKind> {
        parse_fixed(bytes, MAIN_HEADER_BYTES as int)
    }

    fn deserialize<D: Deserializer>(deserializer: &mut D) -> (r: Result<Self, IoErrorKind>) {
        let ghost start = deserializer.remaining();
        let version_number = match deserializer.read_u64() {
            Ok(v) => v,
            Err(e) => {
                return Err(e);
            },
        };
        let ghost after_one = deserializer.remaining();
        let first = match deserializer.read_u64() {
            Ok(v) => v,
            Err(e) => {
                proof {
                    lemma_field(version_number, after_one);
                }
                return Err(e);
            },
        };
        let ghost after_two = deserializer.remaining();
        let second = match deserializer.read_u64() {
            Ok(v) => v,
            Err(e) => {
                proof {
                    lemma_field(version_number, after_one);
                    lemma_field(first, after_two);
                }
                return Err(e);
            },
        };
        let ghost after_three = deserializer.remaining();
        let third = match deserializer.read_u64() {
            Ok(v) => v,
            Err(e) => {
                proof {
                    lemma_field(version_number, after_one);
                    lemma_field(first, after_two);
                    lemma_field(second, after_three);
                }
                return Err(e);
            },
        };
        let ghost after_four = deserializer.remaining();
        let fourth = match deserializer.read_u64() {
            Ok(v) => v,
            Err(e) => {
                proof {
                    lemma_field(version_number, after_one);
                    lemma_field(first, after_two);
                    lemma_field(second, after_three);
                    lemma_field(third, after_four);
                }
                return Err(e);
            },
        };
        let header = MainHeader { version_number, flags: [first, second, third, fourth] };
        proof {
            header.lemma_encoding_len();
            assert(start =~= header.encoding() + deserializer.remaining());
        }
        Ok(header)
    }

    proof fn lemma_parse_encoding(&self, rest: Seq<u8>) {
        self.lemma_encoding_len();
    }

    proof fn lemma_encoding_injective(&self, other: &Self) {
        let a3 = spec_u64_to_le_bytes(self.flags@[3]);
        let b3 = spec_u64_to_le_bytes(other.flags@[3]);
        let a2 = spec_u64_to_le_bytes(self.flags@[2]) + a3;
        let b2 = spec_u64_to_le_bytes(other.flags@[2]) + b3;
        let a1 = spec_u64_to_le_bytes(self.flags@[1]) + a2;
        let b1 = spec_u64_to_le_bytes(other.flags@[1]) + b2;
        let a0 = spec_u64_to_le_bytes(self.flags@[0]) + a1;
        let b0 = spec_u64_to_le_bytes(other.flags@[0]) + b1;
        lemma_field(self.version_number, a0);
        lemma_field(other.version_number, b0);
        lemma_field_injective(self.version_number, other.version_number);
        lemma_field(self.flags@[0], a1);
        lemma_field(other.flags@[0], b1);
        lemma_field_injective(self.flags@[0], other.flags@[0]);
        lemma_field(self.flags@[1], a2);
        lemma_field(other.flags@[1], b2);
        lemma_field_injective(self.flags@[1], other.flags@[1]);
        lemma_field(self.flags@[2], a3);
        lemma_field(other.flags@[2], b3);
        lemma_field_injective(self.flags@[2], other.flags@[2]);
        lemma_field_injective(self.flags@[3], other.flags@[3]);
        assert(self.flags@ =~= other.flags@);
    }
}

/// Reads the main header from the start of the header region. A region too
/// short for it is a corrupt header; another version number than
/// `VERSION_NUMBER` is a version mismatch.
pub fn read_main_header(region: &[u8]) -> (r: Result<MainHeader, StorageError>)
    ensures
        match r {
            Ok(header) => {
                &&& region@.len() >= MAIN_HEADER_BYTES
                &&& region@.subrange(0, MAIN_HEADER_BYTES as int) == header.encoding()
                &&& header.version_number == VERSION_NUMBER
            },
            Err(e) => if region@.len() < MAIN_HEADER_BYTES {
                e == StorageError::CorruptHeader
            } else {
                e == StorageError::VersionMismatch
            },
        },
        r is Ok <==> region@.len() >= MAIN_HEADER_BYTES && region@.subrange(0, 8)
            == spec_u64_to_le_bytes(VERSION_NUMBER),
{
    if region.len() < MAIN_HEADER_BYTES {
        return Err(StorageError::CorruptHeader);
    }
    let bytes = slice_to_vec(slice_subrange(region, 0, MAIN_HEADER_BYTES));
    match from_bytes::<MainHeader>(bytes) {
        Ok(header) => {
            proof {
                let rest = spec_u64_to_le_bytes(header.flags@[0]) + (spec_u64_to_le_bytes(
                    header.flags@[1],
                ) + (spec_u64_to_le_bytes(header.flags@[2]) + spec_u64_to_le_bytes(
                    header.flags@[3],
                )));
                lemma_field(header.version_number, rest);
                assert(region@.subrange(0, 8) =~= header.encoding().subrange(0, 8));
                if region@.subrange(0, 8) == spec_u64_to_le_bytes(VERSION_NUMBER) {
                    lemma_field_injective(header.version_number, VERSION_NUMBER);
                }
            }
            if header.version_number == VERSION_NUMBER {
                Ok(header)
            } else {
                Err(StorageError::VersionMismatch)
            }
        },
        Err(_) => Err(StorageError::VersionMismatch),
    }
}

} // verus!
