//! The write-ahead log: an append-only sequence of records of what was done
//! to the block store since the last checkpoint, replayed at startup.
//!
//! The log begins with the iteration count of the checkpoint that it builds
//! on, eight bytes, and goes on with the records. A record is a tag byte, a
//! block identifier of eight bytes and, for a block write, the data of the
//! block as a length-prefixed list of bytes.

use vstd::prelude::*;
use vstd::bytes::{
    lemma_auto_spec_u64_to_from_le_bytes, spec_u64_from_le_bytes, spec_u64_to_le_bytes,
};
use vstd::slice::slice_to_vec;
use crate::buffered_file_writer::{BufferedFileWriter, BufferedWriterView};
use crate::file_system::IoErrorKind;
use crate::serializer::{
    encode_i64, encode_list, parse_bytes, read_bytes, write_bytes, BufferDeserializer,
    Deserializer, Serializer,
};
use crate::storage_info::{BlockId, StorageError};

verus! {

/// One record of the log: one thing done to the block store.
#[derive(Debug)]
pub enum WalRecord {
    /// The block was allocated.
    Allocate(BlockId),
    /// The block was freed.
    Free(BlockId),
    /// The block was given new content.
    Write(BlockId, Vec<u8>),
    /// The block became the first block of the metadata.
    SetMeta(BlockId),
}

/// The mathematical content of a `WalRecord`.
pub enum WalRecordView {
    Allocate(BlockId),
    Free(BlockId),
    Write(BlockId, Seq<u8>),
    SetMeta(BlockId),
}

impl WalRecord {
    pub open spec fn view(&self) -> WalRecordView {
        match self {
            WalRecord::Allocate(id) => WalRecordView::Allocate(*id),
            WalRecord::Free(id) => WalRecordView::Free(*id),
            WalRecord::Write(id, data) => WalRecordView::Write(*id, data@),
            WalRecord::SetMeta(id) => WalRecordView::SetMeta(*id),
        }
    }
}

/// The contents of the records of `list`.
pub open spec fn views(list: Seq<WalRecord>) -> Seq<WalRecordView> {
    list.map_values(|r: WalRecord| r@)
}

impl WalRecordView {
    /// The tag byte of the record.
    pub open spec fn tag(self) -> u8 {
        match self {
            WalRecordView::Allocate(_) => 1,
            WalRecordView::Free(_) => 2,
            WalRecordView::Write(_, _) => 3,
            WalRecordView::SetMeta(_) => 4,
        }
    }

    /// The block that the record is about.
    pub open spec fn block(self) -> BlockId {
        match self {
            WalRecordView::Allocate(id) => id,
            WalRecordView::Free(id) => id,
            WalRecordView::Write(id, _) => id,
            WalRecordView::SetMeta(id) => id,
        }
    }

    /// Whether the record can be encoded: the data of a block write must fit
    /// its length prefix.
    pub open spec fn encodable(self) -> bool {
        self matches WalRecordView::Write(_, data) ==> data.len() <= u32::MAX
    }
}

/// The bytes that stand for a record.
pub open spec fn encode_record(r: WalRecordView) -> Seq<u8> {
    match r {
        WalRecordView::Write(id, data) => seq![3u8] + (encode_i64(id) + encode_list(data)),
        _ => seq![r.tag()] + encode_i64(r.block()),
    }
}

/// The record at the front of `bytes` and the number of bytes it takes, or
/// why there is none: the bytes end too early, or the tag names no record.
pub open spec fn decode_record(bytes: Seq<u8>) -> Result<(WalRecordView, int), IoErrorKind> {
    if bytes.len() < 1 {
        Err(IoErrorKind::UnexpectedEof)
    } else if bytes[0] < 1 || bytes[0] > 4 {
        Err(IoErrorKind::InvalidData)
    } else if bytes.len() < 9 {
        Err(IoErrorKind::UnexpectedEof)
    } else {
        let id = spec_u64_from_le_bytes(bytes.subrange(1, 9)) as i64;
        if bytes[0] == 1 {
            Ok((WalRecordView::Allocate(id), 9))
        } else if bytes[0] == 2 {
            Ok((WalRecordView::Free(id), 9))
        } else if bytes[0] == 4 {
            Ok((WalRecordView::SetMeta(id), 9))
        } else {
            match parse_bytes(bytes.skip(9)) {
                Ok(n) => Ok((WalRecordView::Write(id, bytes.subrange(13, 9 + n)), 9 + n)),
                Err(e) => Err(e),
            }
        }
    }
}

/// The encoding of a record, whatever follows it, decodes as that record.
pub proof fn lemma_decode_encode(r: WalRecordView, rest: Seq<u8>)
    requires
        r.encodable(),
    ensures
        decode_record(encode_record(r) + rest) == Ok::<(WalRecordView, int), IoErrorKind>(
            (r, encode_record(r).len() as int),
        ),
        encode_record(r).len() >= 9,
{
    lemma_auto_spec_u64_to_from_le_bytes();
    vstd::bytes::lemma_auto_spec_u32_to_from_le_bytes();
    let bytes = encode_record(r) + rest;
    let id = r.block();
    assert(spec_u64_to_le_bytes(id as u64).len() == 8);
    assert(bytes[0] == r.tag());
    assert(bytes.subrange(1, 9) =~= spec_u64_to_le_bytes(id as u64));
    assert((id as u64) as i64 == id) by (bit_vector);
    match r {
        WalRecordView::Write(_, data) => {
            let count = data.len() as u32;
            assert(vstd::bytes::spec_u32_to_le_bytes(count).len() == 4);
            crate::serializer::lemma_encode_bytes(data);
            assert(bytes.skip(9) =~= encode_list(data) + rest);
            assert(bytes.skip(9).subrange(0, 4) =~= vstd::bytes::spec_u32_to_le_bytes(count));
            assert(bytes.subrange(13, 13 + data.len() as int) =~= data);
        },
        _ => {},
    }
}

/// The bytes that decode as a record are the encoding of that record.
pub proof fn lemma_encode_decode(bytes: Seq<u8>)
    requires
        decode_record(bytes) is Ok,
    ensures
        ({
            let (record, taken) = decode_record(bytes)->Ok_0;
            &&& 9 <= taken <= bytes.len()
            &&& encode_record(record) == bytes.subrange(0, taken)
            &&& record.encodable()
        }),
{
    lemma_auto_spec_u64_to_from_le_bytes();
    vstd::bytes::lemma_auto_spec_u32_to_from_le_bytes();
    let (record, taken) = decode_record(bytes)->Ok_0;
    let id = record.block();
    let raw = spec_u64_from_le_bytes(bytes.subrange(1, 9));
    assert((raw as i64) as u64 == raw) by (bit_vector);
    assert(bytes.subrange(1, 9).len() == 8);
    assert(spec_u64_to_le_bytes(raw) == bytes.subrange(1, 9));
    match record {
        WalRecordView::Write(_, data) => {
            let body = bytes.skip(9);
            let count = vstd::bytes::spec_u32_from_le_bytes(body.subrange(0, 4));
            assert(body.subrange(0, 4).len() == 4);
            assert(vstd::bytes::spec_u32_to_le_bytes(count) == body.subrange(0, 4));
            crate::serializer::lemma_encode_bytes(data);
            assert(data.len() == count);
            assert(encode_record(record) =~= bytes.subrange(0, taken));
        },
        _ => {
            assert(encode_record(record) =~= bytes.subrange(0, taken));
        },
    }
}

/// Writes one record.
pub fn write_record<S: Serializer>(serializer: &mut S, record: &WalRecord) -> (r: Result<
    (),
    IoErrorKind,
>)
    requires
        record@.encodable(),
    ensures
        final(serializer).infallible() == old(serializer).infallible(),
        old(serializer).infallible() ==> r is Ok,
        r is Ok ==> final(serializer).written() == old(serializer).written() + encode_record(
            record@,
        ),
{
    let (tag, id): (u8, BlockId) = match record {
        WalRecord::Allocate(id) => (1, *id),
        WalRecord::Free(id) => (2, *id),
        WalRecord::Write(id, _) => (3, *id),
        WalRecord::SetMeta(id) => (4, *id),
    };
    match serializer.write_u8(tag) {
        Ok(()) => {},
        Err(e) => {
            return Err(e);
        },
    }
    match serializer.write_i64(id) {
        Ok(()) => {},
        Err(e) => {
            return Err(e);
        },
    }
    match record {
        WalRecord::Write(_, data) => {
            let r = write_bytes(serializer, data.as_slice());
            assert(old(serializer).written() + seq![tag] + encode_i64(id) + encode_list(data@)
                =~= old(serializer).written() + encode_record(record@));
            r
        },
        _ => {
            assert(old(serializer).written() + seq![tag] + encode_i64(id) =~= old(serializer).written() + encode_record(record@));
            Ok(())
        },
    }
}

/// Reads one record.
pub fn read_record<D: Deserializer>(deserializer: &mut D) -> (r: Result<WalRecord, IoErrorKind>)
    ensures
        final(deserializer).infallible() == old(deserializer).infallible(),
        r matches Ok(record) ==> {
            &&& record@.encodable()
            &&& decode_record(old(deserializer).remaining()) matches Ok((view, taken))
            &&& view == record@
            &&& 0 < taken <= old(deserializer).remaining().len()
            &&& final(deserializer).remaining() == old(deserializer).remaining().skip(taken)
        },
        old(deserializer).infallible() ==> match decode_record(old(deserializer).remaining()) {
            Ok(_) => r is Ok,
            Err(e) => r matches Err(why) && why == e,
        },
{
    let ghost start = deserializer.remaining();
    let tag = match deserializer.read_u8() {
        Ok(tag) => tag,
        Err(e) => {
            return Err(e);
        },
    };
    if tag < 1 || tag > 4 {
        return Err(IoErrorKind::InvalidData);
    }
    let ghost after_tag = deserializer.remaining();
    let id = match deserializer.read_i64() {
        Ok(id) => id,
        Err(e) => {
            return Err(e);
        },
    };
    let ghost after_id = deserializer.remaining();
    proof {
        lemma_auto_spec_u64_to_from_le_bytes();
        assert(spec_u64_to_le_bytes(id as u64).len() == 8);
        assert(after_tag =~= start.skip(1));
        assert(after_tag =~= encode_i64(id) + after_id);
        assert(start.subrange(1, 9) =~= spec_u64_to_le_bytes(id as u64));
        assert((id as u64) as i64 == id) by (bit_vector);
        assert(after_id =~= after_tag.skip(8));
        assert(after_tag.skip(8) =~= start.skip(9));
    }
    if tag == 1 {
        Ok(WalRecord::Allocate(id))
    } else if tag == 2 {
        Ok(WalRecord::Free(id))
    } else if tag == 4 {
        Ok(WalRecord::SetMeta(id))
    } else {
        match read_bytes(deserializer) {
            Ok(data) => {
                proof {
                    vstd::bytes::lemma_auto_spec_u32_to_from_le_bytes();
                    crate::serializer::lemma_encode_bytes(data@);
                    let n = encode_list(data@).len() as int;
                    assert(vstd::bytes::spec_u32_to_le_bytes(data@.len() as u32).len() == 4);
                    assert(after_id =~= encode_list(data@) + deserializer.remaining());
                    assert(n == 4 + data@.len());
                    assert(after_id.subrange(4, n) =~= data@);
                    assert(start.subrange(13, 9 + n) =~= after_id.subrange(4, n));
                    assert(deserializer.remaining() =~= after_id.skip(n));
                    assert(after_id.skip(n) =~= start.skip(9 + n));
                }
                Ok(WalRecord::Write(id, data))
            },
            Err(e) => Err(e),
        }
    }
}

/// The bytes that stand for a sequence of records.
pub open spec fn encode_log(records: Seq<WalRecordView>) -> Seq<u8>
    decreases records.len(),
{
    if records.len() == 0 {
        Seq::empty()
    } else {
        encode_record(records.first()) + encode_log(records.skip(1))
    }
}

/// The records that `bytes` hold, one after another to the last byte, or why
/// they do not.
pub open spec fn decode_log(bytes: Seq<u8>) -> Result<Seq<WalRecordView>, IoErrorKind>
    decreases bytes.len(),
{
    if bytes.len() == 0 {
        Ok(Seq::empty())
    } else {
        match decode_record(bytes) {
            Err(e) => Err(e),
            Ok((record, taken)) => if 0 < taken <= bytes.len() {
                match decode_log(bytes.skip(taken)) {
                    Ok(records) => Ok(seq![record] + records),
                    Err(e) => Err(e),
                }
            } else {
                Err(IoErrorKind::InvalidData)
            },
        }
    }
}

/// Whether every record can be encoded.
pub open spec fn log_encodable(records: Seq<WalRecordView>) -> bool {
    forall|i: int| 0 <= i < records.len() ==> (#[trigger] records[i]).encodable()
}

/// One more record at the end of a log adds its encoding at the end.
pub proof fn lemma_encode_log_push(records: Seq<WalRecordView>, record: WalRecordView)
    ensures
        encode_log(records.push(record)) == encode_log(records) + encode_record(record),
    decreases records.len(),
{
    if records.len() == 0 {
        assert(records.push(record).skip(1) =~= Seq::<WalRecordView>::empty());
        assert(encode_log(records.push(record)) =~= encode_record(record) + encode_log(
            Seq::<WalRecordView>::empty(),
        ));
        assert(encode_log(records.push(record)) =~= encode_log(records) + encode_record(record));
    } else {
        assert(records.push(record).skip(1) =~= records.skip(1).push(record));
        lemma_encode_log_push(records.skip(1), record);
        assert(encode_log(records.push(record)) =~= encode_log(records) + encode_record(record));
    }
}

/// What was logged is what a replay reads: the encoding of a sequence of
/// records decodes as exactly that sequence.
pub proof fn lemma_log_round_trip(records: Seq<WalRecordView>)
    requires
        log_encodable(records),
    ensures
        decode_log(encode_log(records)) == Ok::<Seq<WalRecordView>, IoErrorKind>(records),
    decreases records.len(),
{
    if records.len() > 0 {
        let first = records.first();
        let tail = records.skip(1);
        let bytes = encode_log(records);
        assert(first.encodable());
        lemma_decode_encode(first, encode_log(tail));
        assert(log_encodable(tail)) by {
            assert forall|i: int| 0 <= i < tail.len() implies (#[trigger] tail[i]).encodable() by {
                assert(tail[i] == records[i + 1]);
            }
        }
        lemma_log_round_trip(tail);
        let taken = encode_record(first).len() as int;
        assert(bytes == encode_record(first) + encode_log(tail));
        assert(bytes.len() >= taken && taken >= 9);
        assert(bytes.skip(taken) =~= encode_log(tail));
        assert(seq![first] + tail =~= records);
        assert(decode_record(bytes) == Ok::<(WalRecordView, int), IoErrorKind>((first, taken)));
    } else {
        assert(encode_log(records).len() == 0);
        assert(records =~= Seq::<WalRecordView>::empty());
    }
}

/// Reads the records that `bytes` hold. Records that are corrupt or cut
/// short make the log corrupt.
pub fn read_records(bytes: &[u8]) -> (r: Result<Vec<WalRecord>, StorageError>)
    ensures
        match decode_log(bytes@) {
            Ok(records) => r matches Ok(list) && views(list@) == records && log_encodable(records),
            Err(_) => r == Err::<Vec<WalRecord>, StorageError>(StorageError::CorruptLog),
        },
{
    let mut source = BufferDeserializer::new(slice_to_vec(bytes));
    let mut list: Vec<WalRecord> = Vec::new();
    proof {
        assert(views(list@) =~= Seq::<WalRecordView>::empty());
        if let Ok(records) = decode_log(bytes@) {
            assert(views(list@) + records =~= records);
        }
    }
    while source.remaining_len() > 0
        invariant
            log_encodable(views(list@)),
            match decode_log(source@) {
                Ok(records) => decode_log(bytes@) == Ok::<Seq<WalRecordView>, IoErrorKind>(
                    views(list@) + records,
                ),
                Err(e) => decode_log(bytes@) is Err,
            },
        decreases source@.len(),
    {
        let ghost before = source@;
        let ghost done = list@;
        match read_record(&mut source) {
            Ok(record) => {
                list.push(record);
                proof {
                    assert(views(list@) =~= views(done).push(record@));
                    if let Ok(records) = decode_log(source@) {
                        assert(views(done) + (seq![record@] + records) =~= views(list@) + records);
                    }
                }
            },
            Err(_) => {
                return Err(StorageError::CorruptLog);
            },
        }
    }
    proof {
        assert(decode_log(source@) == Ok::<Seq<WalRecordView>, IoErrorKind>(Seq::empty()));
        assert(views(list@) + Seq::<WalRecordView>::empty() =~= views(list@));
    }
    Ok(list)
}


/// The bytes that a log begins with: the iteration count of the checkpoint
/// that it builds on.
pub open spec fn log_stamp(iteration: u64) -> Seq<u8> {
    spec_u64_to_le_bytes(iteration)
}

/// The write-ahead log of a database. What is done to the block store is
/// written to the log first; after a crash the log is replayed against the
/// state of the last checkpoint.
pub struct WriteAheadLog {
    /// Whether the log has been begun.
    initialized: bool,
    /// The writer that buffers the log on its way to the file.
    writer: BufferedFileWriter,
}

impl WriteAheadLog {
    /// The log on its way to the file.
    pub closed spec fn view(&self) -> BufferedWriterView {
        self.writer@
    }

    /// Every byte of the log, written out or not.
    pub open spec fn contents(&self) -> Seq<u8> {
        self@.all()
    }

    /// Whether the log has been begun.
    pub closed spec fn begun(&self) -> bool {
        self.initialized
    }

    /// A log that has not been begun.
    pub fn new() -> (log: Self)
        ensures
            !log.begun(),
            log.contents() == Seq::<u8>::empty(),
            log@.flushed == Seq::<u8>::empty(),
    {
        let log = WriteAheadLog { initialized: false, writer: BufferedFileWriter::new() };
        assert(log.contents() =~= Seq::<u8>::empty());
        log
    }

    /// Whether the log has been begun.
    pub fn is_initialized(&self) -> (r: bool)
        ensures
            r == self.begun(),
    {
        self.initialized
    }

    /// Begins the log anew on top of the checkpoint with the iteration count
    /// `iteration`: what was logged before is dropped, as a checkpoint has
    /// made it redundant, and the file is to be cut to the new beginning.
    pub fn reset(&mut self, iteration: u64)
        ensures
            final(self).begun(),
            final(self).contents() == log_stamp(iteration),
            final(self)@.flushed == Seq::<u8>::empty(),
    {
        let mut writer = BufferedFileWriter::new();
        let stamp = vstd::bytes::u64_to_le_bytes(iteration);
        writer.write(stamp.as_slice());
        self.writer = writer;
        self.initialized = true;
        assert(self.contents() =~= log_stamp(iteration));
    }

    /// Takes up a log that the file holds already: `existing` is its whole
    /// content, and what is appended goes behind it.
    pub fn resume(existing: &[u8]) -> (log: Self)
        ensures
            log.begun(),
            log.contents() == existing@,
            log@ == (BufferedWriterView {
                flushed: existing@,
                outbox: Seq::empty(),
                buffered: Seq::empty(),
            }),
    {
        let mut writer = BufferedFileWriter::new();
        writer.write(existing);
        writer.sync();
        let written = writer.take_output();
        let log = WriteAheadLog { initialized: true, writer };
        proof {
            assert(log@.flushed =~= existing@);
            assert(log.contents() =~= existing@);
        }
        log
    }

    /// Appends a record to the log.
    pub fn append(&mut self, record: &WalRecord)
        requires
            old(self).begun(),
            record@.encodable(),
        ensures
            final(self).begun(),
            final(self).contents() == old(self).contents() + encode_record(record@),
            final(self)@.flushed == old(self)@.flushed,
    {
        let mut encoder = crate::serializer::BufferSerializer::new();
        let r = write_record(&mut encoder, record);
        assert(r is Ok);
        let bytes = encoder.into_bytes();
        assert(bytes@ =~= encode_record(record@));
        self.writer.write(bytes.as_slice());
    }

    /// Gives up everything that was logged to the file, so that the records
    /// survive a crash once the file has taken and secured the bytes.
    pub fn sync(&mut self)
        ensures
            final(self).begun() == old(self).begun(),
            final(self).contents() == old(self).contents(),
            final(self)@.flushed == old(self)@.flushed,
            final(self)@.buffered == Seq::<u8>::empty(),
    {
        self.writer.sync();
    }

    /// Hands over the bytes that the file is to take next.
    pub fn take_output(&mut self) -> (bytes: Vec<u8>)
        ensures
            final(self).begun() == old(self).begun(),
            final(self).contents() == old(self).contents(),
            bytes@ == old(self)@.outbox,
            final(self)@.flushed == old(self)@.flushed + bytes@,
            final(self)@.outbox == Seq::<u8>::empty(),
            final(self)@.buffered == old(self)@.buffered,
    {
        self.writer.take_output()
    }
}

} // verus!
