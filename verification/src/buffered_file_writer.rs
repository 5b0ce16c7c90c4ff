//! A writer that collects bytes in a buffer of fixed size and gives them up
//! to the file in whole buffers, or all at once when it is synced.

use vstd::prelude::*;
use vstd::slice::{slice_subrange, slice_to_vec};
use crate::file_system::IoErrorKind;
use crate::serializer::Serializer;

verus! {

/// The size of the buffer of a `BufferedFileWriter`.
pub const FILE_BUFFER_SIZE: usize = 4096;

/// The mathematical content of a `BufferedFileWriter`: the bytes that have
/// gone to the file, the bytes that the file is to take next, and the bytes
/// that wait in the buffer.
pub struct BufferedWriterView {
    pub flushed: Seq<u8>,
    pub outbox: Seq<u8>,
    pub buffered: Seq<u8>,
}

impl BufferedWriterView {
    /// Every byte that was written, in order.
    pub open spec fn all(self) -> Seq<u8> {
        self.flushed + self.outbox + self.buffered
    }
}

/// A writer that buffers what it is given.
pub struct BufferedFileWriter {
    /// The bytes that wait for the buffer to fill up.
    buffer: Vec<u8>,
    /// The bytes that the file is to take next.
    outbox: Vec<u8>,
    /// The bytes that the file has taken.
    flushed: Ghost<Seq<u8>>,
}

impl BufferedFileWriter {
    pub closed spec fn view(&self) -> BufferedWriterView {
        BufferedWriterView {
            flushed: self.flushed@,
            outbox: self.outbox@,
            buffered: self.buffer@,
        }
    }

    /// How many bytes wait in the buffer.
    pub fn waiting(&self) -> (n: usize)
        ensures
            n == self@.buffered.len(),
    {
        self.buffer.len()
    }

    /// A writer that has written nothing.
    pub fn new() -> (writer: Self)
        ensures
            writer@ == (BufferedWriterView {
                flushed: Seq::empty(),
                outbox: Seq::empty(),
                buffered: Seq::empty(),
            }),
    {
        BufferedFileWriter { buffer: Vec::new(), outbox: Vec::new(), flushed: Ghost(Seq::empty()) }
    }

    /// Writes `data`: the bytes join the buffer, and as many whole buffers as
    /// there are then are given up to the file, so that less than a whole
    /// buffer is left waiting.
    pub fn write(&mut self, data: &[u8])
        ensures
            final(self)@.buffered.len() < FILE_BUFFER_SIZE,
            final(self)@.flushed == old(self)@.flushed,
            final(self)@.outbox + final(self)@.buffered == old(self)@.outbox + old(self)@.buffered
                + data@,
            final(self)@.buffered.len() as int == (old(self)@.buffered.len() as int
                + data@.len() as int) % (FILE_BUFFER_SIZE as int),
            final(self)@.all() == old(self)@.all() + data@,
    {
        let ghost before = self@;
        self.buffer.extend_from_slice(data);
        let total: usize = self.buffer.len();
        if total >= FILE_BUFFER_SIZE {
            // The buffer is full: the whole buffers go out, and what is left
            // begins the next buffer.
            let keep: usize = total % FILE_BUFFER_SIZE;
            let cut: usize = total - keep;
            self.outbox.extend_from_slice(slice_subrange(self.buffer.as_slice(), 0, cut));
            self.buffer = slice_to_vec(slice_subrange(self.buffer.as_slice(), cut, total));
        }
        proof {
            assert(self@.outbox + self@.buffered =~= before.outbox + before.buffered + data@);
            assert(self@.all() =~= before.all() + data@);
        }
    }

    /// Gives up the buffer to the file, full or not.
    pub fn sync(&mut self)
        ensures
            final(self)@ == (BufferedWriterView {
                flushed: old(self)@.flushed,
                outbox: old(self)@.outbox + old(self)@.buffered,
                buffered: Seq::empty(),
            }),
            final(self)@.all() == old(self)@.all(),
    {
        let ghost before = self@;
        self.outbox.extend_from_slice(self.buffer.as_slice());
        self.buffer = Vec::new();
        proof {
            assert(self@.outbox =~= before.outbox + before.buffered);
            assert(self@.buffered =~= Seq::<u8>::empty());
            assert(self@.all() =~= before.all());
        }
    }

    /// Hands over the bytes that the file is to take next.
    pub fn take_output(&mut self) -> (bytes: Vec<u8>)
        ensures
            bytes@ == old(self)@.outbox,
            final(self)@ == (BufferedWriterView {
                flushed: old(self)@.flushed + old(self)@.outbox,
                outbox: Seq::empty(),
                buffered: old(self)@.buffered,
            }),
            final(self)@.all() == old(self)@.all(),
    {
        let ghost before = self@;
        let mut bytes: Vec<u8> = Vec::new();
        bytes.append(&mut self.outbox);
        self.flushed = Ghost(before.flushed + before.outbox);
        proof {
            assert(bytes@ =~= before.outbox);
            assert(self@.outbox =~= Seq::<u8>::empty());
            assert(self@.all() =~= before.all());
        }
        bytes
    }
}

impl Serializer for BufferedFileWriter {
    open spec fn written(&self) -> Seq<u8> {
        self@.all()
    }

    open spec fn infallible(&self) -> bool {
        true
    }

    fn write_data(&mut self, buffer: &[u8]) -> (r: Result<(), IoErrorKind>) {
        self.write(buffer);
        Ok(())
    }
}

} // verus!
