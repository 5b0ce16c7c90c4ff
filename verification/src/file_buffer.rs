//! A buffer of bytes that is read from or written to a file in one piece.

use vstd::prelude::*;

verus! {

/// A buffer of bytes of a fixed size.
#[derive(Debug)]
pub struct FileBuffer {
    /// The bytes of the buffer.
    pub buffer: Vec<u8>,
}

impl FileBuffer {
    /// The bytes of the buffer.
    pub open spec fn view(&self) -> Seq<u8> {
        self.buffer@
    }

    /// A buffer of `size` zero bytes.
    pub fn new(size: usize) -> (r: Self)
        ensures
            r@ == Seq::new(size as nat, |i: int| 0u8),
    {
        let mut buffer: Vec<u8> = Vec::new();
        let mut i: usize = 0;
        while i < size
            invariant
                i <= size,
                buffer@ == Seq::new(i as nat, |k: int| 0u8),
            decreases size - i,
        {
            buffer.push(0u8);
            assert(buffer@ =~= Seq::new((i + 1) as nat, |k: int| 0u8));
            i += 1;
        }
        FileBuffer { buffer }
    }

    /// A buffer that holds `bytes`.
    pub fn from_bytes(bytes: Vec<u8>) -> (r: Self)
        ensures
            r@ == bytes@,
    {
        FileBuffer { buffer: bytes }
    }

    /// The number of bytes of the buffer.
    pub fn size(&self) -> (n: usize)
        ensures
            n == self@.len(),
    {
        self.buffer.len()
    }

    /// A copy of the buffer.
    pub fn duplicate(&self) -> (r: Self)
        ensures
            r@ == self@,
    {
        FileBuffer { buffer: vstd::slice::slice_to_vec(self.buffer.as_slice()) }
    }
}

} // verus!
