//! The binary codec: fixed-width little-endian primitives, length-prefixed
//! strings and lists, and presence-flagged optional values.

use vstd::prelude::*;
use vstd::bytes::{
    lemma_auto_spec_u32_to_from_le_bytes, lemma_auto_spec_u64_to_from_le_bytes,
    spec_u32_from_le_bytes, spec_u32_to_le_bytes, spec_u64_from_le_bytes, spec_u64_to_le_bytes,
    u32_from_le_bytes, u32_to_le_bytes, u64_from_le_bytes, u64_to_le_bytes,
};
use vstd::slice::{slice_subrange, slice_to_vec};
use vstd::string::StringSliceAdditionalSpecFns;
use vstd::utf8::{encode_utf8, valid_utf8};
use crate::file_system::IoErrorKind;

verus! {

/// `String::from_utf8`: a byte vector that is valid UTF-8 becomes the string
/// with exactly those bytes; any other vector is refused.
#[verifier::external_body]
fn string_from_utf8(bytes: Vec<u8>) -> (r: Option<String>)
    ensures
        valid_utf8(bytes@) <==> r is Some,
        r matches Some(s) ==> encode_utf8(s@) == bytes@,
{
    match String::from_utf8(bytes) {
        Ok(s) => Some(s),
        Err(_) => None,
    }
}

/// A byte sink.
pub trait Serializer: Sized {
    /// Every byte the sink has accepted, in order.
    spec fn written(&self) -> Seq<u8>;

    /// Whether the sink accepts every write.
    spec fn infallible(&self) -> bool;

    /// Appends `buffer` to the sink.
    fn write_data(&mut self, buffer: &[u8]) -> (r: Result<(), IoErrorKind>)
        ensures
            final(self).infallible() == old(self).infallible(),
            old(self).infallible() ==> r is Ok,
            r is Ok ==> final(self).written() == old(self).written() + buffer@,
    ;

    /// Writes one byte.
    fn write_u8(&mut self, element: u8) -> (r: Result<(), IoErrorKind>)
        ensures
            final(self).infallible() == old(self).infallible(),
            old(self).infallible() ==> r is Ok,
            r is Ok ==> final(self).written() == old(self).written() + seq![element],
    {
        let bytes: [u8; 1] = [element];
        assert(bytes@ =~= seq![element]);
        self.write_data(bytes.as_slice())
    }

    /// Writes a flag as one byte, 1 for `true` and 0 for `false`.
    fn write_bool(&mut self, element: bool) -> (r: Result<(), IoErrorKind>)
        ensures
            final(self).infallible() == old(self).infallible(),
            old(self).infallible() ==> r is Ok,
            r is Ok ==> final(self).written() == old(self).written() + encode_bool(element),
    {
        self.write_u8(if element { 1u8 } else { 0u8 })
    }

    /// Writes four bytes, least significant first.
    fn write_u32(&mut self, element: u32) -> (r: Result<(), IoErrorKind>)
        ensures
            final(self).infallible() == old(self).infallible(),
            old(self).infallible() ==> r is Ok,
            r is Ok ==> final(self).written() == old(self).written() + spec_u32_to_le_bytes(
                element,
            ),
    {
        let bytes = u32_to_le_bytes(element);
        self.write_data(bytes.as_slice())
    }

    /// Writes eight bytes, least significant first.
    fn write_u64(&mut self, element: u64) -> (r: Result<(), IoErrorKind>)
        ensures
            final(self).infallible() == old(self).infallible(),
            old(self).infallible() ==> r is Ok,
            r is Ok ==> final(self).written() == old(self).written() + spec_u64_to_le_bytes(
                element,
            ),
    {
        let bytes = u64_to_le_bytes(element);
        self.write_data(bytes.as_slice())
    }

    /// Writes a signed value as the eight bytes of its two's complement.
    fn write_i64(&mut self, element: i64) -> (r: Result<(), IoErrorKind>)
        ensures
            final(self).infallible() == old(self).infallible(),
            old(self).infallible() ==> r is Ok,
            r is Ok ==> final(self).written() == old(self).written() + encode_i64(element),
    {
        self.write_u64(element as u64)
    }

    /// Writes the byte length of `val` as a `u32`, then its UTF-8 bytes.
    fn write_string(&mut self, val: &str) -> (r: Result<(), IoErrorKind>)
        requires
            encode_utf8(val@).len() <= u32::MAX,
        ensures
            final(self).infallible() == old(self).infallible(),
            old(self).infallible() ==> r is Ok,
            r is Ok ==> final(self).written() == old(self).written() + encode_string(val@),
    {
        let len: usize = val.len();
        match self.write_u32(len as u32) {
            Ok(()) => {},
            Err(e) => {
                return Err(e);
            },
        }
        if len > 0 {
            let r = self.write_data(val.as_bytes());
            assert(old(self).written() + spec_u32_to_le_bytes(len as u32) + encode_utf8(val@)
                =~= old(self).written() + encode_string(val@));
            r
        } else {
            assert(old(self).written() + spec_u32_to_le_bytes(len as u32) =~= old(self).written()
                + encode_string(val@));
            Ok(())
        }
    }
}

/// A value with a binary form.
pub trait Serializable: Sized + DeepView {
    /// The bytes that stand for the value.
    spec fn encoding(&self) -> Seq<u8>;

    /// Whether every length inside the value fits its `u32` prefix.
    spec fn encodable(&self) -> bool;

    /// Writes the value's encoding to `serializer`.
    fn serialize<S: Serializer>(&self, serializer: &mut S) -> (r: Result<(), IoErrorKind>)
        requires
            self.encodable(),
        ensures
            final(serializer).infallible() == old(serializer).infallible(),
            old(serializer).infallible() ==> r is Ok,
            r is Ok ==> final(serializer).written() == old(serializer).written()
                + self.encoding(),
    ;
}

/// The encoding of a flag.
pub open spec fn encode_bool(b: bool) -> Seq<u8> {
    seq![if b { 1u8 } else { 0u8 }]
}

/// The encoding of a signed 64-bit value.
pub open spec fn encode_i64(v: i64) -> Seq<u8> {
    spec_u64_to_le_bytes(v as u64)
}

/// The encoding of a string: byte length, then UTF-8 bytes.
pub open spec fn encode_string(chars: Seq<char>) -> Seq<u8> {
    spec_u32_to_le_bytes(encode_utf8(chars).len() as u32) + encode_utf8(chars)
}

/// The encodings of `items`, one after another.
pub open spec fn encode_items<T: Serializable>(items: Seq<T>) -> Seq<u8>
    decreases items.len(),
{
    if items.len() == 0 {
        Seq::empty()
    } else {
        items.first().encoding() + encode_items(items.skip(1))
    }
}

/// The encoding of a list: item count, then the items.
pub open spec fn encode_list<T: Serializable>(items: Seq<T>) -> Seq<u8> {
    spec_u32_to_le_bytes(items.len() as u32) + encode_items(items)
}

/// The encoding of an optional value: presence flag, then the value.
pub open spec fn encode_optional<T: Serializable>(element: Option<T>) -> Seq<u8> {
    match element {
        Some(item) => encode_bool(true) + item.encoding(),
        None => encode_bool(false),
    }
}

/// Appending an item appends its encoding.
pub proof fn lemma_encode_items_push<T: Serializable>(items: Seq<T>, item: T)
    ensures
        encode_items(items.push(item)) == encode_items(items) + item.encoding(),
    decreases items.len(),
{
    if items.len() == 0 {
        assert(items.push(item).skip(1) =~= Seq::<T>::empty());
        assert(encode_items(items.push(item)) =~= item.encoding() + encode_items(
            Seq::<T>::empty(),
        ));
        assert(encode_items(items.push(item)) =~= encode_items(items) + item.encoding());
    } else {
        assert(items.push(item).skip(1) =~= items.skip(1).push(item));
        lemma_encode_items_push(items.skip(1), item);
        assert(encode_items(items.push(item)) =~= encode_items(items) + item.encoding());
    }
}

/// Writes the number of items as a `u32`, then each item in order.
pub fn write_list<S: Serializer, T: Serializable>(serializer: &mut S, list: &[T]) -> (r: Result<(), IoErrorKind>)
    requires
        list@.len() <= u32::MAX,
        forall|i: int| 0 <= i < list@.len() ==> (#[trigger] list@[i]).encodable(),
    ensures
        final(serializer).infallible() == old(serializer).infallible(),
        old(serializer).infallible() ==> r is Ok,
        r is Ok ==> final(serializer).written() == old(serializer).written() + encode_list(list@),
{
    let count: usize = list.len();
    match serializer.write_u32(count as u32) {
        Ok(()) => {},
        Err(e) => {
            return Err(e);
        },
    }
    let mut i: usize = 0;
    proof {
        assert(list@.subrange(0, 0) =~= Seq::<T>::empty());
        assert(serializer.written() =~= old(serializer).written() + spec_u32_to_le_bytes(count as u32)
            + encode_items(list@.subrange(0, 0)));
    }
    while i < count
        invariant
            i <= count,
            count == list@.len(),
            count <= u32::MAX,
            forall|j: int| 0 <= j < list@.len() ==> (#[trigger] list@[j]).encodable(),
            serializer.infallible() == old(serializer).infallible(),
            serializer.written() == old(serializer).written() + spec_u32_to_le_bytes(count as u32)
                + encode_items(list@.subrange(0, i as int)),
        decreases count - i,
    {
        let ghost before = serializer.written();
        match list[i].serialize(serializer) {
            Ok(()) => {},
            Err(e) => {
                return Err(e);
            },
        }
        proof {
            let done = list@.subrange(0, i as int);
            assert(list@.subrange(0, i + 1) =~= done.push(list@[i as int]));
            lemma_encode_items_push(done, list@[i as int]);
            assert(serializer.written() =~= old(serializer).written() + spec_u32_to_le_bytes(
                count as u32,
            ) + encode_items(list@.subrange(0, i + 1)));
        }
        i += 1;
    }
    proof {
        assert(list@.subrange(0, count as int) =~= list@);
        assert(serializer.written() =~= old(serializer).written() + encode_list(list@));
    }
    Ok(())
}

/// Writes a presence flag, then the value if there is one.
pub fn write_optional<S: Serializer, T: Serializable>(
    serializer: &mut S,
    element: &Option<T>,
) -> (r: Result<
    (),
    IoErrorKind,
>)
    requires
        element matches Some(item) ==> item.encodable(),
    ensures
        final(serializer).infallible() == old(serializer).infallible(),
        old(serializer).infallible() ==> r is Ok,
        r is Ok ==> final(serializer).written() == old(serializer).written() + encode_optional(*element),
{
    match serializer.write_bool(element.is_some()) {
        Ok(()) => {},
        Err(e) => {
            return Err(e);
        },
    }
    match element {
        Some(item) => {
            let r = item.serialize(serializer);
            assert(old(serializer).written() + encode_bool(true) + item.encoding()
                =~= old(serializer).written() + encode_optional(*element));
            r
        },
        None => Ok(()),
    }
}


/// What a fixed-width value of `width` bytes takes from the front of `bytes`.
pub open spec fn parse_fixed(bytes: Seq<u8>, width: int) -> Result<int, IoErrorKind> {
    if bytes.len() < width {
        Err(IoErrorKind::UnexpectedEof)
    } else {
        Ok(width)
    }
}

/// What a flag takes from the front of `bytes`: one byte, which must be 0 or 1.
pub open spec fn parse_bool(bytes: Seq<u8>) -> Result<int, IoErrorKind> {
    if bytes.len() < 1 {
        Err(IoErrorKind::UnexpectedEof)
    } else if bytes[0] != 0 && bytes[0] != 1 {
        Err(IoErrorKind::InvalidData)
    } else {
        Ok(1)
    }
}

/// What a string takes from the front of `bytes`: four bytes of length, then
/// that many bytes of valid UTF-8.
pub open spec fn parse_string(bytes: Seq<u8>) -> Result<int, IoErrorKind> {
    if bytes.len() < 4 {
        Err(IoErrorKind::UnexpectedEof)
    } else {
        let len = spec_u32_from_le_bytes(bytes.subrange(0, 4)) as int;
        if bytes.len() < 4 + len {
            Err(IoErrorKind::UnexpectedEof)
        } else if !valid_utf8(bytes.subrange(4, 4 + len)) {
            Err(IoErrorKind::InvalidData)
        } else {
            Ok(4 + len)
        }
    }
}

/// A byte source.
pub trait Deserializer: Sized {
    /// The bytes not yet read, in order.
    spec fn remaining(&self) -> Seq<u8>;

    /// Whether a read can fail only for want of bytes.
    spec fn infallible(&self) -> bool;

    /// Takes the next `len` bytes.
    fn read_data(&mut self, len: usize) -> (r: Result<Vec<u8>, IoErrorKind>)
        ensures
            final(self).infallible() == old(self).infallible(),
            r matches Ok(bytes) ==> {
                &&& len <= old(self).remaining().len()
                &&& bytes@ == old(self).remaining().subrange(0, len as int)
                &&& final(self).remaining() == old(self).remaining().skip(len as int)
            },
            old(self).infallible() ==> match parse_fixed(old(self).remaining(), len as int) {
                Ok(_) => r is Ok,
                Err(e) => r == Err::<Vec<u8>, IoErrorKind>(e),
            },
    ;

    /// Reads one byte.
    fn read_u8(&mut self) -> (r: Result<u8, IoErrorKind>)
        ensures
            final(self).infallible() == old(self).infallible(),
            r matches Ok(v) ==> {
                &&& 1 <= old(self).remaining().len()
                &&& v == old(self).remaining()[0]
                &&& final(self).remaining() == old(self).remaining().skip(1)
            },
            old(self).infallible() ==> match parse_fixed(old(self).remaining(), 1) {
                Ok(_) => r is Ok,
                Err(e) => r == Err::<u8, IoErrorKind>(e),
            },
    {
        match self.read_data(1) {
            Ok(bytes) => Ok(bytes[0]),
            Err(e) => Err(e),
        }
    }

    /// Reads a flag; a byte other than 0 and 1 is invalid data.
    fn read_bool(&mut self) -> (r: Result<bool, IoErrorKind>)
        ensures
            final(self).infallible() == old(self).infallible(),
            r matches Ok(v) ==> {
                &&& parse_bool(old(self).remaining()) == Ok::<int, IoErrorKind>(1)
                &&& old(self).remaining() == encode_bool(v) + final(self).remaining()
            },
            old(self).infallible() ==> match parse_bool(old(self).remaining()) {
                Ok(_) => r is Ok,
                Err(e) => r == Err::<bool, IoErrorKind>(e),
            },
    {
        match self.read_u8() {
            Ok(byte) => {
                if byte == 0 {
                    assert(old(self).remaining() =~= encode_bool(false) + self.remaining());
                    Ok(false)
                } else if byte == 1 {
                    assert(old(self).remaining() =~= encode_bool(true) + self.remaining());
                    Ok(true)
                } else {
                    Err(IoErrorKind::InvalidData)
                }
            },
            Err(e) => Err(e),
        }
    }

    /// Reads four bytes, least significant first.
    fn read_u32(&mut self) -> (r: Result<u32, IoErrorKind>)
        ensures
            final(self).infallible() == old(self).infallible(),
            r matches Ok(v) ==> {
                &&& 4 <= old(self).remaining().len()
                &&& v == spec_u32_from_le_bytes(old(self).remaining().subrange(0, 4))
                &&& old(self).remaining() == spec_u32_to_le_bytes(v) + final(self).remaining()
            },
            old(self).infallible() ==> match parse_fixed(old(self).remaining(), 4) {
                Ok(_) => r is Ok,
                Err(e) => r == Err::<u32, IoErrorKind>(e),
            },
    {
        match self.read_data(4) {
            Ok(bytes) => {
                let v = u32_from_le_bytes(bytes.as_slice());
                proof {
                    lemma_auto_spec_u32_to_from_le_bytes();
                    assert(old(self).remaining() =~= bytes@ + self.remaining());
                }
                Ok(v)
            },
            Err(e) => Err(e),
        }
    }

    /// Reads eight bytes, least significant first.
    fn read_u64(&mut self) -> (r: Result<u64, IoErrorKind>)
        ensures
            final(self).infallible() == old(self).infallible(),
            r matches Ok(v) ==> {
                &&& 8 <= old(self).remaining().len()
                &&& v == spec_u64_from_le_bytes(old(self).remaining().subrange(0, 8))
                &&& old(self).remaining() == spec_u64_to_le_bytes(v) + final(self).remaining()
            },
            old(self).infallible() ==> match parse_fixed(old(self).remaining(), 8) {
                Ok(_) => r is Ok,
                Err(e) => r == Err::<u64, IoErrorKind>(e),
            },
    {
        match self.read_data(8) {
            Ok(bytes) => {
                let v = u64_from_le_bytes(bytes.as_slice());
                proof {
                    lemma_auto_spec_u64_to_from_le_bytes();
                    assert(old(self).remaining() =~= bytes@ + self.remaining());
                }
                Ok(v)
            },
            Err(e) => Err(e),
        }
    }

    /// Reads a signed value from the eight bytes of its two's complement.
    fn read_i64(&mut self) -> (r: Result<i64, IoErrorKind>)
        ensures
            final(self).infallible() == old(self).infallible(),
            r matches Ok(v) ==> {
                &&& 8 <= old(self).remaining().len()
                &&& old(self).remaining() == encode_i64(v) + final(self).remaining()
            },
            old(self).infallible() ==> match parse_fixed(old(self).remaining(), 8) {
                Ok(_) => r is Ok,
                Err(e) => r == Err::<i64, IoErrorKind>(e),
            },
    {
        match self.read_u64() {
            Ok(raw) => {
                let v: i64 = raw as i64;
                assert((raw as i64) as u64 == raw) by (bit_vector);
                Ok(v)
            },
            Err(e) => Err(e),
        }
    }

    /// Reads a `u32` byte length, then that many bytes, which must be valid
    /// UTF-8.
    fn read_string(&mut self) -> (r: Result<String, IoErrorKind>)
        ensures
            final(self).infallible() == old(self).infallible(),
            r matches Ok(s) ==> {
                &&& encode_utf8(s@).len() <= u32::MAX
                &&& parse_string(old(self).remaining()) == Ok::<int, IoErrorKind>(
                    encode_string(s@).len() as int,
                )
                &&& old(self).remaining() == encode_string(s@) + final(self).remaining()
            },
            old(self).infallible() ==> match parse_string(old(self).remaining()) {
                Ok(_) => r is Ok,
                Err(e) => r == Err::<String, IoErrorKind>(e),
            },
    {
        let len = match self.read_u32() {
            Ok(len) => len,
            Err(e) => {
                return Err(e);
            },
        };
        let ghost after_len = self.remaining();
        let bytes = match self.read_data(len as usize) {
            Ok(bytes) => bytes,
            Err(e) => {
                proof {
                    assert(after_len =~= old(self).remaining().skip(4)) by {
                        lemma_auto_spec_u32_to_from_le_bytes();
                    }
                }
                return Err(e);
            },
        };
        proof {
            lemma_auto_spec_u32_to_from_le_bytes();
            assert(after_len =~= old(self).remaining().skip(4));
            assert(bytes@ =~= old(self).remaining().subrange(4, 4 + len));
        }
        match string_from_utf8(bytes) {
            Some(s) => {
                proof {
                    assert(old(self).remaining() =~= encode_string(s@) + self.remaining());
                }
                Ok(s)
            },
            None => Err(IoErrorKind::InvalidData),
        }
    }
}

/// A value that can be read back from its binary form.
pub trait Deserializable: Serializable {
    /// How many bytes the first value at the front of `bytes` takes, or why
    /// there is none.
    spec fn parse(bytes: Seq<u8>) -> Result<int, IoErrorKind>;

    /// Reads one value from `deserializer`.
    fn deserialize<D: Deserializer>(deserializer: &mut D) -> (r: Result<Self, IoErrorKind>)
        ensures
            final(deserializer).infallible() == old(deserializer).infallible(),
            r matches Ok(v) ==> {
                &&& v.encodable()
                &&& Self::parse(old(deserializer).remaining()) == Ok::<int, IoErrorKind>(
                    v.encoding().len() as int,
                )
                &&& old(deserializer).remaining() == v.encoding()
                    + final(deserializer).remaining()
            },
            old(deserializer).infallible() ==> match Self::parse(old(deserializer).remaining()) {
                Ok(_) => r is Ok,
                Err(e) => r == Err::<Self, IoErrorKind>(e),
            },
    ;

    /// An encoding, whatever follows it, parses as exactly itself.
    proof fn lemma_parse_encoding(&self, rest: Seq<u8>)
        requires
            self.encodable(),
        ensures
            Self::parse(self.encoding() + rest) == Ok::<int, IoErrorKind>(
                self.encoding().len() as int,
            ),
    ;

    /// Values with the same encoding are the same value.
    proof fn lemma_encoding_injective(&self, other: &Self)
        requires
            self.encodable(),
            other.encodable(),
            self.encoding() == other.encoding(),
        ensures
            self.deep_view() == other.deep_view(),
    ;
}


impl Serializable for u8 {
    open spec fn encoding(&self) -> Seq<u8> {
        seq![*self]
    }

    open spec fn encodable(&self) -> bool {
        true
    }

    fn serialize<S: Serializer>(&self, serializer: &mut S) -> (r: Result<(), IoErrorKind>) {
        serializer.write_u8(*self)
    }
}

impl Deserializable for u8 {
    open spec fn parse(bytes: Seq<u8>) -> Result<int, IoErrorKind> {
        parse_fixed(bytes, 1)
    }

    fn deserialize<D: Deserializer>(deserializer: &mut D) -> (r: Result<Self, IoErrorKind>) {
        let r = deserializer.read_u8();
        proof {
            if let Ok(v) = r {
                assert(old(deserializer).remaining() =~= seq![v] + deserializer.remaining());
            }
        }
        r
    }

    proof fn lemma_parse_encoding(&self, rest: Seq<u8>) {
    }

    proof fn lemma_encoding_injective(&self, other: &Self) {
        assert(self.encoding()[0] == *self);
        assert(other.encoding()[0] == *other);
    }
}

impl Serializable for bool {
    open spec fn encoding(&self) -> Seq<u8> {
        encode_bool(*self)
    }

    open spec fn encodable(&self) -> bool {
        true
    }

    fn serialize<S: Serializer>(&self, serializer: &mut S) -> (r: Result<(), IoErrorKind>) {
        serializer.write_bool(*self)
    }
}

impl Deserializable for bool {
    open spec fn parse(bytes: Seq<u8>) -> Result<int, IoErrorKind> {
        parse_bool(bytes)
    }

    fn deserialize<D: Deserializer>(deserializer: &mut D) -> (r: Result<Self, IoErrorKind>) {
        deserializer.read_bool()
    }

    proof fn lemma_parse_encoding(&self, rest: Seq<u8>) {
        assert((self.encoding() + rest)[0] == self.encoding()[0]);
    }

    proof fn lemma_encoding_injective(&self, other: &Self) {
        assert(self.encoding()[0] == (if *self { 1u8 } else { 0u8 }));
        assert(other.encoding()[0] == (if *other { 1u8 } else { 0u8 }));
    }
}

impl Serializable for u32 {
    open spec fn encoding(&self) -> Seq<u8> {
        spec_u32_to_le_bytes(*self)
    }

    open spec fn encodable(&self) -> bool {
        true
    }

    fn serialize<S: Serializer>(&self, serializer: &mut S) -> (r: Result<(), IoErrorKind>) {
        serializer.write_u32(*self)
    }
}

impl Deserializable for u32 {
    open spec fn parse(bytes: Seq<u8>) -> Result<int, IoErrorKind> {
        parse_fixed(bytes, 4)
    }

    fn deserialize<D: Deserializer>(deserializer: &mut D) -> (r: Result<Self, IoErrorKind>) {
        proof {
            lemma_auto_spec_u32_to_from_le_bytes();
        }
        deserializer.read_u32()
    }

    proof fn lemma_parse_encoding(&self, rest: Seq<u8>) {
        lemma_auto_spec_u32_to_from_le_bytes();
    }

    proof fn lemma_encoding_injective(&self, other: &Self) {
        lemma_auto_spec_u32_to_from_le_bytes();
        assert(spec_u32_to_le_bytes(*self).len() == 4);
        assert(spec_u32_to_le_bytes(*other).len() == 4);
    }
}

impl Serializable for u64 {
    open spec fn encoding(&self) -> Seq<u8> {
        spec_u64_to_le_bytes(*self)
    }

    open spec fn encodable(&self) -> bool {
        true
    }

    fn serialize<S: Serializer>(&self, serializer: &mut S) -> (r: Result<(), IoErrorKind>) {
        serializer.write_u64(*self)
    }
}

impl Deserializable for u64 {
    open spec fn parse(bytes: Seq<u8>) -> Result<int, IoErrorKind> {
        parse_fixed(bytes, 8)
    }

    fn deserialize<D: Deserializer>(deserializer: &mut D) -> (r: Result<Self, IoErrorKind>) {
        proof {
            lemma_auto_spec_u64_to_from_le_bytes();
        }
        deserializer.read_u64()
    }

    proof fn lemma_parse_encoding(&self, rest: Seq<u8>) {
        lemma_auto_spec_u64_to_from_le_bytes();
    }

    proof fn lemma_encoding_injective(&self, other: &Self) {
        lemma_auto_spec_u64_to_from_le_bytes();
        assert(spec_u64_to_le_bytes(*self).len() == 8);
        assert(spec_u64_to_le_bytes(*other).len() == 8);
    }
}

impl Serializable for i64 {
    open spec fn encoding(&self) -> Seq<u8> {
        encode_i64(*self)
    }

    open spec fn encodable(&self) -> bool {
        true
    }

    fn serialize<S: Serializer>(&self, serializer: &mut S) -> (r: Result<(), IoErrorKind>) {
        serializer.write_i64(*self)
    }
}

impl Deserializable for i64 {
    open spec fn parse(bytes: Seq<u8>) -> Result<int, IoErrorKind> {
        parse_fixed(bytes, 8)
    }

    fn deserialize<D: Deserializer>(deserializer: &mut D) -> (r: Result<Self, IoErrorKind>) {
        proof {
            lemma_auto_spec_u64_to_from_le_bytes();
        }
        deserializer.read_i64()
    }

    proof fn lemma_parse_encoding(&self, rest: Seq<u8>) {
        lemma_auto_spec_u64_to_from_le_bytes();
    }

    proof fn lemma_encoding_injective(&self, other: &Self) {
        lemma_auto_spec_u64_to_from_le_bytes();
        let a: i64 = *self;
        let b: i64 = *other;
        assert(spec_u64_to_le_bytes(a as u64).len() == 8);
        assert(spec_u64_to_le_bytes(b as u64).len() == 8);
        assert(a as u64 == b as u64 ==> a == b) by (bit_vector);
    }
}

impl Serializable for String {
    open spec fn encoding(&self) -> Seq<u8> {
        encode_string(self@)
    }

    open spec fn encodable(&self) -> bool {
        encode_utf8(self@).len() <= u32::MAX
    }

    fn serialize<S: Serializer>(&self, serializer: &mut S) -> (r: Result<(), IoErrorKind>) {
        serializer.write_string(self.as_str())
    }
}

/// The string encoding splits into its length prefix and its bytes.
pub proof fn lemma_encode_string_parts(chars: Seq<char>, rest: Seq<u8>)
    requires
        encode_utf8(chars).len() <= u32::MAX,
    ensures
        encode_string(chars).len() == 4 + encode_utf8(chars).len(),
        (encode_string(chars) + rest).subrange(0, 4) == spec_u32_to_le_bytes(
            encode_utf8(chars).len() as u32,
        ),
        spec_u32_from_le_bytes((encode_string(chars) + rest).subrange(0, 4)) == encode_utf8(
            chars,
        ).len(),
        (encode_string(chars) + rest).subrange(4, 4 + encode_utf8(chars).len() as int) == encode_utf8(
            chars,
        ),
{
    lemma_auto_spec_u32_to_from_le_bytes();
    let len = encode_utf8(chars).len() as u32;
    assert(spec_u32_to_le_bytes(len).len() == 4);
    assert((encode_string(chars) + rest).subrange(0, 4) =~= spec_u32_to_le_bytes(len));
    assert((encode_string(chars) + rest).subrange(4, 4 + encode_utf8(chars).len() as int)
        =~= encode_utf8(chars));
}

impl Deserializable for String {
    open spec fn parse(bytes: Seq<u8>) -> Result<int, IoErrorKind> {
        parse_string(bytes)
    }

    fn deserialize<D: Deserializer>(deserializer: &mut D) -> (r: Result<Self, IoErrorKind>) {
        deserializer.read_string()
    }

    proof fn lemma_parse_encoding(&self, rest: Seq<u8>) {
        lemma_encode_string_parts(self@, rest);
        vstd::utf8::encode_utf8_valid_utf8(self@);
    }

    proof fn lemma_encoding_injective(&self, other: &Self) {
        lemma_encode_string_parts(self@, Seq::empty());
        lemma_encode_string_parts(other@, Seq::empty());
        assert(encode_string(self@) + Seq::<u8>::empty() =~= encode_string(self@));
        assert(encode_string(other@) + Seq::<u8>::empty() =~= encode_string(other@));
        assert(encode_utf8(self@) == encode_utf8(other@));
        vstd::utf8::encode_utf8_decode_utf8(self@);
        vstd::utf8::encode_utf8_decode_utf8(other@);
    }
}


/// What an optional value takes from the front of `bytes`.
pub open spec fn parse_optional<T: Deserializable>(bytes: Seq<u8>) -> Result<int, IoErrorKind> {
    match parse_bool(bytes) {
        Err(e) => Err(e),
        Ok(_) => if bytes[0] == 0 {
            Ok(1)
        } else {
            match T::parse(bytes.skip(1)) {
                Ok(n) => Ok(1 + n),
                Err(e) => Err(e),
            }
        },
    }
}

/// What `count` values, one after another, take from the front of `bytes`.
pub open spec fn parse_items<T: Deserializable>(bytes: Seq<u8>, count: int) -> Result<
    int,
    IoErrorKind,
>
    decreases count,
{
    if count <= 0 {
        Ok(0)
    } else {
        match T::parse(bytes) {
            Err(e) => Err(e),
            Ok(n) => if 0 <= n <= bytes.len() {
                match parse_items::<T>(bytes.skip(n), count - 1) {
                    Ok(m) => Ok(n + m),
                    Err(e) => Err(e),
                }
            } else {
                Err(IoErrorKind::InvalidData)
            },
        }
    }
}

/// What a list takes from the front of `bytes`: the count, then the items.
pub open spec fn parse_list<T: Deserializable>(bytes: Seq<u8>) -> Result<int, IoErrorKind> {
    if bytes.len() < 4 {
        Err(IoErrorKind::UnexpectedEof)
    } else {
        match parse_items::<T>(bytes.skip(4), spec_u32_from_le_bytes(bytes.subrange(0, 4)) as int) {
            Ok(m) => Ok(4 + m),
            Err(e) => Err(e),
        }
    }
}

/// Whether every item can be encoded.
pub open spec fn items_encodable<T: Serializable>(items: Seq<T>) -> bool {
    forall|i: int| 0 <= i < items.len() ==> (#[trigger] items[i]).encodable()
}

/// Reads a presence flag, then the value if the flag says there is one.
pub fn read_optional<D: Deserializer, T: Deserializable>(deserializer: &mut D) -> (r: Result<
    Option<T>,
    IoErrorKind,
>)
    ensures
        final(deserializer).infallible() == old(deserializer).infallible(),
        r matches Ok(v) ==> {
            &&& v matches Some(item) ==> item.encodable()
            &&& parse_optional::<T>(old(deserializer).remaining()) == Ok::<int, IoErrorKind>(
                encode_optional(v).len() as int,
            )
            &&& old(deserializer).remaining() == encode_optional(v)
                + final(deserializer).remaining()
        },
        old(deserializer).infallible() ==> match parse_optional::<T>(
            old(deserializer).remaining(),
        ) {
            Ok(_) => r is Ok,
            Err(e) => r == Err::<Option<T>, IoErrorKind>(e),
        },
{
    let has_entry = match deserializer.read_bool() {
        Ok(flag) => flag,
        Err(e) => {
            return Err(e);
        },
    };
    let ghost after_flag = deserializer.remaining();
    proof {
        assert(after_flag =~= old(deserializer).remaining().skip(1));
        assert(old(deserializer).remaining()[0] == encode_bool(has_entry)[0]);
    }
    if has_entry {
        match T::deserialize(deserializer) {
            Ok(item) => {
                proof {
                    assert(old(deserializer).remaining() =~= encode_optional(Some(item))
                        + deserializer.remaining());
                }
                Ok(Some(item))
            },
            Err(e) => Err(e),
        }
    } else {
        Ok(None)
    }
}

/// Reads an item count, then that many items.
pub fn read_list<D: Deserializer, T: Deserializable>(deserializer: &mut D) -> (r: Result<
    Vec<T>,
    IoErrorKind,
>)
    ensures
        final(deserializer).infallible() == old(deserializer).infallible(),
        r matches Ok(v) ==> {
            &&& v@.len() <= u32::MAX
            &&& items_encodable(v@)
            &&& parse_list::<T>(old(deserializer).remaining()) == Ok::<int, IoErrorKind>(
                encode_list(v@).len() as int,
            )
            &&& old(deserializer).remaining() == encode_list(v@)
                + final(deserializer).remaining()
        },
        old(deserializer).infallible() ==> match parse_list::<T>(old(deserializer).remaining()) {
            Ok(_) => r is Ok,
            Err(e) => r == Err::<Vec<T>, IoErrorKind>(e),
        },
{
    let count = match deserializer.read_u32() {
        Ok(count) => count,
        Err(e) => {
            return Err(e);
        },
    };
    let ghost start = deserializer.remaining();
    proof {
        lemma_auto_spec_u32_to_from_le_bytes();
        assert(start =~= old(deserializer).remaining().skip(4));
        assert(encode_items(Seq::<T>::empty()) =~= Seq::<u8>::empty());
        assert(start =~= encode_items(Seq::<T>::empty()) + start);
    }
    let mut list: Vec<T> = Vec::new();
    let mut i: u32 = 0;
    while i < count
        invariant
            i <= count,
            deserializer.infallible() == old(deserializer).infallible(),
            list@.len() == i,
            items_encodable(list@),
            4 <= old(deserializer).remaining().len(),
            count == spec_u32_from_le_bytes(old(deserializer).remaining().subrange(0, 4)),
            start == old(deserializer).remaining().skip(4),
            start == encode_items(list@) + deserializer.remaining(),
            match parse_items::<T>(deserializer.remaining(), count - i) {
                Ok(m) => parse_items::<T>(start, count as int) == Ok::<int, IoErrorKind>(
                    encode_items(list@).len() + m,
                ),
                Err(e) => parse_items::<T>(start, count as int) == Err::<int, IoErrorKind>(e),
            },
        decreases count - i,
    {
        let ghost before = deserializer.remaining();
        let ghost done = list@;
        match T::deserialize(deserializer) {
            Ok(item) => {
                proof {
                    let n = item.encoding().len() as int;
                    assert(before.skip(n) =~= deserializer.remaining());
                    lemma_encode_items_push(done, item);
                    assert(start =~= encode_items(done.push(item)) + deserializer.remaining());
                }
                list.push(item);
            },
            Err(e) => {
                return Err(e);
            },
        }
        i += 1;
    }
    proof {
        assert(old(deserializer).remaining() =~= encode_list(list@) + deserializer.remaining());
    }
    Ok(list)
}

impl<T: Serializable> Serializable for Option<T> {
    open spec fn encoding(&self) -> Seq<u8> {
        encode_optional(*self)
    }

    open spec fn encodable(&self) -> bool {
        self matches Some(item) ==> item.encodable()
    }

    fn serialize<S: Serializer>(&self, serializer: &mut S) -> (r: Result<(), IoErrorKind>) {
        write_optional(serializer, self)
    }
}

impl<T: Deserializable> Deserializable for Option<T> {
    open spec fn parse(bytes: Seq<u8>) -> Result<int, IoErrorKind> {
        parse_optional::<T>(bytes)
    }

    fn deserialize<D: Deserializer>(deserializer: &mut D) -> (r: Result<Self, IoErrorKind>) {
        read_optional(deserializer)
    }

    proof fn lemma_parse_encoding(&self, rest: Seq<u8>) {
        let bytes = self.encoding() + rest;
        match self {
            Some(item) => {
                assert(bytes[0] == 1);
                assert(bytes.skip(1) =~= item.encoding() + rest);
                item.lemma_parse_encoding(rest);
            },
            None => {
                assert(bytes[0] == 0);
            },
        }
    }

    proof fn lemma_encoding_injective(&self, other: &Self) {
        assert(self.encoding()[0] == (if self is Some { 1u8 } else { 0u8 }));
        assert(other.encoding()[0] == (if other is Some { 1u8 } else { 0u8 }));
        match (self, other) {
            (Some(a), Some(b)) => {
                assert(a.encoding() =~= self.encoding().skip(1));
                assert(b.encoding() =~= other.encoding().skip(1));
                a.lemma_encoding_injective(b);
            },
            _ => {},
        }
    }
}

impl<T: Serializable> Serializable for Vec<T> {
    open spec fn encoding(&self) -> Seq<u8> {
        encode_list(self@)
    }

    open spec fn encodable(&self) -> bool {
        self@.len() <= u32::MAX && items_encodable(self@)
    }

    fn serialize<S: Serializer>(&self, serializer: &mut S) -> (r: Result<(), IoErrorKind>) {
        write_list(serializer, self.as_slice())
    }
}

/// The encodings of encodable items, whatever follows them, parse as exactly
/// those items.
pub proof fn lemma_parse_items_encoding<T: Deserializable>(items: Seq<T>, rest: Seq<u8>)
    requires
        items_encodable(items),
    ensures
        parse_items::<T>(encode_items(items) + rest, items.len() as int) == Ok::<
            int,
            IoErrorKind,
        >(encode_items(items).len() as int),
    decreases items.len(),
{
    if items.len() > 0 {
        let first = items.first();
        let tail = items.skip(1);
        let bytes = encode_items(items) + rest;
        assert(first.encodable());
        assert(bytes =~= first.encoding() + (encode_items(tail) + rest));
        first.lemma_parse_encoding(encode_items(tail) + rest);
        assert(bytes.skip(first.encoding().len() as int) =~= encode_items(tail) + rest);
        assert(items_encodable(tail)) by {
            assert forall|i: int| 0 <= i < tail.len() implies (#[trigger] tail[i]).encodable() by {
                assert(tail[i] == items[i + 1]);
            }
        }
        lemma_parse_items_encoding::<T>(tail, rest);
    }
}

/// Lists of encodable items with the same encodings hold the same values.
pub proof fn lemma_encode_items_injective<T: Deserializable>(a: Seq<T>, b: Seq<T>)
    requires
        items_encodable(a),
        items_encodable(b),
        a.len() == b.len(),
        encode_items(a) == encode_items(b),
    ensures
        forall|i: int| 0 <= i < a.len() ==> (#[trigger] a[i]).deep_view() == b[i].deep_view(),
    decreases a.len(),
{
    if a.len() > 0 {
        let x = a.first();
        let y = b.first();
        let ta = a.skip(1);
        let tb = b.skip(1);
        assert(x.encodable() && y.encodable());
        x.lemma_parse_encoding(encode_items(ta));
        y.lemma_parse_encoding(encode_items(tb));
        assert(x.encoding() =~= encode_items(a).subrange(0, x.encoding().len() as int));
        assert(y.encoding() =~= encode_items(b).subrange(0, y.encoding().len() as int));
        x.lemma_encoding_injective(&y);
        assert(encode_items(ta) =~= encode_items(a).skip(x.encoding().len() as int));
        assert(encode_items(tb) =~= encode_items(b).skip(y.encoding().len() as int));
        assert(items_encodable(ta)) by {
            assert forall|i: int| 0 <= i < ta.len() implies (#[trigger] ta[i]).encodable() by {
                assert(ta[i] == a[i + 1]);
            }
        }
        assert(items_encodable(tb)) by {
            assert forall|i: int| 0 <= i < tb.len() implies (#[trigger] tb[i]).encodable() by {
                assert(tb[i] == b[i + 1]);
            }
        }
        lemma_encode_items_injective::<T>(ta, tb);
        assert forall|i: int| 0 <= i < a.len() implies (#[trigger] a[i]).deep_view()
            == b[i].deep_view() by {
            if i > 0 {
                assert(a[i] == ta[i - 1]);
                assert(b[i] == tb[i - 1]);
            }
        }
    }
}

impl<T: Deserializable> Deserializable for Vec<T> {
    open spec fn parse(bytes: Seq<u8>) -> Result<int, IoErrorKind> {
        parse_list::<T>(bytes)
    }

    fn deserialize<D: Deserializer>(deserializer: &mut D) -> (r: Result<Self, IoErrorKind>) {
        read_list(deserializer)
    }

    proof fn lemma_parse_encoding(&self, rest: Seq<u8>) {
        lemma_auto_spec_u32_to_from_le_bytes();
        let bytes = self.encoding() + rest;
        let count = self@.len() as u32;
        assert(spec_u32_to_le_bytes(count).len() == 4);
        assert(bytes.subrange(0, 4) =~= spec_u32_to_le_bytes(count));
        assert(bytes.skip(4) =~= encode_items(self@) + rest);
        lemma_parse_items_encoding::<T>(self@, rest);
    }

    proof fn lemma_encoding_injective(&self, other: &Self) {
        lemma_auto_spec_u32_to_from_le_bytes();
        let ca = self@.len() as u32;
        let cb = other@.len() as u32;
        assert(spec_u32_to_le_bytes(ca).len() == 4);
        assert(spec_u32_to_le_bytes(cb).len() == 4);
        assert(self.encoding().subrange(0, 4) =~= spec_u32_to_le_bytes(ca));
        assert(other.encoding().subrange(0, 4) =~= spec_u32_to_le_bytes(cb));
        assert(ca == cb);
        assert(encode_items(self@) =~= self.encoding().skip(4));
        assert(encode_items(other@) =~= other.encoding().skip(4));
        lemma_encode_items_injective::<T>(self@, other@);
        assert(self.deep_view() =~= other.deep_view());
    }
}


/// Whatever is read back from bytes that begin with the encoding of `written`
/// is the value that was written, and what is left is what followed the
/// encoding. With `lemma_parse_encoding`, which says that such bytes do parse,
/// this is the round trip of every encodable value, a list of optional
/// strings among them.
pub proof fn lemma_round_trip<T: Deserializable>(written: &T, read: &T, rest: Seq<u8>, left: Seq<u8>)
    requires
        written.encodable(),
        read.encodable(),
        T::parse(written.encoding() + rest) == Ok::<int, IoErrorKind>(read.encoding().len() as int),
        written.encoding() + rest == read.encoding() + left,
    ensures
        read.deep_view() == written.deep_view(),
        left == rest,
{
    written.lemma_parse_encoding(rest);
    let bytes = written.encoding() + rest;
    let n = written.encoding().len() as int;
    assert(written.encoding() =~= bytes.subrange(0, n));
    assert(read.encoding() =~= bytes.subrange(0, n));
    read.lemma_encoding_injective(written);
    assert(rest =~= bytes.skip(n));
    assert(left =~= bytes.skip(n));
}

/// A sink that keeps what it is given in memory.
pub struct BufferSerializer {
    data: Vec<u8>,
}

impl BufferSerializer {
    /// The bytes collected so far.
    pub closed spec fn view(&self) -> Seq<u8> {
        self.data@
    }

    /// An empty sink.
    pub fn new() -> (r: Self)
        ensures
            r@ == Seq::<u8>::empty(),
    {
        BufferSerializer { data: Vec::new() }
    }

    /// Gives up the collected bytes.
    pub fn into_bytes(self) -> (r: Vec<u8>)
        ensures
            r@ == self@,
    {
        self.data
    }
}

impl Serializer for BufferSerializer {
    open spec fn written(&self) -> Seq<u8> {
        self@
    }

    open spec fn infallible(&self) -> bool {
        true
    }

    fn write_data(&mut self, buffer: &[u8]) -> (r: Result<(), IoErrorKind>) {
        self.data.extend_from_slice(buffer);
        Ok(())
    }
}

/// A source that reads from bytes held in memory.
pub struct BufferDeserializer {
    data: Vec<u8>,
    position: usize,
}

impl BufferDeserializer {
    #[verifier::type_invariant]
    spec fn in_bounds(&self) -> bool {
        self.position <= self.data@.len()
    }

    /// The bytes not yet read.
    pub closed spec fn view(&self) -> Seq<u8> {
        self.data@.skip(self.position as int)
    }

    /// A source positioned at the first byte of `data`.
    pub fn new(data: Vec<u8>) -> (r: Self)
        ensures
            r@ == data@,
    {
        assert(data@.skip(0) =~= data@);
        BufferDeserializer { data, position: 0 }
    }

    /// How many bytes are left.
    pub fn remaining_len(&self) -> (r: usize)
        ensures
            r == self@.len(),
    {
        proof {
            use_type_invariant(self);
        }
        self.data.len() - self.position
    }
}

impl Deserializer for BufferDeserializer {
    open spec fn remaining(&self) -> Seq<u8> {
        self@
    }

    open spec fn infallible(&self) -> bool {
        true
    }

    fn read_data(&mut self, len: usize) -> (r: Result<Vec<u8>, IoErrorKind>) {
        proof {
            use_type_invariant(&*self);
        }
        if len > self.data.len() - self.position {
            return Err(IoErrorKind::UnexpectedEof);
        }
        let start: usize = self.position;
        let bytes = slice_to_vec(slice_subrange(self.data.as_slice(), start, start + len));
        self.position = start + len;
        proof {
            assert(bytes@ =~= old(self)@.subrange(0, len as int));
            assert(self@ =~= old(self)@.skip(len as int));
        }
        Ok(bytes)
    }
}

/// The encoding of `value`, as bytes in memory.
pub fn to_bytes<T: Serializable>(value: &T) -> (r: Vec<u8>)
    requires
        value.encodable(),
    ensures
        r@ == value.encoding(),
{
    let mut sink = BufferSerializer::new();
    let outcome = value.serialize(&mut sink);
    assert(outcome is Ok);
    let bytes = sink.into_bytes();
    assert(bytes@ =~= value.encoding());
    bytes
}

/// Decodes the one value that `bytes` hold. Bytes left over after the value
/// are invalid data.
pub fn from_bytes<T: Deserializable>(bytes: Vec<u8>) -> (r: Result<T, IoErrorKind>)
    ensures
        match T::parse(bytes@) {
            Ok(n) => if n == bytes@.len() {
                r matches Ok(v) && v.encodable() && v.encoding() == bytes@
            } else {
                r == Err::<T, IoErrorKind>(IoErrorKind::InvalidData)
            },
            Err(e) => r == Err::<T, IoErrorKind>(e),
        },
{
    let mut source = BufferDeserializer::new(bytes);
    match T::deserialize(&mut source) {
        Ok(value) => {
            if source.remaining_len() == 0 {
                proof {
                    assert(bytes@ =~= value.encoding() + source@);
                    assert(bytes@ =~= value.encoding());
                }
                Ok(value)
            } else {
                Err(IoErrorKind::InvalidData)
            }
        },
        Err(e) => Err(e),
    }
}

/// `from_bytes` undoes `to_bytes`: the bytes of an encodable value parse in
/// full, and every value with those bytes is that value.
pub proof fn lemma_from_bytes_to_bytes<T: Deserializable>(value: &T, decoded: &T)
    requires
        value.encodable(),
        decoded.encodable(),
        decoded.encoding() == value.encoding(),
    ensures
        T::parse(value.encoding()) == Ok::<int, IoErrorKind>(value.encoding().len() as int),
        decoded.deep_view() == value.deep_view(),
{
    value.lemma_parse_encoding(Seq::empty());
    assert(value.encoding() + Seq::<u8>::empty() =~= value.encoding());
    decoded.lemma_encoding_injective(value);
}


/// Bytes, one after another, are their own encoding.
pub proof fn lemma_encode_bytes(bytes: Seq<u8>)
    ensures
        encode_items(bytes) == bytes,
        items_encodable(bytes),
    decreases bytes.len(),
{
    if bytes.len() > 0 {
        lemma_encode_bytes(bytes.skip(1));
        assert(bytes =~= seq![bytes.first()] + bytes.skip(1));
        assert(encode_items(bytes) =~= bytes);
    } else {
        assert(encode_items(bytes) =~= bytes);
    }
}

/// Writes a list of bytes: their number as a `u32`, then the bytes, in one
/// piece.
pub fn write_bytes<S: Serializer>(serializer: &mut S, bytes: &[u8]) -> (r: Result<(), IoErrorKind>)
    requires
        bytes@.len() <= u32::MAX,
    ensures
        final(serializer).infallible() == old(serializer).infallible(),
        old(serializer).infallible() ==> r is Ok,
        r is Ok ==> final(serializer).written() == old(serializer).written() + encode_list(bytes@),
{
    let count: usize = bytes.len();
    match serializer.write_u32(count as u32) {
        Ok(()) => {},
        Err(e) => {
            return Err(e);
        },
    }
    let r = serializer.write_data(bytes);
    proof {
        lemma_encode_bytes(bytes@);
        assert(old(serializer).written() + spec_u32_to_le_bytes(count as u32) + bytes@
            =~= old(serializer).written() + encode_list(bytes@));
    }
    r
}

/// Reads a list of bytes: their number as a `u32`, then the bytes, in one
/// piece.
pub fn read_bytes<D: Deserializer>(deserializer: &mut D) -> (r: Result<Vec<u8>, IoErrorKind>)
    ensures
        final(deserializer).infallible() == old(deserializer).infallible(),
        r matches Ok(v) ==> {
            &&& v@.len() <= u32::MAX
            &&& parse_bytes(old(deserializer).remaining()) == Ok::<int, IoErrorKind>(
                encode_list(v@).len() as int,
            )
            &&& old(deserializer).remaining() == encode_list(v@) + final(deserializer).remaining()
        },
        old(deserializer).infallible() ==> match parse_bytes(old(deserializer).remaining()) {
            Ok(_) => r is Ok,
            Err(e) => r == Err::<Vec<u8>, IoErrorKind>(e),
        },
{
    let count = match deserializer.read_u32() {
        Ok(count) => count,
        Err(e) => {
            return Err(e);
        },
    };
    let ghost after_count = deserializer.remaining();
    proof {
        lemma_auto_spec_u32_to_from_le_bytes();
        assert(after_count =~= old(deserializer).remaining().skip(4));
    }
    match deserializer.read_data(count as usize) {
        Ok(bytes) => {
            proof {
                lemma_encode_bytes(bytes@);
                assert(old(deserializer).remaining() =~= encode_list(bytes@)
                    + deserializer.remaining());
            }
            Ok(bytes)
        },
        Err(e) => Err(e),
    }
}

/// What a list of bytes takes from the front of `bytes`: four bytes of
/// count, then that many bytes.
pub open spec fn parse_bytes(bytes: Seq<u8>) -> Result<int, IoErrorKind> {
    if bytes.len() < 4 {
        Err(IoErrorKind::UnexpectedEof)
    } else {
        let count = spec_u32_from_le_bytes(bytes.subrange(0, 4)) as int;
        if bytes.len() < 4 + count {
            Err(IoErrorKind::UnexpectedEof)
        } else {
            Ok(4 + count)
        }
    }
}

/// A list of bytes parses as a list of its items does.
pub proof fn lemma_parse_bytes(bytes: Seq<u8>)
    ensures
        parse_list::<u8>(bytes) == parse_bytes(bytes),
{
    if bytes.len() >= 4 {
        let count = spec_u32_from_le_bytes(bytes.subrange(0, 4)) as int;
        lemma_parse_byte_items(bytes.skip(4), count);
    }
}

/// `count` bytes, taken as items, take `count` bytes, if there are that many.
pub proof fn lemma_parse_byte_items(bytes: Seq<u8>, count: int)
    requires
        0 <= count,
    ensures
        parse_items::<u8>(bytes, count) == if bytes.len() < count {
            Err::<int, IoErrorKind>(IoErrorKind::UnexpectedEof)
        } else {
            Ok::<int, IoErrorKind>(count)
        },
    decreases count,
{
    if count > 0 {
        if bytes.len() >= 1 {
            lemma_parse_byte_items(bytes.skip(1), count - 1);
        }
    }
}

} // verus!
