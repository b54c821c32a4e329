//! Fixed-width integers read from byte slices, through `byteorder`.
use byteorder::{BigEndian, ByteOrder, LittleEndian};
use crate::error::ChimeError;
use vstd::prelude::*;

verus! {

/// The big-endian value of the two bytes at `p`.
pub open spec fn be16(s: Seq<u8>, p: int) -> int {
    s[p] * 256 + s[p + 1]
}

/// The big-endian value of the four bytes at `p`.
pub open spec fn be32(s: Seq<u8>, p: int) -> int {
    be16(s, p) * 65536 + be16(s, p + 2)
}

/// The big-endian value of the eight bytes at `p`.
pub open spec fn be64(s: Seq<u8>, p: int) -> int {
    be32(s, p) * 4294967296 + be32(s, p + 4)
}

/// The little-endian value of the two bytes at `p`.
pub open spec fn le16(s: Seq<u8>, p: int) -> int {
    s[p] + s[p + 1] * 256
}

/// The little-endian value of the four bytes at `p`.
pub open spec fn le32(s: Seq<u8>, p: int) -> int {
    le16(s, p) + le16(s, p + 2) * 65536
}

/// The little-endian value of the eight bytes at `p`.
pub open spec fn le64(s: Seq<u8>, p: int) -> int {
    le32(s, p) + le32(s, p + 4) * 4294967296
}

/// `byteorder::BigEndian::read_u16` on the bytes from `pos`: the two bytes
/// there, most significant first. It panics on fewer than two bytes, which
/// `requires` rules out.
#[verifier::external_body]
pub(crate) fn read_be_u16(data: &[u8], pos: usize) -> (v: u16)
    requires
        pos + 2 <= data.len(),
    ensures
        v == be16(data@, pos as int),
{
    BigEndian::read_u16(&data[pos..])
}

/// `byteorder::BigEndian::read_u32` on the bytes from `pos`: the four bytes
/// there, most significant first.
#[verifier::external_body]
pub(crate) fn read_be_u32(data: &[u8], pos: usize) -> (v: u32)
    requires
        pos + 4 <= data.len(),
    ensures
        v == be32(data@, pos as int),
{
    BigEndian::read_u32(&data[pos..])
}

/// `byteorder::BigEndian::read_u64` on the bytes from `pos`: the eight bytes
/// there, most significant first.
#[verifier::external_body]
pub(crate) fn read_be_u64(data: &[u8], pos: usize) -> (v: u64)
    requires
        pos + 8 <= data.len(),
    ensures
        v == be64(data@, pos as int),
{
    BigEndian::read_u64(&data[pos..])
}

/// `byteorder::LittleEndian::read_u16` on the bytes from `pos`: the two bytes
/// there, least significant first.
#[verifier::external_body]
pub(crate) fn read_le_u16(data: &[u8], pos: usize) -> (v: u16)
    requires
        pos + 2 <= data.len(),
    ensures
        v == le16(data@, pos as int),
{
    LittleEndian::read_u16(&data[pos..])
}

/// `byteorder::LittleEndian::read_u32` on the bytes from `pos`: the four bytes
/// there, least significant first.
#[verifier::external_body]
pub(crate) fn read_le_u32(data: &[u8], pos: usize) -> (v: u32)
    requires
        pos + 4 <= data.len(),
    ensures
        v == le32(data@, pos as int),
{
    LittleEndian::read_u32(&data[pos..])
}

/// `byteorder::LittleEndian::read_u64` on the bytes from `pos`: the eight
/// bytes there, least significant first.
#[verifier::external_body]
pub(crate) fn read_le_u64(data: &[u8], pos: usize) -> (v: u64)
    requires
        pos + 8 <= data.len(),
    ensures
        v == le64(data@, pos as int),
{
    LittleEndian::read_u64(&data[pos..])
}

/// Whether the four bytes at `pos` are `tag`.
pub open spec fn has_tag(s: Seq<u8>, pos: int, tag: [u8; 4]) -> bool {
    &&& 0 <= pos
    &&& pos + 4 <= s.len()
    &&& s[pos] == tag[0]
    &&& s[pos + 1] == tag[1]
    &&& s[pos + 2] == tag[2]
    &&& s[pos + 3] == tag[3]
}

/// Tests whether the four bytes at `pos` are `tag`, given that they exist.
pub(crate) fn tag_at(data: &[u8], pos: usize, tag: [u8; 4]) -> (b: bool)
    requires
        pos + 4 <= data.len(),
    ensures
        b == has_tag(data@, pos as int, tag),
{
    data[pos] == tag[0] && data[pos + 1] == tag[1] && data[pos + 2] == tag[2] && data[pos + 3]
        == tag[3]
}

/// Copies `len` bytes from `pos`.
pub(crate) fn copy_bytes(data: &[u8], pos: usize, len: usize) -> (v: Vec<u8>)
    requires
        pos + len <= data.len(),
    ensures
        v@ == data@.subrange(pos as int, pos + len),
{
    vstd::slice::slice_to_vec(&data[pos..pos + len])
}

/// A read position in a byte slice, for readers that consume bytes in order.
pub struct ByteCursor<'a> {
    data: &'a [u8],
    pos: usize,
}

impl<'a> ByteCursor<'a> {
    #[verifier::type_invariant]
    spec fn inv(self) -> bool {
        self.pos <= self.data@.len()
    }

    /// The bytes being read.
    pub closed spec fn bytes(self) -> Seq<u8> {
        self.data@
    }

    /// The index of the next byte to read.
    pub closed spec fn pos(self) -> nat {
        self.pos as nat
    }

    /// A cursor at the first byte of `data`.
    pub fn new(data: &'a [u8]) -> (c: Self)
        ensures
            c.bytes() == data@,
            c.pos() == 0,
    {
        ByteCursor { data, pos: 0 }
    }

    /// The index of the next byte to read; at most the length of the bytes.
    pub fn position(&self) -> (p: usize)
        ensures
            p == self.pos(),
            p <= self.bytes().len(),
    {
        proof {
            use_type_invariant(self);
        }
        self.pos
    }

    /// Reads four bytes as a big-endian u32. When fewer remain, the cursor
    /// moves to the end and the read fails.
    pub fn read_u32_be(&mut self) -> (r: Result<u32, ChimeError>)
        ensures
            final(self).bytes() == old(self).bytes(),
            old(self).pos() + 4 <= old(self).bytes().len() ==> r == Ok::<u32, ChimeError>(
                be32(old(self).bytes(), old(self).pos() as int) as u32,
            ) && final(self).pos() == old(self).pos() + 4,
            old(self).pos() + 4 > old(self).bytes().len() ==> r == Err::<u32, ChimeError>(
                ChimeError::Io,
            ) && final(self).pos() == old(self).bytes().len(),
    {
        proof {
            use_type_invariant(&*self);
        }
        if self.data.len() - self.pos >= 4 {
            let v = read_be_u32(self.data, self.pos);
            self.pos = self.pos + 4;
            Ok(v)
        } else {
            self.pos = self.data.len();
            Err(ChimeError::Io)
        }
    }

    /// Reads one byte, if one remains.
    pub fn read_byte(&mut self) -> (r: Option<u8>)
        ensures
            final(self).bytes() == old(self).bytes(),
            old(self).pos() < old(self).bytes().len() ==> r == Some(
                old(self).bytes()[old(self).pos() as int],
            ) && final(self).pos() == old(self).pos() + 1,
            old(self).pos() >= old(self).bytes().len() ==> r is None && final(self).pos()
                == old(self).pos(),
    {
        proof {
            use_type_invariant(&*self);
        }
        if self.pos < self.data.len() {
            let b = self.data[self.pos];
            self.pos = self.pos + 1;
            Some(b)
        } else {
            None
        }
    }
}

} // verus!
