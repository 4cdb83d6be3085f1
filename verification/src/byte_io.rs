//! In-memory byte sources and the endian-parametric primitive codec.
//!
//! Everything the library reads comes through a [`ByteCursor`], a slice of
//! bytes with an explicit position; everything it writes is appended to a
//! `Vec<u8>`.  The specification-level encodings build on the little-endian
//! byte functions of `vstd::bytes`; a big-endian encoding is the reverse of
//! the little-endian one.

use vstd::bytes::*;
use vstd::prelude::*;
use vstd::slice::*;
use vstd::string::StringSliceAdditionalSpecFns;

use crate::error::TdmsError;

verus! {

/// A random-access, in-memory byte source with an explicit position.
pub struct ByteCursor {
    pub data: Vec<u8>,
    pub pos: usize,
}

impl ByteCursor {
    /// A cursor is well formed when its position lies within its bytes.
    pub open spec fn wf(&self) -> bool {
        self.pos <= self.data@.len()
    }

    /// A cursor over the given bytes, positioned at the start.
    pub fn new(data: Vec<u8>) -> (c: ByteCursor)
        ensures
            c.data == data,
            c.pos == 0,
            c.wf(),
    {
        ByteCursor { data, pos: 0 }
    }

    /// Move the position to an absolute offset; fails past the end.
    pub fn seek_to(&mut self, to: u64) -> (r: Result<(), TdmsError>)
        requires
            old(self).wf(),
        ensures
            final(self).data == old(self).data,
            final(self).wf(),
            match r {
                Ok(()) => to <= old(self).data@.len() && final(self).pos == to,
                Err(e) => e == TdmsError::IoError && to > old(self).data@.len() && final(self).pos
                    == old(self).pos,
            },
    {
        if to <= self.data.len() as u64 {
            self.pos = to as usize;
            Ok(())
        } else {
            Err(TdmsError::IoError)
        }
    }

    /// The byte at the position; advances by one.
    pub fn read_byte(&mut self) -> (r: Result<u8, TdmsError>)
        requires
            old(self).wf(),
        ensures
            final(self).data == old(self).data,
            final(self).wf(),
            match r {
                Ok(b) => old(self).pos < old(self).data@.len() && final(self).pos == old(self).pos
                    + 1 && b == old(self).data@[old(self).pos as int],
                Err(e) => e == TdmsError::IoError && old(self).pos >= old(self).data@.len()
                    && final(self).pos == old(self).pos,
            },
    {
        if self.pos < self.data.len() {
            let b = self.data[self.pos];
            self.pos = self.pos + 1;
            Ok(b)
        } else {
            Err(TdmsError::IoError)
        }
    }

    /// Copy the next `n` bytes out and advance; fails past the end.
    pub fn take_bytes(&mut self, n: usize) -> (r: Result<Vec<u8>, TdmsError>)
        requires
            old(self).wf(),
        ensures
            final(self).data == old(self).data,
            final(self).wf(),
            match r {
                Ok(v) => {
                    &&& old(self).pos + n <= old(self).data@.len()
                    &&& final(self).pos == old(self).pos + n
                    &&& v@ == old(self).data@.subrange(
                        old(self).pos as int,
                        old(self).pos + n as int,
                    )
                },
                Err(e) => e == TdmsError::IoError && old(self).pos + n > old(self).data@.len()
                    && final(self).pos == old(self).pos,
            },
    {
        if n <= self.data.len() && self.pos <= self.data.len() - n {
            let s = slice_subrange(self.data.as_slice(), self.pos, self.pos + n);
            let v = slice_to_vec(s);
            self.pos = self.pos + n;
            Ok(v)
        } else {
            Err(TdmsError::IoError)
        }
    }
}

/// The little-endian encoding of a 32-bit value.
pub open spec fn le32(x: u32) -> Seq<u8> {
    spec_u32_to_le_bytes(x)
}

/// The big-endian encoding of a 32-bit value.
pub open spec fn be32(x: u32) -> Seq<u8> {
    spec_u32_to_le_bytes(x).reverse()
}

/// The little-endian encoding of a 64-bit value.
pub open spec fn le64(x: u64) -> Seq<u8> {
    spec_u64_to_le_bytes(x)
}

/// The big-endian encoding of a 64-bit value.
pub open spec fn be64(x: u64) -> Seq<u8> {
    spec_u64_to_le_bytes(x).reverse()
}

/// The 32-bit value stored by four little-endian bytes.
pub open spec fn from_le32(s: Seq<u8>) -> u32 {
    spec_u32_from_le_bytes(s)
}

/// The 32-bit value stored by four big-endian bytes.
pub open spec fn from_be32(s: Seq<u8>) -> u32 {
    spec_u32_from_le_bytes(s.reverse())
}

/// The 64-bit value stored by eight little-endian bytes.
pub open spec fn from_le64(s: Seq<u8>) -> u64 {
    spec_u64_from_le_bytes(s)
}

/// The 64-bit value stored by eight big-endian bytes.
pub open spec fn from_be64(s: Seq<u8>) -> u64 {
    spec_u64_from_le_bytes(s.reverse())
}

/// Encoding then decoding a 32-bit value is the identity, and so is
/// decoding then re-encoding four bytes, in both byte orders.
pub proof fn lemma_codec32(x: u32, s: Seq<u8>)
    ensures
        le32(x).len() == 4,
        be32(x).len() == 4,
        from_le32(le32(x)) == x,
        from_be32(be32(x)) == x,
        s.len() == 4 ==> le32(from_le32(s)) == s,
        s.len() == 4 ==> be32(from_be32(s)) == s,
{
    lemma_auto_spec_u32_to_from_le_bytes();
    lemma_reverse_involution(le32(x));
    lemma_reverse_involution(s);
    if s.len() == 4 {
        assert(s.reverse().len() == 4);
    }
}

/// Encoding then decoding a 64-bit value is the identity, and so is
/// decoding then re-encoding eight bytes, in both byte orders.
pub proof fn lemma_codec64(x: u64, s: Seq<u8>)
    ensures
        le64(x).len() == 8,
        be64(x).len() == 8,
        from_le64(le64(x)) == x,
        from_be64(be64(x)) == x,
        s.len() == 8 ==> le64(from_le64(s)) == s,
        s.len() == 8 ==> be64(from_be64(s)) == s,
{
    lemma_auto_spec_u64_to_from_le_bytes();
    lemma_reverse_involution(le64(x));
    lemma_reverse_involution(s);
    if s.len() == 8 {
        assert(s.reverse().len() == 8);
    }
}

/// The unsigned 32-bit pattern that stores a signed 32-bit value in
/// two's complement.
pub open spec fn i32_bits(x: i32) -> u32 {
    if x >= 0 {
        x as u32
    } else {
        (x + 0x1_0000_0000) as u32
    }
}

/// The signed 32-bit value stored by an unsigned two's-complement pattern.
pub open spec fn i32_of_bits(u: u32) -> i32 {
    if u < 0x8000_0000 {
        u as i32
    } else {
        (u - 0x1_0000_0000) as i32
    }
}

/// Reversing a sequence twice gives the sequence back.
pub proof fn lemma_reverse_involution<A>(s: Seq<A>)
    ensures
        s.reverse().reverse() == s,
{
    assert(s.reverse().reverse() =~= s);
}

/// Append the bytes of `v` to `sink` in reverse order.
fn push_reversed(sink: &mut Vec<u8>, v: &Vec<u8>)
    ensures
        final(sink)@ == old(sink)@ + v@.reverse(),
{
    let n = v.len();
    let mut i: usize = 0;
    while i < n
        invariant
            n == v@.len(),
            i <= n,
            sink@ == old(sink)@ + v@.reverse().take(i as int),
        decreases n - i,
    {
        sink.push(v[n - 1 - i]);
        assert(v@.reverse().take(i + 1 as int) =~= v@.reverse().take(i as int).push(
            v@[n - 1 - i as int],
        ));
        i = i + 1;
    }
    assert(v@.reverse().take(n as int) =~= v@.reverse());
}

/// Append a copy of the given bytes.
pub fn append_bytes(sink: &mut Vec<u8>, bytes: &[u8])
    ensures
        final(sink)@ == old(sink)@ + bytes@,
{
    let n = bytes.len();
    let mut i: usize = 0;
    while i < n
        invariant
            n == bytes@.len(),
            i <= n,
            sink@ == old(sink)@ + bytes@.take(i as int),
        decreases n - i,
    {
        sink.push(bytes[i]);
        assert(bytes@.take(i + 1 as int) =~= bytes@.take(i as int).push(bytes@[i as int]));
        i = i + 1;
    }
    assert(bytes@.take(n as int) =~= bytes@);
}

/// Append one byte.
pub fn write_u8(sink: &mut Vec<u8>, x: u8)
    ensures
        final(sink)@ == old(sink)@ + seq![x],
{
    sink.push(x);
    assert(sink@ =~= old(sink)@ + seq![x]);
}

/// Append a 32-bit value little-endian.
pub fn write_u32_le(sink: &mut Vec<u8>, x: u32)
    ensures
        final(sink)@ == old(sink)@ + le32(x),
{
    let mut b = u32_to_le_bytes(x);
    sink.append(&mut b);
}

/// Append a 32-bit value big-endian.
pub fn write_u32_be(sink: &mut Vec<u8>, x: u32)
    ensures
        final(sink)@ == old(sink)@ + be32(x),
{
    let b = u32_to_le_bytes(x);
    push_reversed(sink, &b);
}

/// Append a 64-bit value little-endian.
pub fn write_u64_le(sink: &mut Vec<u8>, x: u64)
    ensures
        final(sink)@ == old(sink)@ + le64(x),
{
    let mut b = u64_to_le_bytes(x);
    sink.append(&mut b);
}

/// Append a 64-bit value big-endian.
pub fn write_u64_be(sink: &mut Vec<u8>, x: u64)
    ensures
        final(sink)@ == old(sink)@ + be64(x),
{
    let b = u64_to_le_bytes(x);
    push_reversed(sink, &b);
}

/// The unsigned two's-complement pattern of a signed 32-bit value.
pub fn i32_to_bits(x: i32) -> (u: u32)
    ensures
        u == i32_bits(x),
{
    if x >= 0 {
        x as u32
    } else {
        ((x as i64) + 0x1_0000_0000) as u32
    }
}

/// The signed 32-bit value of an unsigned two's-complement pattern.
pub fn i32_from_bits(u: u32) -> (x: i32)
    ensures
        x == i32_of_bits(u),
{
    if u < 0x8000_0000 {
        u as i32
    } else {
        ((u as i64) - 0x1_0000_0000) as i32
    }
}

/// Read a 32-bit value little-endian.
pub fn read_u32_le(c: &mut ByteCursor) -> (r: Result<u32, TdmsError>)
    requires
        old(c).wf(),
    ensures
        final(c).data == old(c).data,
        final(c).wf(),
        match r {
            Ok(x) => {
                &&& old(c).pos + 4 <= old(c).data@.len()
                &&& final(c).pos == old(c).pos + 4
                &&& le32(x) == old(c).data@.subrange(old(c).pos as int, old(c).pos + 4)
            },
            Err(e) => e == TdmsError::IoError && old(c).pos + 4 > old(c).data@.len() && final(c).pos
                == old(c).pos,
        },
{
    let b = c.take_bytes(4)?;
    let x = u32_from_le_bytes(b.as_slice());
    proof {
        lemma_auto_spec_u32_to_from_le_bytes();
    }
    Ok(x)
}

/// Read a 32-bit value big-endian.
pub fn read_u32_be(c: &mut ByteCursor) -> (r: Result<u32, TdmsError>)
    requires
        old(c).wf(),
    ensures
        final(c).data == old(c).data,
        final(c).wf(),
        match r {
            Ok(x) => {
                &&& old(c).pos + 4 <= old(c).data@.len()
                &&& final(c).pos == old(c).pos + 4
                &&& be32(x) == old(c).data@.subrange(old(c).pos as int, old(c).pos + 4)
            },
            Err(e) => e == TdmsError::IoError && old(c).pos + 4 > old(c).data@.len() && final(c).pos
                == old(c).pos,
        },
{
    let b = c.take_bytes(4)?;
    let mut rev: Vec<u8> = Vec::new();
    push_reversed(&mut rev, &b);
    assert(rev@ =~= b@.reverse());
    let x = u32_from_le_bytes(rev.as_slice());
    proof {
        lemma_auto_spec_u32_to_from_le_bytes();
        lemma_reverse_involution(b@);
    }
    Ok(x)
}

/// Read a 64-bit value little-endian.
pub fn read_u64_le(c: &mut ByteCursor) -> (r: Result<u64, TdmsError>)
    requires
        old(c).wf(),
    ensures
        final(c).data == old(c).data,
        final(c).wf(),
        match r {
            Ok(x) => {
                &&& old(c).pos + 8 <= old(c).data@.len()
                &&& final(c).pos == old(c).pos + 8
                &&& le64(x) == old(c).data@.subrange(old(c).pos as int, old(c).pos + 8)
            },
            Err(e) => e == TdmsError::IoError && old(c).pos + 8 > old(c).data@.len() && final(c).pos
                == old(c).pos,
        },
{
    let b = c.take_bytes(8)?;
    let x = u64_from_le_bytes(b.as_slice());
    proof {
        lemma_auto_spec_u64_to_from_le_bytes();
    }
    Ok(x)
}

/// Read a 64-bit value big-endian.
pub fn read_u64_be(c: &mut ByteCursor) -> (r: Result<u64, TdmsError>)
    requires
        old(c).wf(),
    ensures
        final(c).data == old(c).data,
        final(c).wf(),
        match r {
            Ok(x) => {
                &&& old(c).pos + 8 <= old(c).data@.len()
                &&& final(c).pos == old(c).pos + 8
                &&& be64(x) == old(c).data@.subrange(old(c).pos as int, old(c).pos + 8)
            },
            Err(e) => e == TdmsError::IoError && old(c).pos + 8 > old(c).data@.len() && final(c).pos
                == old(c).pos,
        },
{
    let b = c.take_bytes(8)?;
    let mut rev: Vec<u8> = Vec::new();
    push_reversed(&mut rev, &b);
    assert(rev@ =~= b@.reverse());
    let x = u64_from_le_bytes(rev.as_slice());
    proof {
        lemma_auto_spec_u64_to_from_le_bytes();
        lemma_reverse_involution(b@);
    }
    Ok(x)
}

/// The chosen-endianness encoding of a 32-bit value.
pub open spec fn enc32(x: u32, big_endian: bool) -> Seq<u8> {
    if big_endian {
        be32(x)
    } else {
        le32(x)
    }
}

/// The chosen-endianness encoding of a 64-bit value.
pub open spec fn enc64(x: u64, big_endian: bool) -> Seq<u8> {
    if big_endian {
        be64(x)
    } else {
        le64(x)
    }
}

/// Append a 32-bit value in the chosen byte order.
pub fn write_u32_endian(sink: &mut Vec<u8>, x: u32, big_endian: bool)
    ensures
        final(sink)@ == old(sink)@ + enc32(x, big_endian),
{
    if big_endian {
        write_u32_be(sink, x);
    } else {
        write_u32_le(sink, x);
    }
}

/// Append a 64-bit value in the chosen byte order.
pub fn write_u64_endian(sink: &mut Vec<u8>, x: u64, big_endian: bool)
    ensures
        final(sink)@ == old(sink)@ + enc64(x, big_endian),
{
    if big_endian {
        write_u64_be(sink, x);
    } else {
        write_u64_le(sink, x);
    }
}

/// Whether two byte slices hold the same bytes.
pub fn bytes_eq(a: &[u8], b: &[u8]) -> (r: bool)
    ensures
        r == (a@ == b@),
{
    if a.len() != b.len() {
        proof {
            assert(a@ != b@);
        }
        return false;
    }
    let n = a.len();
    let mut i: usize = 0;
    while i < n
        invariant
            n == a@.len() && n == b@.len(),
            i <= n,
            forall|j: int| 0 <= j < i ==> a@[j] == b@[j],
        decreases n - i,
    {
        if a[i] != b[i] {
            return false;
        }
        i = i + 1;
    }
    proof {
        assert(a@ =~= b@);
    }
    true
}

/// Whether two strings hold the same characters.
pub fn str_eq(a: &str, b: &str) -> (r: bool)
    ensures
        r == (a@ == b@),
{
    let r = bytes_eq(a.as_bytes(), b.as_bytes());
    proof {
        if a.spec_bytes() == b.spec_bytes() {
            vstd::utf8::encode_utf8_decode_utf8(a@);
            vstd::utf8::encode_utf8_decode_utf8(b@);
        }
    }
    r
}

} // verus!
