//! Big-endian byte encodings of the fixed-width integers used on the wire,
//! together with a cursor for reading them back off a byte buffer.

use vstd::prelude::*;

verus! {

// ---------------------------------------------------------------------------
// Specification-level big-endian encodings.
// ---------------------------------------------------------------------------

pub open spec fn u16_be_bytes(v: u16) -> Seq<u8> {
    seq![((v >> 8) & 0xff) as u8, (v & 0xff) as u8]
}

pub open spec fn u32_be_bytes(v: u32) -> Seq<u8> {
    seq![
        ((v >> 24) & 0xff) as u8,
        ((v >> 16) & 0xff) as u8,
        ((v >> 8) & 0xff) as u8,
        (v & 0xff) as u8,
    ]
}

pub open spec fn u64_be_bytes(v: u64) -> Seq<u8> {
    seq![
        ((v >> 56) & 0xff) as u8,
        ((v >> 48) & 0xff) as u8,
        ((v >> 40) & 0xff) as u8,
        ((v >> 32) & 0xff) as u8,
        ((v >> 24) & 0xff) as u8,
        ((v >> 16) & 0xff) as u8,
        ((v >> 8) & 0xff) as u8,
        (v & 0xff) as u8,
    ]
}

pub open spec fn u16_from_be(s: Seq<u8>) -> u16 {
    ((s[0] as u16) << 8 | (s[1] as u16)) as u16
}

pub open spec fn u32_from_be(s: Seq<u8>) -> u32 {
    ((s[0] as u32) << 24 | (s[1] as u32) << 16 | (s[2] as u32) << 8 | (s[3] as u32)) as u32
}

pub open spec fn u64_from_be(s: Seq<u8>) -> u64 {
    ((s[0] as u64) << 56 | (s[1] as u64) << 48 | (s[2] as u64) << 40 | (s[3] as u64) << 32 | (
    s[4] as u64) << 24 | (s[5] as u64) << 16 | (s[6] as u64) << 8 | (s[7] as u64)) as u64
}

/// The signed types are carried on the wire as their two's-complement
/// reinterpretation in the unsigned type of the same width.
pub open spec fn i16_be_bytes(v: i16) -> Seq<u8> {
    u16_be_bytes(v as u16)
}

pub open spec fn i32_be_bytes(v: i32) -> Seq<u8> {
    u32_be_bytes(v as u32)
}

pub open spec fn i64_be_bytes(v: i64) -> Seq<u8> {
    u64_be_bytes(v as u64)
}

pub open spec fn i16_from_be(s: Seq<u8>) -> i16 {
    u16_from_be(s) as i16
}

pub open spec fn i32_from_be(s: Seq<u8>) -> i32 {
    u32_from_be(s) as i32
}

pub open spec fn i64_from_be(s: Seq<u8>) -> i64 {
    u64_from_be(s) as i64
}

// ---------------------------------------------------------------------------
// Round-trip lemmas.
// ---------------------------------------------------------------------------

pub proof fn lemma_u16_be_round_trip(v: u16)
    ensures
        u16_from_be(u16_be_bytes(v)) == v,
{
    let b0 = ((v >> 8) & 0xff) as u8;
    let b1 = (v & 0xff) as u8;
    assert(b0 == ((v >> 8) & 0xff) as u8 && b1 == (v & 0xff) as u8 ==> ((b0 as u16) << 8 | (
    b1 as u16)) as u16 == v) by (bit_vector);
}

pub proof fn lemma_u32_be_round_trip(v: u32)
    ensures
        u32_from_be(u32_be_bytes(v)) == v,
{
    let b0 = ((v >> 24) & 0xff) as u8;
    let b1 = ((v >> 16) & 0xff) as u8;
    let b2 = ((v >> 8) & 0xff) as u8;
    let b3 = (v & 0xff) as u8;
    assert(b0 == ((v >> 24) & 0xff) as u8 && b1 == ((v >> 16) & 0xff) as u8 && b2 == ((v >> 8)
        & 0xff) as u8 && b3 == (v & 0xff) as u8 ==> ((b0 as u32) << 24 | (b1 as u32) << 16 | (
    b2 as u32) << 8 | (b3 as u32)) as u32 == v) by (bit_vector);
}

pub proof fn lemma_u64_be_round_trip(v: u64)
    ensures
        u64_from_be(u64_be_bytes(v)) == v,
{
    let b0 = ((v >> 56) & 0xff) as u8;
    let b1 = ((v >> 48) & 0xff) as u8;
    let b2 = ((v >> 40) & 0xff) as u8;
    let b3 = ((v >> 32) & 0xff) as u8;
    let b4 = ((v >> 24) & 0xff) as u8;
    let b5 = ((v >> 16) & 0xff) as u8;
    let b6 = ((v >> 8) & 0xff) as u8;
    let b7 = (v & 0xff) as u8;
    assert(b0 == ((v >> 56) & 0xff) as u8 && b1 == ((v >> 48) & 0xff) as u8 && b2 == ((v >> 40)
        & 0xff) as u8 && b3 == ((v >> 32) & 0xff) as u8 && b4 == ((v >> 24) & 0xff) as u8 && b5 == (
    (v >> 16) & 0xff) as u8 && b6 == ((v >> 8) & 0xff) as u8 && b7 == (v & 0xff) as u8 ==> ((
    b0 as u64) << 56 | (b1 as u64) << 48 | (b2 as u64) << 40 | (b3 as u64) << 32 | (b4 as u64)
        << 24 | (b5 as u64) << 16 | (b6 as u64) << 8 | (b7 as u64)) as u64 == v) by (bit_vector);
}

pub proof fn lemma_i16_be_round_trip(v: i16)
    ensures
        i16_from_be(i16_be_bytes(v)) == v,
{
    lemma_u16_be_round_trip(v as u16);
    assert((v as u16) as i16 == v) by (bit_vector);
}

pub proof fn lemma_i32_be_round_trip(v: i32)
    ensures
        i32_from_be(i32_be_bytes(v)) == v,
{
    lemma_u32_be_round_trip(v as u32);
    assert((v as u32) as i32 == v) by (bit_vector);
}

pub proof fn lemma_i64_be_round_trip(v: i64)
    ensures
        i64_from_be(i64_be_bytes(v)) == v,
{
    lemma_u64_be_round_trip(v as u64);
    assert((v as u64) as i64 == v) by (bit_vector);
}

// ---------------------------------------------------------------------------
// Writing: appending big-endian bytes to a growable buffer.
// ---------------------------------------------------------------------------

pub fn write_u8(out: &mut Vec<u8>, v: u8)
    ensures
        final (out)@ == old(out)@.push(v),
{
    out.push(v);
}

pub fn write_u16_be(out: &mut Vec<u8>, v: u16)
    ensures
        final (out)@ == old(out)@ + u16_be_bytes(v),
{
    out.push(((v >> 8) & 0xff) as u8);
    out.push((v & 0xff) as u8);
    assert(out@ =~= old(out)@ + u16_be_bytes(v));
}

pub fn write_u32_be(out: &mut Vec<u8>, v: u32)
    ensures
        final (out)@ == old(out)@ + u32_be_bytes(v),
{
    out.push(((v >> 24) & 0xff) as u8);
    out.push(((v >> 16) & 0xff) as u8);
    out.push(((v >> 8) & 0xff) as u8);
    out.push((v & 0xff) as u8);
    assert(out@ =~= old(out)@ + u32_be_bytes(v));
}

pub fn write_u64_be(out: &mut Vec<u8>, v: u64)
    ensures
        final (out)@ == old(out)@ + u64_be_bytes(v),
{
    out.push(((v >> 56) & 0xff) as u8);
    out.push(((v >> 48) & 0xff) as u8);
    out.push(((v >> 40) & 0xff) as u8);
    out.push(((v >> 32) & 0xff) as u8);
    out.push(((v >> 24) & 0xff) as u8);
    out.push(((v >> 16) & 0xff) as u8);
    out.push(((v >> 8) & 0xff) as u8);
    out.push((v & 0xff) as u8);
    assert(out@ =~= old(out)@ + u64_be_bytes(v));
}

pub fn write_i16_be(out: &mut Vec<u8>, v: i16)
    ensures
        final (out)@ == old(out)@ + i16_be_bytes(v),
{
    write_u16_be(out, #[verifier::truncate] (v as u16));
}

pub fn write_i32_be(out: &mut Vec<u8>, v: i32)
    ensures
        final (out)@ == old(out)@ + i32_be_bytes(v),
{
    write_u32_be(out, #[verifier::truncate] (v as u32));
}

pub fn write_i64_be(out: &mut Vec<u8>, v: i64)
    ensures
        final (out)@ == old(out)@ + i64_be_bytes(v),
{
    write_u64_be(out, #[verifier::truncate] (v as u64));
}

// ---------------------------------------------------------------------------
// Reading: a cursor over an owned byte buffer.
// ---------------------------------------------------------------------------

/// A read cursor over a byte buffer. Reads never mutate the underlying
/// bytes; they only advance the position.
pub struct ByteReader {
    data: Vec<u8>,
    pos: usize,
}

impl ByteReader {
    /// The bytes not yet consumed.
    pub closed spec fn remaining(self) -> Seq<u8> {
        self.data@.skip(self.pos as int)
    }

    pub closed spec fn wf(self) -> bool {
        self.pos <= self.data@.len()
    }

    pub closed spec fn all_bytes(self) -> Seq<u8> {
        self.data@
    }

    pub closed spec fn position(self) -> int {
        self.pos as int
    }

    pub fn new(data: Vec<u8>) -> (r: ByteReader)
        ensures
            r.wf(),
            r.remaining() == data@,
            r.all_bytes() == data@,
            r.position() == 0,
    {
        let r = ByteReader { data, pos: 0 };
        assert(r.remaining() =~= r.data@);
        r
    }

    pub fn remaining_len(&self) -> (n: usize)
        requires
            self.wf(),
        ensures
            n == self.remaining().len(),
    {
        self.data.len() - self.pos
    }

    pub fn read_u8(&mut self) -> (r: Option<u8>)
        requires
            old(self).wf(),
        ensures
            final (self).wf(),
            final (self).all_bytes() == old(self).all_bytes(),
            old(self).remaining().len() >= 1 ==> r == Some(old(self).remaining()[0]) && final (
            self).remaining() == old(self).remaining().skip(1),
            old(self).remaining().len() < 1 ==> r is None && *final(self) == *old(self),
    {
        if self.pos < self.data.len() {
            let b = self.data[self.pos];
            self.pos = self.pos + 1;
            assert(self.remaining() =~= old(self).remaining().skip(1));
            Some(b)
        } else {
            None
        }
    }

    pub fn read_u32_be(&mut self) -> (r: Option<u32>)
        requires
            old(self).wf(),
        ensures
            final (self).wf(),
            final (self).all_bytes() == old(self).all_bytes(),
            old(self).remaining().len() >= 4 ==> r == Some(u32_from_be(old(self).remaining()))
                && final (self).remaining() == old(self).remaining().skip(4),
            old(self).remaining().len() < 4 ==> r is None && *final(self) == *old(self),
    {
        if self.data.len() - self.pos >= 4 {
            let b0 = self.data[self.pos];
            let b1 = self.data[self.pos + 1];
            let b2 = self.data[self.pos + 2];
            let b3 = self.data[self.pos + 3];
            self.pos = self.pos + 4;
            let v = (b0 as u32) << 24 | (b1 as u32) << 16 | (b2 as u32) << 8 | (b3 as u32);
            assert(self.remaining() =~= old(self).remaining().skip(4));
            Some(v)
        } else {
            None
        }
    }

    pub fn read_u16_be(&mut self) -> (r: Option<u16>)
        requires
            old(self).wf(),
        ensures
            final (self).wf(),
            final (self).all_bytes() == old(self).all_bytes(),
            old(self).remaining().len() >= 2 ==> r == Some(u16_from_be(old(self).remaining()))
                && final (self).remaining() == old(self).remaining().skip(2),
            old(self).remaining().len() < 2 ==> r is None && *final(self) == *old(self),
    {
        if self.data.len() - self.pos >= 2 {
            let b0 = self.data[self.pos];
            let b1 = self.data[self.pos + 1];
            self.pos = self.pos + 2;
            let v = (b0 as u16) << 8 | (b1 as u16);
            assert(self.remaining() =~= old(self).remaining().skip(2));
            Some(v)
        } else {
            None
        }
    }

    pub fn read_u64_be(&mut self) -> (r: Option<u64>)
        requires
            old(self).wf(),
        ensures
            final (self).wf(),
            final (self).all_bytes() == old(self).all_bytes(),
            old(self).remaining().len() >= 8 ==> r == Some(u64_from_be(old(self).remaining()))
                && final (self).remaining() == old(self).remaining().skip(8),
            old(self).remaining().len() < 8 ==> r is None && *final(self) == *old(self),
    {
        if self.data.len() - self.pos >= 8 {
            let b0 = self.data[self.pos];
            let b1 = self.data[self.pos + 1];
            let b2 = self.data[self.pos + 2];
            let b3 = self.data[self.pos + 3];
            let b4 = self.data[self.pos + 4];
            let b5 = self.data[self.pos + 5];
            let b6 = self.data[self.pos + 6];
            let b7 = self.data[self.pos + 7];
            self.pos = self.pos + 8;
            let v = (b0 as u64) << 56 | (b1 as u64) << 48 | (b2 as u64) << 40 | (b3 as u64) << 32
                | (b4 as u64) << 24 | (b5 as u64) << 16 | (b6 as u64) << 8 | (b7 as u64);
            assert(self.remaining() =~= old(self).remaining().skip(8));
            Some(v)
        } else {
            None
        }
    }

    /// Give the underlying buffer back, whole.
    pub fn into_inner(self) -> (r: Vec<u8>)
        ensures
            r@ == self.all_bytes(),
    {
        self.data
    }

    /// Read exactly `n` bytes, or nothing if fewer remain.
    pub fn read_bytes(&mut self, n: usize) -> (r: Option<Vec<u8>>)
        requires
            old(self).wf(),
        ensures
            final (self).wf(),
            final (self).all_bytes() == old(self).all_bytes(),
            old(self).remaining().len() >= n ==> r is Some && r->Some_0@ == old(
                self,
            ).remaining().take(n as int) && final (self).remaining() == old(self).remaining().skip(
                n as int,
            ),
            old(self).remaining().len() < n ==> r is None && *final(self) == *old(self),
    {
        if self.data.len() - self.pos >= n {
            let mut out: Vec<u8> = Vec::new();
            let mut i: usize = 0;
            while i < n
                invariant
                    i <= n,
                    self.wf(),
                    *self == *old(self),
                    n <= old(self).remaining().len(),
                    self.pos + n <= self.data@.len(),
                    self.data@.len() <= usize::MAX,
                    out@ == old(self).remaining().take(i as int),
                decreases n - i,
            {
                out.push(self.data[self.pos + i]);
                i = i + 1;
                assert(out@ =~= old(self).remaining().take(i as int));
            }
            self.pos = self.pos + n;
            assert(self.remaining() =~= old(self).remaining().skip(n as int));
            Some(out)
        } else {
            None
        }
    }
}


/// Append all of `src` to `out`.
pub fn append_bytes(out: &mut Vec<u8>, src: &[u8])
    ensures
        final (out)@ == old(out)@ + src@,
{
    let n = src.len();
    let mut i: usize = 0;
    while i < n
        invariant
            i <= n,
            n == src@.len(),
            out@ == old(out)@ + src@.take(i as int),
        decreases n - i,
    {
        let b = src[i];
        out.push(b);
        i = i + 1;
        assert(out@ =~= old(out)@ + src@.take(i as int));
    }
    assert(out@ =~= old(out)@ + src@);
}

/// Remove the first `n` bytes of `v`, shifting the rest to the front.
pub fn drop_front(v: &mut Vec<u8>, n: usize)
    requires
        n <= old(v)@.len(),
    ensures
        final (v)@ == old(v)@.skip(n as int),
{
    let len = v.len();
    let mut i: usize = 0;
    while i < len - n
        invariant
            n <= len,
            len == v@.len(),
            i <= len - n,
            forall|j: int| 0 <= j < i ==> v@[j] == old(v)@[n + j],
            forall|j: int| i <= j < len - n ==> #[trigger] v@[n + j] == old(v)@[n + j],
        decreases len - n - i,
    {
        let b = v[n + i];
        v[i] = b;
        i = i + 1;
    }
    v.truncate(len - n);
    assert(v@ =~= old(v)@.skip(n as int));
}

} // verus!
