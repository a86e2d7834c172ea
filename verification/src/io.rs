//! Big-endian codecs and the in-memory byte stream the store is written to.

use vstd::prelude::*;

verus! {

use crate::error::Error;

// --- big-endian encodings, as byte sequences ---

pub open spec fn enc_u8(v: u8) -> Seq<u8> {
    seq![v]
}

pub open spec fn enc_u16(v: u16) -> Seq<u8> {
    seq![((v >> 8) & 0xff) as u8, (v & 0xff) as u8]
}

pub open spec fn enc_u32(v: u32) -> Seq<u8> {
    seq![
        ((v >> 24) & 0xff) as u8,
        ((v >> 16) & 0xff) as u8,
        ((v >> 8) & 0xff) as u8,
        (v & 0xff) as u8,
    ]
}

pub open spec fn enc_u64(v: u64) -> Seq<u8> {
    seq![
        ((v >> 56) & 0xff) as u8,
        ((v >> 48) & 0xff) as u8,
        ((v >> 40) & 0xff) as u8,
        ((v >> 32) & 0xff) as u8,
        ((v >> 24) & 0xff) as u8,
        ((v >> 16) & 0xff) as u8,
        ((v >> 8) & 0xff) as u8,
        (v & 0xff) as u8,
    ]
}

/// `n` zero bytes.
pub open spec fn zeros(n: nat) -> Seq<u8> {
    Seq::new(n, |i: int| 0u8)
}

/// Encoding a list element by element with `f`.
pub open spec fn enc_list<A>(s: Seq<A>, f: spec_fn(A) -> Seq<u8>) -> Seq<u8>
    decreases s.len(),
{
    if s.len() == 0 {
        Seq::<u8>::empty()
    } else {
        f(s[0]) + enc_list(s.drop_first(), f)
    }
}

/// Extending an encoded prefix by one element extends its encoding.
pub proof fn lemma_enc_list_snoc<A>(s: Seq<A>, i: int, f: spec_fn(A) -> Seq<u8>)
    requires
        0 <= i < s.len(),
    ensures
        enc_list(s.take(i + 1), f) == enc_list(s.take(i), f) + f(s[i]),
    decreases i,
{
    if i == 0 {
        assert(s.take(1).len() == 1);
        assert(s.take(1)[0] == s[0]);
        assert(s.take(1).drop_first() =~= Seq::<A>::empty());
        assert(s.take(0) =~= Seq::<A>::empty());
        assert(enc_list(s.take(1), f) == f(s[0]) + enc_list(Seq::<A>::empty(), f));
        assert(enc_list(Seq::<A>::empty(), f) == Seq::<u8>::empty());
        assert(f(s[0]) + Seq::<u8>::empty() =~= f(s[0]));
        assert(Seq::<u8>::empty() + f(s[0]) =~= f(s[0]));
    } else {
        lemma_enc_list_snoc(s.drop_first(), i - 1, f);
        assert(s.take(i + 1).drop_first() =~= s.drop_first().take(i));
        assert(s.take(i).drop_first() =~= s.drop_first().take(i - 1));
        assert(s.take(i + 1)[0] == s[0]);
        assert(s.take(i)[0] == s[0]);
        assert(enc_list(s.take(i + 1), f) == f(s[0]) + enc_list(s.drop_first().take(i), f));
        assert(enc_list(s.take(i), f) == f(s[0]) + enc_list(s.drop_first().take(i - 1), f));
        assert(s.drop_first()[i - 1] == s[i]);
        assert(f(s[0]) + (enc_list(s.drop_first().take(i - 1), f) + f(s[i]))
            =~= (f(s[0]) + enc_list(s.drop_first().take(i - 1), f)) + f(s[i]));
    }
}

/// The byte sequence after overwriting `buf` at `pos` with `data`,
/// zero-padding any gap between the end of `buf` and `pos`.
pub open spec fn write_at(buf: Seq<u8>, pos: int, data: Seq<u8>) -> Seq<u8> {
    let n = if buf.len() >= pos + data.len() {
        buf.len() as int
    } else {
        pos + data.len()
    };
    Seq::new(n as nat, |i: int|
        if pos <= i < pos + data.len() {
            data[i - pos]
        } else if i < buf.len() {
            buf[i]
        } else {
            0u8
        })
}

/// `buf` zero-padded to at least `pos` bytes.
pub open spec fn pad_to(buf: Seq<u8>, pos: int) -> Seq<u8> {
    if buf.len() >= pos {
        buf
    } else {
        buf + zeros((pos - buf.len()) as nat)
    }
}

/// An in-memory byte stream with a write cursor.
///
/// This is the store's whole file while it is being written: block payload
/// is appended at the end, and the fixed header is patched at offset zero
/// once every table is in place.
pub struct ByteWriter {
    buf: Vec<u8>,
    pos: usize,
}

impl ByteWriter {
    /// The bytes written so far.
    pub closed spec fn bytes(&self) -> Seq<u8> {
        self.buf@
    }

    /// The write cursor.
    pub closed spec fn cursor(&self) -> int {
        self.pos as int
    }

    /// The cursor never runs ahead of the bytes already materialized.
    pub closed spec fn wf(&self) -> bool {
        self.pos <= self.buf@.len()
    }

    pub fn new() -> (r: Self)
        ensures
            r.bytes() == Seq::<u8>::empty(),
            r.cursor() == 0,
            r.wf(),
    {
        ByteWriter { buf: Vec::new(), pos: 0 }
    }

    pub fn position(&self) -> (r: usize)
        ensures
            r == self.cursor(),
    {
        self.pos
    }

    pub fn len(&self) -> (r: usize)
        ensures
            r == self.bytes().len(),
    {
        self.buf.len()
    }

    /// Move the cursor, materializing zero bytes for any gap beyond the end.
    pub fn seek(&mut self, pos: usize)
        ensures
            final(self).bytes() == pad_to(old(self).bytes(), pos as int),
            final(self).cursor() == pos,
            final(self).wf(),
    {
        let ghost orig = self.buf@;
        while self.buf.len() < pos
            invariant
                self.buf@ == pad_to(orig, self.buf@.len() as int),
                orig.len() <= self.buf@.len(),
                self.buf@.len() <= pos || self.buf@ == orig,
            decreases pos - self.buf@.len(),
        {
            self.buf.push(0);
            assert(self.buf@ =~= pad_to(orig, self.buf@.len() as int));
        }
        assert(self.buf@ =~= pad_to(orig, pos as int));
        self.pos = pos;
    }

    /// Write `data` at the cursor, overwriting existing bytes and extending
    /// the stream as needed; the cursor advances past the written bytes.
    pub fn write_bytes(&mut self, data: &[u8])
        requires
            old(self).wf(),
        ensures
            final(self).bytes() == write_at(old(self).bytes(), old(self).cursor(), data@),
            final(self).cursor() == old(self).cursor() + data@.len(),
            old(self).cursor() == old(self).bytes().len() ==> final(self).bytes() == old(self).bytes()
                + data@,
            final(self).wf(),
    {
        let ghost orig = self.buf@;
        let ghost start = self.pos as int;
        let mut i: usize = 0;
        while i < data.len()
            invariant
                i <= data@.len(),
                self.pos == start + i,
                start + data@.len() <= usize::MAX || i < data@.len() || self.pos
                    <= self.buf@.len(),
                self.pos <= self.buf@.len(),
                start <= orig.len(),
                self.buf@ == write_at(orig, start, data@.take(i as int)),
            decreases data@.len() - i,
        {
            let b = data[i];
            if self.pos < self.buf.len() {
                self.buf.set(self.pos, b);
                self.pos = self.pos + 1;
            } else {
                self.buf.push(b);
                self.pos = self.buf.len();
            }
            i = i + 1;
            assert(self.buf@ =~= write_at(orig, start, data@.take(i as int)));
        }
        assert(data@.take(data@.len() as int) =~= data@);
        proof {
            if start == orig.len() {
                assert(write_at(orig, start, data@) =~= orig + data@);
            }
        }
    }

    pub fn write_u8(&mut self, v: u8)
        requires
            old(self).wf(),
        ensures
            final(self).bytes() == write_at(old(self).bytes(), old(self).cursor(), enc_u8(v)),
            final(self).cursor() == old(self).cursor() + 1,
            old(self).cursor() == old(self).bytes().len() ==> final(self).bytes() == old(self).bytes()
                + enc_u8(v),
            final(self).wf(),
    {
        let data: [u8; 1] = [v];
        assert(data@ =~= enc_u8(v));
        self.write_bytes(data.as_slice());
    }

    pub fn write_u16(&mut self, v: u16)
        requires
            old(self).wf(),
        ensures
            final(self).bytes() == write_at(old(self).bytes(), old(self).cursor(), enc_u16(v)),
            final(self).cursor() == old(self).cursor() + 2,
            old(self).cursor() == old(self).bytes().len() ==> final(self).bytes() == old(self).bytes()
                + enc_u16(v),
            final(self).wf(),
    {
        let data: [u8; 2] = [((v >> 8) & 0xff) as u8, (v & 0xff) as u8];
        assert(data@ =~= enc_u16(v));
        self.write_bytes(data.as_slice());
    }

    pub fn write_u32(&mut self, v: u32)
        requires
            old(self).wf(),
        ensures
            final(self).bytes() == write_at(old(self).bytes(), old(self).cursor(), enc_u32(v)),
            final(self).cursor() == old(self).cursor() + 4,
            old(self).cursor() == old(self).bytes().len() ==> final(self).bytes() == old(self).bytes()
                + enc_u32(v),
            final(self).wf(),
    {
        let data: [u8; 4] = [
            ((v >> 24) & 0xff) as u8,
            ((v >> 16) & 0xff) as u8,
            ((v >> 8) & 0xff) as u8,
            (v & 0xff) as u8,
        ];
        assert(data@ =~= enc_u32(v));
        self.write_bytes(data.as_slice());
    }

    pub fn write_u64(&mut self, v: u64)
        requires
            old(self).wf(),
        ensures
            final(self).bytes() == write_at(old(self).bytes(), old(self).cursor(), enc_u64(v)),
            final(self).cursor() == old(self).cursor() + 8,
            old(self).cursor() == old(self).bytes().len() ==> final(self).bytes() == old(self).bytes()
                + enc_u64(v),
            final(self).wf(),
    {
        let data: [u8; 8] = [
            ((v >> 56) & 0xff) as u8,
            ((v >> 48) & 0xff) as u8,
            ((v >> 40) & 0xff) as u8,
            ((v >> 32) & 0xff) as u8,
            ((v >> 24) & 0xff) as u8,
            ((v >> 16) & 0xff) as u8,
            ((v >> 8) & 0xff) as u8,
            (v & 0xff) as u8,
        ];
        assert(data@ =~= enc_u64(v));
        self.write_bytes(data.as_slice());
    }

    /// Write `n` zero bytes.
    pub fn write_zeros(&mut self, n: usize)
        requires
            old(self).wf(),
        ensures
            final(self).bytes() == write_at(old(self).bytes(), old(self).cursor(), zeros(n as nat)),
            final(self).cursor() == old(self).cursor() + n,
            old(self).cursor() == old(self).bytes().len() ==> final(self).bytes() == old(self).bytes()
                + zeros(n as nat),
            final(self).wf(),
    {
        let ghost orig = self.buf@;
        let ghost start = self.pos as int;
        let mut i: usize = 0;
        while i < n
            invariant
                i <= n,
                self.pos == start + i,
                self.pos <= self.buf@.len(),
                start <= orig.len(),
                self.buf@ == write_at(orig, start, zeros(i as nat)),
            decreases n - i,
        {
            if self.pos < self.buf.len() {
                self.buf.set(self.pos, 0);
                self.pos = self.pos + 1;
            } else {
                self.buf.push(0);
                self.pos = self.buf.len();
            }
            i = i + 1;
            assert(self.buf@ =~= write_at(orig, start, zeros(i as nat)));
        }
        proof {
            if start == orig.len() {
                assert(write_at(orig, start, zeros(n as nat)) =~= orig + zeros(n as nat));
            }
        }
    }

    /// Hand back the finished byte stream.
    pub fn into_vec(self) -> (r: Vec<u8>)
        ensures
            r@ == self.bytes(),
    {
        self.buf
    }
}

// --- reading scalars out of a byte slice ---

/// Read one byte at `*pos`, advancing the position.
pub fn read_u8(data: &[u8], pos: &mut usize) -> (r: Result<u8, Error>)
    ensures
        match r {
            Ok(v) => *old(pos) + 1 <= data@.len() && *final(pos) == *old(pos) + 1 && enc_u8(v)
                == data@.subrange(*old(pos) as int, *final(pos) as int),
            Err(e) => e == Error::Truncated && *final(pos) == *old(pos) && *old(pos) + 1 > data@.len(),
        },
{
    if *pos < data.len() {
        let v = data[*pos];
        assert(enc_u8(v) =~= data@.subrange(*pos as int, *pos + 1));
        *pos = *pos + 1;
        Ok(v)
    } else {
        Err(Error::Truncated)
    }
}

/// Read a big-endian `u16` at `*pos`, advancing the position.
pub fn read_u16(data: &[u8], pos: &mut usize) -> (r: Result<u16, Error>)
    ensures
        match r {
            Ok(v) => *old(pos) + 2 <= data@.len() && *final(pos) == *old(pos) + 2 && enc_u16(v)
                == data@.subrange(*old(pos) as int, *final(pos) as int),
            Err(e) => e == Error::Truncated && *final(pos) == *old(pos) && *old(pos) + 2 > data@.len(),
        },
{
    if data.len() >= 2 && *pos <= data.len() - 2 {
        let b0 = data[*pos];
        let b1 = data[*pos + 1];
        let v = ((b0 as u16) << 8) | (b1 as u16);
        assert(((v >> 8) & 0xff) as u8 == b0 && (v & 0xff) as u8 == b1) by (bit_vector)
            requires v == ((b0 as u16) << 8) | (b1 as u16);
        assert(enc_u16(v) =~= data@.subrange(*pos as int, *pos + 2));
        *pos = *pos + 2;
        Ok(v)
    } else {
        Err(Error::Truncated)
    }
}

/// Read a big-endian `u32` at `*pos`, advancing the position.
pub fn read_u32(data: &[u8], pos: &mut usize) -> (r: Result<u32, Error>)
    ensures
        match r {
            Ok(v) => *old(pos) + 4 <= data@.len() && *final(pos) == *old(pos) + 4 && enc_u32(v)
                == data@.subrange(*old(pos) as int, *final(pos) as int),
            Err(e) => e == Error::Truncated && *final(pos) == *old(pos) && *old(pos) + 4 > data@.len(),
        },
{
    if data.len() >= 4 && *pos <= data.len() - 4 {
        let b0 = data[*pos];
        let b1 = data[*pos + 1];
        let b2 = data[*pos + 2];
        let b3 = data[*pos + 3];
        let v = ((b0 as u32) << 24) | ((b1 as u32) << 16) | ((b2 as u32) << 8) | (b3 as u32);
        assert(((v >> 24) & 0xff) as u8 == b0 && ((v >> 16) & 0xff) as u8 == b1 && ((v >> 8)
            & 0xff) as u8 == b2 && (v & 0xff) as u8 == b3) by (bit_vector)
            requires v == ((b0 as u32) << 24) | ((b1 as u32) << 16) | ((b2 as u32) << 8) | (
            b3 as u32);
        assert(enc_u32(v) =~= data@.subrange(*pos as int, *pos + 4));
        *pos = *pos + 4;
        Ok(v)
    } else {
        Err(Error::Truncated)
    }
}

/// Read a big-endian `u64` at `*pos`, advancing the position.
pub fn read_u64(data: &[u8], pos: &mut usize) -> (r: Result<u64, Error>)
    ensures
        match r {
            Ok(v) => *old(pos) + 8 <= data@.len() && *final(pos) == *old(pos) + 8 && enc_u64(v)
                == data@.subrange(*old(pos) as int, *final(pos) as int),
            Err(e) => e == Error::Truncated && *final(pos) == *old(pos) && *old(pos) + 8 > data@.len(),
        },
{
    if data.len() >= 8 && *pos <= data.len() - 8 {
        let b0 = data[*pos];
        let b1 = data[*pos + 1];
        let b2 = data[*pos + 2];
        let b3 = data[*pos + 3];
        let b4 = data[*pos + 4];
        let b5 = data[*pos + 5];
        let b6 = data[*pos + 6];
        let b7 = data[*pos + 7];
        let v = ((b0 as u64) << 56) | ((b1 as u64) << 48) | ((b2 as u64) << 40) | ((b3 as u64)
            << 32) | ((b4 as u64) << 24) | ((b5 as u64) << 16) | ((b6 as u64) << 8) | (b7 as u64);
        assert(((v >> 56) & 0xff) as u8 == b0 && ((v >> 48) & 0xff) as u8 == b1 && ((v >> 40)
            & 0xff) as u8 == b2 && ((v >> 32) & 0xff) as u8 == b3 && ((v >> 24) & 0xff) as u8 == b4
            && ((v >> 16) & 0xff) as u8 == b5 && ((v >> 8) & 0xff) as u8 == b6 && (v & 0xff) as u8
            == b7) by (bit_vector)
            requires v == ((b0 as u64) << 56) | ((b1 as u64) << 48) | ((b2 as u64) << 40) | ((
            b3 as u64) << 32) | ((b4 as u64) << 24) | ((b5 as u64) << 16) | ((b6 as u64) << 8) | (
            b7 as u64);
        assert(enc_u64(v) =~= data@.subrange(*pos as int, *pos + 8));
        *pos = *pos + 8;
        Ok(v)
    } else {
        Err(Error::Truncated)
    }
}

/// Copy `n` bytes at `*pos` into a fresh vector, advancing the position.
pub fn read_exact(data: &[u8], pos: &mut usize, n: usize) -> (r: Result<Vec<u8>, Error>)
    ensures
        match r {
            Ok(v) => *old(pos) + n <= data@.len() && *final(pos) == *old(pos) + n && v@
                == data@.subrange(*old(pos) as int, *final(pos) as int),
            Err(e) => e == Error::Truncated && *final(pos) == *old(pos) && *old(pos) + n > data@.len(),
        },
{
    if data.len() >= n && *pos <= data.len() - n {
        let mut v: Vec<u8> = Vec::new();
        let mut i: usize = 0;
        while i < n
            invariant
                i <= n,
                *pos + n <= data@.len(),
                data@.len() <= usize::MAX,
                v@ == data@.subrange(*pos as int, *pos + i as int),
            decreases n - i,
        {
            v.push(data[*pos + i]);
            i = i + 1;
            assert(v@ =~= data@.subrange(*pos as int, *pos + i as int));
        }
        *pos = *pos + n;
        Ok(v)
    } else {
        Err(Error::Truncated)
    }
}

/// Extending a byte stream leaves earlier ranges unchanged.
pub proof fn lemma_extend_preserves_subrange(b1: Seq<u8>, b2: Seq<u8>, a: int, b: int)
    requires
        b1.len() <= b2.len(),
        b2.take(b1.len() as int) == b1,
        0 <= a <= b <= b1.len(),
    ensures
        b1.subrange(a, b) == b2.subrange(a, b),
{
    assert(b1.subrange(a, b) =~= b2.subrange(a, b));
}

} // verus!
