//! XDR: big-endian, four-byte aligned encoding of integers, booleans, opaque
//! byte strings and arrays of 32-bit words.
use byteorder::{BigEndian, ByteOrder};
use vstd::prelude::*;
use vstd::utf8::encode_utf8;

verus! {

// ---------------------------------------------------------------------------
// Byte-level model
// ---------------------------------------------------------------------------

/// The four bytes of `v`, most significant first.
pub open spec fn u32_be(v: u32) -> Seq<u8> {
    seq![
        ((v >> 24u32) & 0xffu32) as u8,
        ((v >> 16u32) & 0xffu32) as u8,
        ((v >> 8u32) & 0xffu32) as u8,
        (v & 0xffu32) as u8,
    ]
}

/// The 32-bit value held by the first four bytes of `b`, most significant first.
pub open spec fn u32_of_be(b: Seq<u8>) -> u32 {
    ((b[0] as u32) << 24u32) | ((b[1] as u32) << 16u32) | ((b[2] as u32) << 8u32) | (b[3] as u32)
}

/// Decoding four big-endian bytes gives back the value that was encoded.
pub proof fn lemma_u32_be_inverse(v: u32)
    ensures
        u32_be(v).len() == 4,
        u32_of_be(u32_be(v)) == v,
{
    let b0 = ((v >> 24u32) & 0xffu32) as u8;
    let b1 = ((v >> 16u32) & 0xffu32) as u8;
    let b2 = ((v >> 8u32) & 0xffu32) as u8;
    let b3 = (v & 0xffu32) as u8;
    assert(u32_be(v)[0] == b0 && u32_be(v)[1] == b1 && u32_be(v)[2] == b2 && u32_be(v)[3] == b3);
    assert((((b0 as u32) << 24u32) | ((b1 as u32) << 16u32) | ((b2 as u32) << 8u32) | (b3 as u32))
        == v) by (bit_vector)
        requires
            b0 == ((v >> 24u32) & 0xffu32) as u8,
            b1 == ((v >> 16u32) & 0xffu32) as u8,
            b2 == ((v >> 8u32) & 0xffu32) as u8,
            b3 == (v & 0xffu32) as u8,
    ;
}

/// Re-encoding the value read from four bytes gives back those bytes.
pub proof fn lemma_u32_of_be_inverse(b: Seq<u8>)
    requires
        b.len() == 4,
    ensures
        u32_be(u32_of_be(b)) == b,
{
    let b0 = b[0];
    let b1 = b[1];
    let b2 = b[2];
    let b3 = b[3];
    let v = u32_of_be(b);
    assert(((v >> 24u32) & 0xffu32) as u8 == b0 && ((v >> 16u32) & 0xffu32) as u8 == b1 && ((v
        >> 8u32) & 0xffu32) as u8 == b2 && (v & 0xffu32) as u8 == b3) by (bit_vector)
        requires
            v == ((b0 as u32) << 24u32) | ((b1 as u32) << 16u32) | ((b2 as u32) << 8u32) | (
            b3 as u32),
    ;
    assert(u32_be(v) =~= b);
}

/// The eight bytes of `v`, most significant first.
pub open spec fn u64_be(v: u64) -> Seq<u8> {
    u32_be((v >> 32u64) as u32) + u32_be((v & 0xffff_ffffu64) as u32)
}

/// The 64-bit value held by the first eight bytes of `b`, most significant first.
pub open spec fn u64_of_be(b: Seq<u8>) -> u64 {
    ((u32_of_be(b) as u64) << 32u64) | (u32_of_be(b.skip(4)) as u64)
}

/// Decoding eight big-endian bytes gives back the value that was encoded.
pub proof fn lemma_u64_be_inverse(v: u64)
    ensures
        u64_be(v).len() == 8,
        u64_of_be(u64_be(v)) == v,
{
    let hi = (v >> 32u64) as u32;
    let lo = (v & 0xffff_ffffu64) as u32;
    lemma_u32_be_inverse(hi);
    lemma_u32_be_inverse(lo);
    assert(u64_be(v).skip(4) =~= u32_be(lo));
    assert(u64_be(v).take(4) =~= u32_be(hi));
    assert(u32_be(hi).take(4) =~= u32_be(hi));
    lemma_u32_of_be_prefix(u64_be(v), u32_be(hi));
    assert((((hi as u64) << 32u64) | (lo as u64)) == v) by (bit_vector)
        requires
            hi == (v >> 32u64) as u32,
            lo == (v & 0xffff_ffffu64) as u32,
    ;
}

/// A 32-bit read looks at the first four bytes only.
pub proof fn lemma_u32_of_be_prefix(a: Seq<u8>, b: Seq<u8>)
    requires
        a.len() >= 4,
        b.len() >= 4,
        a.take(4) == b.take(4),
    ensures
        u32_of_be(a) == u32_of_be(b),
{
    assert(a[0] == a.take(4)[0] && a[1] == a.take(4)[1] && a[2] == a.take(4)[2] && a[3] == a.take(
        4,
    )[3]);
    assert(b[0] == b.take(4)[0] && b[1] == b.take(4)[1] && b[2] == b.take(4)[2] && b[3] == b.take(
        4,
    )[3]);
}

/// A value read from a buffer depends on the first four bytes only.
pub proof fn lemma_u32_of_be_append(a: Seq<u8>, rest: Seq<u8>)
    requires
        a.len() >= 4,
    ensures
        u32_of_be(a + rest) == u32_of_be(a),
{
    assert((a + rest).take(4) =~= a.take(4));
    lemma_u32_of_be_prefix(a + rest, a);
}

// ---------------------------------------------------------------------------
// byteorder
// ---------------------------------------------------------------------------

/// Relies on byteorder's `BigEndian::read_u32`: it reads the first four bytes of
/// the slice it is given, most significant first.
#[verifier::external_body]
fn be_read_u32(buf: &[u8], pos: usize) -> (r: u32)
    requires
        pos + 4 <= buf@.len(),
    ensures
        r == u32_of_be(buf@.subrange(pos as int, pos + 4)),
{
    BigEndian::read_u32(&buf[pos..])
}

/// Relies on byteorder's `BigEndian::read_u64`: it reads the first eight bytes of
/// the slice it is given, most significant first.
#[verifier::external_body]
fn be_read_u64(buf: &[u8], pos: usize) -> (r: u64)
    requires
        pos + 8 <= buf@.len(),
    ensures
        r == u64_of_be(buf@.subrange(pos as int, pos + 8)),
{
    BigEndian::read_u64(&buf[pos..])
}

/// Relies on byteorder's `BigEndian::read_i32`: the first four bytes of the slice,
/// most significant first, read as a two's complement value.
#[verifier::external_body]
fn be_read_i32(buf: &[u8], pos: usize) -> (r: i32)
    requires
        pos + 4 <= buf@.len(),
    ensures
        r == u32_of_be(buf@.subrange(pos as int, pos + 4)) as i32,
{
    BigEndian::read_i32(&buf[pos..])
}

/// Relies on byteorder's `BigEndian::write_u64`: it stores `n` into the first eight
/// bytes of the slice, most significant first.
#[verifier::external_body]
fn be_write_u64(n: u64) -> (r: [u8; 8])
    ensures
        r@ == u64_be(n),
{
    let mut b = [0u8; 8];
    BigEndian::write_u64(&mut b, n);
    b
}

/// Relies on byteorder's `BigEndian::write_i32`: it stores the two's complement bits
/// of `n` into the first four bytes of the slice, most significant first.
#[verifier::external_body]
fn be_write_i32(n: i32) -> (r: [u8; 4])
    ensures
        r@ == u32_be(n as u32),
{
    let mut b = [0u8; 4];
    BigEndian::write_i32(&mut b, n);
    b
}

/// Relies on byteorder's `BigEndian::write_u32`: it stores `n` into the first four
/// bytes of the slice, most significant first.
#[verifier::external_body]
fn be_write_u32(n: u32) -> (r: [u8; 4])
    ensures
        r@ == u32_be(n),
{
    let mut b = [0u8; 4];
    BigEndian::write_u32(&mut b, n);
    b
}

// ---------------------------------------------------------------------------
// Output and input
// ---------------------------------------------------------------------------

/// Appends every byte of `src` to `out`.
pub fn append_bytes(out: &mut Vec<u8>, src: &[u8])
    ensures
        final(out)@ == old(out)@ + src@,
{
    let ghost start = out@;
    let mut i: usize = 0;
    while i < src.len()
        invariant
            i <= src@.len(),
            out@ == start + src@.take(i as int),
        decreases src@.len() - i,
    {
        out.push(src[i]);
        i = i + 1;
        assert(out@ =~= start + src@.take(i as int));
    }
    assert(src@.take(src@.len() as int) =~= src@);
}

/// Errors raised while decoding XDR data.
#[derive(Debug, Clone, Copy, PartialEq, Eq, Structural)]
pub enum XdrError {
    /// The input ended before the value was complete.
    UnexpectedEof,
    /// A field held a value outside of its type.
    InvalidData,
}

/// A read position over a byte buffer.
pub struct XdrCursor {
    data: Vec<u8>,
    pos: usize,
}

impl XdrCursor {
    /// The position never passes the end of the data.
    #[verifier::type_invariant]
    pub open spec fn inv(self) -> bool {
        self.pos() <= self.data().len()
    }

    /// The bytes the cursor reads from.
    pub closed spec fn data(self) -> Seq<u8> {
        self.data@
    }

    /// How many bytes have been consumed.
    pub closed spec fn pos(self) -> nat {
        self.pos as nat
    }

    /// The bytes not consumed yet.
    pub open spec fn rest(self) -> Seq<u8> {
        self.data().skip(self.pos() as int)
    }

    /// A cursor at the start of `data`.
    pub fn new(data: Vec<u8>) -> (r: XdrCursor)
        ensures
            r.data() == data@,
            r.pos() == 0,
    {
        XdrCursor { data, pos: 0 }
    }

    /// How many bytes have been consumed.
    pub fn position(&self) -> (r: usize)
        ensures
            r == self.pos(),
    {
        self.pos
    }

    /// How many bytes are left.
    pub fn remaining(&self) -> (r: usize)
        ensures
            r == self.rest().len(),
    {
        proof {
            use_type_invariant(self);
        }
        self.data.len() - self.pos
    }

    /// Gives the underlying bytes back.
    pub fn into_inner(self) -> (r: Vec<u8>)
        ensures
            r@ == self.data(),
    {
        self.data
    }

    /// Reads a big-endian 64-bit word.
    pub fn read_u64(&mut self) -> (r: Result<u64, XdrError>)
        ensures
            final(self).data() == old(self).data(),
            old(self).rest().len() >= 8 ==> r == Ok::<u64, XdrError>(u64_of_be(old(self).rest()))
                && final(self).pos() == old(self).pos() + 8,
            old(self).rest().len() < 8 ==> r == Err::<u64, XdrError>(XdrError::UnexpectedEof)
                && final(self).pos() == old(self).pos(),
    {
        proof {
            use_type_invariant(&*self);
        }
        if self.data.len() - self.pos < 8 {
            return Err(XdrError::UnexpectedEof);
        }
        let v = be_read_u64(self.data.as_slice(), self.pos);
        proof {
            let r = self.data@.skip(self.pos as int);
            let s = self.data@.subrange(self.pos as int, self.pos + 8);
            assert(s.take(4) =~= r.take(4));
            assert(s.skip(4).take(4) =~= r.skip(4).take(4));
            lemma_u32_of_be_prefix(s, r);
            lemma_u32_of_be_prefix(s.skip(4), r.skip(4));
        }
        self.pos = self.pos + 8;
        Ok(v)
    }

    /// Reads a big-endian two's complement 32-bit value.
    pub fn read_i32(&mut self) -> (r: Result<i32, XdrError>)
        ensures
            final(self).data() == old(self).data(),
            old(self).rest().len() >= 4 ==> r == Ok::<i32, XdrError>(
                u32_of_be(old(self).rest()) as i32,
            ) && final(self).pos() == old(self).pos() + 4,
            old(self).rest().len() < 4 ==> r == Err::<i32, XdrError>(XdrError::UnexpectedEof)
                && final(self).pos() == old(self).pos(),
    {
        proof {
            use_type_invariant(&*self);
        }
        if self.data.len() - self.pos < 4 {
            return Err(XdrError::UnexpectedEof);
        }
        let v = be_read_i32(self.data.as_slice(), self.pos);
        proof {
            let r = self.data@.skip(self.pos as int);
            let s = self.data@.subrange(self.pos as int, self.pos + 4);
            assert(s.take(4) =~= r.take(4));
            lemma_u32_of_be_prefix(s, r);
        }
        self.pos = self.pos + 4;
        Ok(v)
    }

    /// Reads the next `n` bytes.
    pub fn read_bytes(&mut self, n: usize) -> (r: Result<Vec<u8>, XdrError>)
        ensures
            final(self).data() == old(self).data(),
            n <= old(self).rest().len() ==> (r matches Ok(v) && v@ == old(self).rest().take(n as int)
                && final(self).pos() == old(self).pos() + n),
            n > old(self).rest().len() ==> r == Err::<Vec<u8>, XdrError>(XdrError::UnexpectedEof)
                && final(self).pos() == old(self).pos(),
    {
        proof {
            use_type_invariant(&*self);
        }
        if self.data.len() - self.pos < n {
            return Err(XdrError::UnexpectedEof);
        }
        let mut v: Vec<u8> = Vec::new();
        let start = self.pos;
        let end = start + n;
        let mut i: usize = 0;
        while i < n
            invariant
                i <= n,
                end == start + n,
                end <= self.data@.len(),
                v@ == self.data@.subrange(start as int, start + i),
            decreases n - i,
        {
            v.push(self.data[start + i]);
            i = i + 1;
            assert(v@ =~= self.data@.subrange(start as int, start + i));
        }
        assert(v@ =~= self.data@.skip(start as int).take(n as int));
        self.pos = start + n;
        Ok(v)
    }

    /// Steps over the next `n` bytes.
    pub fn skip(&mut self, n: usize) -> (r: Result<(), XdrError>)
        ensures
            final(self).data() == old(self).data(),
            n <= old(self).rest().len() ==> r is Ok && final(self).pos() == old(self).pos() + n,
            n > old(self).rest().len() ==> r == Err::<(), XdrError>(XdrError::UnexpectedEof)
                && final(self).pos() == old(self).pos(),
    {
        proof {
            use_type_invariant(&*self);
        }
        if self.data.len() - self.pos < n {
            return Err(XdrError::UnexpectedEof);
        }
        self.pos = self.pos + n;
        Ok(())
    }

    /// Reads a big-endian 32-bit word.
    pub fn read_u32(&mut self) -> (r: Result<u32, XdrError>)
        ensures
            final(self).data() == old(self).data(),
            old(self).rest().len() >= 4 ==> r == Ok::<u32, XdrError>(u32_of_be(old(self).rest()))
                && final(self).pos() == old(self).pos() + 4,
            old(self).rest().len() < 4 ==> r == Err::<u32, XdrError>(XdrError::UnexpectedEof)
                && final(self).pos() == old(self).pos(),
    {
        proof {
            use_type_invariant(&*self);
        }
        if self.data.len() - self.pos < 4 {
            return Err(XdrError::UnexpectedEof);
        }
        let v = be_read_u32(self.data.as_slice(), self.pos);
        proof {
            let r = self.data@.skip(self.pos as int);
            assert(self.data@.subrange(self.pos as int, self.pos + 4) =~= r.take(4));
            assert(r.take(4)[0] == r[0] && r.take(4)[1] == r[1] && r.take(4)[2] == r[2]
                && r.take(4)[3] == r[3]);
        }
        self.pos = self.pos + 4;
        Ok(v)
    }
}

/// Appends the four big-endian bytes of `v`.
pub fn write_u32(out: &mut Vec<u8>, v: u32)
    ensures
        final(out)@ == old(out)@ + u32_be(v),
{
    let b = be_write_u32(v);
    append_bytes(out, &b);
}

/// Appends `n` zero bytes.
pub fn write_zeros(out: &mut Vec<u8>, n: usize)
    ensures
        final(out)@ == old(out)@ + zeros(n as nat),
{
    let ghost start = out@;
    let mut i: usize = 0;
    while i < n
        invariant
            i <= n,
            out@ == start + zeros(i as nat),
        decreases n - i,
    {
        out.push(0u8);
        i = i + 1;
        assert(out@ =~= start + zeros(i as nat));
    }
}

/// `n` zero bytes.
pub open spec fn zeros(n: nat) -> Seq<u8> {
    Seq::new(n, |_i: int| 0u8)
}

/// The number of zero bytes that bring `n` bytes up to a multiple of four.
pub open spec fn pad_len(n: nat) -> nat {
    ((4 - (n % 4) as int) % 4) as nat
}

/// The number of zero bytes that bring `n` bytes up to a multiple of four.
pub fn padding(n: usize) -> (r: usize)
    ensures
        r == pad_len(n as nat),
        r <= 3,
{
    (4 - n % 4) % 4
}

/// Opaque data: its length, its bytes, then zero padding to a multiple of four.
pub open spec fn opaque_be(b: Seq<u8>) -> Seq<u8> {
    u32_be(b.len() as u32) + b + zeros(pad_len(b.len()))
}

/// Reads opaque data: the bytes and how many input bytes they took, or `None`
/// when the input ends before the declared length and its padding.
pub open spec fn opaque_of_be(b: Seq<u8>) -> Option<(Seq<u8>, nat)> {
    if b.len() < 4 {
        None
    } else {
        let n = u32_of_be(b) as nat;
        let total = 4 + n + pad_len(n);
        if b.len() < total {
            None
        } else {
            Some((b.subrange(4, 4 + n as int), total))
        }
    }
}

/// Opaque data read back from its encoding, whatever follows it.
pub proof fn lemma_opaque_round_trip(v: Seq<u8>, rest: Seq<u8>)
    requires
        v.len() <= u32::MAX,
    ensures
        opaque_be(v).len() == 4 + v.len() + pad_len(v.len()),
        opaque_of_be(opaque_be(v) + rest) == Some((v, opaque_be(v).len())),
{
    let e = opaque_be(v);
    lemma_u32_be_inverse(v.len() as u32);
    assert(e + rest =~= u32_be(v.len() as u32) + (v + zeros(pad_len(v.len())) + rest));
    lemma_u32_of_be_append(u32_be(v.len() as u32), v + zeros(pad_len(v.len())) + rest);
    assert((e + rest).subrange(4, 4 + v.len() as int) =~= v);
}

/// Opaque data that reads from `b` reads the same when more bytes follow.
pub proof fn lemma_opaque_of_be_extend(b: Seq<u8>, more: Seq<u8>)
    requires
        opaque_of_be(b) is Some,
    ensures
        opaque_of_be(b + more) == opaque_of_be(b),
        opaque_of_be(b) matches Some((_v, n)) ==> n <= b.len(),
{
    lemma_u32_of_be_append(b, more);
    let n = u32_of_be(b) as nat;
    assert((b + more).subrange(4, 4 + n as int) =~= b.subrange(4, 4 + n as int));
}

/// The padding after the opaque data at the front of `b` is all zero bytes.
pub open spec fn opaque_padding_zero(b: Seq<u8>) -> bool {
    let n = u32_of_be(b) as int;
    forall|i: int| 4 + n <= i < 4 + n + pad_len(n as nat) ==> #[trigger] b[i] == 0
}

/// Re-encoding opaque data that was read gives back the bytes it was read
/// from, when its padding was zero.
pub proof fn lemma_opaque_reencode(b: Seq<u8>)
    requires
        opaque_of_be(b) is Some,
        opaque_padding_zero(b),
    ensures
        opaque_of_be(b) matches Some((v, n)) && opaque_be(v) == b.take(n as int),
{
    let n = u32_of_be(b) as nat;
    let v = b.subrange(4, 4 + n as int);
    let total = 4 + n + pad_len(n);
    assert(b.take(4).take(4) =~= b.take(4));
    lemma_u32_of_be_prefix(b.take(4), b);
    lemma_u32_of_be_inverse(b.take(4));
    assert(v.len() == n);
    assert(b.subrange(4 + n as int, total as int) =~= zeros(pad_len(n)));
    assert(opaque_be(v) =~= b.take(total as int));
}

/// Writes opaque data: length, bytes, zero padding.
pub fn write_opaque(out: &mut Vec<u8>, b: &[u8])
    requires
        b@.len() <= u32::MAX,
    ensures
        final(out)@ == old(out)@ + opaque_be(b@),
{
    let ghost start = out@;
    write_u32(out, b.len() as u32);
    append_bytes(out, b);
    write_zeros(out, padding(b.len()));
    assert(out@ =~= start + opaque_be(b@));
}

/// A sequence of 32-bit words, each in four big-endian bytes, with no count.
pub open spec fn words_be(ws: Seq<u32>) -> Seq<u8>
    decreases ws.len(),
{
    if ws.len() == 0 {
        Seq::empty()
    } else {
        words_be(ws.drop_last()) + u32_be(ws.last())
    }
}

/// The `n` words held by the first `4 * n` bytes of `b`.
pub open spec fn words_of_be(b: Seq<u8>, n: nat) -> Seq<u32> {
    Seq::new(n, |i: int| u32_of_be(b.skip(4 * i)))
}

/// An array of 32-bit words: its count, then each word.
pub open spec fn u32_array_be(ws: Seq<u32>) -> Seq<u8> {
    u32_be(ws.len() as u32) + words_be(ws)
}

/// Reads an array of 32-bit words: the words and how many input bytes they took,
/// or `None` when the input ends before the declared count of words.
pub open spec fn u32_array_of_be(b: Seq<u8>) -> Option<(Seq<u32>, nat)> {
    if b.len() < 4 {
        None
    } else {
        let n = u32_of_be(b) as nat;
        if b.len() < 4 + 4 * n {
            None
        } else {
            Some((words_of_be(b.skip(4), n), 4 + 4 * n))
        }
    }
}

/// An array of words that reads from `b` reads the same when more bytes follow.
pub proof fn lemma_u32_array_of_be_extend(b: Seq<u8>, more: Seq<u8>)
    requires
        u32_array_of_be(b) is Some,
    ensures
        u32_array_of_be(b + more) == u32_array_of_be(b),
        u32_array_of_be(b) matches Some((_v, n)) ==> n <= b.len(),
{
    lemma_u32_of_be_append(b, more);
    let n = u32_of_be(b) as nat;
    let e = b + more;
    assert forall|i: int| 0 <= i < n implies #[trigger] words_of_be(e.skip(4), n)[i]
        == words_of_be(b.skip(4), n)[i] by {
        let x = e.skip(4).skip(4 * i);
        let y = b.skip(4).skip(4 * i);
        assert(x.take(4) =~= y.take(4));
        lemma_u32_of_be_prefix(x, y);
    }
    assert(words_of_be(e.skip(4), n) =~= words_of_be(b.skip(4), n));
}

/// Each word of `ws` stands in its own four bytes of `words_be(ws)`.
pub proof fn lemma_words_be(ws: Seq<u32>)
    ensures
        words_be(ws).len() == 4 * ws.len(),
        forall|i: int|
            0 <= i < ws.len() ==> #[trigger] words_be(ws).subrange(4 * i, 4 * i + 4) == u32_be(
                ws[i],
            ),
    decreases ws.len(),
{
    if ws.len() > 0 {
        let p = ws.drop_last();
        lemma_words_be(p);
        lemma_u32_be_inverse(ws.last());
        assert forall|i: int| 0 <= i < ws.len() implies #[trigger] words_be(ws).subrange(
            4 * i,
            4 * i + 4,
        ) == u32_be(ws[i]) by {
            if i < p.len() {
                assert(words_be(ws).subrange(4 * i, 4 * i + 4) =~= words_be(p).subrange(
                    4 * i,
                    4 * i + 4,
                ));
            } else {
                assert(words_be(ws).subrange(4 * i, 4 * i + 4) =~= u32_be(ws.last()));
            }
        }
    }
}

/// Reading the word at index `i` of `words_be(ws)`, whatever follows it, gives
/// `ws[i]`; past the last word lies exactly what followed.
pub proof fn lemma_words_be_read(ws: Seq<u32>, rest: Seq<u8>)
    ensures
        forall|i: int|
            0 <= i < ws.len() ==> #[trigger] u32_of_be((words_be(ws) + rest).skip(4 * i)) == ws[i],
        (words_be(ws) + rest).skip(4 * ws.len() as int) == rest,
        (words_be(ws) + rest).len() == 4 * ws.len() + rest.len(),
{
    lemma_words_be(ws);
    let e = words_be(ws) + rest;
    assert forall|i: int| 0 <= i < ws.len() implies #[trigger] u32_of_be(e.skip(4 * i)) == ws[i] by {
        let at = e.skip(4 * i);
        assert(at.take(4) =~= words_be(ws).subrange(4 * i, 4 * i + 4));
        assert(u32_be(ws[i]).take(4) =~= u32_be(ws[i]));
        lemma_u32_of_be_prefix(at, u32_be(ws[i]));
        lemma_u32_be_inverse(ws[i]);
    }
    assert(e.skip(4 * ws.len() as int) =~= rest);
}

/// Re-encoding `n` words read from `b` gives back their bytes.
pub proof fn lemma_words_reencode(b: Seq<u8>, n: nat)
    requires
        b.len() >= 4 * n,
    ensures
        words_be(words_of_be(b, n)) == b.take(4 * n as int),
    decreases n,
{
    if n == 0 {
        assert(b.take(0) =~= Seq::<u8>::empty());
    } else {
        let ws = words_of_be(b, n);
        let m = (n - 1) as nat;
        lemma_words_reencode(b, m);
        assert(ws.drop_last() =~= words_of_be(b, m));
        let at = b.skip(4 * m as int);
        assert(ws.last() == u32_of_be(at));
        assert(at.take(4).take(4) =~= at.take(4));
        lemma_u32_of_be_prefix(at.take(4), at);
        lemma_u32_of_be_inverse(at.take(4));
        assert(b.take(4 * n as int) =~= b.take(4 * m as int) + at.take(4));
    }
}

/// Re-encoding an array of words that was read gives back the bytes it was read
/// from.
pub proof fn lemma_u32_array_reencode(b: Seq<u8>)
    requires
        u32_array_of_be(b) is Some,
    ensures
        u32_array_of_be(b) matches Some((ws, n)) && u32_array_be(ws) == b.take(n as int),
{
    let n = u32_of_be(b) as nat;
    let ws = words_of_be(b.skip(4), n);
    lemma_words_reencode(b.skip(4), n);
    assert(b.take(4).take(4) =~= b.take(4));
    lemma_u32_of_be_prefix(b.take(4), b);
    lemma_u32_of_be_inverse(b.take(4));
    assert(ws.len() == n);
    assert(u32_array_be(ws) =~= b.take(4 + 4 * n as int));
}

/// An array of words read back from its encoding, whatever follows it.
pub proof fn lemma_u32_array_round_trip(ws: Seq<u32>, rest: Seq<u8>)
    requires
        ws.len() <= u32::MAX,
    ensures
        u32_array_be(ws).len() == 4 + 4 * ws.len(),
        u32_array_of_be(u32_array_be(ws) + rest) == Some((ws, u32_array_be(ws).len())),
{
    let e = u32_array_be(ws) + rest;
    lemma_words_be(ws);
    lemma_u32_be_inverse(ws.len() as u32);
    assert(e =~= u32_be(ws.len() as u32) + (words_be(ws) + rest));
    lemma_u32_of_be_append(u32_be(ws.len() as u32), words_be(ws) + rest);
    let n = ws.len();
    assert forall|i: int| 0 <= i < n implies #[trigger] words_of_be(e.skip(4), n)[i] == ws[i] by {
        let at = e.skip(4).skip(4 * i);
        assert(at.take(4) =~= words_be(ws).subrange(4 * i, 4 * i + 4));
        assert(u32_be(ws[i]).take(4) =~= u32_be(ws[i]));
        lemma_u32_of_be_prefix(at, u32_be(ws[i]));
        lemma_u32_be_inverse(ws[i]);
    }
    assert(words_of_be(e.skip(4), n) =~= ws);
}

/// Writes an array of 32-bit words: count, then each word.
pub fn write_u32_array(out: &mut Vec<u8>, ws: &[u32])
    requires
        ws@.len() <= u32::MAX,
    ensures
        final(out)@ == old(out)@ + u32_array_be(ws@),
{
    let ghost start = out@;
    write_u32(out, ws.len() as u32);
    let mut i: usize = 0;
    while i < ws.len()
        invariant
            i <= ws@.len(),
            out@ == start + u32_be(ws@.len() as u32) + words_be(ws@.take(i as int)),
        decreases ws@.len() - i,
    {
        let ghost before = out@;
        write_u32(out, ws[i]);
        proof {
            assert(ws@.take(i + 1).drop_last() =~= ws@.take(i as int));
            assert(ws@.take(i + 1).last() == ws@[i as int]);
            assert(out@ =~= before + u32_be(ws@[i as int]));
        }
        i = i + 1;
    }
    assert(ws@.take(ws@.len() as int) =~= ws@);
}

/// Reads opaque data from the cursor.
pub fn read_opaque(r: &mut XdrCursor) -> (res: Result<Vec<u8>, XdrError>)
    ensures
        final(r).data() == old(r).data(),
        match res {
            Ok(v) => opaque_of_be(old(r).rest()) matches Some((w, n)) && w == v@ && final(r).pos()
                == old(r).pos() + n,
            Err(_) => opaque_of_be(old(r).rest()) is None,
        },
{
    proof {
        use_type_invariant(&*r);
    }
    let ghost b = r.rest();
    let ghost p0 = r.pos();
    let n = r.read_u32()?;
    proof {
        assert(r.rest() =~= b.skip(4));
    }
    let v = match r.read_bytes(n as usize) {
        Ok(v) => v,
        Err(e) => {
            return Err(e);
        },
    };
    proof {
        assert(r.rest() =~= b.skip(4 + n));
        assert(v@ =~= b.subrange(4, 4 + n as int));
    }
    let pad = padding(n as usize);
    match r.skip(pad) {
        Ok(()) => {},
        Err(e) => {
            return Err(e);
        },
    }
    Ok(v)
}

/// Reads an array of 32-bit words from the cursor.
pub fn read_u32_array(r: &mut XdrCursor) -> (res: Result<Vec<u32>, XdrError>)
    ensures
        final(r).data() == old(r).data(),
        match res {
            Ok(v) => u32_array_of_be(old(r).rest()) matches Some((w, n)) && w == v@ && final(r).pos()
                == old(r).pos() + n,
            Err(_) => u32_array_of_be(old(r).rest()) is None,
        },
{
    proof {
        use_type_invariant(&*r);
    }
    let ghost b = r.rest();
    let ghost p0 = r.pos();
    let ghost d0 = r.data();
    let n = r.read_u32()?;
    proof {
        use_type_invariant(&*r);
        assert(r.rest() =~= b.skip(4));
    }
    if (r.remaining() as u64) < 4 * (n as u64) {
        return Err(XdrError::UnexpectedEof);
    }
    let mut out: Vec<u32> = Vec::new();
    let mut i: u32 = 0;
    while i < n
        invariant
            i <= n,
            n == u32_of_be(b),
            b.len() >= 4 + 4 * n,
            r.data() == d0,
            d0.skip(p0 as int) == b,
            r.pos() == p0 + 4 + 4 * i,
            out@ == words_of_be(b.skip(4), i as nat),
        decreases n - i,
    {
        proof {
            use_type_invariant(&*r);
            assert(r.rest() =~= b.skip(4).skip(4 * i));
        }
        let w = r.read_u32();
        match w {
            Ok(w) => {
                out.push(w);
            },
            Err(_) => {
                return Err(XdrError::UnexpectedEof);
            },
        }
        i = i + 1;
        assert(out@ =~= words_of_be(b.skip(4), i as nat));
    }
    Ok(out)
}

// ---------------------------------------------------------------------------
// The codec traits
// ---------------------------------------------------------------------------

/// A type with an XDR encoding.
pub trait XdrSerialize: View + Sized {
    /// Whether the value can be encoded: every length fits a 32-bit count.
    spec fn spec_encodable(v: <Self as View>::V) -> bool;

    /// The bytes that encode the value.
    spec fn spec_encode(v: <Self as View>::V) -> Seq<u8>;

    /// Appends the encoding of `self` to `w`.
    fn xdr_serialize(&self, w: &mut Vec<u8>)
        requires
            Self::spec_encodable(self@),
        ensures
            final(w)@ == old(w)@ + Self::spec_encode(self@),
    ;
}

/// A type that can be read from its XDR encoding.
pub trait XdrDeserialize: XdrSerialize {
    /// What the front of `b` decodes to, with the number of bytes it takes, or
    /// `None` when it does not hold a value of the type.
    spec fn spec_decode(b: Seq<u8>) -> Option<(<Self as View>::V, nat)>;

    /// Reads a value at the cursor and moves past it.
    fn xdr_deserialize(r: &mut XdrCursor) -> (res: Result<Self, XdrError>)
        ensures
            final(r).data() == old(r).data(),
            match res {
                Ok(v) => Self::spec_decode(old(r).rest()) matches Some((w, n)) && w == v@
                    && final(r).pos() == old(r).pos() + n,
                Err(_) => Self::spec_decode(old(r).rest()) is None,
            },
    ;

    /// Decoding an encoding gives the value back and takes exactly its bytes,
    /// whatever follows it.
    proof fn lemma_decode_encode(v: <Self as View>::V, rest: Seq<u8>)
        requires
            Self::spec_encodable(v),
        ensures
            Self::spec_decode(Self::spec_encode(v) + rest) == Some((v, Self::spec_encode(v).len())),
    ;
}

/// For every codec type, decoding the encoding of a value that can be encoded
/// gives that value back, consumes exactly the encoding, and ignores what follows.
pub proof fn lemma_xdr_round_trip<T: XdrDeserialize>(v: <T as View>::V, rest: Seq<u8>)
    requires
        T::spec_encodable(v),
    ensures
        T::spec_decode(T::spec_encode(v) + rest) == Some((v, T::spec_encode(v).len())),
{
    T::lemma_decode_encode(v, rest);
}

impl XdrSerialize for u32 {
    open spec fn spec_encodable(v: u32) -> bool {
        true
    }

    open spec fn spec_encode(v: u32) -> Seq<u8> {
        u32_be(v)
    }

    fn xdr_serialize(&self, w: &mut Vec<u8>) {
        write_u32(w, *self);
    }
}

impl XdrDeserialize for u32 {
    open spec fn spec_decode(b: Seq<u8>) -> Option<(u32, nat)> {
        if b.len() >= 4 {
            Some((u32_of_be(b), 4))
        } else {
            None
        }
    }

    fn xdr_deserialize(r: &mut XdrCursor) -> (res: Result<u32, XdrError>) {
        r.read_u32()
    }

    proof fn lemma_decode_encode(v: u32, rest: Seq<u8>) {
        lemma_u32_be_inverse(v);
        lemma_u32_of_be_append(u32_be(v), rest);
    }
}

impl XdrSerialize for i32 {
    open spec fn spec_encodable(v: i32) -> bool {
        true
    }

    open spec fn spec_encode(v: i32) -> Seq<u8> {
        u32_be(v as u32)
    }

    fn xdr_serialize(&self, w: &mut Vec<u8>) {
        let b = be_write_i32(*self);
        append_bytes(w, &b);
    }
}

impl XdrDeserialize for i32 {
    open spec fn spec_decode(b: Seq<u8>) -> Option<(i32, nat)> {
        if b.len() >= 4 {
            Some((u32_of_be(b) as i32, 4))
        } else {
            None
        }
    }

    fn xdr_deserialize(r: &mut XdrCursor) -> (res: Result<i32, XdrError>) {
        r.read_i32()
    }

    proof fn lemma_decode_encode(v: i32, rest: Seq<u8>) {
        lemma_u32_be_inverse(v as u32);
        lemma_u32_of_be_append(u32_be(v as u32), rest);
        assert((v as u32) as i32 == v) by (bit_vector);
    }
}

impl XdrSerialize for u64 {
    open spec fn spec_encodable(v: u64) -> bool {
        true
    }

    open spec fn spec_encode(v: u64) -> Seq<u8> {
        u64_be(v)
    }

    fn xdr_serialize(&self, w: &mut Vec<u8>) {
        let b = be_write_u64(*self);
        append_bytes(w, &b);
    }
}

impl XdrDeserialize for u64 {
    open spec fn spec_decode(b: Seq<u8>) -> Option<(u64, nat)> {
        if b.len() >= 8 {
            Some((u64_of_be(b), 8))
        } else {
            None
        }
    }

    fn xdr_deserialize(r: &mut XdrCursor) -> (res: Result<u64, XdrError>) {
        r.read_u64()
    }

    proof fn lemma_decode_encode(v: u64, rest: Seq<u8>) {
        lemma_u64_be_inverse(v);
        let e = u64_be(v);
        lemma_u32_of_be_append(e, rest);
        assert((e + rest).skip(4) =~= e.skip(4) + rest);
        lemma_u32_of_be_append(e.skip(4), rest);
    }
}

/// The encoding of a boolean: the word 1 for true, 0 for false.
pub open spec fn bool_be(v: bool) -> Seq<u8> {
    u32_be(if v { 1u32 } else { 0u32 })
}

impl XdrSerialize for bool {
    open spec fn spec_encodable(v: bool) -> bool {
        true
    }

    open spec fn spec_encode(v: bool) -> Seq<u8> {
        bool_be(v)
    }

    fn xdr_serialize(&self, w: &mut Vec<u8>) {
        let v: u32 = if *self {
            1
        } else {
            0
        };
        write_u32(w, v);
    }
}

impl XdrDeserialize for bool {
    /// Any nonzero word reads as true.
    open spec fn spec_decode(b: Seq<u8>) -> Option<(bool, nat)> {
        if b.len() >= 4 {
            Some((u32_of_be(b) != 0, 4))
        } else {
            None
        }
    }

    fn xdr_deserialize(r: &mut XdrCursor) -> (res: Result<bool, XdrError>) {
        let v = r.read_u32()?;
        Ok(v != 0)
    }

    proof fn lemma_decode_encode(v: bool, rest: Seq<u8>) {
        let w: u32 = if v {
            1
        } else {
            0
        };
        lemma_u32_be_inverse(w);
        lemma_u32_of_be_append(u32_be(w), rest);
    }
}

impl XdrSerialize for Vec<u8> {
    open spec fn spec_encodable(v: Seq<u8>) -> bool {
        v.len() <= u32::MAX
    }

    open spec fn spec_encode(v: Seq<u8>) -> Seq<u8> {
        opaque_be(v)
    }

    fn xdr_serialize(&self, w: &mut Vec<u8>) {
        write_opaque(w, self.as_slice());
    }
}

impl XdrDeserialize for Vec<u8> {
    open spec fn spec_decode(b: Seq<u8>) -> Option<(Seq<u8>, nat)> {
        opaque_of_be(b)
    }

    fn xdr_deserialize(r: &mut XdrCursor) -> (res: Result<Vec<u8>, XdrError>) {
        read_opaque(r)
    }

    proof fn lemma_decode_encode(v: Seq<u8>, rest: Seq<u8>) {
        lemma_opaque_round_trip(v, rest);
    }
}

impl XdrSerialize for Vec<u32> {
    open spec fn spec_encodable(v: Seq<u32>) -> bool {
        v.len() <= u32::MAX
    }

    open spec fn spec_encode(v: Seq<u32>) -> Seq<u8> {
        u32_array_be(v)
    }

    fn xdr_serialize(&self, w: &mut Vec<u8>) {
        write_u32_array(w, self.as_slice());
    }
}

impl XdrDeserialize for Vec<u32> {
    open spec fn spec_decode(b: Seq<u8>) -> Option<(Seq<u32>, nat)> {
        u32_array_of_be(b)
    }

    fn xdr_deserialize(r: &mut XdrCursor) -> (res: Result<Vec<u32>, XdrError>) {
        read_u32_array(r)
    }

    proof fn lemma_decode_encode(v: Seq<u32>, rest: Seq<u8>) {
        lemma_u32_array_round_trip(v, rest);
    }
}

/// A string carried as opaque XDR data: its bytes.
#[derive(Debug, Clone, Default)]
pub struct XdrString(pub Vec<u8>);

impl View for XdrString {
    type V = Seq<u8>;

    open spec fn view(&self) -> Seq<u8> {
        self.0@
    }
}

/// Copies a slice into a new vector.
pub fn slice_to_vec(s: &[u8]) -> (r: Vec<u8>)
    ensures
        r@ == s@,
{
    let mut r: Vec<u8> = Vec::new();
    append_bytes(&mut r, s);
    assert(r@ =~= s@);
    r
}

impl From<&str> for XdrString {
    /// The UTF-8 bytes of the text.
    fn from(value: &str) -> (r: XdrString)
        ensures
            r@ == encode_utf8(value@),
    {
        XdrString(slice_to_vec(value.as_bytes()))
    }
}

impl vstd::std_specs::convert::FromSpecImpl<&str> for XdrString {
    open spec fn obeys_from_spec() -> bool {
        false
    }

    open spec fn from_spec(v: &str) -> XdrString {
        arbitrary()
    }
}

impl From<String> for XdrString {
    /// The UTF-8 bytes of the text.
    fn from(value: String) -> (r: XdrString)
        ensures
            r@ == encode_utf8(value@),
    {
        XdrString(slice_to_vec(value.as_str().as_bytes()))
    }
}

impl vstd::std_specs::convert::FromSpecImpl<String> for XdrString {
    open spec fn obeys_from_spec() -> bool {
        false
    }

    open spec fn from_spec(v: String) -> XdrString {
        arbitrary()
    }
}

impl XdrSerialize for XdrString {
    open spec fn spec_encodable(v: Seq<u8>) -> bool {
        v.len() <= u32::MAX
    }

    open spec fn spec_encode(v: Seq<u8>) -> Seq<u8> {
        opaque_be(v)
    }

    fn xdr_serialize(&self, w: &mut Vec<u8>) {
        write_opaque(w, self.0.as_slice());
    }
}

impl XdrDeserialize for XdrString {
    open spec fn spec_decode(b: Seq<u8>) -> Option<(Seq<u8>, nat)> {
        opaque_of_be(b)
    }

    fn xdr_deserialize(r: &mut XdrCursor) -> (res: Result<XdrString, XdrError>) {
        let v = read_opaque(r)?;
        Ok(XdrString(v))
    }

    proof fn lemma_decode_encode(v: Seq<u8>, rest: Seq<u8>) {
        lemma_opaque_round_trip(v, rest);
    }
}

/// The encoding of a value as a fresh byte vector.
pub fn serialize_to_vec<T: XdrSerialize>(v: &T) -> (r: Vec<u8>)
    requires
        T::spec_encodable(v@),
    ensures
        r@ == T::spec_encode(v@),
{
    let mut out: Vec<u8> = Vec::new();
    v.xdr_serialize(&mut out);
    assert(out@ =~= T::spec_encode(v@));
    out
}

/// Decodes a value from the front of `buf`; bytes after it are ignored.
pub fn deserialize_from_slice<T: XdrDeserialize>(buf: &[u8]) -> (r: Result<T, XdrError>)
    ensures
        match r {
            Ok(v) => T::spec_decode(buf@) matches Some((w, _)) && w == v@,
            Err(_) => T::spec_decode(buf@) is None,
        },
{
    let mut cur = XdrCursor::new(slice_to_vec(buf));
    proof {
        assert(cur.rest() =~= buf@);
    }
    T::xdr_deserialize(&mut cur)
}

/// An attribute set: the bitmap of attribute numbers present, then the values
/// as opaque data.
pub open spec fn fattr4_be(attrmask: Seq<u32>, attr_vals: Seq<u8>) -> Seq<u8> {
    u32_array_be(attrmask) + opaque_be(attr_vals)
}

/// Writes an attribute set from a bitmap and values already encoded in
/// attribute-number order.
pub fn encode_fattr4(w: &mut Vec<u8>, attrmask: &Vec<u32>, attr_vals: &[u8])
    requires
        attrmask@.len() <= u32::MAX,
        attr_vals@.len() <= u32::MAX,
    ensures
        final(w)@ == old(w)@ + fattr4_be(attrmask@, attr_vals@),
{
    let ghost start = w@;
    write_u32_array(w, attrmask.as_slice());
    write_opaque(w, attr_vals);
    assert(w@ =~= start + fattr4_be(attrmask@, attr_vals@));
}

} // verus!
