//! Little-endian encodings of the fixed-width integers written into the
//! binary dictionary images, with the writers that produce them.

use vstd::prelude::*;
use byteorder::ByteOrder;
use byteorder::LittleEndian;

verus! {

/// The two little-endian bytes of `n`.
pub open spec fn le_u16(n: u16) -> Seq<u8> {
    seq![(n % 256) as u8, (n / 256) as u8]
}

/// The four little-endian bytes of `n`.
pub open spec fn le_u32(n: u32) -> Seq<u8> {
    seq![(n % 256) as u8, ((n / 256) % 256) as u8, ((n / 65536) % 256) as u8, (n / 16777216) as u8]
}

/// The two's-complement little-endian bytes of `n`.
pub open spec fn le_i16(n: i16) -> Seq<u8> {
    le_u16(n as u16)
}

/// The two's-complement little-endian bytes of `n`.
pub open spec fn le_i32(n: i32) -> Seq<u8> {
    le_u32(n as u32)
}

/// The value of two little-endian bytes.
pub open spec fn from_le2(b0: u8, b1: u8) -> int {
    b0 + 256 * b1
}

/// The value of four little-endian bytes.
pub open spec fn from_le4(b0: u8, b1: u8, b2: u8, b3: u8) -> int {
    b0 + 256 * b1 + 65536 * b2 + 16777216 * b3
}

/// Concatenated little-endian encodings of a sequence of `u32`s.
pub open spec fn le_u32_seq(s: Seq<u32>) -> Seq<u8>
    decreases s.len(),
{
    if s.len() == 0 {
        Seq::empty()
    } else {
        le_u32_seq(s.drop_last()) + le_u32(s.last())
    }
}

/// Concatenated little-endian encodings of a sequence of `i16`s.
pub open spec fn le_i16_seq(s: Seq<i16>) -> Seq<u8>
    decreases s.len(),
{
    if s.len() == 0 {
        Seq::empty()
    } else {
        le_i16_seq(s.drop_last()) + le_i16(s.last())
    }
}

/// Decoding the two bytes of `le_u16(n)` gives `n` back.
pub proof fn lemma_le_u16_roundtrip(n: u16)
    ensures
        le_u16(n).len() == 2,
        from_le2(le_u16(n)[0], le_u16(n)[1]) == n,
{
}

/// Decoding the four bytes of `le_u32(n)` gives `n` back.
pub proof fn lemma_le_u32_roundtrip(n: u32)
    ensures
        le_u32(n).len() == 4,
        from_le4(le_u32(n)[0], le_u32(n)[1], le_u32(n)[2], le_u32(n)[3]) == n,
{
    let a = n % 256;
    let b = (n / 256) % 256;
    let c = (n / 65536) % 256;
    let d = n / 16777216;
    assert(n == a + 256 * b + 65536 * c + 16777216 * d) by (nonlinear_arith)
        requires a == n % 256, b == (n / 256) % 256, c == (n / 65536) % 256, d == n / 16777216;
}

/// Decoding the two bytes of `le_i16(n)` gives the bit pattern of `n` back.
pub proof fn lemma_le_i16_roundtrip(n: i16)
    ensures
        le_i16(n).len() == 2,
        from_le2(le_i16(n)[0], le_i16(n)[1]) == n as u16,
{
    lemma_le_u16_roundtrip(n as u16);
}

/// Four bytes per value.
pub proof fn lemma_le_u32_seq_len(s: Seq<u32>)
    ensures
        le_u32_seq(s).len() == 4 * s.len(),
    decreases s.len(),
{
    if s.len() > 0 {
        lemma_le_u32_seq_len(s.drop_last());
    }
}

/// Two bytes per value.
pub proof fn lemma_le_i16_seq_len(s: Seq<i16>)
    ensures
        le_i16_seq(s).len() == 2 * s.len(),
    decreases s.len(),
{
    if s.len() > 0 {
        lemma_le_i16_seq_len(s.drop_last());
    }
}

/// The `i`-th four bytes of `le_u32_seq(s)` are the encoding of `s[i]`.
pub proof fn lemma_le_u32_seq_index(s: Seq<u32>, i: int)
    requires
        0 <= i < s.len(),
    ensures
        le_u32_seq(s).len() == 4 * s.len(),
        le_u32_seq(s).subrange(4 * i, 4 * i + 4) == le_u32(s[i]),
    decreases s.len(),
{
    lemma_le_u32_seq_len(s);
    lemma_le_u32_seq_len(s.drop_last());
    if i < s.len() - 1 {
        lemma_le_u32_seq_index(s.drop_last(), i);
        assert(le_u32_seq(s).subrange(4 * i, 4 * i + 4) =~= le_u32_seq(s.drop_last()).subrange(4 * i, 4 * i + 4));
    } else {
        assert(le_u32_seq(s).subrange(4 * i, 4 * i + 4) =~= le_u32(s[i]));
    }
}

/// The `i`-th two bytes of `le_i16_seq(s)` are the encoding of `s[i]`.
pub proof fn lemma_le_i16_seq_index(s: Seq<i16>, i: int)
    requires
        0 <= i < s.len(),
    ensures
        le_i16_seq(s).len() == 2 * s.len(),
        le_i16_seq(s).subrange(2 * i, 2 * i + 2) == le_i16(s[i]),
    decreases s.len(),
{
    lemma_le_i16_seq_len(s);
    lemma_le_i16_seq_len(s.drop_last());
    if i < s.len() - 1 {
        lemma_le_i16_seq_index(s.drop_last(), i);
        assert(le_i16_seq(s).subrange(2 * i, 2 * i + 2) =~= le_i16_seq(s.drop_last()).subrange(2 * i, 2 * i + 2));
    } else {
        assert(le_i16_seq(s).subrange(2 * i, 2 * i + 2) =~= le_i16(s[i]));
    }
}

/// `byteorder::LittleEndian::write_u16`: stores the two little-endian bytes
/// of `n` into a two-byte buffer, which is returned.
#[verifier::external_body]
fn le_bytes_u16(n: u16) -> (r: [u8; 2])
    ensures
        r@ == le_u16(n),
{
    let mut buf = [0u8; 2];
    LittleEndian::write_u16(&mut buf, n);
    buf
}

/// `byteorder::LittleEndian::write_i16`: stores the two two's-complement
/// little-endian bytes of `n` into a two-byte buffer, which is returned.
#[verifier::external_body]
fn le_bytes_i16(n: i16) -> (r: [u8; 2])
    ensures
        r@ == le_i16(n),
{
    let mut buf = [0u8; 2];
    LittleEndian::write_i16(&mut buf, n);
    buf
}

/// `byteorder::LittleEndian::write_u32`: stores the four little-endian bytes
/// of `n` into a four-byte buffer, which is returned.
#[verifier::external_body]
fn le_bytes_u32(n: u32) -> (r: [u8; 4])
    ensures
        r@ == le_u32(n),
{
    let mut buf = [0u8; 4];
    LittleEndian::write_u32(&mut buf, n);
    buf
}

/// `byteorder::LittleEndian::write_i32`: stores the four two's-complement
/// little-endian bytes of `n` into a four-byte buffer, which is returned.
#[verifier::external_body]
fn le_bytes_i32(n: i32) -> (r: [u8; 4])
    ensures
        r@ == le_i32(n),
{
    let mut buf = [0u8; 4];
    LittleEndian::write_i32(&mut buf, n);
    buf
}

/// Appends the little-endian encoding of `n` to `buf`.
pub fn push_u16_le(buf: &mut Vec<u8>, n: u16)
    ensures
        final(buf)@ == old(buf)@ + le_u16(n),
{
    let b = le_bytes_u16(n);
    buf.push(b[0]);
    buf.push(b[1]);
    assert(buf@ =~= old(buf)@ + le_u16(n));
}

/// Appends the little-endian encoding of `n` to `buf`.
pub fn push_i16_le(buf: &mut Vec<u8>, n: i16)
    ensures
        final(buf)@ == old(buf)@ + le_i16(n),
{
    let b = le_bytes_i16(n);
    buf.push(b[0]);
    buf.push(b[1]);
    assert(buf@ =~= old(buf)@ + le_i16(n));
}

/// Appends the little-endian encoding of `n` to `buf`.
pub fn push_u32_le(buf: &mut Vec<u8>, n: u32)
    ensures
        final(buf)@ == old(buf)@ + le_u32(n),
{
    let b = le_bytes_u32(n);
    buf.push(b[0]);
    buf.push(b[1]);
    buf.push(b[2]);
    buf.push(b[3]);
    assert(buf@ =~= old(buf)@ + le_u32(n));
}

/// Appends the little-endian encoding of `n` to `buf`.
pub fn push_i32_le(buf: &mut Vec<u8>, n: i32)
    ensures
        final(buf)@ == old(buf)@ + le_i32(n),
{
    let b = le_bytes_i32(n);
    buf.push(b[0]);
    buf.push(b[1]);
    buf.push(b[2]);
    buf.push(b[3]);
    assert(buf@ =~= old(buf)@ + le_i32(n));
}

} // verus!
