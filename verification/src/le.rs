//! Little-endian 32-bit words in byte buffers.

use vstd::prelude::*;

verus! {

/// The four bytes of `n`, least significant first.
pub open spec fn le_bytes(n: u32) -> Seq<u8> {
    seq![
        (n % 256) as u8,
        (n / 256 % 256) as u8,
        (n / 65536 % 256) as u8,
        (n / 16777216) as u8,
    ]
}

/// The word whose bytes, least significant first, are the first four of `s`.
pub open spec fn le_value(s: Seq<u8>) -> u32 {
    (s[0] + 256 * s[1] + 65536 * s[2] + 16777216 * s[3]) as u32
}

/// The two's-complement bit pattern of `v`, read as an unsigned number.
pub open spec fn bits(v: i32) -> u32 {
    if v >= 0 {
        v as u32
    } else {
        (v + 0x1_0000_0000) as u32
    }
}

/// The number whose two's-complement bit pattern is `n`.
pub open spec fn signed(n: u32) -> i32 {
    if n < 0x8000_0000 {
        n as i32
    } else {
        (n - 0x1_0000_0000) as i32
    }
}

/// `buf` with `bytes` written over it from position `off` on; the length and
/// every byte outside of the written range stay.
pub open spec fn overwrite(buf: Seq<u8>, off: int, bytes: Seq<u8>) -> Seq<u8> {
    Seq::new(
        buf.len(),
        |k: int|
            if off <= k < off + bytes.len() {
                bytes[k - off]
            } else {
                buf[k]
            },
    )
}

/// The word stored in the four bytes of `buf` that start at `off`.
pub open spec fn word_at(buf: Seq<u8>, off: int) -> u32 {
    le_value(buf.subrange(off, off + 4))
}

/// Decoding the bytes of a word gives the word back.
pub proof fn lemma_le_value_of_bytes(n: u32)
    ensures
        le_bytes(n).len() == 4,
        le_value(le_bytes(n)) == n,
{
}

/// Encoding the word that four bytes stand for gives the bytes back.
pub proof fn lemma_le_bytes_of_value(s: Seq<u8>)
    requires
        s.len() == 4,
    ensures
        le_bytes(le_value(s)) == s,
{
    let (a, b, c, d) = (s[0] as int, s[1] as int, s[2] as int, s[3] as int);
    let n = le_value(s) as int;
    assert(n == a + 256 * b + 65536 * c + 16777216 * d);
    assert(n % 256 == a);
    assert(n / 256 == b + 256 * c + 65536 * d);
    assert(n / 256 % 256 == b);
    assert(n / 65536 == c + 256 * d);
    assert(n / 65536 % 256 == c);
    assert(n / 16777216 == d);
    assert(le_bytes(le_value(s)) =~= s);
}

/// `bits` and `signed` undo each other.
pub proof fn lemma_bits_signed(v: i32, n: u32)
    ensures
        signed(bits(v)) == v,
        bits(signed(n)) == n,
{
}

/// A word reads back as what was written in its place.
pub proof fn lemma_word_at_overwrite(buf: Seq<u8>, off: int, n: u32)
    requires
        0 <= off,
        off + 4 <= buf.len(),
    ensures
        word_at(overwrite(buf, off, le_bytes(n)), off) == n,
{
    lemma_le_value_of_bytes(n);
    assert(overwrite(buf, off, le_bytes(n)).subrange(off, off + 4) =~= le_bytes(n));
}

/// A write leaves every word alone that it does not overlap.
pub proof fn lemma_word_at_frame(buf: Seq<u8>, off: int, bytes: Seq<u8>, other: int)
    requires
        0 <= other,
        other + 4 <= buf.len(),
        other + 4 <= off || off + bytes.len() <= other,
    ensures
        word_at(overwrite(buf, off, bytes), other) == word_at(buf, other),
{
    assert(overwrite(buf, off, bytes).subrange(other, other + 4) =~= buf.subrange(
        other,
        other + 4,
    ));
}

/// A write past the end of a prefix is a write to what follows it.
pub proof fn lemma_overwrite_suffix(prefix: Seq<u8>, rest: Seq<u8>, off: int, bytes: Seq<u8>)
    requires
        0 <= off,
    ensures
        overwrite(prefix + rest, prefix.len() + off, bytes) == prefix + overwrite(rest, off, bytes),
{
    assert(overwrite(prefix + rest, prefix.len() + off, bytes) =~= prefix + overwrite(
        rest,
        off,
        bytes,
    ));
}

/// A word that lies within one of two joined buffers is the same word there.
pub proof fn lemma_word_at_concat(a: Seq<u8>, b: Seq<u8>, off: int)
    requires
        0 <= off,
    ensures
        off + 4 <= a.len() ==> word_at(a + b, off) == word_at(a, off),
        off + 4 <= b.len() ==> word_at(a + b, a.len() + off) == word_at(b, off),
{
    if off + 4 <= a.len() {
        assert((a + b).subrange(off, off + 4) =~= a.subrange(off, off + 4));
    }
    if off + 4 <= b.len() {
        assert((a + b).subrange(a.len() + off, a.len() + off + 4) =~= b.subrange(off, off + 4));
    }
}

/// A word that lies within a part of a buffer is the same word there.
pub proof fn lemma_word_at_subrange(buf: Seq<u8>, start: int, end: int, off: int)
    requires
        0 <= start,
        0 <= off,
        start + off + 4 <= end <= buf.len(),
    ensures
        word_at(buf.subrange(start, end), off) == word_at(buf, start + off),
{
    assert(buf.subrange(start, end).subrange(off, off + 4) =~= buf.subrange(
        start + off,
        start + off + 4,
    ));
}

/// Each byte of a word weighs 256 times the one before it, and together they
/// weigh what the word is.
pub proof fn lemma_bytes_weigh(n: u32)
    ensures
        le_bytes(n).len() == 4,
        le_bytes(n)[0] + 256 * le_bytes(n)[1] + 65536 * le_bytes(n)[2] + 16777216 * le_bytes(n)[3]
            == n,
{
}

/// A stored word weighs what its four bytes do, the first one least.
pub proof fn lemma_word_weighs(buf: Seq<u8>, off: int)
    requires
        0 <= off,
        off + 4 <= buf.len(),
    ensures
        word_at(buf, off) == buf[off] + 256 * buf[off + 1] + 65536 * buf[off + 2] + 16777216 * buf[
            off + 3],
{
}

/// A signed number and its bit pattern differ by a multiple of two to the
/// thirty-second.
pub proof fn lemma_bits_congruent(v: i32, n: u32)
    ensures
        (bits(v) - v) % 0x1_0000_0000 == 0,
        (signed(n) - n) % 0x1_0000_0000 == 0,
{
}

/// A write replaces as many bytes as it has, where it is made, and nothing
/// before or after.
pub proof fn lemma_overwrite_replaces(a: Seq<u8>, b: Seq<u8>, c: Seq<u8>, bytes: Seq<u8>)
    requires
        bytes.len() == b.len(),
    ensures
        overwrite(a + b + c, a.len() as int, bytes) == a + bytes + c,
{
    assert(overwrite(a + b + c, a.len() as int, bytes) =~= a + bytes + c);
}

/// Reinterprets the bits of a signed number as an unsigned one.
pub(crate) fn to_bits(v: i32) -> (n: u32)
    ensures
        n == bits(v),
{
    proof {
        assert(v >= 0 ==> (v as u32) == v) by (bit_vector);
        assert(v < 0 ==> (v as u32) == v + 0x1_0000_0000) by (bit_vector);
    }
    v as u32
}

/// Reinterprets the bits of an unsigned number as a signed one.
pub(crate) fn to_signed(n: u32) -> (v: i32)
    ensures
        v == signed(n),
{
    proof {
        assert(n < 0x8000_0000 ==> (n as i32) == n) by (bit_vector);
        assert(n >= 0x8000_0000 ==> (n as i32) == n - 0x1_0000_0000) by (bit_vector);
    }
    n as i32
}

/// Appends the four bytes of `n`, least significant first.
pub(crate) fn push_word(buf: &mut Vec<u8>, n: u32)
    ensures
        final(buf)@ == old(buf)@ + le_bytes(n),
{
    buf.push((n % 256) as u8);
    buf.push((n / 256 % 256) as u8);
    buf.push((n / 65536 % 256) as u8);
    buf.push((n / 16777216) as u8);
    assert(buf@ =~= old(buf)@ + le_bytes(n));
}

/// Overwrites the four bytes at `off` with those of `n`.
pub(crate) fn put_word(buf: &mut [u8], off: usize, n: u32)
    requires
        off + 4 <= old(buf)@.len(),
    ensures
        final(buf)@ == overwrite(old(buf)@, off as int, le_bytes(n)),
{
    buf[off] = (n % 256) as u8;
    buf[off + 1] = (n / 256 % 256) as u8;
    buf[off + 2] = (n / 65536 % 256) as u8;
    buf[off + 3] = (n / 16777216) as u8;
    assert(buf@ =~= overwrite(old(buf)@, off as int, le_bytes(n)));
}

/// The word in the four bytes at `off`.
pub(crate) fn get_word(buf: &[u8], off: usize) -> (n: u32)
    requires
        off + 4 <= buf@.len(),
    ensures
        n == word_at(buf@, off as int),
{
    assert(buf@.len() == buf.len());
    buf[off] as u32 + 256 * buf[off + 1] as u32 + 65536 * buf[off + 2] as u32 + 16777216 * buf[off
        + 3] as u32
}

} // verus!
