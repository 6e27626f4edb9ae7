//! Little-endian scalar encoding over byte sequences.

use vstd::prelude::*;

verus! {

/// Two little-endian bytes of `x`.
pub open spec fn le16(x: u16) -> Seq<u8> {
    seq![(x & 0xff) as u8, (x >> 8) as u8]
}

/// Four little-endian bytes of `x`.
pub open spec fn le32(x: u32) -> Seq<u8> {
    seq![(x & 0xff) as u8, ((x >> 8) & 0xff) as u8, ((x >> 16) & 0xff) as u8, (x >> 24) as u8]
}

/// The value of four little-endian bytes.
pub open spec fn u32_of(b0: u8, b1: u8, b2: u8, b3: u8) -> u32 {
    (b0 as u32) | ((b1 as u32) << 8) | ((b2 as u32) << 16) | ((b3 as u32) << 24)
}

/// The value of two little-endian bytes.
pub open spec fn u16_of(b0: u8, b1: u8) -> u16 {
    (b0 as u16) | ((b1 as u16) << 8)
}

pub proof fn lemma_le32_bytes(b0: u8, b1: u8, b2: u8, b3: u8)
    ensures
        le32(u32_of(b0, b1, b2, b3)) == seq![b0, b1, b2, b3],
{
    let x = u32_of(b0, b1, b2, b3);
    assert((x & 0xff) as u8 == b0 && ((x >> 8) & 0xff) as u8 == b1 && ((x >> 16) & 0xff) as u8
        == b2 && (x >> 24) as u8 == b3) by (bit_vector)
        requires
            x == (b0 as u32) | ((b1 as u32) << 8) | ((b2 as u32) << 16) | ((b3 as u32) << 24),
    ;
    assert(le32(x) =~= seq![b0, b1, b2, b3]);
}

pub proof fn lemma_u32_of_le32(x: u32)
    ensures
        u32_of(le32(x)[0], le32(x)[1], le32(x)[2], le32(x)[3]) == x,
{
    let b0 = (x & 0xff) as u8;
    let b1 = ((x >> 8) & 0xff) as u8;
    let b2 = ((x >> 16) & 0xff) as u8;
    let b3 = (x >> 24) as u8;
    assert((b0 as u32) | ((b1 as u32) << 8) | ((b2 as u32) << 16) | ((b3 as u32) << 24) == x)
        by (bit_vector)
        requires
            b0 == (x & 0xff) as u8,
            b1 == ((x >> 8) & 0xff) as u8,
            b2 == ((x >> 16) & 0xff) as u8,
            b3 == (x >> 24) as u8,
    ;
}

pub proof fn lemma_le16_bytes(b0: u8, b1: u8)
    ensures
        le16(u16_of(b0, b1)) == seq![b0, b1],
{
    let x = u16_of(b0, b1);
    assert((x & 0xff) as u8 == b0 && (x >> 8) as u8 == b1) by (bit_vector)
        requires
            x == (b0 as u16) | ((b1 as u16) << 8),
    ;
    assert(le16(x) =~= seq![b0, b1]);
}

pub proof fn lemma_u16_of_le16(x: u16)
    ensures
        u16_of(le16(x)[0], le16(x)[1]) == x,
{
    let b0 = (x & 0xff) as u8;
    let b1 = (x >> 8) as u8;
    assert((b0 as u16) | ((b1 as u16) << 8) == x) by (bit_vector)
        requires
            b0 == (x & 0xff) as u8,
            b1 == (x >> 8) as u8,
    ;
}

/// The two's-complement bit pattern of `x`.
pub open spec fn i8_bits(x: i8) -> u8 {
    if x >= 0 {
        x as u8
    } else {
        (x + 256) as u8
    }
}

/// The signed value of the two's-complement bit pattern `b`.
pub open spec fn i8_from(b: u8) -> i8 {
    if b < 128 {
        b as i8
    } else {
        (b - 256) as i8
    }
}

pub proof fn lemma_i8_bits_round(x: i8)
    ensures
        i8_from(i8_bits(x)) == x,
{
}

pub proof fn lemma_i8_from_round(b: u8)
    ensures
        i8_bits(i8_from(b)) == b,
{
}

pub fn i8_to_bits(x: i8) -> (r: u8)
    ensures
        r == i8_bits(x),
{
    if x >= 0 {
        x as u8
    } else {
        let y: i8 = x + 127 + 1;
        y as u8 + 128
    }
}

pub fn i8_from_bits(b: u8) -> (r: i8)
    ensures
        r == i8_from(b),
{
    if b < 128 {
        b as i8
    } else {
        let y: u8 = b - 128;
        y as i8 - 127 - 1
    }
}

/// The two's-complement bit pattern of `x`.
pub open spec fn i16_bits(x: i16) -> u16 {
    if x >= 0 {
        x as u16
    } else {
        (x + 65536) as u16
    }
}

/// The signed value of the two's-complement bit pattern `b`.
pub open spec fn i16_from(b: u16) -> i16 {
    if b < 32768 {
        b as i16
    } else {
        (b - 65536) as i16
    }
}

pub proof fn lemma_i16_bits_round(x: i16)
    ensures
        i16_from(i16_bits(x)) == x,
{
}

pub proof fn lemma_i16_from_round(b: u16)
    ensures
        i16_bits(i16_from(b)) == b,
{
}

pub fn i16_to_bits(x: i16) -> (r: u16)
    ensures
        r == i16_bits(x),
{
    if x >= 0 {
        x as u16
    } else {
        let y: i16 = x + 32767 + 1;
        y as u16 + 32768
    }
}

pub fn i16_from_bits(b: u16) -> (r: i16)
    ensures
        r == i16_from(b),
{
    if b < 32768 {
        b as i16
    } else {
        let y: u16 = b - 32768;
        y as i16 - 32767 - 1
    }
}

/// The two's-complement bit pattern of `x`.
pub open spec fn i32_bits(x: i32) -> u32 {
    if x >= 0 {
        x as u32
    } else {
        (x + 4294967296) as u32
    }
}

/// The signed value of the two's-complement bit pattern `b`.
pub open spec fn i32_from(b: u32) -> i32 {
    if b < 2147483648 {
        b as i32
    } else {
        (b - 4294967296) as i32
    }
}

pub proof fn lemma_i32_bits_round(x: i32)
    ensures
        i32_from(i32_bits(x)) == x,
{
}

pub proof fn lemma_i32_from_round(b: u32)
    ensures
        i32_bits(i32_from(b)) == b,
{
}

pub fn i32_to_bits(x: i32) -> (r: u32)
    ensures
        r == i32_bits(x),
{
    if x >= 0 {
        x as u32
    } else {
        let y: i32 = x + 2147483647 + 1;
        y as u32 + 2147483648
    }
}

pub fn i32_from_bits(b: u32) -> (r: i32)
    ensures
        r == i32_from(b),
{
    if b < 2147483648 {
        b as i32
    } else {
        let y: u32 = b - 2147483648;
        y as i32 - 2147483647 - 1
    }
}

/// Little-endian bytes of a sequence of words.
pub open spec fn words_bytes(ws: Seq<u32>) -> Seq<u8>
    decreases ws.len(),
{
    if ws.len() == 0 {
        seq![]
    } else {
        words_bytes(ws.drop_last()) + le32(ws.last())
    }
}

pub proof fn lemma_words_bytes_len(ws: Seq<u32>)
    ensures
        words_bytes(ws).len() == 4 * ws.len(),
    decreases ws.len(),
{
    if ws.len() > 0 {
        lemma_words_bytes_len(ws.drop_last());
    }
}

pub fn put_u8(out: &mut Vec<u8>, x: u8)
    ensures
        final(out)@ == old(out)@ + seq![x],
{
    out.push(x);
}

pub fn put_u16(out: &mut Vec<u8>, x: u16)
    ensures
        final(out)@ == old(out)@ + le16(x),
{
    out.push((x & 0xff) as u8);
    out.push((x >> 8) as u8);
}

pub fn put_u32(out: &mut Vec<u8>, x: u32)
    ensures
        final(out)@ == old(out)@ + le32(x),
{
    out.push((x & 0xff) as u8);
    out.push(((x >> 8) & 0xff) as u8);
    out.push(((x >> 16) & 0xff) as u8);
    out.push((x >> 24) as u8);
}

pub fn put_words(out: &mut Vec<u8>, ws: &Vec<u32>)
    ensures
        final(out)@ == old(out)@ + words_bytes(ws@),
{
    let ghost start = out@;
    let mut i: usize = 0;
    while i < ws.len()
        invariant
            i <= ws.len(),
            out@ == start + words_bytes(ws@.subrange(0, i as int)),
        decreases ws.len() - i,
    {
        put_u32(out, ws[i]);
        proof {
            assert(ws@.subrange(0, i + 1).drop_last() =~= ws@.subrange(0, i as int));
        }
        i += 1;
    }
    assert(ws@.subrange(0, ws.len() as int) =~= ws@);
}

/// The word stored little-endian at `off`.
pub fn u32_at(b: &[u8], off: usize) -> (r: u32)
    requires
        off + 4 <= b@.len(),
    ensures
        r == u32_of(b@[off as int], b@[off + 1], b@[off + 2], b@[off + 3]),
        le32(r) == b@.subrange(off as int, off + 4),
{
    proof {
        lemma_le32_bytes(b@[off as int], b@[off + 1], b@[off + 2], b@[off + 3]);
        assert(b@.subrange(off as int, off + 4) =~= seq![b@[off as int], b@[off + 1], b@[off + 2], b@[off + 3]]);
    }
    (b[off] as u32) | ((b[off + 1] as u32) << 8) | ((b[off + 2] as u32) << 16) | ((b[off + 3] as u32) << 24)
}

/// The half-word stored little-endian at `off`.
pub fn u16_at(b: &[u8], off: usize) -> (r: u16)
    requires
        off + 2 <= b@.len(),
    ensures
        r == u16_of(b@[off as int], b@[off + 1]),
        le16(r) == b@.subrange(off as int, off + 2),
{
    proof {
        lemma_le16_bytes(b@[off as int], b@[off + 1]);
        assert(b@.subrange(off as int, off + 2) =~= seq![b@[off as int], b@[off + 1]]);
    }
    (b[off] as u16) | ((b[off + 1] as u16) << 8)
}

/// Reads `n` little-endian words starting at `off`.
pub fn words_at(b: &[u8], off: usize, n: usize) -> (r: Vec<u32>)
    requires
        off + 4 * n <= b@.len(),
    ensures
        r@.len() == n,
        words_bytes(r@) == b@.subrange(off as int, off + 4 * n),
{
    let len = b.len();
    let mut r: Vec<u32> = Vec::new();
    let mut i: usize = 0;
    while i < n
        invariant
            i <= n,
            len == b@.len(),
            off + 4 * n <= b@.len(),
            r@.len() == i,
            words_bytes(r@) == b@.subrange(off as int, off + 4 * i),
        decreases n - i,
    {
        assert(4 * i + 4 <= 4 * n) by (nonlinear_arith)
            requires
                i < n,
        ;
        let w = u32_at(b, off + 4 * i);
        let ghost prev = r@;
        r.push(w);
        proof {
            assert(r@.drop_last() =~= prev);
            assert(b@.subrange(off as int, off + 4 * (i + 1)) =~= b@.subrange(off as int, off + 4 * i)
                + b@.subrange(off + 4 * i, off + 4 * i + 4));
        }
        i += 1;
    }
    r
}

} // verus!
