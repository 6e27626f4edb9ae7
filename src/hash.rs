//! The content hash of a blueprint: MD5 with a permuted initial state and
//! three altered round constants.

use vstd::prelude::*;
use crate::bytes::{le32, put_u32, put_u8, u32_at, u32_of};

verus! {

pub type HashState = (u32, u32, u32, u32);

pub open spec fn initial_state() -> HashState {
    (0x67452301u32, 0xefdcab89u32, 0x98badcfeu32, 0x10325746u32)
}

/// Additive constant of step `i`.
pub open spec fn step_constant(i: int) -> u32 {
    if i == 0 {
        0xd76aa478u32
    } else if i == 1 {
        0xe8d7b756u32
    } else if i == 2 {
        0x242070dbu32
    } else if i == 3 {
        0xc1bdceeeu32
    } else if i == 4 {
        0xf57c0fafu32
    } else if i == 5 {
        0x4787c62au32
    } else if i == 6 {
        0xa8304623u32
    } else if i == 7 {
        0xfd469501u32
    } else if i == 8 {
        0x698098d8u32
    } else if i == 9 {
        0x8b44f7afu32
    } else if i == 10 {
        0xffff5bb1u32
    } else if i == 11 {
        0x895cd7beu32
    } else if i == 12 {
        0x6b901122u32
    } else if i == 13 {
        0xfd987193u32
    } else if i == 14 {
        0xa679438eu32
    } else if i == 15 {
        0x49b40821u32
    } else if i == 16 {
        0xf61e2562u32
    } else if i == 17 {
        0xc040b340u32
    } else if i == 18 {
        0x265e5a51u32
    } else if i == 19 {
        0xe9b6c7aau32
    } else if i == 20 {
        0xd62f105du32
    } else if i == 21 {
        0x02441453u32
    } else if i == 22 {
        0xd8a1e681u32
    } else if i == 23 {
        0xe7d3fbc8u32
    } else if i == 24 {
        0x21e1cde6u32
    } else if i == 25 {
        0xc33707d6u32
    } else if i == 26 {
        0xf4d50d87u32
    } else if i == 27 {
        0x455a14edu32
    } else if i == 28 {
        0xa9e3e905u32
    } else if i == 29 {
        0xfcefa3f8u32
    } else if i == 30 {
        0x676f02d9u32
    } else if i == 31 {
        0x8d2a4c8au32
    } else if i == 32 {
        0xfffa3942u32
    } else if i == 33 {
        0x8771f681u32
    } else if i == 34 {
        0x6d9d6122u32
    } else if i == 35 {
        0xfde5382cu32
    } else if i == 36 {
        0xa4beea44u32
    } else if i == 37 {
        0x4bdecfa9u32
    } else if i == 38 {
        0xf6bb4b60u32
    } else if i == 39 {
        0xbebfbc70u32
    } else if i == 40 {
        0x289b7ec6u32
    } else if i == 41 {
        0xeaa127fau32
    } else if i == 42 {
        0xd4ef3085u32
    } else if i == 43 {
        0x04881d05u32
    } else if i == 44 {
        0xd9d4d039u32
    } else if i == 45 {
        0xe6db99e5u32
    } else if i == 46 {
        0x1fa27cf8u32
    } else if i == 47 {
        0xc4ac5665u32
    } else if i == 48 {
        0xf4292244u32
    } else if i == 49 {
        0x432aff97u32
    } else if i == 50 {
        0xab9423a7u32
    } else if i == 51 {
        0xfc93a039u32
    } else if i == 52 {
        0x655b59c3u32
    } else if i == 53 {
        0x8f0ccc92u32
    } else if i == 54 {
        0xffeff47du32
    } else if i == 55 {
        0x85845dd1u32
    } else if i == 56 {
        0x6fa87e4fu32
    } else if i == 57 {
        0xfe2ce6e0u32
    } else if i == 58 {
        0xa3014314u32
    } else if i == 59 {
        0x4e0811a1u32
    } else if i == 60 {
        0xf7537e82u32
    } else if i == 61 {
        0xbd3af235u32
    } else if i == 62 {
        0x2ad7d2bbu32
    } else {
        0xeb86d391u32
    }
}

fn step_constant_at(i: usize) -> (r: u32)
    requires
        i < 64,
    ensures
        r == step_constant(i as int),
{
    if i == 0 {
        0xd76aa478
    } else if i == 1 {
        0xe8d7b756
    } else if i == 2 {
        0x242070db
    } else if i == 3 {
        0xc1bdceee
    } else if i == 4 {
        0xf57c0faf
    } else if i == 5 {
        0x4787c62a
    } else if i == 6 {
        0xa8304623
    } else if i == 7 {
        0xfd469501
    } else if i == 8 {
        0x698098d8
    } else if i == 9 {
        0x8b44f7af
    } else if i == 10 {
        0xffff5bb1
    } else if i == 11 {
        0x895cd7be
    } else if i == 12 {
        0x6b901122
    } else if i == 13 {
        0xfd987193
    } else if i == 14 {
        0xa679438e
    } else if i == 15 {
        0x49b40821
    } else if i == 16 {
        0xf61e2562
    } else if i == 17 {
        0xc040b340
    } else if i == 18 {
        0x265e5a51
    } else if i == 19 {
        0xe9b6c7aa
    } else if i == 20 {
        0xd62f105d
    } else if i == 21 {
        0x02441453
    } else if i == 22 {
        0xd8a1e681
    } else if i == 23 {
        0xe7d3fbc8
    } else if i == 24 {
        0x21e1cde6
    } else if i == 25 {
        0xc33707d6
    } else if i == 26 {
        0xf4d50d87
    } else if i == 27 {
        0x455a14ed
    } else if i == 28 {
        0xa9e3e905
    } else if i == 29 {
        0xfcefa3f8
    } else if i == 30 {
        0x676f02d9
    } else if i == 31 {
        0x8d2a4c8a
    } else if i == 32 {
        0xfffa3942
    } else if i == 33 {
        0x8771f681
    } else if i == 34 {
        0x6d9d6122
    } else if i == 35 {
        0xfde5382c
    } else if i == 36 {
        0xa4beea44
    } else if i == 37 {
        0x4bdecfa9
    } else if i == 38 {
        0xf6bb4b60
    } else if i == 39 {
        0xbebfbc70
    } else if i == 40 {
        0x289b7ec6
    } else if i == 41 {
        0xeaa127fa
    } else if i == 42 {
        0xd4ef3085
    } else if i == 43 {
        0x04881d05
    } else if i == 44 {
        0xd9d4d039
    } else if i == 45 {
        0xe6db99e5
    } else if i == 46 {
        0x1fa27cf8
    } else if i == 47 {
        0xc4ac5665
    } else if i == 48 {
        0xf4292244
    } else if i == 49 {
        0x432aff97
    } else if i == 50 {
        0xab9423a7
    } else if i == 51 {
        0xfc93a039
    } else if i == 52 {
        0x655b59c3
    } else if i == 53 {
        0x8f0ccc92
    } else if i == 54 {
        0xffeff47d
    } else if i == 55 {
        0x85845dd1
    } else if i == 56 {
        0x6fa87e4f
    } else if i == 57 {
        0xfe2ce6e0
    } else if i == 58 {
        0xa3014314
    } else if i == 59 {
        0x4e0811a1
    } else if i == 60 {
        0xf7537e82
    } else if i == 61 {
        0xbd3af235
    } else if i == 62 {
        0x2ad7d2bb
    } else {
        0xeb86d391
    }
}

/// Rotation of step `i`.
pub open spec fn step_shift(i: int) -> u32 {
    let j = i % 4;
    if i < 16 {
        if j == 0 { 7 } else if j == 1 { 12 } else if j == 2 { 17 } else { 22 }
    } else if i < 32 {
        if j == 0 { 5 } else if j == 1 { 9 } else if j == 2 { 14 } else { 20 }
    } else if i < 48 {
        if j == 0 { 4 } else if j == 1 { 11 } else if j == 2 { 16 } else { 23 }
    } else {
        if j == 0 { 6 } else if j == 1 { 10 } else if j == 2 { 15 } else { 21 }
    }
}

/// Which word of the block step `i` reads.
pub open spec fn step_word(i: int) -> int {
    if i < 16 {
        i
    } else if i < 32 {
        (5 * i + 1) % 16
    } else if i < 48 {
        (3 * i + 5) % 16
    } else {
        (7 * i) % 16
    }
}

pub open spec fn round_mix(i: int, b: u32, c: u32, d: u32) -> u32 {
    if i < 16 {
        (b & c) | (!b & d)
    } else if i < 32 {
        (b & d) | (c & !d)
    } else if i < 48 {
        b ^ c ^ d
    } else {
        c ^ (b | !d)
    }
}

pub open spec fn rotl(x: u32, n: u32) -> u32 {
    (x << n) | (x >> (32 - n) as u32)
}

pub open spec fn hash_step(st: HashState, i: int, x: u32) -> HashState {
    let sum = st.0.wrapping_add(round_mix(i, st.1, st.2, st.3)).wrapping_add(
        step_constant(i),
    ).wrapping_add(x);
    (st.3, st.1.wrapping_add(rotl(sum, step_shift(i))), st.1, st.2)
}

/// Word `j` of block `k` of `p`.
pub open spec fn block_word(p: Seq<u8>, k: int, j: int) -> u32 {
    let o = 64 * k + 4 * j;
    u32_of(p[o], p[o + 1], p[o + 2], p[o + 3])
}

/// The state after the first `n` steps over block `k`.
pub open spec fn hash_steps(st: HashState, p: Seq<u8>, k: int, n: nat) -> HashState
    decreases n,
{
    if n == 0 {
        st
    } else {
        let i = n - 1;
        hash_step(hash_steps(st, p, k, (n - 1) as nat), i, block_word(p, k, step_word(i)))
    }
}

pub open spec fn compress(st: HashState, p: Seq<u8>, k: int) -> HashState {
    let r = hash_steps(st, p, k, 64);
    (st.0.wrapping_add(r.0), st.1.wrapping_add(r.1), st.2.wrapping_add(r.2), st.3.wrapping_add(r.3))
}

/// The state after the first `n` blocks of `p`.
pub open spec fn hash_blocks(p: Seq<u8>, n: nat) -> HashState
    decreases n,
{
    if n == 0 {
        initial_state()
    } else {
        compress(hash_blocks(p, (n - 1) as nat), p, n - 1)
    }
}

/// Zero bytes between the `0x80` marker and the length.
pub open spec fn pad_zeros(len: nat) -> nat {
    if len % 64 < 56 {
        (55 - len % 64) as nat
    } else {
        (119 - len % 64) as nat
    }
}

/// The message in whole blocks: the marker, zeros, and the bit length.
pub open spec fn padded(m: Seq<u8>) -> Seq<u8> {
    let bits = (m.len() as u64).wrapping_mul(8);
    m + seq![0x80u8] + Seq::new(pad_zeros(m.len()), |i: int| 0u8) + le32(bits as u32) + le32(
        (bits >> 32) as u32,
    )
}

pub open spec fn state_bytes(st: HashState) -> Seq<u8> {
    le32(st.0) + le32(st.1) + le32(st.2) + le32(st.3)
}

/// The 16-byte digest of `m`.
pub open spec fn digest(m: Seq<u8>) -> Seq<u8> {
    let p = padded(m);
    state_bytes(hash_blocks(p, p.len() / 64))
}

fn shift_at(i: usize) -> (r: u32)
    requires
        i < 64,
    ensures
        r == step_shift(i as int),
        4 <= r <= 23,
{
    let j = i % 4;
    if i < 16 {
        if j == 0 { 7 } else if j == 1 { 12 } else if j == 2 { 17 } else { 22 }
    } else if i < 32 {
        if j == 0 { 5 } else if j == 1 { 9 } else if j == 2 { 14 } else { 20 }
    } else if i < 48 {
        if j == 0 { 4 } else if j == 1 { 11 } else if j == 2 { 16 } else { 23 }
    } else {
        if j == 0 { 6 } else if j == 1 { 10 } else if j == 2 { 15 } else { 21 }
    }
}

fn word_at(i: usize) -> (r: usize)
    requires
        i < 64,
    ensures
        r == step_word(i as int),
        r < 16,
{
    if i < 16 {
        i
    } else if i < 32 {
        (5 * i + 1) % 16
    } else if i < 48 {
        (3 * i + 5) % 16
    } else {
        (7 * i) % 16
    }
}

fn mix_at(i: usize, b: u32, c: u32, d: u32) -> (r: u32)
    ensures
        r == round_mix(i as int, b, c, d),
{
    if i < 16 {
        (b & c) | (!b & d)
    } else if i < 32 {
        (b & d) | (c & !d)
    } else if i < 48 {
        b ^ c ^ d
    } else {
        c ^ (b | !d)
    }
}

fn run_step(st: HashState, i: usize, x: u32) -> (r: HashState)
    requires
        i < 64,
    ensures
        r == hash_step(st, i as int, x),
{
    let sum = st.0.wrapping_add(mix_at(i, st.1, st.2, st.3)).wrapping_add(
        step_constant_at(i),
    ).wrapping_add(x);
    let n = shift_at(i);
    let rot = (sum << n) | (sum >> (32 - n));
    (st.3, st.1.wrapping_add(rot), st.1, st.2)
}

fn compress_block(st: HashState, p: &Vec<u8>, k: usize) -> (r: HashState)
    requires
        64 * k + 64 <= p@.len(),
    ensures
        r == compress(st, p@, k as int),
{
    let len = p.len();
    let mut cur = st;
    let mut i: usize = 0;
    while i < 64
        invariant
            i <= 64,
            len == p@.len(),
            64 * k + 64 <= p@.len(),
            cur == hash_steps(st, p@, k as int, i as nat),
        decreases 64 - i,
    {
        let g = word_at(i);
        let x = u32_at(p.as_slice(), 64 * k + 4 * g);
        cur = run_step(cur, i, x);
        i += 1;
    }
    (st.0.wrapping_add(cur.0), st.1.wrapping_add(cur.1), st.2.wrapping_add(cur.2), st.3.wrapping_add(cur.3))
}

proof fn lemma_padded_len(len: nat)
    ensures
        (len + 1 + pad_zeros(len) + 8) % 64 == 0,
{
    let r = len % 64;
    let q = len / 64;
    assert(len == 64 * q + r) by (nonlinear_arith)
        requires
            r == len % 64,
            q == len / 64,
    ;
    if r < 56 {
        assert(len + 1 + pad_zeros(len) + 8 == 64 * (q + 1));
    } else {
        assert(len + 1 + pad_zeros(len) + 8 == 64 * (q + 2));
    }
    assert((64 * (q + 2)) % 64 == 0) by (nonlinear_arith);
    assert((64 * (q + 1)) % 64 == 0) by (nonlinear_arith);
}

fn pad_message(m: &[u8]) -> (p: Vec<u8>)
    ensures
        p@ == padded(m@),
        p@.len() % 64 == 0,
{
    let n = m.len();
    let mut p: Vec<u8> = Vec::new();
    let mut i: usize = 0;
    while i < n
        invariant
            i <= n,
            n == m@.len(),
            p@ == m@.subrange(0, i as int),
        decreases n - i,
    {
        p.push(m[i]);
        assert(p@ =~= m@.subrange(0, i + 1));
        i += 1;
    }
    assert(m@.subrange(0, n as int) =~= m@);
    put_u8(&mut p, 0x80);
    let r = n % 64;
    let zeros: usize = if r < 56 { 55 - r } else { 119 - r };
    let ghost before = p@;
    let mut z: usize = 0;
    while z < zeros
        invariant
            z <= zeros,
            p@ == before + Seq::new(z as nat, |i: int| 0u8),
        decreases zeros - z,
    {
        p.push(0);
        assert(p@ =~= before + Seq::new((z + 1) as nat, |i: int| 0u8));
        z += 1;
    }
    let bits = (n as u64).wrapping_mul(8);
    put_u32(&mut p, bits as u32);
    put_u32(&mut p, (bits >> 32) as u32);
    proof {
        lemma_padded_len(n as nat);
        assert(p@ =~= padded(m@));
    }
    p
}

/// The 16-byte content hash of `m`.
pub fn digest_of(m: &[u8]) -> (r: Vec<u8>)
    ensures
        r@ == digest(m@),
        r@.len() == 16,
{
    let p = pad_message(m);
    let blocks = p.len() / 64;
    let mut st: HashState = (0x67452301, 0xefdcab89, 0x98badcfe, 0x10325746);
    let mut k: usize = 0;
    while k < blocks
        invariant
            k <= blocks,
            blocks == p@.len() / 64,
            p@.len() % 64 == 0,
            st == hash_blocks(p@, k as nat),
        decreases blocks - k,
    {
        assert(64 * k + 64 <= p@.len()) by (nonlinear_arith)
            requires
                k < blocks,
                blocks == p@.len() / 64,
                p@.len() % 64 == 0,
        ;
        st = compress_block(st, &p, k);
        k += 1;
    }
    let mut out: Vec<u8> = Vec::new();
    put_u32(&mut out, st.0);
    put_u32(&mut out, st.1);
    put_u32(&mut out, st.2);
    put_u32(&mut out, st.3);
    assert(out@ =~= digest(m@));
    out
}

} // verus!
