//! MurmurHash3, in the two variants that an index can be built with: the
//! 32-bit one for x86 and the low half of the 128-bit one for x64.

use crate::codec::{get_u32, get_u64, spec_u32_at, spec_u64_at};
use vstd::prelude::*;

verus! {

/// `x` rotated left by `r` bits, for `r` from 1 to 31.
pub open spec fn spec_rotl32(x: u32, r: u32) -> u32 {
    (x << r) | (x >> ((32 - r) as u32))
}

/// `x` rotated left by `r` bits, for `r` from 1 to 63.
pub open spec fn spec_rotl64(x: u64, r: u64) -> u64 {
    (x << r) | (x >> ((64 - r) as u64))
}

/// `x` rotated left by `r` bits.
pub fn rotl32(x: u32, r: u32) -> (y: u32)
    requires
        0 < r < 32,
    ensures
        y == spec_rotl32(x, r),
{
    (x << r) | (x >> (32 - r))
}

/// `x` rotated left by `r` bits.
pub fn rotl64(x: u64, r: u64) -> (y: u64)
    requires
        0 < r < 64,
    ensures
        y == spec_rotl64(x, r),
{
    (x << r) | (x >> (64 - r))
}

/// The little-endian number whose bytes are `s`, for at most eight bytes.
pub open spec fn spec_le_partial(s: Seq<u8>) -> u64
    decreases s.len(),
{
    if s.len() == 0 {
        0
    } else {
        (s[0] as u64) | (spec_le_partial(s.skip(1)) << 8)
    }
}

/// The little-endian number whose bytes are those of `data` from `from` up
/// to `to`.
pub fn le_partial(data: &[u8], from: usize, to: usize) -> (k: u64)
    requires
        from <= to <= data.len(),
    ensures
        k == spec_le_partial(data@.subrange(from as int, to as int)),
{
    let mut k: u64 = 0;
    let mut i: usize = to;
    proof {
        assert(data@.subrange(to as int, to as int).len() == 0);
    }
    while i > from
        invariant
            from <= i <= to <= data.len(),
            k == spec_le_partial(data@.subrange(i as int, to as int)),
        decreases i,
    {
        i = i - 1;
        proof {
            let s = data@.subrange(i as int, to as int);
            assert(s[0] == data@[i as int]);
            assert(s.skip(1) =~= data@.subrange(i + 1, to as int));
        }
        k = (data[i] as u64) | (k << 8);
    }
    k
}

/// The 32-bit variant: how one four-byte block is scrambled before it is
/// mixed in.
pub open spec fn spec_scramble32(k: u32) -> u32 {
    spec_rotl32(k.wrapping_mul(0xcc9e2d51), 15).wrapping_mul(0x1b873593)
}

/// The 32-bit variant: the state after mixing the block `k` into `h`.
pub open spec fn spec_mix32(h: u32, k: u32) -> u32 {
    spec_rotl32(h ^ spec_scramble32(k), 13).wrapping_mul(5).wrapping_add(0xe6546b64)
}

/// The 32-bit variant: the final avalanche.
pub open spec fn spec_fmix32(h: u32) -> u32 {
    let a = (h ^ (h >> 16)).wrapping_mul(0x85ebca6b);
    let b = (a ^ (a >> 13)).wrapping_mul(0xc2b2ae35);
    b ^ (b >> 16)
}

/// The 32-bit variant: the state after the first `blocks` four-byte blocks
/// of `s`.
pub open spec fn spec_body32(s: Seq<u8>, blocks: nat, seed: u32) -> u32
    decreases blocks,
{
    if blocks == 0 {
        seed
    } else {
        spec_mix32(spec_body32(s, (blocks - 1) as nat, seed), spec_u32_at(s, 4 * (blocks - 1)))
    }
}

/// MurmurHash3 for x86, 32 bits, of `s` under `seed`.
pub open spec fn spec_murmur3_32(s: Seq<u8>, seed: u32) -> u32 {
    let blocks = s.len() / 4;
    let h = spec_body32(s, blocks, seed);
    let rest = s.subrange(4 * blocks as int, s.len() as int);
    let h = if rest.len() > 0 {
        h ^ spec_scramble32(spec_le_partial(rest) as u32)
    } else {
        h
    };
    spec_fmix32(h ^ (s.len() as u32))
}

fn scramble32(k: u32) -> (r: u32)
    ensures
        r == spec_scramble32(k),
{
    rotl32(k.wrapping_mul(0xcc9e2d51), 15).wrapping_mul(0x1b873593)
}

fn fmix32(h: u32) -> (r: u32)
    ensures
        r == spec_fmix32(h),
{
    let a: u32 = (h ^ (h >> 16)).wrapping_mul(0x85ebca6b);
    let b: u32 = (a ^ (a >> 13)).wrapping_mul(0xc2b2ae35);
    b ^ (b >> 16)
}

/// MurmurHash3 for x86, 32 bits, of `key` under `seed`.
pub fn murmur3_32(key: &[u8], seed: u32) -> (hash: u32)
    ensures
        hash == spec_murmur3_32(key@, seed),
{
    let len: usize = key.len();
    let blocks: usize = len / 4;
    let mut h: u32 = seed;
    let mut i: usize = 0;
    while i < blocks
        invariant
            i <= blocks,
            blocks == len / 4,
            len == key.len(),
            h == spec_body32(key@, i as nat, seed),
        decreases blocks - i,
    {
        let k: u32 = get_u32(key, 4 * i);
        h = rotl32(h ^ scramble32(k), 13).wrapping_mul(5).wrapping_add(0xe6546b64);
        i = i + 1;
    }
    if 4 * blocks < len {
        let k: u64 = le_partial(key, 4 * blocks, len);
        h = h ^ scramble32(#[verifier::truncate] (k as u32));
    }
    fmix32(h ^ (#[verifier::truncate] (len as u32)))
}

/// The 64-bit variant: how the first half of a block is scrambled.
pub open spec fn spec_scramble64_low(k: u64) -> u64 {
    spec_rotl64(k.wrapping_mul(0x87c37b91114253d5), 31).wrapping_mul(0x4cf5ad432745937f)
}

/// The 64-bit variant: how the second half of a block is scrambled.
pub open spec fn spec_scramble64_high(k: u64) -> u64 {
    spec_rotl64(k.wrapping_mul(0x4cf5ad432745937f), 33).wrapping_mul(0x87c37b91114253d5)
}

/// The 64-bit variant: the two halves of the state after mixing in a block
/// whose halves are `k1` and `k2`.
pub open spec fn spec_mix64(h: (u64, u64), k1: u64, k2: u64) -> (u64, u64) {
    let h1 = spec_rotl64(h.0 ^ spec_scramble64_low(k1), 27).wrapping_add(h.1).wrapping_mul(
        5,
    ).wrapping_add(0x52dce729);
    let h2 = spec_rotl64(h.1 ^ spec_scramble64_high(k2), 31).wrapping_add(h1).wrapping_mul(
        5,
    ).wrapping_add(0x38495ab5);
    (h1, h2)
}

/// The 64-bit variant: the final avalanche of one half.
pub open spec fn spec_fmix64(k: u64) -> u64 {
    let a = (k ^ (k >> 33)).wrapping_mul(0xff51afd7ed558ccd);
    let b = (a ^ (a >> 33)).wrapping_mul(0xc4ceb9fe1a85ec53);
    b ^ (b >> 33)
}

/// The 64-bit variant: the state after the first `blocks` sixteen-byte
/// blocks of `s`.
pub open spec fn spec_body64(s: Seq<u8>, blocks: nat, seed: u32) -> (u64, u64)
    decreases blocks,
{
    if blocks == 0 {
        (seed as u64, seed as u64)
    } else {
        spec_mix64(
            spec_body64(s, (blocks - 1) as nat, seed),
            spec_u64_at(s, 16 * (blocks - 1)),
            spec_u64_at(s, 16 * (blocks - 1) + 8),
        )
    }
}

/// The low 64 bits of MurmurHash3 for x64, 128 bits, of `s` under `seed`.
pub open spec fn spec_murmur3_64(s: Seq<u8>, seed: u32) -> u64 {
    let blocks = s.len() / 16;
    let h = spec_body64(s, blocks, seed);
    let start = 16 * blocks as int;
    let rest = s.len() - start;
    let h2 = if rest > 8 {
        h.1 ^ spec_scramble64_high(spec_le_partial(s.subrange(start + 8, s.len() as int)))
    } else {
        h.1
    };
    let h1 = if rest > 8 {
        h.0 ^ spec_scramble64_low(spec_le_partial(s.subrange(start, start + 8)))
    } else if rest > 0 {
        h.0 ^ spec_scramble64_low(spec_le_partial(s.subrange(start, s.len() as int)))
    } else {
        h.0
    };
    let a1 = (h1 ^ (s.len() as u64)).wrapping_add(h2 ^ (s.len() as u64));
    let a2 = (h2 ^ (s.len() as u64)).wrapping_add(a1);
    let b1 = spec_fmix64(a1);
    let b2 = spec_fmix64(a2);
    b1.wrapping_add(b2)
}

fn scramble64_low(k: u64) -> (r: u64)
    ensures
        r == spec_scramble64_low(k),
{
    rotl64(k.wrapping_mul(0x87c37b91114253d5), 31).wrapping_mul(0x4cf5ad432745937f)
}

fn scramble64_high(k: u64) -> (r: u64)
    ensures
        r == spec_scramble64_high(k),
{
    rotl64(k.wrapping_mul(0x4cf5ad432745937f), 33).wrapping_mul(0x87c37b91114253d5)
}

fn fmix64(k: u64) -> (r: u64)
    ensures
        r == spec_fmix64(k),
{
    let a: u64 = (k ^ (k >> 33)).wrapping_mul(0xff51afd7ed558ccd);
    let b: u64 = (a ^ (a >> 33)).wrapping_mul(0xc4ceb9fe1a85ec53);
    b ^ (b >> 33)
}

/// The low 64 bits of MurmurHash3 for x64, 128 bits, of `key` under `seed`.
pub fn murmur3_64(key: &[u8], seed: u32) -> (hash: u64)
    ensures
        hash == spec_murmur3_64(key@, seed),
{
    let len: usize = key.len();
    let blocks: usize = len / 16;
    let mut h1: u64 = seed as u64;
    let mut h2: u64 = seed as u64;
    let mut i: usize = 0;
    while i < blocks
        invariant
            i <= blocks,
            blocks == len / 16,
            len == key.len(),
            (h1, h2) == spec_body64(key@, i as nat, seed),
        decreases blocks - i,
    {
        let k1: u64 = get_u64(key, 16 * i);
        let k2: u64 = get_u64(key, 16 * i + 8);
        h1 = rotl64(h1 ^ scramble64_low(k1), 27).wrapping_add(h2).wrapping_mul(5).wrapping_add(
            0x52dce729,
        );
        h2 = rotl64(h2 ^ scramble64_high(k2), 31).wrapping_add(h1).wrapping_mul(5).wrapping_add(
            0x38495ab5,
        );
        i = i + 1;
    }
    let start: usize = 16 * blocks;
    let rest: usize = len - start;
    if rest > 8 {
        h2 = h2 ^ scramble64_high(le_partial(key, start + 8, len));
        h1 = h1 ^ scramble64_low(le_partial(key, start, start + 8));
    } else if rest > 0 {
        h1 = h1 ^ scramble64_low(le_partial(key, start, len));
    }
    let a1: u64 = (h1 ^ (len as u64)).wrapping_add(h2 ^ (len as u64));
    let a2: u64 = (h2 ^ (len as u64)).wrapping_add(a1);
    let b1: u64 = fmix64(a1);
    let b2: u64 = fmix64(a2);
    b1.wrapping_add(b2)
}

} // verus!
