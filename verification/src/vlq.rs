//! Variable-length integers: unsigned 64-bit values in little-endian groups of
//! seven bits, each byte but the last carrying a continuation bit, ten bytes at
//! most.

use vstd::prelude::*;
use crate::error::Error;

verus! {

/// The longest encoding, in bytes.
pub const MAX_VLQ_LEN: usize = 10;

/// What decoding the front of `s` gives when at most `budget` bytes may be
/// used: the value and the number of bytes consumed, `VlqUnderrun` when `s`
/// ends before a terminating byte, `VlqOverflow` when `budget` bytes pass
/// without one. Groups that would land above bit 63 are dropped.
pub open spec fn spec_read_vlq_bounded(s: Seq<u8>, budget: nat) -> Result<(u64, nat), Error>
    decreases budget,
{
    if budget == 0 {
        Err(Error::VlqOverflow)
    } else if s.len() == 0 {
        Err(Error::VlqUnderrun)
    } else if s[0] < 128 {
        Ok((s[0] as u64, 1nat))
    } else {
        match spec_read_vlq_bounded(s.skip(1), (budget - 1) as nat) {
            Ok((v, n)) => Ok((((s[0] & 0x7f) as u64) | (v << 7), n + 1)),
            Err(e) => Err(e),
        }
    }
}

/// What decoding the front of `s` gives.
pub open spec fn spec_read_vlq(s: Seq<u8>) -> Result<(u64, nat), Error> {
    spec_read_vlq_bounded(s, 10)
}

/// The encoding of `n`.
pub open spec fn spec_write_vlq(n: u64) -> Seq<u8>
    decreases n,
    via spec_write_vlq_decreases
{
    if n < 128 {
        seq![n as u8]
    } else {
        seq![((n & 0x7f) | 0x80) as u8] + spec_write_vlq(n >> 7)
    }
}

#[via_fn]
proof fn spec_write_vlq_decreases(n: u64) {
    assert(n >= 128 ==> (n >> 7) < n) by (bit_vector);
}


/// `inner`, decoded behind `i` continuation bytes whose groups add up to
/// `acc`, seen from the front of the whole input.
pub open spec fn spec_vlq_prefixed(acc: u64, shift: u64, i: nat, inner: Result<(u64, nat), Error>)
    -> Result<(u64, nat), Error> {
    match inner {
        Ok((v, n)) => Ok((acc | (v << shift), n + i)),
        Err(e) => Err(e),
    }
}

/// Whether an executable decoding result is the one the model gives.
pub open spec fn vlq_result_is(r: Result<(u64, usize), Error>, model: Result<(u64, nat), Error>) -> bool {
    match r {
        Ok((v, n)) => model == Ok::<(u64, nat), Error>((v, n as nat)),
        Err(e) => model == Err::<(u64, nat), Error>(e),
    }
}

proof fn lemma_vlq_step(acc: u64, group: u64, v: u64, shift: u64)
    requires
        shift <= 56,
    ensures
        acc | ((group | (v << 7)) << shift) == (acc | (group << shift)) | (v << ((shift + 7) as u64)),
{
    assert(shift <= 56 ==> acc | ((group | (v << 7)) << shift) == (acc | (group << shift)) | (v << (
    (shift + 7) as u64))) by (bit_vector);
}

/// Decodes one variable-length integer from the front of `data`, giving the
/// value and the number of bytes it took.
pub fn read_vlq(data: &[u8]) -> (r: Result<(u64, usize), Error>)
    ensures
        vlq_result_is(r, spec_read_vlq(data@)),
{
    let mut acc: u64 = 0;
    let mut shift: u64 = 0;
    let mut i: usize = 0;
    proof {
        assert(data@.skip(0) =~= data@);
        assert(forall|v: u64| 0u64 | (v << 0u64) == v) by (bit_vector);
    }
    while i < 10
        invariant
            i <= 10,
            i <= data@.len(),
            shift == 7 * i,
            spec_read_vlq(data@) == spec_vlq_prefixed(
                acc,
                shift,
                i as nat,
                spec_read_vlq_bounded(data@.skip(i as int), (10 - i) as nat),
            ),
        decreases 10 - i,
    {
        if i == data.len() {
            return Err(Error::VlqUnderrun);
        }
        let b: u8 = data[i];
        let ghost tail = data@.skip(i as int);
        proof {
            assert(tail[0] == b);
            assert(tail.skip(1) =~= data@.skip(i + 1));
        }
        if b < 128 {
            let value: u64 = acc | ((b as u64) << shift);
            return Ok((value, i + 1));
        }
        let group: u64 = (b & 0x7f) as u64;
        proof {
            let inner = spec_read_vlq_bounded(data@.skip(i + 1), (10 - i - 1) as nat);
            if let Ok((v, n)) = inner {
                assert(i < 9);
                lemma_vlq_step(acc, group, v, shift);
            }
        }
        acc = acc | (group << shift);
        shift = shift + 7;
        i = i + 1;
    }
    Err(Error::VlqOverflow)
}

/// Encodes `n`.
pub fn write_vlq(n: u64) -> (out: Vec<u8>)
    ensures
        out@ == spec_write_vlq(n),
{
    let mut out: Vec<u8> = Vec::new();
    let mut m: u64 = n;
    while m >= 128
        invariant
            spec_write_vlq(n) == out@ + spec_write_vlq(m),
        decreases m,
    {
        let b: u8 = ((m & 0x7f) | 0x80) as u8;
        proof {
            assert(m >= 128 ==> (m >> 7) < m) by (bit_vector);
            assert(out@.push(b) + spec_write_vlq(m >> 7) =~= out@ + (seq![b] + spec_write_vlq(
                m >> 7,
            )));
        }
        out.push(b);
        m = m >> 7;
    }
    proof {
        assert(out@.push(m as u8) =~= out@ + seq![m as u8]);
    }
    out.push(m as u8);
    out
}

/// Whether `n` can be written in `k` bytes, for `k` from 1 to 10.
pub open spec fn vlq_fits(n: u64, k: nat) -> bool {
    k >= 10 || (n >> ((7 * k) as u64)) == 0
}

proof fn lemma_vlq_roundtrip_bounded(n: u64, rest: Seq<u8>, k: nat)
    requires
        1 <= k <= 10,
        vlq_fits(n, k),
    ensures
        spec_read_vlq_bounded(spec_write_vlq(n) + rest, k) == Ok::<(u64, nat), Error>(
            (n, spec_write_vlq(n).len()),
        ),
        1 <= spec_write_vlq(n).len() <= k,
    decreases k,
{
    let whole = spec_write_vlq(n) + rest;
    if n < 128 {
        assert(n < 128 ==> (n as u8) < 128 && (n as u8) as u64 == n) by (bit_vector);
        assert(whole[0] == n as u8);
    } else {
        let b: u8 = ((n & 0x7f) | 0x80) as u8;
        let s: u64 = (7 * k) as u64;
        assert(b >= 128 && ((b & 0x7f) as u64) | ((n >> 7) << 7) == n) by (bit_vector)
            requires
                b == ((n & 0x7f) | 0x80) as u8,
        ;
        if k == 1 {
            assert((n >> 7) == 0 ==> n < 128) by (bit_vector);
            assert(false);
        }
        let s1: u64 = (7 * (k - 1)) as u64;
        if k < 10 {
            assert(s1 < 57 ==> (n >> 7) >> s1 == n >> ((s1 + 7) as u64)) by (bit_vector);
        } else {
            assert((n >> 7) >> 63 == 0) by (bit_vector);
        }
        assert(vlq_fits(n >> 7, (k - 1) as nat));
        lemma_vlq_roundtrip_bounded(n >> 7, rest, (k - 1) as nat);
        assert(whole[0] == b);
        assert(whole.skip(1) =~= spec_write_vlq(n >> 7) + rest);
    }
}

/// Decoding an encoding gives the encoded value back, together with the
/// encoding's length, whatever bytes follow it.
pub proof fn lemma_vlq_roundtrip(n: u64, rest: Seq<u8>)
    ensures
        spec_read_vlq(spec_write_vlq(n) + rest) == Ok::<(u64, nat), Error>(
            (n, spec_write_vlq(n).len()),
        ),
        1 <= spec_write_vlq(n).len() <= 10,
{
    lemma_vlq_roundtrip_bounded(n, rest, 10);
}


proof fn lemma_read_vlq_bounded_len(s: Seq<u8>, budget: nat)
    ensures
        spec_read_vlq_bounded(s, budget) is Ok ==> 1 <= spec_read_vlq_bounded(s, budget)->Ok_0.1
            <= budget && spec_read_vlq_bounded(s, budget)->Ok_0.1 <= s.len(),
    decreases budget,
{
    if budget > 0 && s.len() > 0 && s[0] >= 128 {
        lemma_read_vlq_bounded_len(s.skip(1), (budget - 1) as nat);
    }
}

/// A decoded integer took between one and ten bytes, all of them inside the
/// input.
pub proof fn lemma_read_vlq_len(s: Seq<u8>)
    ensures
        spec_read_vlq(s) is Ok ==> 1 <= spec_read_vlq(s)->Ok_0.1 <= 10 && spec_read_vlq(s)->Ok_0.1
            <= s.len(),
{
    lemma_read_vlq_bounded_len(s, 10);
}


proof fn lemma_read_vlq_bounded_prefix(s: Seq<u8>, t: Seq<u8>, budget: nat)
    requires
        spec_read_vlq_bounded(s, budget) is Ok,
    ensures
        spec_read_vlq_bounded(s + t, budget) == spec_read_vlq_bounded(s, budget),
    decreases budget,
{
    if budget > 0 && s.len() > 0 {
        assert((s + t)[0] == s[0]);
        if s[0] >= 128 {
            assert((s + t).skip(1) =~= s.skip(1) + t);
            lemma_read_vlq_bounded_prefix(s.skip(1), t, (budget - 1) as nat);
        }
    }
}

/// An integer that decodes from the front of `s` decodes the same whatever
/// bytes follow `s`.
pub proof fn lemma_read_vlq_prefix(s: Seq<u8>, t: Seq<u8>)
    requires
        spec_read_vlq(s) is Ok,
    ensures
        spec_read_vlq(s + t) == spec_read_vlq(s),
{
    lemma_read_vlq_bounded_prefix(s, t, 10);
}


proof fn lemma_vlq_overflow_bounded(s: Seq<u8>, budget: nat)
    requires
        s.len() >= budget,
        forall|i: int| 0 <= i < budget ==> #[trigger] s[i] >= 128,
    ensures
        spec_read_vlq_bounded(s, budget) == Err::<(u64, nat), Error>(Error::VlqOverflow),
    decreases budget,
{
    if budget > 0 {
        assert(s[0] >= 128);
        assert forall|i: int| 0 <= i < budget - 1 implies #[trigger] s.skip(1)[i] >= 128 by {
            assert(s.skip(1)[i] == s[i + 1]);
        }
        lemma_vlq_overflow_bounded(s.skip(1), (budget - 1) as nat);
    }
}

proof fn lemma_vlq_underrun_bounded(s: Seq<u8>, budget: nat)
    requires
        s.len() < budget,
        forall|i: int| 0 <= i < s.len() ==> #[trigger] s[i] >= 128,
    ensures
        spec_read_vlq_bounded(s, budget) == Err::<(u64, nat), Error>(Error::VlqUnderrun),
    decreases budget,
{
    if s.len() > 0 {
        assert(s[0] >= 128);
        assert forall|i: int| 0 <= i < s.len() - 1 implies #[trigger] s.skip(1)[i] >= 128 by {
            assert(s.skip(1)[i] == s[i + 1]);
        }
        lemma_vlq_underrun_bounded(s.skip(1), (budget - 1) as nat);
    }
}

/// Ten bytes that all ask for a further byte are an overflow, whatever
/// follows them.
pub proof fn lemma_vlq_overflow(s: Seq<u8>)
    requires
        s.len() >= 10,
        forall|i: int| 0 <= i < 10 ==> #[trigger] s[i] >= 128,
    ensures
        spec_read_vlq(s) == Err::<(u64, nat), Error>(Error::VlqOverflow),
{
    lemma_vlq_overflow_bounded(s, 10);
}

/// Fewer than ten bytes that all ask for a further byte are an underrun.
pub proof fn lemma_vlq_underrun(s: Seq<u8>)
    requires
        s.len() < 10,
        forall|i: int| 0 <= i < s.len() ==> #[trigger] s[i] >= 128,
    ensures
        spec_read_vlq(s) == Err::<(u64, nat), Error>(Error::VlqUnderrun),
{
    lemma_vlq_underrun_bounded(s, 10);
}

} // verus!
