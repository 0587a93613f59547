//! Maximum Kappa (MKA).
//!
//! Kappa at shift `s` is the fraction of positions where the stream
//! agrees with itself shifted by `s`, scaled by `1000`; the statistic is
//! the maximum kappa over shifts `1 ..= min(10, n / 2)`. Reported in
//! thousandths: `floor(1000000 * matches / (n - s))` per shift.

use vstd::prelude::*;

use crate::counts::MAX_STREAM_LEN;
use crate::utils::{convert_string, encode_seq, lemma_encode_seq_ok, stream_ok};

verus! {

/// Number of positions `i < m` where `data[i] == data[i + k]`.
pub open spec fn match_count_upto(data: Seq<usize>, k: int, m: int) -> int
    decreases m,
{
    if m <= 0 {
        0
    } else {
        match_count_upto(data, k, m - 1) + if data[m - 1] == data[m - 1 + k] {
            1int
        } else {
            0int
        }
    }
}

/// Matches between the stream and its shift by `k`, over all positions.
pub open spec fn match_count(data: Seq<usize>, k: int) -> int {
    match_count_upto(data, k, data.len() - k)
}

/// A match count over `m` positions lies in `[0, m]`.
pub proof fn lemma_match_count_upto_bounds(data: Seq<usize>, k: int, m: int)
    ensures
        0 <= match_count_upto(data, k, m),
        m >= 0 ==> match_count_upto(data, k, m) <= m,
    decreases m,
{
    if m > 0 {
        lemma_match_count_upto_bounds(data, k, m - 1);
    }
}

/// Kappa at one shift, in thousandths of the `1000`-scaled fraction.
pub open spec fn spec_kappa_milli_at(data: Seq<usize>, k: int) -> int {
    if data.len() - k <= 0 {
        0
    } else {
        1000000 * match_count(data, k) / (data.len() - k)
    }
}

/// Maximum kappa over the shifts `1 ..= k`.
pub open spec fn spec_kappa_max(data: Seq<usize>, k: int) -> int
    decreases k,
{
    if k <= 0 {
        0
    } else {
        let prev = spec_kappa_max(data, k - 1);
        let here = spec_kappa_milli_at(data, k);
        if here > prev {
            here
        } else {
            prev
        }
    }
}

/// Maximum Kappa of an encoded stream: maximum kappa over the shifts
/// `1 ..= min(10, n / 2)`, or `0` for streams shorter than two symbols.
pub open spec fn spec_mka_milli(data: Seq<usize>) -> int {
    if data.len() < 2 {
        0
    } else {
        let max_shift = if data.len() / 2 < 10 {
            data.len() as int / 2
        } else {
            10int
        };
        spec_kappa_max(data, max_shift)
    }
}

/// Kappa at the given shift: scaled fraction of self-coincidences.
fn calculate_kappa(data: &[usize], shift: usize) -> (r: u64)
    requires
        1 <= shift < data@.len(),
        data@.len() <= MAX_STREAM_LEN,
    ensures
        r == spec_kappa_milli_at(data@, shift as int),
        r <= 1000000,
{
    let n = data.len();
    let total = n - shift;
    let mut matches: u64 = 0;
    let mut i: usize = 0;
    while i < total
        invariant
            i <= total,
            total == n - shift,
            1 <= shift < n,
            n == data@.len(),
            matches == match_count_upto(data@, shift as int, i as int),
            matches <= i,
        decreases total - i,
    {
        if data[i] == data[i + shift] {
            matches = matches + 1;
        }
        i = i + 1;
    }
    let num: u64 = 1000000u64 * matches;
    let q = num / (total as u64);
    proof {
        assert(num as int <= (total as int) * 1000000) by (nonlinear_arith)
            requires
                0 <= matches as int <= total as int,
                num == 1000000 * (matches as int),
        ;
        vstd::arithmetic::div_mod::lemma_multiply_divide_le(
            num as int,
            total as int,
            1000000,
        );
    }
    q
}

/// Maximum Kappa of a pre-encoded stream.
pub fn kappa_of(data: &[usize]) -> (r: u64)
    requires
        data@.len() <= MAX_STREAM_LEN,
    ensures
        r == spec_mka_milli(data@),
        r <= 1000000,
{
    let n = data.len();
    if n < 2 {
        return 0;
    }
    let max_shift = if n / 2 < 10 {
        n / 2
    } else {
        10
    };
    let mut best: u64 = 0;
    let mut shift: usize = 1;
    while shift <= max_shift
        invariant
            1 <= shift <= max_shift + 1,
            max_shift == if n / 2 < 10 {
                n as int / 2
            } else {
                10int
            },
            2 <= n == data@.len() <= MAX_STREAM_LEN,
            best == spec_kappa_max(data@, shift as int - 1),
            best <= 1000000,
        decreases max_shift + 1 - shift,
    {
        let kappa = calculate_kappa(data, shift);
        if kappa > best {
            best = kappa;
        }
        shift = shift + 1;
    }
    best
}

/// Maximum Kappa of a text, computed over its encoded stream.
pub fn get_kappa(text: &str) -> (r: u64)
    requires
        text@.len() <= MAX_STREAM_LEN,
    ensures
        r == spec_mka_milli(encode_seq(text@)),
        r <= 1000000,
{
    proof {
        lemma_encode_seq_ok(text@);
    }
    let data = convert_string(text);
    kappa_of(data.as_slice())
}

} // verus!
