//! Standard Deviation of Differences (SDD).
//!
//! The differences between consecutive symbols are taken modulo `26`;
//! SDD is the population standard deviation of that difference
//! sequence, scaled by `10`. Reported in thousandths, which makes the
//! returned integer `floor(sqrt(100000000 * variance))` with the exact
//! rational variance `(m * sumsq - sum^2) / m^2`.

use vstd::prelude::*;

use crate::counts::MAX_STREAM_LEN;
use crate::utils::{convert_string, encode_seq, lemma_encode_seq_ok, stream_ok};

verus! {

/// Largest integer whose square does not exceed `v` (`0` for `v <= 0`).
pub open spec fn sqrt_floor(v: int) -> int
    decreases v,
{
    if v <= 0 {
        0
    } else {
        let r = sqrt_floor(v - 1);
        if (r + 1) * (r + 1) <= v {
            r + 1
        } else {
            r
        }
    }
}

/// `sqrt_floor(v)` is the floor of the square root of `v`.
pub proof fn lemma_sqrt_floor_props(v: int)
    requires
        v >= 0,
    ensures
        sqrt_floor(v) >= 0,
        sqrt_floor(v) * sqrt_floor(v) <= v,
        v < (sqrt_floor(v) + 1) * (sqrt_floor(v) + 1),
    decreases v,
{
    if v > 0 {
        lemma_sqrt_floor_props(v - 1);
        let r = sqrt_floor(v - 1);
        if (r + 1) * (r + 1) <= v {
            assert(v - 1 < (r + 1) * (r + 1));
            assert(v < (r + 2) * (r + 2)) by (nonlinear_arith)
                requires
                    r >= 0,
                    v <= (r + 1) * (r + 1),
            ;
        }
    }
}

/// The floor square root is unique: any `r` with `r^2 <= v < (r + 1)^2`
/// equals `sqrt_floor(v)`.
pub proof fn lemma_sqrt_floor_unique(v: int, r: int)
    requires
        0 <= r,
        r * r <= v,
        v < (r + 1) * (r + 1),
    ensures
        r == sqrt_floor(v),
{
    lemma_sqrt_floor_props(v);
    let q = sqrt_floor(v);
    if r < q {
        assert((r + 1) * (r + 1) <= q * q) by (nonlinear_arith)
            requires
                0 <= r,
                r + 1 <= q,
        ;
    }
    if q < r {
        assert((q + 1) * (q + 1) <= r * r) by (nonlinear_arith)
            requires
                0 <= q,
                q + 1 <= r,
        ;
    }
}

/// Integer square root by binary search.
fn isqrt(v: u64) -> (r: u64)
    ensures
        r == sqrt_floor(v as int),
{
    let mut lo: u64 = 0;
    let mut hi: u64 = 4294967295u64;
    proof {
        assert((hi as int + 1) * (hi as int + 1) > v as int) by (nonlinear_arith)
            requires
                hi == 4294967295u64,
                v <= 0xFFFFFFFFFFFFFFFFu64,
        ;
    }
    while lo < hi
        invariant
            lo <= hi <= 4294967295u64,
            (lo as int) * (lo as int) <= v as int,
            (v as int) < (hi as int + 1) * (hi as int + 1),
        decreases hi - lo,
    {
        let mid: u64 = lo + (hi - lo + 1) / 2;
        proof {
            assert((mid as int) * (mid as int) <= 18446744065119617025int) by (nonlinear_arith)
                requires
                    0 <= mid as int <= 4294967295int,
            ;
        }
        if (mid as u128) * (mid as u128) <= v as u128 {
            lo = mid;
        } else {
            hi = mid - 1;
        }
    }
    proof {
        lemma_sqrt_floor_unique(v as int, lo as int);
    }
    lo
}

/// The sequence of consecutive differences modulo `26`.
pub open spec fn diff_seq(s: Seq<usize>) -> Seq<u64> {
    Seq::new(
        if s.len() == 0 {
            0nat
        } else {
            (s.len() - 1) as nat
        },
        |i: int| (((s[i + 1] as int) - (s[i] as int)) % 26) as u64,
    )
}

/// Sum of a difference sequence.
pub open spec fn sum_seq(d: Seq<u64>) -> int
    decreases d.len(),
{
    if d.len() == 0 {
        0
    } else {
        sum_seq(d.drop_last()) + d.last()
    }
}

/// Sum of squares of a difference sequence.
pub open spec fn sum_sq(d: Seq<u64>) -> int
    decreases d.len(),
{
    if d.len() == 0 {
        0
    } else {
        sum_sq(d.drop_last()) + (d.last() as int) * (d.last() as int)
    }
}

/// Sums of a sequence bounded by `25` are bounded by `25 * len` and
/// `625 * len`.
pub proof fn lemma_sums_bounds(d: Seq<u64>)
    requires
        forall|i: int| 0 <= i < d.len() ==> d[i] < 26,
    ensures
        0 <= sum_seq(d) <= 25 * d.len(),
        0 <= sum_sq(d) <= 625 * d.len(),
    decreases d.len(),
{
    if d.len() > 0 {
        lemma_sums_bounds(d.drop_last());
        let x = d.last() as int;
        assert(x * x <= 625) by (nonlinear_arith)
            requires
                0 <= x <= 25,
        ;
    }
}

/// Cauchy-Schwarz for the population variance: `len * sumsq >= sum^2`,
/// so the variance numerator is never negative.
pub proof fn lemma_variance_nonneg(d: Seq<u64>)
    ensures
        d.len() * sum_sq(d) >= sum_seq(d) * sum_seq(d),
    decreases d.len(),
{
    if d.len() == 0 {
    } else {
        let t = d.drop_last();
        lemma_variance_nonneg(t);
        let m = t.len() as int;
        let q = sum_sq(t);
        let s = sum_seq(t);
        let x = d.last() as int;
        lemma_sums_nonneg(t);
        assert((m + 1) * (q + x * x) >= (s + x) * (s + x)) by (nonlinear_arith)
            requires
                m >= 0,
                q >= 0,
                m * q >= s * s,
        ;
    }
}

proof fn lemma_sums_nonneg(d: Seq<u64>)
    ensures
        sum_seq(d) >= 0,
        sum_sq(d) >= 0,
    decreases d.len(),
{
    if d.len() > 0 {
        lemma_sums_nonneg(d.drop_last());
        let x = d.last() as int;
        assert(x * x >= 0) by (nonlinear_arith);
    }
}

/// SDD of an encoded stream in thousandths of the `10`-scaled standard
/// deviation: the floor square root of `100000000 * variance`, where
/// the variance of the mod-`26` difference sequence is the exact
/// rational `(m * sumsq - sum^2) / m^2`; `0` for streams shorter than
/// two symbols.
pub open spec fn spec_sdd_milli(s: Seq<usize>) -> int {
    if s.len() < 2 {
        0
    } else {
        let d = diff_seq(s);
        let m = d.len() as int;
        let num = m * sum_sq(d) - sum_seq(d) * sum_seq(d);
        sqrt_floor(100000000 * num / (m * m))
    }
}

/// SDD of a pre-encoded stream.
pub fn sdd_of(data: &[usize]) -> (r: u64)
    requires
        stream_ok(data@),
        data@.len() <= MAX_STREAM_LEN,
    ensures
        r == spec_sdd_milli(data@),
        r <= 1000000,
{
    let n = data.len();
    if n < 2 {
        return 0;
    }
    let ghost s = data@;
    let ghost d = diff_seq(s);
    let m = n - 1;
    let mut sum: u64 = 0;
    let mut sumsq: u64 = 0;
    let mut i: usize = 0;
    while i < m
        invariant
            i <= m,
            m == n - 1,
            2 <= n == s.len() <= MAX_STREAM_LEN,
            s == data@,
            stream_ok(s),
            d == diff_seq(s),
            sum == sum_seq(d.take(i as int)),
            sumsq == sum_sq(d.take(i as int)),
            sum <= 25 * i,
            sumsq <= 625 * i,
        decreases m - i,
    {
        let a = data[i + 1];
        let b = data[i];
        let di: usize = (a + 52 - b) % 26;
        proof {
            vstd::arithmetic::div_mod::lemma_mod_add_multiples_vanish(
                (a as int) - (b as int) + 26,
                26,
            );
            vstd::arithmetic::div_mod::lemma_mod_add_multiples_vanish(
                (a as int) - (b as int),
                26,
            );
            assert(di as u64 == d[i as int]);
            assert(d.take(i + 1) =~= d.take(i as int).push(d[i as int]));
            assert(d.take(i + 1).drop_last() =~= d.take(i as int));
            let x = di as int;
            assert(x * x <= 625) by (nonlinear_arith)
                requires
                    0 <= x <= 25,
            ;
        }
        sum = sum + di as u64;
        sumsq = sumsq + (di * di) as u64;
        i = i + 1;
    }
    proof {
        assert(d.take(m as int) =~= d);
    }
    // Exact variance numerator, nonnegative by Cauchy-Schwarz.
    proof {
        lemma_variance_nonneg(d);
        lemma_sums_bounds(d);
        assert((m as int) * (sumsq as int) <= 1000000 * (625 * (m as int))) by (nonlinear_arith)
            requires
                0 <= m as int <= 1000000,
                0 <= sumsq as int <= 625 * (m as int),
        ;
        assert((sum as int) * (sum as int) >= 0) by (nonlinear_arith);
        assert((sum as int) * (sum as int) <= 625000000000000int) by (nonlinear_arith)
            requires
                0 <= sum as int <= 25000000,
        ;
    }
    proof {
        assert(1 <= (m as int) * (m as int) <= 1000000000000int) by (nonlinear_arith)
            requires
                1 <= m as int <= 1000000,
        ;
    }
    let msumsq: u64 = (m as u64) * sumsq;
    let sumsum: u64 = sum * sum;
    let num: u64 = msumsq - sumsum;
    let scaled: u128 = 100000000u128 * (num as u128);
    let msq: u128 = (m as u128) * (m as u128);
    let q: u128 = scaled / msq;
    proof {
        // variance <= 625, so the scaled value fits well inside u64
        assert(num as int <= (m as int) * (m as int) * 625) by (nonlinear_arith)
            requires
                num as int <= (m as int) * (sumsq as int),
                0 <= sumsq as int <= 625 * (m as int),
                m >= 1,
        ;
        assert(scaled as int <= (msq as int) * 62500000000int) by (nonlinear_arith)
            requires
                scaled == 100000000 * (num as int),
                msq == (m as int) * (m as int),
                num as int <= (m as int) * (m as int) * 625,
        ;
        vstd::arithmetic::div_mod::lemma_multiply_divide_le(
            scaled as int,
            msq as int,
            62500000000int,
        );
    }
    let root = isqrt(q as u64);
    proof {
        lemma_sqrt_floor_props(q as int);
        assert(root * root <= 62500000000int) by (nonlinear_arith)
            requires
                root as int == sqrt_floor(q as int),
                0 <= root,
                (root as int) * (root as int) <= q as int,
                q as int <= 62500000000int,
        ;
        assert(root <= 1000000) by (nonlinear_arith)
            requires
                0 <= root,
                (root as int) * (root as int) <= 62500000000int,
        ;
    }
    root
}

/// Standard Deviation of Differences of a text, over its encoded stream.
pub fn get_sdd(text: &str) -> (r: u64)
    requires
        text@.len() <= MAX_STREAM_LEN,
    ensures
        r == spec_sdd_milli(encode_seq(text@)),
        r <= 1000000,
{
    proof {
        lemma_encode_seq_ok(text@);
    }
    let data = convert_string(text);
    sdd_of(data.as_slice())
}

} // verus!
