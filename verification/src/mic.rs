//! Maximum periodic Index of Coincidence (MIC).
//!
//! For each period `p` in `1 ..= min(10, n / 2)` the stream is split
//! into `p` columns by residue class; the statistic is the maximum over
//! `p` of the average per-column IoC. The average is computed as one
//! exact fraction: with `S = n / p`, `r = n % p`, the first `r` columns
//! have length `L = S + 1` (all `p` have length `S` when `r = 0`), so
//! the scaled average is `1000000 * num / (p * dL * dS)` where each
//! column's coincidence sum is weighted by the paired-position count of
//! the other column length.

use vstd::prelude::*;

use crate::counts::{
    coincidence_count, coincidence_sum, lemma_coincidence_sum_bounds,
    lemma_coincidence_sum_le_len_pairs, MAX_STREAM_LEN,
};
use crate::utils::{convert_string, encode_seq, lemma_encode_seq_ok, stream_ok};

verus! {

/// Number of stream positions in the residue class `i` modulo `p`:
/// the length of column `i` under period `p`.
pub open spec fn col_len(n: int, p: int, i: int) -> int {
    (n - i + p - 1) / p
}

/// Column `i` of the stream under period `p`: the positions congruent
/// to `i` modulo `p`, in order.
pub open spec fn column(s: Seq<usize>, p: int, i: int) -> Seq<usize> {
    Seq::new(col_len(s.len() as int, p, i) as nat, |j: int| s[i + j * p])
}

/// Ordered pairs of distinct positions in a column of length `m`.
pub open spec fn dpair(m: int) -> int {
    m * (m - 1)
}

/// Length of the long columns under period `p`: `n / p`, plus one when
/// the division leaves a remainder.
pub open spec fn long_len(n: int, p: int) -> int {
    if n % p > 0 {
        n / p + 1
    } else {
        n / p
    }
}

/// Weight of column `i` in the common-denominator sum: the paired
/// count of the other column length.
pub open spec fn mic_factor(n: int, p: int, i: int) -> int {
    if i < n % p {
        dpair(n / p)
    } else {
        dpair(long_len(n, p))
    }
}

/// Common-denominator numerator of the average per-column IoC under
/// period `p`, summed over the columns below `k`.
pub open spec fn mic_num(s: Seq<usize>, p: int, k: int) -> int
    decreases k,
{
    if k <= 0 {
        0
    } else {
        mic_num(s, p, k - 1) + coincidence_sum(column(s, p, k - 1), 38) * mic_factor(
            s.len() as int,
            p,
            k - 1,
        )
    }
}

/// Scaled average per-column IoC under period `p`, in thousandths of
/// the `1000`-scaled unit.
pub open spec fn spec_mic_p_milli(s: Seq<usize>, p: int) -> int {
    let n = s.len() as int;
    1000000 * mic_num(s, p, p) / (p * dpair(long_len(n, p)) * dpair(n / p))
}

/// Maximum of the scaled averages over the periods `1 ..= k`.
pub open spec fn spec_mic_max(s: Seq<usize>, k: int) -> int
    decreases k,
{
    if k <= 0 {
        0
    } else {
        let prev = spec_mic_max(s, k - 1);
        let here = spec_mic_p_milli(s, k);
        if here > prev {
            here
        } else {
            prev
        }
    }
}

/// MIC of an encoded stream: the maximum over the periods
/// `1 ..= min(10, n / 2)` of the average per-column IoC; `0` for
/// streams shorter than two symbols.
pub open spec fn spec_mic_milli(s: Seq<usize>) -> int {
    if s.len() < 2 {
        0
    } else {
        let max_period = if s.len() / 2 < 10 {
            s.len() as int / 2
        } else {
            10int
        };
        spec_mic_max(s, max_period)
    }
}

/// Every column under a period `p <= n / 2` has the long or the short
/// length, and even the short one pairs at least two positions.
pub proof fn lemma_col_len_split(n: int, p: int, i: int)
    requires
        1 <= p,
        2 * p <= n,
        0 <= i < p,
    ensures
        col_len(n, p, i) == if i < n % p {
            long_len(n, p)
        } else {
            n / p
        },
        2 <= n / p <= long_len(n, p) <= n,
{
    let s = n / p;
    let r = n % p;
    vstd::arithmetic::div_mod::lemma_fundamental_div_mod(n, p);
    assert(n == p * s + r);
    if i < r {
        // n - i + p - 1 == (s + 1) * p + (r - i - 1), with remainder in range
        assert((s + 1) * p + (r - i - 1) == n - i + p - 1) by (nonlinear_arith)
            requires
                n == p * s + r,
        ;
        vstd::arithmetic::div_mod::lemma_fundamental_div_mod_converse_div(
            n - i + p - 1,
            p,
            s + 1,
            r - i - 1,
        );
    } else {
        assert(s * p + (r - i + p - 1) == n - i + p - 1) by (nonlinear_arith)
            requires
                n == p * s + r,
        ;
        vstd::arithmetic::div_mod::lemma_fundamental_div_mod_converse_div(
            n - i + p - 1,
            p,
            s,
            r - i + p - 1,
        );
    }
    assert(s >= 2) by {
        vstd::arithmetic::div_mod::lemma_div_is_ordered(2 * p, n, p);
        assert((2 * p) / p == 2) by {
            vstd::arithmetic::div_mod::lemma_fundamental_div_mod_converse_div(2 * p, p, 2, 0);
        }
    }
    assert(s <= s * p + r) by (nonlinear_arith)
        requires
            p >= 1,
            s >= 0,
            r >= 0,
    ;
    assert(long_len(n, p) <= n) by (nonlinear_arith)
        requires
            n == p * s + r,
            0 <= r < p,
            s >= 2,
            r > 0 ==> p >= 2,
    ;
}

/// Builds column `i` of the stream under period `p`.
fn build_column(data: &[usize], p: usize, i: usize) -> (col: Vec<usize>)
    requires
        1 <= p <= 10,
        i < p,
        i < data@.len(),
        data@.len() <= MAX_STREAM_LEN,
        stream_ok(data@),
    ensures
        col@ == column(data@, p as int, i as int),
        col@.len() <= data@.len(),
        stream_ok(col@),
{
    let ghost s = data@;
    let n = data.len();
    let mut col: Vec<usize> = Vec::new();
    let mut idx: usize = i;
    let ghost mut j: int = 0;
    while idx < n
        invariant
            n == s.len() <= MAX_STREAM_LEN,
            s == data@,
            stream_ok(s),
            1 <= p <= 10,
            i < p,
            i < n,
            j >= 0,
            idx == i + j * p,
            j == 0 || i + (j - 1) * p < n,
            col@.len() == j,
            forall|x: int| 0 <= x < j ==> #[trigger] col@[x] == s[i + x * p],
            j <= n,
        decreases n + p - idx,
    {
        proof {
            assert((j + 1) * p == j * p + p) by (nonlinear_arith);
            assert(j <= i + j * p) by (nonlinear_arith)
                requires
                    p >= 1,
                    j >= 0,
                    i >= 0,
            ;
        }
        col.push(data[idx]);
        idx = idx + p;
        proof {
            j = j + 1;
        }
    }
    proof {
        // On exit `j` is exactly the ceiling of `(n - i) / p`.
        assert(j >= 1);
        assert(0 <= (n - i + p - 1) - j * p < p) by (nonlinear_arith)
            requires
                i + j * p >= n,
                i + (j - 1) * p < n,
                p >= 1,
        ;
        vstd::arithmetic::div_mod::lemma_fundamental_div_mod_converse_div(
            n - i + p - 1,
            p as int,
            j,
            (n - i + p - 1) - j * p,
        );
        assert(j * (p as int) == (p as int) * j) by (nonlinear_arith);
        assert forall|x: int| 0 <= x < j implies i + #[trigger] (x * p) < n by {
            assert(x * p <= (j - 1) * p) by (nonlinear_arith)
                requires
                    x <= j - 1,
                    p >= 1,
            ;
        }
        assert(col@ =~= column(s, p as int, i as int));
    }
    col
}

/// Scaled average per-column IoC for one period.
fn mic_for_period(data: &[usize], p: usize) -> (r: u64)
    requires
        1 <= p <= 10,
        2 * p <= data@.len(),
        data@.len() <= MAX_STREAM_LEN,
        stream_ok(data@),
    ensures
        r == spec_mic_p_milli(data@, p as int),
        r <= 1000000,
{
    let ghost s = data@;
    let n = data.len();
    let short: u64 = (n / p) as u64;
    let rem: usize = n % p;
    let long: u64 = if rem > 0 {
        short + 1
    } else {
        short
    };
    proof {
        lemma_col_len_split(n as int, p as int, 0);
        assert(2 <= short as int && 2 <= long as int <= n as int <= 1000000);
        assert((short as int) * ((short as int) - 1) <= 1000000000000int && (long as int) * ((
        long as int) - 1) <= 1000000000000int) by (nonlinear_arith)
            requires
                2 <= short as int <= 1000000,
                2 <= long as int <= 1000000,
        ;
    }
    let d_short: u64 = short * (short - 1);
    let d_long: u64 = long * (long - 1);
    proof {
        assert(d_short as int == dpair(n as int / (p as int)));
        assert(d_long as int == dpair(long_len(n as int, p as int)));
        assert(2 <= d_short as int <= 1000000000000int && 2 <= d_long as int <= 1000000000000int)
            by (nonlinear_arith)
            requires
                2 <= short as int <= 1000000,
                2 <= long as int <= 1000000,
                d_short == (short as int) * ((short as int) - 1),
                d_long == (long as int) * ((long as int) - 1),
        ;
        assert((d_long as int) * (d_short as int) <= 1000000000000000000000000int)
            by (nonlinear_arith)
            requires
                0 <= d_long as int <= 1000000000000int,
                0 <= d_short as int <= 1000000000000int,
        ;
    }
    let weight: u128 = (d_long as u128) * (d_short as u128);
    let mut acc: u128 = 0;
    let mut i: usize = 0;
    while i < p
        invariant
            i <= p,
            1 <= p <= 10,
            2 * p <= n,
            n == s.len() <= MAX_STREAM_LEN,
            s == data@,
            stream_ok(s),
            rem == n % p,
            short as int == n as int / (p as int),
            long as int == long_len(n as int, p as int),
            d_short as int == dpair(short as int),
            d_long as int == dpair(long as int),
            2 <= d_short && 2 <= d_long,
            d_short <= 1000000000000u64 && d_long <= 1000000000000u64,
            weight == (d_long as int) * (d_short as int),
            acc == mic_num(s, p as int, i as int),
            acc <= (i as int) * (weight as int),
        decreases p - i,
    {
        let col = build_column(data, p, i);
        let cs = coincidence_count(col.as_slice(), 38);
        let factor: u64 = if i < rem {
            d_short
        } else {
            d_long
        };
        proof {
            lemma_col_len_split(n as int, p as int, i as int);
            lemma_coincidence_sum_le_len_pairs(col@, 38);
            lemma_coincidence_sum_bounds(col@, 38);
            // cs is bounded by the column's own pair count, so the
            // weighted addend is bounded by the common denominator.
            assert(cs as int <= dpair(col@.len() as int));
            assert((cs as int) * (factor as int) <= weight as int) by (nonlinear_arith)
                requires
                    0 <= cs as int,
                    cs as int <= dpair(col@.len() as int),
                    (col@.len() as int == long as int && factor as int == d_short as int
                        && dpair(col@.len() as int) == d_long as int) || (col@.len() as int
                        == short as int && factor as int == d_long as int && dpair(
                        col@.len() as int,
                    ) == d_short as int),
                    weight as int == (d_long as int) * (d_short as int),
            ;
            assert(weight as int <= 1000000000000000000000000int) by (nonlinear_arith)
                requires
                    0 <= d_long as int <= 1000000000000int,
                    0 <= d_short as int <= 1000000000000int,
                    weight as int == (d_long as int) * (d_short as int),
            ;
            assert((i as int) * (weight as int) + weight as int == (i as int + 1) * (
            weight as int)) by (nonlinear_arith);
            assert((i as int + 1) * (weight as int) <= 10000000000000000000000000int)
                by (nonlinear_arith)
                requires
                    0 <= i as int + 1 <= 10,
                    0 <= weight as int <= 1000000000000000000000000int,
            ;
        }
        acc = acc + (cs as u128) * (factor as u128);
        i = i + 1;
    }
    proof {
        assert(weight as int <= 1000000000000000000000000int) by (nonlinear_arith)
            requires
                0 <= d_long as int <= 1000000000000int,
                0 <= d_short as int <= 1000000000000int,
                weight as int == (d_long as int) * (d_short as int),
        ;
        assert((p as int) * (weight as int) <= 10000000000000000000000000int) by (nonlinear_arith)
            requires
                1 <= p as int <= 10,
                0 <= weight as int <= 1000000000000000000000000int,
        ;
    }
    let num: u128 = 1000000u128 * acc;
    let den: u128 = (p as u128) * weight;
    proof {
        assert(weight as int >= 4) by (nonlinear_arith)
            requires
                d_long as int >= 2,
                d_short as int >= 2,
                weight as int == (d_long as int) * (d_short as int),
        ;
        assert(weight as int <= 1000000000000000000000000int) by (nonlinear_arith)
            requires
                0 <= d_long as int <= 1000000000000int,
                0 <= d_short as int <= 1000000000000int,
                weight as int == (d_long as int) * (d_short as int),
        ;
        assert((p as int) * (weight as int) >= weight as int) by (nonlinear_arith)
            requires
                p as int >= 1,
                weight as int >= 0,
        ;
        assert((p as int) * (weight as int) <= 10000000000000000000000000int) by (nonlinear_arith)
            requires
                1 <= p as int <= 10,
                0 <= weight as int <= 1000000000000000000000000int,
        ;
        assert(num as int <= (den as int) * 1000000) by (nonlinear_arith)
            requires
                num as int == 1000000 * (acc as int),
                acc as int <= (p as int) * (weight as int),
                den as int == (p as int) * (weight as int),
        ;
    }
    let q: u128 = num / den;
    proof {
        vstd::arithmetic::div_mod::lemma_multiply_divide_le(num as int, den as int, 1000000);
        assert(den as int == (p as int) * dpair(long_len(n as int, p as int)) * dpair(
            n as int / (p as int),
        )) by (nonlinear_arith)
            requires
                den as int == (p as int) * ((d_long as int) * (d_short as int)),
                d_long as int == dpair(long_len(n as int, p as int)),
                d_short as int == dpair(n as int / (p as int)),
        ;
    }
    q as u64
}

/// MIC of a pre-encoded stream.
pub fn mic_of(data: &[usize]) -> (r: u64)
    requires
        stream_ok(data@),
        data@.len() <= MAX_STREAM_LEN,
    ensures
        r == spec_mic_milli(data@),
        r <= 1000000,
{
    let n = data.len();
    if n < 2 {
        return 0;
    }
    let max_period = if n / 2 < 10 {
        n / 2
    } else {
        10
    };
    let mut best: u64 = 0;
    let mut p: usize = 1;
    while p <= max_period
        invariant
            1 <= p <= max_period + 1,
            max_period == if n / 2 < 10 {
                n as int / 2
            } else {
                10int
            },
            2 <= n == data@.len() <= MAX_STREAM_LEN,
            stream_ok(data@),
            best == spec_mic_max(data@, p as int - 1),
            best <= 1000000,
        decreases max_period + 1 - p,
    {
        let here = mic_for_period(data, p);
        if here > best {
            best = here;
        }
        p = p + 1;
    }
    best
}

/// Maximum periodic Index of Coincidence of a text, over its encoded
/// stream.
pub fn get_max_periodic_ic(text: &str) -> (r: u64)
    requires
        text@.len() <= MAX_STREAM_LEN,
    ensures
        r == spec_mic_milli(encode_seq(text@)),
        r <= 1000000,
{
    proof {
        lemma_encode_seq_ok(text@);
    }
    let data = convert_string(text);
    mic_of(data.as_slice())
}

} // verus!
