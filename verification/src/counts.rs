//! The shared counting primitive of the fingerprint tests.
//!
//! Every coincidence-style statistic (IoC, MIC, DIC, EDI) reduces to the
//! same sum over a frequency table: for each symbol of some alphabet,
//! the number of ordered pairs of equal occurrences, `c * (c - 1)`.
//! This module defines that sum once, over an alphabet-size parameter,
//! together with the verified histogram it is computed from.

use vstd::prelude::*;

verus! {

/// Streams longer than this are not accepted by the statistics: the
/// bound keeps every intermediate product of the exact integer
/// arithmetic inside `u128`.
pub const MAX_STREAM_LEN: usize = 1000000;

/// Number of occurrences of the value `v` in `s`.
pub open spec fn cnt(s: Seq<usize>, v: int) -> int
    decreases s.len(),
{
    if s.len() == 0 {
        0
    } else {
        cnt(s.drop_last(), v) + if s.last() == v {
            1int
        } else {
            0int
        }
    }
}

/// A count never exceeds the stream length.
pub proof fn lemma_cnt_bounds(s: Seq<usize>, v: int)
    ensures
        0 <= cnt(s, v) <= s.len(),
    decreases s.len(),
{
    if s.len() > 0 {
        lemma_cnt_bounds(s.drop_last(), v);
    }
}

/// Appending one element raises exactly the count of that element.
pub proof fn lemma_cnt_push(s: Seq<usize>, x: usize, v: int)
    ensures
        cnt(s.push(x), v) == cnt(s, v) + if x == v {
            1int
        } else {
            0int
        },
{
    assert(s.push(x).drop_last() =~= s);
}

/// Sum, over the alphabet indices below `a`, of `c * (c - 1)` where `c`
/// counts the index's occurrences in `s`: the number of ordered pairs of
/// distinct positions holding the same value below `a`.
pub open spec fn coincidence_sum(s: Seq<usize>, a: int) -> int
    decreases a,
{
    if a <= 0 {
        0
    } else {
        coincidence_sum(s, a - 1) + cnt(s, a - 1) * (cnt(s, a - 1) - 1)
    }
}

/// The coincidence sum stays below `a * len * len`.
pub proof fn lemma_coincidence_sum_bounds(s: Seq<usize>, a: int)
    ensures
        0 <= coincidence_sum(s, a) <= if a >= 0 {
            a * s.len() * s.len()
        } else {
            0int
        },
    decreases a,
{
    if a > 0 {
        lemma_coincidence_sum_bounds(s, a - 1);
        lemma_cnt_bounds(s, a - 1);
        let c = cnt(s, a - 1);
        let n = s.len() as int;
        assert(c * (c - 1) >= 0 && c * (c - 1) <= n * n) by (nonlinear_arith)
            requires
                0 <= c <= n,
        ;
        assert((a - 1) * n * n + n * n == a * n * n) by (nonlinear_arith);
    }
}

/// Sum of the counts of all alphabet indices below `a`.
pub open spec fn count_total(s: Seq<usize>, a: int) -> int
    decreases a,
{
    if a <= 0 {
        0
    } else {
        count_total(s, a - 1) + cnt(s, a - 1)
    }
}

/// Appending an element below `a` raises the total count by one.
pub proof fn lemma_count_total_push(s: Seq<usize>, x: usize, a: int)
    ensures
        count_total(s.push(x), a) == count_total(s, a) + if x < a {
            1int
        } else {
            0int
        },
    decreases a,
{
    if a > 0 {
        lemma_count_total_push(s, x, a - 1);
        lemma_cnt_push(s, x, a - 1);
    }
}

/// When every element lies below `a`, the counts add up to the length.
pub proof fn lemma_count_total_full(s: Seq<usize>, a: int)
    requires
        forall|i: int| 0 <= i < s.len() ==> s[i] < a,
    ensures
        count_total(s, a) == s.len(),
    decreases s.len(),
{
    if s.len() == 0 {
        lemma_count_total_empty(s, a);
    } else {
        lemma_count_total_full(s.drop_last(), a);
        lemma_count_total_push(s.drop_last(), s.last(), a);
        assert(s.drop_last().push(s.last()) =~= s);
    }
}

proof fn lemma_count_total_empty(s: Seq<usize>, a: int)
    requires
        s.len() == 0,
    ensures
        count_total(s, a) == 0,
    decreases a,
{
    if a > 0 {
        lemma_count_total_empty(s, a - 1);
    }
}

/// A total count lies between `0` and the stream length: each position
/// is counted at most once.
pub proof fn lemma_count_total_le_len(s: Seq<usize>, a: int)
    ensures
        0 <= count_total(s, a) <= s.len(),
    decreases s.len(),
{
    if s.len() == 0 {
        lemma_count_total_empty(s, a);
    } else {
        lemma_count_total_le_len(s.drop_last(), a);
        lemma_count_total_push(s.drop_last(), s.last(), a);
        assert(s.drop_last().push(s.last()) =~= s);
    }
}

/// The coincidence sum is at most `t * (t - 1)` where `t` is the total
/// count: equal pairs are never more numerous than all pairs.
pub proof fn lemma_coincidence_sum_le_pairs(s: Seq<usize>, a: int)
    ensures
        coincidence_sum(s, a) <= count_total(s, a) * (count_total(s, a) - 1),
        count_total(s, a) >= 0,
    decreases a,
{
    if a <= 0 {
    } else {
        lemma_coincidence_sum_le_pairs(s, a - 1);
        lemma_cnt_bounds(s, a - 1);
        let t = count_total(s, a - 1);
        let c = cnt(s, a - 1);
        assert(t * (t - 1) + c * (c - 1) <= (t + c) * ((t + c) - 1)) by (nonlinear_arith)
            requires
                t >= 0,
                c >= 0,
        ;
    }
}

/// For a well-formed stream the coincidence sum over the full alphabet
/// is bounded by `n * (n - 1)`.
pub proof fn lemma_coincidence_sum_le_len_pairs(s: Seq<usize>, a: int)
    requires
        forall|i: int| 0 <= i < s.len() ==> s[i] < a,
    ensures
        coincidence_sum(s, a) <= s.len() * (s.len() - 1),
{
    lemma_coincidence_sum_le_pairs(s, a);
    lemma_count_total_full(s, a);
}

/// Frequency table of the stream over the alphabet `0 .. a`: slot `v`
/// holds the number of occurrences of `v`.
pub fn histogram(data: &[usize], a: usize) -> (h: Vec<u64>)
    requires
        forall|i: int| 0 <= i < data@.len() ==> data@[i] < a,
    ensures
        h@.len() == a,
        forall|v: int| 0 <= v < a ==> h@[v] == cnt(data@, v),
{
    let n = data.len();
    let mut h: Vec<u64> = Vec::new();
    let mut v: usize = 0;
    while v < a
        invariant
            v <= a,
            h@.len() == v,
            forall|w: int| 0 <= w < v ==> h@[w] == 0,
        decreases a - v,
    {
        h.push(0);
        v = v + 1;
    }
    let mut i: usize = 0;
    while i < n
        invariant
            i <= n,
            n == data@.len(),
            h@.len() == a,
            forall|j: int| 0 <= j < n ==> data@[j] < a,
            forall|w: int| 0 <= w < a ==> h@[w] == cnt(data@.take(i as int), w),
        decreases n - i,
    {
        let x = data[i];
        proof {
            lemma_cnt_bounds(data@.take(i as int), x as int);
            assert(data@.take(i + 1) =~= data@.take(i as int).push(data@[i as int]));
            assert forall|w: int| 0 <= w < a implies cnt(data@.take(i + 1), w) == cnt(
                data@.take(i as int),
                w,
            ) + if data@[i as int] == w {
                1int
            } else {
                0int
            } by {
                lemma_cnt_push(data@.take(i as int), data@[i as int], w);
            }
        }
        let old_count = h[x];
        h.set(x, old_count + 1);
        i = i + 1;
    }
    proof {
        assert(data@.take(n as int) =~= data@);
    }
    h
}

/// The coincidence sum of the stream over the alphabet `0 .. a`,
/// computed from the frequency table.
pub fn coincidence_count(data: &[usize], a: usize) -> (s: u64)
    requires
        forall|i: int| 0 <= i < data@.len() ==> data@[i] < a,
        data@.len() <= MAX_STREAM_LEN,
        a <= 1444,
    ensures
        s == coincidence_sum(data@, a as int),
{
    let h = histogram(data, a);
    let n = data.len();
    let mut sum: u64 = 0;
    let mut v: usize = 0;
    while v < a
        invariant
            v <= a,
            h@.len() == a,
            n == data@.len(),
            n <= MAX_STREAM_LEN,
            a <= 1444,
            forall|w: int| 0 <= w < a ==> h@[w] == cnt(data@, w),
            sum == coincidence_sum(data@, v as int),
            sum <= (v as int) * (n as int) * (n as int),
        decreases a - v,
    {
        let c = h[v];
        proof {
            lemma_cnt_bounds(data@, v as int);
            assert(coincidence_sum(data@, v as int + 1) == coincidence_sum(data@, v as int) + cnt(
                data@,
                v as int,
            ) * (cnt(data@, v as int) - 1));
            let ci = c as int;
            let ni = n as int;
            assert(ci * (ci - 1) >= 0 && ci * (ci - 1) <= ni * ni) by (nonlinear_arith)
                requires
                    0 <= ci <= ni,
            ;
            assert((v as int) * ni * ni + ni * ni == (v as int + 1) * ni * ni) by (nonlinear_arith);
            assert((v as int + 1) * ni * ni <= 1444 * 1000000000000int) by (nonlinear_arith)
                requires
                    0 <= v as int + 1 <= 1444,
                    0 <= ni <= 1000000,
            ;
        }
        proof {
            assert(c == cnt(data@, v as int));
        }
        if c > 0 {
            let term = c * (c - 1);
            proof {
                assert(term == cnt(data@, v as int) * (cnt(data@, v as int) - 1));
                assert(sum + term <= (v as int + 1) * (n as int) * (n as int));
            }
            sum = sum + term;
            proof {
                assert(sum == coincidence_sum(data@, v as int + 1));
            }
        } else {
            proof {
                assert(cnt(data@, v as int) == 0);
                assert(cnt(data@, v as int) * (cnt(data@, v as int) - 1) == 0);
                assert(sum == coincidence_sum(data@, v as int + 1));
            }
        }
        v = v + 1;
    }
    sum
}

/// Scaled index of coincidence of a stream over the alphabet `0 .. a`:
/// `floor(1000000 * sum / (n * (n - 1)))` where `sum` counts ordered
/// pairs of equal symbols, or `0` for fewer than two symbols. The
/// conventional `1000`-scaled value is this in thousandths.
pub open spec fn spec_pair_ratio_milli(data: Seq<usize>, a: int) -> int {
    if data.len() < 2 {
        0
    } else {
        1000000 * coincidence_sum(data, a) / (data.len() * (data.len() - 1))
    }
}

/// The scaled index of coincidence never exceeds `1000000`: equal pairs
/// are at most all pairs.
pub proof fn lemma_pair_ratio_milli_le(data: Seq<usize>, a: int)
    requires
        forall|i: int| 0 <= i < data.len() ==> data[i] < a,
    ensures
        0 <= spec_pair_ratio_milli(data, a) <= 1000000,
{
    if data.len() >= 2 {
        let n = data.len() as int;
        let s = coincidence_sum(data, a);
        lemma_coincidence_sum_le_len_pairs(data, a);
        lemma_coincidence_sum_bounds(data, a);
        assert(n * (n - 1) >= 2) by (nonlinear_arith)
            requires
                n >= 2,
        ;
        assert(1000000 * s <= (n * (n - 1)) * 1000000) by (nonlinear_arith)
            requires
                0 <= s <= n * (n - 1),
        ;
        vstd::arithmetic::div_mod::lemma_multiply_divide_le(1000000 * s, n * (n - 1), 1000000);
        vstd::arithmetic::div_mod::lemma_div_pos_is_pos(1000000 * s, n * (n - 1));
    }
}

/// The shared pairs/coincidence primitive of the ratio statistics:
/// scaled index of coincidence of a stream over the alphabet `0 .. a`.
pub fn pair_ratio_milli(data: &[usize], a: usize) -> (r: u64)
    requires
        forall|i: int| 0 <= i < data@.len() ==> data@[i] < a,
        data@.len() <= MAX_STREAM_LEN,
        a <= 1444,
    ensures
        r == spec_pair_ratio_milli(data@, a as int),
        r <= 1000000,
{
    let n = data.len();
    if n < 2 {
        return 0;
    }
    let s = coincidence_count(data, a);
    proof {
        lemma_coincidence_sum_bounds(data@, a as int);
        lemma_coincidence_sum_le_len_pairs(data@, a as int);
        lemma_pair_ratio_milli_le(data@, a as int);
        assert(2 <= (n as int) * ((n as int) - 1) <= 1000000000000int) by (nonlinear_arith)
            requires
                2 <= n as int <= 1000000,
        ;
    }
    let num: u128 = 1000000u128 * (s as u128);
    let den: u128 = (n as u128) * ((n as u128) - 1);
    let q: u128 = num / den;
    proof {
        assert(q <= 1000000) by {
            assert(num as int <= (den as int) * 1000000) by (nonlinear_arith)
                requires
                    0 <= s as int <= (n as int) * ((n as int) - 1),
                    num == 1000000 * (s as int),
                    den == (n as int) * ((n as int) - 1),
                    n >= 2,
            ;
            vstd::arithmetic::div_mod::lemma_multiply_divide_le(num as int, den as int, 1000000);
        }
    }
    q as u64
}

} // verus!
