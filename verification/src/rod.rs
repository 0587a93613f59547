//! Repeat Order Distance (ROD).
//!
//! Every position whose symbol has already appeared contributes the
//! distance back to that symbol's first occurrence; ROD is the mean of
//! these distances, `0` when there is no repeat. Reported in
//! thousandths: `floor(1000 * total / count)`.

use vstd::prelude::*;

use crate::counts::MAX_STREAM_LEN;
use crate::utils::{convert_string, encode_seq, lemma_encode_seq_ok, stream_ok};

verus! {

/// Index of the first occurrence of `v` in `s`, or `s.len()` when `v`
/// does not occur.
pub open spec fn first_occ(s: Seq<usize>, v: int) -> int
    decreases s.len(),
{
    if s.len() == 0 {
        0
    } else {
        let p = first_occ(s.drop_last(), v);
        if p < s.len() - 1 {
            p
        } else if s.last() == v {
            s.len() - 1
        } else {
            s.len() as int
        }
    }
}

/// `first_occ` is the least index holding `v`, and is at most `s.len()`.
pub proof fn lemma_first_occ_props(s: Seq<usize>, v: int)
    ensures
        0 <= first_occ(s, v) <= s.len(),
        first_occ(s, v) < s.len() ==> s[first_occ(s, v)] == v,
        forall|j: int| 0 <= j < first_occ(s, v) ==> s[j] != v,
        (exists|j: int| 0 <= j < s.len() && s[j] == v) ==> first_occ(s, v) < s.len(),
    decreases s.len(),
{
    if s.len() > 0 {
        lemma_first_occ_props(s.drop_last(), v);
        assert forall|j: int| 0 <= j < s.len() - 1 implies s.drop_last()[j] == s[j] by {}
        if exists|j: int| 0 <= j < s.len() && s[j] == v {
            let j = choose|j: int| 0 <= j < s.len() && s[j] == v;
            if j < s.len() - 1 {
                assert(s.drop_last()[j] == v);
            }
        }
    }
}

/// Appending an element extends `first_occ` as expected: an earlier hit
/// is kept, otherwise the new element may become the first occurrence.
pub proof fn lemma_first_occ_push(s: Seq<usize>, x: usize, v: int)
    ensures
        first_occ(s.push(x), v) == if first_occ(s, v) < s.len() {
            first_occ(s, v)
        } else if x == v {
            s.len() as int
        } else {
            s.len() + 1int
        },
{
    assert(s.push(x).drop_last() =~= s);
}

/// Sum, over the repeat positions `i < m`, of the distance from `i` back
/// to the first occurrence of `s[i]`.
pub open spec fn rod_total_upto(s: Seq<usize>, m: int) -> int
    decreases m,
{
    if m <= 0 {
        0
    } else {
        rod_total_upto(s, m - 1) + if first_occ(s, s[m - 1] as int) < m - 1 {
            m - 1 - first_occ(s, s[m - 1] as int)
        } else {
            0int
        }
    }
}

/// Number of repeat positions `i < m`: positions whose symbol occurs
/// earlier in the stream.
pub open spec fn rod_count_upto(s: Seq<usize>, m: int) -> int
    decreases m,
{
    if m <= 0 {
        0
    } else {
        rod_count_upto(s, m - 1) + if first_occ(s, s[m - 1] as int) < m - 1 {
            1int
        } else {
            0int
        }
    }
}

/// ROD of an encoded stream in thousandths: the mean distance from each
/// repeat back to its symbol's first occurrence; `0` for streams shorter
/// than two symbols or without repeats.
pub open spec fn spec_rod_milli(s: Seq<usize>) -> int {
    if s.len() < 2 {
        0
    } else if rod_count_upto(s, s.len() as int) == 0 {
        0
    } else {
        1000 * rod_total_upto(s, s.len() as int) / rod_count_upto(s, s.len() as int)
    }
}

pub proof fn lemma_rod_sums_bounds(s: Seq<usize>, m: int)
    requires
        m <= s.len(),
    ensures
        0 <= rod_count_upto(s, m) <= if m >= 0 {
            m
        } else {
            0int
        },
        0 <= rod_total_upto(s, m) <= rod_count_upto(s, m) * (s.len() - 1),
    decreases m,
{
    if m > 0 {
        lemma_rod_sums_bounds(s, m - 1);
        lemma_first_occ_props(s, s[m - 1] as int);
        let c = rod_count_upto(s, m - 1);
        let n1 = s.len() - 1;
        if first_occ(s, s[m - 1] as int) < m - 1 {
            assert(c * n1 + n1 == (c + 1) * n1) by (nonlinear_arith);
        }
    }
}

/// ROD of a pre-encoded stream.
pub fn rod_of(data: &[usize]) -> (r: u64)
    requires
        stream_ok(data@),
        data@.len() <= MAX_STREAM_LEN,
    ensures
        r == spec_rod_milli(data@),
        r <= 1000000000,
{
    let n = data.len();
    if n < 2 {
        return 0;
    }
    // First pass: the first occurrence of each symbol, `n` when absent.
    let mut fir: Vec<usize> = Vec::new();
    let mut v: usize = 0;
    while v < 38
        invariant
            v <= 38,
            fir@.len() == v,
            forall|w: int| 0 <= w < v ==> fir@[w] == n,
        decreases 38 - v,
    {
        fir.push(n);
        v = v + 1;
    }
    let ghost s = data@;
    let mut i: usize = 0;
    while i < n
        invariant
            i <= n,
            n == s.len(),
            s == data@,
            stream_ok(s),
            fir@.len() == 38,
            forall|w: int|
                0 <= w < 38 ==> fir@[w] == if first_occ(s.take(i as int), w) < i {
                    first_occ(s.take(i as int), w)
                } else {
                    n as int
                },
        decreases n - i,
    {
        let x = data[i];
        proof {
            assert(s.take(i + 1) =~= s.take(i as int).push(s[i as int]));
            assert forall|w: int| 0 <= w < 38 implies first_occ(s.take(i + 1), w) == (
            if first_occ(s.take(i as int), w) < i {
                first_occ(s.take(i as int), w)
            } else if s[i as int] == w {
                i as int
            } else {
                i + 1
            }) by {
                lemma_first_occ_push(s.take(i as int), s[i as int], w);
            }
            lemma_first_occ_props(s.take(i as int), x as int);
        }
        if fir[x] == n {
            fir.set(x, i);
        }
        i = i + 1;
    }
    proof {
        assert(s.take(n as int) =~= s);
    }
    // Second pass: total distance and number of repeats.
    let mut total: u64 = 0;
    let mut count: u64 = 0;
    let mut i: usize = 0;
    while i < n
        invariant
            i <= n,
            2 <= n == s.len() <= MAX_STREAM_LEN,
            s == data@,
            stream_ok(s),
            fir@.len() == 38,
            forall|w: int|
                0 <= w < 38 ==> fir@[w] == if first_occ(s, w) < n {
                    first_occ(s, w)
                } else {
                    n as int
                },
            total == rod_total_upto(s, i as int),
            count == rod_count_upto(s, i as int),
            count <= i,
            total <= count * (n - 1),
        decreases n - i,
    {
        let x = data[i];
        proof {
            lemma_first_occ_props(s, x as int);
            assert(s[i as int] == x);
            assert(first_occ(s, x as int) <= i);
        }
        let f = fir[x];
        if f < i {
            proof {
                let c = rod_count_upto(s, i as int);
                let n1 = s.len() - 1;
                assert(c * n1 + n1 == (c + 1) * n1) by (nonlinear_arith);
                assert((c + 1) * n1 <= 1000000000000int) by (nonlinear_arith)
                    requires
                        0 <= c + 1 <= 1000000,
                        0 <= n1 <= 1000000,
                ;
            }
            total = total + (i - f) as u64;
            count = count + 1;
        }
        i = i + 1;
    }
    if count == 0 {
        return 0;
    }
    proof {
        assert((count as int) * ((n as int) - 1) <= 1000000000000int) by (nonlinear_arith)
            requires
                0 <= count as int <= 1000000,
                0 <= (n as int) - 1 <= 1000000,
        ;
    }
    let num: u64 = 1000u64 * total;
    proof {
        assert(total as int <= (count as int) * ((n as int) - 1));
        assert(num as int <= (count as int) * (1000 * ((n as int) - 1))) by (nonlinear_arith)
            requires
                num == 1000 * (total as int),
                total as int <= (count as int) * ((n as int) - 1),
        ;
        vstd::arithmetic::div_mod::lemma_multiply_divide_le(
            num as int,
            count as int,
            1000 * ((n as int) - 1),
        );
    }
    num / count
}

/// Repeat Order Distance of a text, computed over its encoded stream.
pub fn get_rod(text: &str) -> (r: u64)
    requires
        text@.len() <= MAX_STREAM_LEN,
    ensures
        r == spec_rod_milli(encode_seq(text@)),
        r <= 1000000000,
{
    proof {
        lemma_encode_seq_ok(text@);
    }
    let data = convert_string(text);
    rod_of(data.as_slice())
}

} // verus!
