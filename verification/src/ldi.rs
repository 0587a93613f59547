//! Letter Distribution Index (LDI).
//!
//! A chi-squared statistic between the observed `A`-`Z` frequencies
//! (symbols with code below `26`; digits and `#` are ignored) and a
//! fixed published English letter-frequency table, scaled by `100`.
//! Reported in thousandths; each of the 26 addends is computed exactly
//! as `floor(100 * (1000 * observed - freq * letters)^2 / (freq *
//! letters))` over the frequencies in thousandths.

use vstd::prelude::*;

use crate::counts::{
    cnt, count_total, histogram, lemma_cnt_bounds, lemma_count_total_le_len, MAX_STREAM_LEN,
};
use crate::utils::{convert_string, encode_seq, lemma_encode_seq_ok, stream_ok};

verus! {

/// Published English letter frequencies, in thousandths, for `A`-`Z`.
pub open spec fn english_freq_milli() -> Seq<int> {
    seq![
        82int,
        15int,
        28int,
        43int,
        127int,
        22int,
        20int,
        61int,
        70int,
        2int,
        8int,
        40int,
        24int,
        67int,
        75int,
        19int,
        1int,
        60int,
        63int,
        91int,
        28int,
        10int,
        23int,
        1int,
        20int,
        1int,
    ]
}

/// Every table entry lies in `[1, 127]`.
pub proof fn lemma_english_freq_bounds(v: int)
    requires
        0 <= v < 26,
    ensures
        1 <= english_freq_milli()[v] <= 127,
{
}

/// English letter frequency of one letter index, in thousandths.
fn english_freq_of(v: usize) -> (r: u64)
    requires
        v < 26,
    ensures
        r == english_freq_milli()[v as int],
        1 <= r <= 127,
{
    let table: [u64; 26] = [
        82, 15, 28, 43, 127, 22, 20, 61, 70, 2, 8, 40, 24, 67, 75, 19, 1, 60, 63, 91, 28, 10, 23,
        1, 20, 1,
    ];
    let r = table[v];
    proof {
        assert(r == english_freq_milli()[v as int]);
    }
    r
}

/// Chi-squared addend of one letter, over the whole stream: the scaled,
/// floored `(observed - expected)^2 / expected`.
pub open spec fn ldi_term(s: Seq<usize>, v: int) -> int {
    let t = count_total(s, 26);
    let f = english_freq_milli()[v];
    let delta = 1000 * cnt(s, v) - f * t;
    100 * delta * delta / (f * t)
}

/// Sum of the chi-squared addends of the letters below `k`.
pub open spec fn ldi_sum(s: Seq<usize>, k: int) -> int
    decreases k,
{
    if k <= 0 {
        0
    } else {
        ldi_sum(s, k - 1) + ldi_term(s, k - 1)
    }
}

/// LDI of an encoded stream in thousandths of the `100`-scaled
/// chi-squared statistic; `0` when the stream holds no letter.
pub open spec fn spec_ldi_milli(s: Seq<usize>) -> int {
    if count_total(s, 26) == 0 {
        0
    } else {
        ldi_sum(s, 26)
    }
}

/// A letter's count never exceeds the total letter count.
proof fn lemma_cnt_le_count_total(s: Seq<usize>, v: int, a: int)
    requires
        0 <= v < a,
    ensures
        cnt(s, v) <= count_total(s, a),
    decreases a,
{
    lemma_count_total_nonneg(s, a - 1);
    if v == a - 1 {
    } else {
        lemma_cnt_le_count_total(s, v, a - 1);
        lemma_cnt_bounds(s, a - 1);
    }
}

proof fn lemma_count_total_nonneg(s: Seq<usize>, a: int)
    ensures
        count_total(s, a) >= 0,
    decreases a,
{
    if a > 0 {
        lemma_count_total_nonneg(s, a - 1);
        lemma_cnt_bounds(s, a - 1);
    }
}

/// LDI of a pre-encoded stream.
pub fn ldi_of(data: &[usize]) -> (r: u64)
    requires
        stream_ok(data@),
        data@.len() <= MAX_STREAM_LEN,
    ensures
        r == spec_ldi_milli(data@),
        r <= 2600000000000000u64,
{
    let ghost s = data@;
    let n = data.len();
    let h = histogram(data, 38);
    // Total number of letters.
    let mut t: u64 = 0;
    let mut v: usize = 0;
    while v < 26
        invariant
            v <= 26,
            h@.len() == 38,
            s == data@,
            n == s.len() <= MAX_STREAM_LEN,
            forall|w: int| 0 <= w < 38 ==> h@[w] == cnt(s, w),
            t == count_total(s, v as int),
            t <= n,
        decreases 26 - v,
    {
        proof {
            lemma_cnt_bounds(s, v as int);
            lemma_count_total_le_len(s, v as int + 1);
        }
        t = t + h[v];
        v = v + 1;
    }
    if t == 0 {
        return 0;
    }
    let mut acc: u64 = 0;
    let mut v: usize = 0;
    while v < 26
        invariant
            v <= 26,
            h@.len() == 38,
            s == data@,
            n == s.len() <= MAX_STREAM_LEN,
            forall|w: int| 0 <= w < 38 ==> h@[w] == cnt(s, w),
            1 <= t == count_total(s, 26) <= n,
            acc == ldi_sum(s, v as int),
            acc <= (v as int) * 100000000 * (t as int),
        decreases 26 - v,
    {
        let o = h[v];
        let f = english_freq_of(v);
        proof {
            lemma_cnt_bounds(s, v as int);
            lemma_cnt_le_count_total(s, v as int, 26);
            assert((f as int) * (t as int) <= 127 * (t as int)) by (nonlinear_arith)
                requires
                    1 <= f as int <= 127,
                    0 <= t as int,
            ;
        }
        let a: u64 = 1000 * o;
        let b: u64 = f * t;
        let diff: u64 = if a >= b {
            a - b
        } else {
            b - a
        };
        proof {
            let delta = 1000 * cnt(s, v as int) - (f as int) * (t as int);
            assert(diff as int <= 1000 * (t as int));
            assert((diff as int) * (diff as int) == delta * delta) by (nonlinear_arith)
                requires
                    diff as int == if delta >= 0 {
                        delta
                    } else {
                        -delta
                    },
            ;
            assert((diff as int) * (diff as int) <= 1000000000000000000int) by (nonlinear_arith)
                requires
                    0 <= diff as int <= 1000 * (t as int),
                    t as int <= 1000000,
            ;
        }
        proof {
            assert((f as int) * (t as int) >= 1) by (nonlinear_arith)
                requires
                    f as int >= 1,
                    t as int >= 1,
            ;
        }
        let sq: u128 = (diff as u128) * (diff as u128);
        let den: u128 = (f as u128) * (t as u128);
        let term: u128 = (100u128 * sq) / den;
        proof {
            // term <= 100000000 * t, since den >= t and diff <= 1000 * t
            let ti = t as int;
            assert(100 * ((diff as int) * (diff as int)) <= ((f as int) * ti) * (100000000 * ti))
                by (nonlinear_arith)
                requires
                    0 <= diff as int <= 1000 * ti,
                    1 <= f as int,
                    0 <= ti,
            ;
            vstd::arithmetic::div_mod::lemma_multiply_divide_le(
                (100 * sq) as int,
                den as int,
                100000000 * ti,
            );
            let delta = 1000 * cnt(s, v as int) - (f as int) * ti;
            assert(100 * delta * delta == 100 * (delta * delta)) by (nonlinear_arith);
            assert(sq as int == delta * delta);
            assert(term as int == ldi_term(s, v as int));
            assert((v as int) * 100000000 * ti + 100000000 * ti == (v as int + 1) * 100000000 * ti)
                by (nonlinear_arith);
            assert((v as int + 1) * 100000000 * ti <= 2600000000000000int) by (nonlinear_arith)
                requires
                    0 <= v as int + 1 <= 26,
                    0 <= ti <= 1000000,
            ;
        }
        acc = acc + (term as u64);
        v = v + 1;
    }
    proof {
        assert(acc as int <= 2600000000000000int) by (nonlinear_arith)
            requires
                acc as int <= 26 * 100000000 * (t as int),
                0 <= t as int <= 1000000,
        ;
    }
    acc
}

/// Letter Distribution Index of a text, over its encoded stream.
pub fn get_ldi(text: &str) -> (r: u64)
    requires
        text@.len() <= MAX_STREAM_LEN,
    ensures
        r == spec_ldi_milli(encode_seq(text@)),
        r <= 2600000000000000u64,
{
    proof {
        lemma_encode_seq_ok(text@);
    }
    let data = convert_string(text);
    ldi_of(data.as_slice())
}

} // verus!
