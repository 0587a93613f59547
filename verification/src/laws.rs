//! Properties of the fingerprint suite as a whole.
//!
//! Every statistic is nonnegative and falls back to zero below its
//! minimum stream length; and the frequency-structure statistics (IoC,
//! DIC, EDI, MIC) are invariant under any consistent relabeling of the
//! 38-symbol alphabet, since they depend only on which positions hold
//! equal symbols, never on the symbols' identities.

use vstd::prelude::*;

use crate::counts::{
    cnt, coincidence_sum, count_total, lemma_cnt_push, lemma_coincidence_sum_bounds,
    spec_pair_ratio_milli,
};
use crate::digraphs::{
    digraph_seq, even_digraph_seq, lemma_digraph_seq_ok, spec_dic_milli, spec_edi_milli,
};
use crate::ioc::spec_ioc_milli;
use crate::ldi::{ldi_sum, spec_ldi_milli};
use crate::lr::{best_rep, spec_lr};
use crate::mic::{
    col_len, column, dpair, lemma_col_len_split, long_len, mic_factor, mic_num, spec_mic_max,
    spec_mic_milli, spec_mic_p_milli,
};
use crate::mka::{spec_kappa_max, spec_mka_milli};
use crate::rod::{lemma_rod_sums_bounds, spec_rod_milli};
use crate::sdd::{
    diff_seq, lemma_sqrt_floor_props, lemma_variance_nonneg, spec_sdd_milli, sum_seq, sum_sq,
};
use crate::utils::stream_ok;

verus! {

/// No statistic of the suite is ever negative.
pub proof fn lemma_stats_nonnegative(s: Seq<usize>)
    requires
        stream_ok(s),
    ensures
        0 <= spec_ioc_milli(s),
        0 <= spec_mic_milli(s),
        0 <= spec_mka_milli(s),
        0 <= spec_dic_milli(s),
        0 <= spec_edi_milli(s),
        0 <= spec_lr(s),
        0 <= spec_rod_milli(s),
        0 <= spec_ldi_milli(s),
        0 <= spec_sdd_milli(s),
{
    lemma_pair_ratio_nonneg(s, 38);
    lemma_digraph_seq_ok(s);
    lemma_pair_ratio_nonneg(digraph_seq(s), 1444);
    lemma_pair_ratio_nonneg(even_digraph_seq(s), 1444);
    if s.len() >= 2 {
        let max_period = if s.len() / 2 < 10 {
            s.len() as int / 2
        } else {
            10int
        };
        lemma_mic_max_nonneg(s, max_period);
        let max_shift = if s.len() / 2 < 10 {
            s.len() as int / 2
        } else {
            10int
        };
        lemma_kappa_max_nonneg(s, max_shift);
        lemma_rod_sums_bounds(s, s.len() as int);
        if rod_count(s) > 0 {
            vstd::arithmetic::div_mod::lemma_div_pos_is_pos(1000 * rod_total(s), rod_count(s));
        }
        lemma_sdd_nonneg(s);
    }
    lemma_lr_nonneg(s, s.len() as int / 2);
    crate::counts::lemma_count_total_le_len(s, 26);
    if count_total(s, 26) != 0 {
        lemma_ldi_sum_nonneg(s, 26);
    }
}

spec fn rod_total(s: Seq<usize>) -> int {
    crate::rod::rod_total_upto(s, s.len() as int)
}

spec fn rod_count(s: Seq<usize>) -> int {
    crate::rod::rod_count_upto(s, s.len() as int)
}

proof fn lemma_pair_ratio_nonneg(data: Seq<usize>, a: int)
    ensures
        0 <= spec_pair_ratio_milli(data, a),
{
    if data.len() >= 2 {
        let n = data.len() as int;
        lemma_coincidence_sum_bounds(data, a);
        assert(n * (n - 1) >= 2) by (nonlinear_arith)
            requires
                n >= 2,
        ;
        vstd::arithmetic::div_mod::lemma_div_pos_is_pos(
            1000000 * coincidence_sum(data, a),
            n * (n - 1),
        );
    }
}

proof fn lemma_kappa_max_nonneg(s: Seq<usize>, k: int)
    ensures
        0 <= spec_kappa_max(s, k),
    decreases k,
{
    if k > 0 {
        lemma_kappa_max_nonneg(s, k - 1);
    }
}

proof fn lemma_mic_p_nonneg(s: Seq<usize>, p: int)
    requires
        1 <= p,
        2 * p <= s.len(),
    ensures
        0 <= spec_mic_p_milli(s, p),
{
    let n = s.len() as int;
    lemma_col_len_split(n, p, 0);
    lemma_mic_num_nonneg(s, p, p);
    let dl = dpair(long_len(n, p));
    let ds = dpair(n / p);
    assert(dl >= 2 && ds >= 2) by (nonlinear_arith)
        requires
            n / p >= 2,
            long_len(n, p) >= 2,
            dl == long_len(n, p) * (long_len(n, p) - 1),
            ds == (n / p) * ((n / p) - 1),
    ;
    assert(p * dl * ds >= 1) by (nonlinear_arith)
        requires
            p >= 1,
            dl >= 2,
            ds >= 2,
    ;
    vstd::arithmetic::div_mod::lemma_div_pos_is_pos(1000000 * mic_num(s, p, p), p * dl * ds);
}

proof fn lemma_mic_num_nonneg(s: Seq<usize>, p: int, k: int)
    requires
        1 <= p,
        2 * p <= s.len(),
    ensures
        0 <= mic_num(s, p, k),
    decreases k,
{
    if k > 0 {
        lemma_mic_num_nonneg(s, p, k - 1);
        crate::counts::lemma_coincidence_sum_bounds(column(s, p, k - 1), 38);
        let f = mic_factor(s.len() as int, p, k - 1);
        lemma_col_len_split(s.len() as int, p, 0);
        assert(f >= 0) by (nonlinear_arith)
            requires
                s.len() as int / p >= 2,
                long_len(s.len() as int, p) >= 2,
                f == dpair(s.len() as int / p) || f == dpair(long_len(s.len() as int, p)),
                dpair(s.len() as int / p) == (s.len() as int / p) * ((s.len() as int / p) - 1),
                dpair(long_len(s.len() as int, p)) == long_len(s.len() as int, p) * (long_len(
                    s.len() as int,
                    p,
                ) - 1),
        ;
        let cs = coincidence_sum(column(s, p, k - 1), 38);
        assert(cs * f >= 0) by (nonlinear_arith)
            requires
                cs >= 0,
                f >= 0,
        ;
    }
}

proof fn lemma_mic_max_nonneg(s: Seq<usize>, k: int)
    requires
        2 * k <= s.len(),
    ensures
        0 <= spec_mic_max(s, k),
    decreases k,
{
    if k > 0 {
        lemma_mic_max_nonneg(s, k - 1);
        lemma_mic_p_nonneg(s, k);
    }
}

proof fn lemma_lr_nonneg(s: Seq<usize>, l: int)
    ensures
        0 <= best_rep(s, l),
    decreases l,
{
    if l >= 2 && !crate::lr::has_rep(s, l) {
        lemma_lr_nonneg(s, l - 1);
    }
}

proof fn lemma_ldi_sum_nonneg(s: Seq<usize>, k: int)
    requires
        count_total(s, 26) >= 1,
        k <= 26,
    ensures
        0 <= ldi_sum(s, k),
    decreases k,
{
    if k > 0 {
        lemma_ldi_sum_nonneg(s, k - 1);
        let t = count_total(s, 26);
        let f = crate::ldi::english_freq_milli()[k - 1];
        if 0 <= k - 1 < 26 {
            crate::ldi::lemma_english_freq_bounds(k - 1);
            let delta = 1000 * cnt(s, k - 1) - f * t;
            assert(delta * delta >= 0) by (nonlinear_arith);
            assert(100 * delta * delta >= 0) by (nonlinear_arith);
            assert(f * t >= 1) by (nonlinear_arith)
                requires
                    f >= 1,
                    t >= 1,
            ;
            vstd::arithmetic::div_mod::lemma_div_pos_is_pos(100 * delta * delta, f * t);
        }
    }
}

proof fn lemma_sdd_nonneg(s: Seq<usize>)
    requires
        s.len() >= 2,
    ensures
        0 <= spec_sdd_milli(s),
{
    let d = diff_seq(s);
    let m = d.len() as int;
    lemma_variance_nonneg(d);
    let num = m * sum_sq(d) - sum_seq(d) * sum_seq(d);
    assert(m * m >= 1) by (nonlinear_arith)
        requires
            m >= 1,
    ;
    vstd::arithmetic::div_mod::lemma_div_pos_is_pos(100000000 * num, m * m);
    lemma_sqrt_floor_props(100000000 * num / (m * m));
}

/// Below its minimum stream length every statistic falls back to zero:
/// below two symbols all of them, EDI already below four symbols (two
/// digraphs), and LDI exactly for the empty stream.
pub proof fn lemma_short_stream_defaults(s: Seq<usize>)
    requires
        stream_ok(s),
    ensures
        s.len() < 2 ==> spec_ioc_milli(s) == 0 && spec_mic_milli(s) == 0 && spec_mka_milli(s) == 0
            && spec_dic_milli(s) == 0 && spec_lr(s) == 0 && spec_rod_milli(s) == 0
            && spec_sdd_milli(s) == 0,
        s.len() < 4 ==> spec_edi_milli(s) == 0,
        s.len() == 0 ==> spec_ldi_milli(s) == 0,
{
    if s.len() < 2 {
        assert(digraph_seq(s).len() < 2);
    }
    if s.len() < 4 {
        assert(even_digraph_seq(s).len() < 2);
    }
    if s.len() == 0 {
        lemma_count_total_zero(s, 26);
    }
}

proof fn lemma_count_total_zero(s: Seq<usize>, a: int)
    requires
        s.len() == 0,
    ensures
        count_total(s, a) == 0,
    decreases a,
{
    if a > 0 {
        lemma_count_total_zero(s, a - 1);
    }
}

/// Ordered pairs of equal symbols, counted by position: each position
/// pairs both ways with every earlier occurrence of its symbol.
pub open spec fn dup_pairs(s: Seq<usize>) -> int
    decreases s.len(),
{
    if s.len() == 0 {
        0
    } else {
        dup_pairs(s.drop_last()) + 2 * cnt(s.drop_last(), s.last() as int)
    }
}

proof fn lemma_coincidence_sum_empty(s: Seq<usize>, a: int)
    requires
        s.len() == 0,
    ensures
        coincidence_sum(s, a) == 0,
    decreases a,
{
    if a > 0 {
        lemma_coincidence_sum_empty(s, a - 1);
    }
}

proof fn lemma_coincidence_sum_push(t: Seq<usize>, x: usize, a: int)
    ensures
        coincidence_sum(t.push(x), a) == coincidence_sum(t, a) + if (x as int) < a {
            2 * cnt(t, x as int)
        } else {
            0int
        },
    decreases a,
{
    if a > 0 {
        lemma_coincidence_sum_push(t, x, a - 1);
        lemma_cnt_push(t, x, a - 1);
        let c = cnt(t, a - 1);
        if x == a - 1 {
            assert((c + 1) * ((c + 1) - 1) == c * (c - 1) + 2 * c) by (nonlinear_arith);
        }
    }
}

/// The bucket-wise coincidence sum equals the position-wise count of
/// ordered equal pairs: the statistic depends only on which positions
/// agree.
pub proof fn lemma_coincidence_sum_is_dup_pairs(s: Seq<usize>, a: int)
    requires
        forall|i: int| 0 <= i < s.len() ==> s[i] < a,
    ensures
        coincidence_sum(s, a) == dup_pairs(s),
    decreases s.len(),
{
    if s.len() == 0 {
        lemma_coincidence_sum_empty(s, a);
    } else {
        let t = s.drop_last();
        assert(forall|i: int| 0 <= i < t.len() ==> t[i] == s[i] && s[i] < a);
        lemma_coincidence_sum_is_dup_pairs(t, a);
        lemma_coincidence_sum_push(t, s.last(), a);
        assert(t.push(s.last()) =~= s);
    }
}

/// A relabeling keeps each symbol's count: the count of `perm(x)` in
/// the relabeled stream is the count of `x` in the original.
proof fn lemma_cnt_map(
    s: Seq<usize>,
    t: Seq<usize>,
    perm: spec_fn(usize) -> usize,
    a: int,
    x: usize,
)
    requires
        s.len() == t.len(),
        forall|i: int| 0 <= i < s.len() ==> t[i] == perm(#[trigger] s[i]),
        forall|i: int| 0 <= i < s.len() ==> s[i] < a,
        (x as int) < a,
        forall|v: usize, w: usize|
            #![trigger perm(v), perm(w)]
            (v as int) < a && (w as int) < a ==> (perm(v) == perm(w) <==> v == w),
    ensures
        cnt(t, perm(x) as int) == cnt(s, x as int),
    decreases s.len(),
{
    if s.len() > 0 {
        let st = s.drop_last();
        let tt = t.drop_last();
        assert(forall|i: int| 0 <= i < st.len() ==> tt[i] == t[i] && t[i] == perm(#[trigger] s[i]));
        assert(forall|i: int| 0 <= i < st.len() ==> #[trigger] st[i] == s[i]);
        lemma_cnt_map(st, tt, perm, a, x);
        assert(t.last() == perm(s.last()));
        assert(perm(s.last()) == perm(x) <==> s.last() == x);
    }
}

/// A relabeling keeps the position-wise count of equal pairs.
proof fn lemma_dup_pairs_map(s: Seq<usize>, t: Seq<usize>, perm: spec_fn(usize) -> usize, a: int)
    requires
        s.len() == t.len(),
        forall|i: int| 0 <= i < s.len() ==> t[i] == perm(#[trigger] s[i]),
        forall|i: int| 0 <= i < s.len() ==> s[i] < a,
        forall|v: usize, w: usize|
            #![trigger perm(v), perm(w)]
            (v as int) < a && (w as int) < a ==> (perm(v) == perm(w) <==> v == w),
    ensures
        dup_pairs(t) == dup_pairs(s),
    decreases s.len(),
{
    if s.len() > 0 {
        let st = s.drop_last();
        let tt = t.drop_last();
        assert(forall|i: int| 0 <= i < st.len() ==> tt[i] == t[i] && t[i] == perm(#[trigger] s[i]));
        assert(forall|i: int| 0 <= i < st.len() ==> #[trigger] st[i] == s[i]);
        lemma_dup_pairs_map(st, tt, perm, a);
        lemma_cnt_map(st, tt, perm, a, s.last());
        assert(t.last() == perm(s.last()));
    }
}

/// A stream relabeled by an alphabet permutation: same length, each
/// symbol replaced consistently, and the permutation maps the alphabet
/// injectively into itself.
pub open spec fn relabeled(s: Seq<usize>, t: Seq<usize>, perm: spec_fn(usize) -> usize) -> bool {
    &&& stream_ok(s)
    &&& t.len() == s.len()
    &&& forall|i: int| 0 <= i < s.len() ==> t[i] == perm(#[trigger] s[i])
    &&& forall|v: usize| v < 38 ==> #[trigger] perm(v) < 38
    &&& forall|v: usize, w: usize|
        #![trigger perm(v), perm(w)]
        v < 38 && w < 38 ==> (perm(v) == perm(w) <==> v == w)
}

/// A relabeled stream is itself a well-formed stream.
proof fn lemma_relabeled_ok(s: Seq<usize>, t: Seq<usize>, perm: spec_fn(usize) -> usize)
    requires
        relabeled(s, t, perm),
    ensures
        stream_ok(t),
{
    assert forall|i: int| 0 <= i < t.len() implies t[i] < 38 by {
        assert(t[i] == perm(s[i]));
        assert(s[i] < 38);
        assert(perm(s[i]) < 38);
    }
}

/// IoC is invariant under any permutation of the alphabet labels.
pub proof fn lemma_ioc_permutation_invariant(
    s: Seq<usize>,
    t: Seq<usize>,
    perm: spec_fn(usize) -> usize,
)
    requires
        relabeled(s, t, perm),
    ensures
        spec_ioc_milli(t) == spec_ioc_milli(s),
{
    lemma_relabeled_ok(s, t, perm);
    lemma_coincidence_sum_is_dup_pairs(s, 38);
    lemma_coincidence_sum_is_dup_pairs(t, 38);
    lemma_dup_pairs_map(s, t, perm, 38);
}

/// The relabeling of digraph codes that an alphabet permutation
/// induces.
pub open spec fn digraph_perm(perm: spec_fn(usize) -> usize, d: usize) -> usize {
    (perm(((d as int) / 38) as usize) * 38 + perm(((d as int) % 38) as usize)) as usize
}

proof fn lemma_digraph_code(a: usize, b: usize)
    requires
        a < 38,
        b < 38,
    ensures
        ((a * 38 + b) as int) / 38 == a,
        ((a * 38 + b) as int) % 38 == b,
        a * 38 + b < 1444,
{
    vstd::arithmetic::div_mod::lemma_fundamental_div_mod_converse_div(
        (a as int) * 38 + b,
        38,
        a as int,
        b as int,
    );
    vstd::arithmetic::div_mod::lemma_fundamental_div_mod_converse_mod(
        (a as int) * 38 + b,
        38,
        a as int,
        b as int,
    );
}

/// The induced digraph relabeling is injective on the digraph alphabet.
proof fn lemma_digraph_perm_ok(perm: spec_fn(usize) -> usize)
    requires
        forall|v: usize| v < 38 ==> #[trigger] perm(v) < 38,
        forall|v: usize, w: usize|
            #![trigger perm(v), perm(w)]
            v < 38 && w < 38 ==> (perm(v) == perm(w) <==> v == w),
    ensures
        forall|d: usize| d < 1444 ==> #[trigger] digraph_perm(perm, d) < 1444,
        forall|d: usize, e: usize|
            #![trigger digraph_perm(perm, d), digraph_perm(perm, e)]
            d < 1444 && e < 1444 ==> (digraph_perm(perm, d) == digraph_perm(perm, e) <==> d == e),
{
    assert forall|d: usize| d < 1444 implies #[trigger] digraph_perm(perm, d) < 1444 by {
        lemma_digraph_halves(d);
        let a = ((d as int) / 38) as usize;
        let b = ((d as int) % 38) as usize;
        lemma_digraph_code(perm(a), perm(b));
    }
    assert forall|d: usize, e: usize|
        #![trigger digraph_perm(perm, d), digraph_perm(perm, e)]
        d < 1444 && e < 1444 implies (digraph_perm(perm, d) == digraph_perm(perm, e) <==> d
        == e) by {
        lemma_digraph_halves(d);
        lemma_digraph_halves(e);
        let da = ((d as int) / 38) as usize;
        let db = ((d as int) % 38) as usize;
        let ea = ((e as int) / 38) as usize;
        let eb = ((e as int) % 38) as usize;
        lemma_digraph_code(perm(da), perm(db));
        lemma_digraph_code(perm(ea), perm(eb));
        if digraph_perm(perm, d) == digraph_perm(perm, e) {
            assert(((perm(da) * 38 + perm(db)) as int) / 38 == perm(da));
            assert(((perm(ea) * 38 + perm(eb)) as int) / 38 == perm(ea));
            assert(perm(da) == perm(ea) && perm(db) == perm(eb));
            assert(da == ea && db == eb);
            lemma_digraph_code(da, db);
            lemma_digraph_code(ea, eb);
            assert(d == da * 38 + db && e == ea * 38 + eb) by {
                vstd::arithmetic::div_mod::lemma_fundamental_div_mod(d as int, 38);
                vstd::arithmetic::div_mod::lemma_fundamental_div_mod(e as int, 38);
            }
        }
    }
}

proof fn lemma_digraph_halves(d: usize)
    requires
        d < 1444,
    ensures
        ((d as int) / 38) < 38,
        0 <= ((d as int) / 38),
        0 <= ((d as int) % 38) < 38,
{
    vstd::arithmetic::div_mod::lemma_div_pos_is_pos(d as int, 38);
    vstd::arithmetic::div_mod::lemma_mod_division_less_than_divisor(d as int, 38);
    assert((d as int) / 38 < 38) by {
        vstd::arithmetic::div_mod::lemma_multiply_divide_lt(d as int, 38, 38);
    }
}

/// DIC is invariant under any permutation of the alphabet labels.
pub proof fn lemma_dic_permutation_invariant(
    s: Seq<usize>,
    t: Seq<usize>,
    perm: spec_fn(usize) -> usize,
)
    requires
        relabeled(s, t, perm),
    ensures
        spec_dic_milli(t) == spec_dic_milli(s),
{
    let ds = digraph_seq(s);
    let dt = digraph_seq(t);
    lemma_relabeled_ok(s, t, perm);
    lemma_digraph_seq_ok(s);
    lemma_digraph_seq_ok(t);
    let p2 = |d: usize| digraph_perm(perm, d);
    lemma_digraph_perm_ok(perm);
    assert forall|i: int| 0 <= i < ds.len() implies dt[i] == p2(#[trigger] ds[i]) by {
        lemma_digraph_code(s[i], s[i + 1]);
        lemma_digraph_code(perm(s[i]), perm(s[i + 1]));
    }
    lemma_coincidence_sum_is_dup_pairs(ds, 1444);
    lemma_coincidence_sum_is_dup_pairs(dt, 1444);
    lemma_dup_pairs_map(ds, dt, p2, 1444);
}

/// EDI is invariant under any permutation of the alphabet labels.
pub proof fn lemma_edi_permutation_invariant(
    s: Seq<usize>,
    t: Seq<usize>,
    perm: spec_fn(usize) -> usize,
)
    requires
        relabeled(s, t, perm),
    ensures
        spec_edi_milli(t) == spec_edi_milli(s),
{
    let es = even_digraph_seq(s);
    let et = even_digraph_seq(t);
    lemma_relabeled_ok(s, t, perm);
    lemma_digraph_seq_ok(s);
    lemma_digraph_seq_ok(t);
    let p2 = |d: usize| digraph_perm(perm, d);
    lemma_digraph_perm_ok(perm);
    assert forall|i: int| 0 <= i < es.len() implies et[i] == p2(#[trigger] es[i]) by {
        lemma_digraph_code(s[2 * i], s[2 * i + 1]);
        lemma_digraph_code(perm(s[2 * i]), perm(s[2 * i + 1]));
    }
    lemma_coincidence_sum_is_dup_pairs(es, 1444);
    lemma_coincidence_sum_is_dup_pairs(et, 1444);
    lemma_dup_pairs_map(es, et, p2, 1444);
}

/// Every position of a column under a period within range indexes the
/// stream, so the relabeling carries over column by column.
proof fn lemma_column_map(s: Seq<usize>, t: Seq<usize>, perm: spec_fn(usize) -> usize, p: int, i: int)
    requires
        relabeled(s, t, perm),
        1 <= p,
        2 * p <= s.len(),
        0 <= i < p,
    ensures
        column(t, p, i).len() == column(s, p, i).len(),
        forall|j: int|
            0 <= j < column(s, p, i).len() ==> #[trigger] column(t, p, i)[j] == perm(
                column(s, p, i)[j],
            ),
        forall|j: int| 0 <= j < column(s, p, i).len() ==> #[trigger] column(s, p, i)[j] < 38,
{
    let n = s.len() as int;
    lemma_col_len_split(n, p, i);
    assert forall|j: int| 0 <= j < column(s, p, i).len() implies i + #[trigger] (j * p) < n by {
        let cl = col_len(n, p, i);
        vstd::arithmetic::div_mod::lemma_fundamental_div_mod(n - i + p - 1, p);
        assert(j * p <= (cl - 1) * p) by (nonlinear_arith)
            requires
                j <= cl - 1,
                p >= 1,
        ;
        assert((cl - 1) * p <= n - i - 1) by (nonlinear_arith)
            requires
                n - i + p - 1 == p * cl + ((n - i + p - 1) % p),
                (n - i + p - 1) % p >= 0,
        ;
    }
}

/// MIC is invariant under any permutation of the alphabet labels.
pub proof fn lemma_mic_permutation_invariant(
    s: Seq<usize>,
    t: Seq<usize>,
    perm: spec_fn(usize) -> usize,
)
    requires
        relabeled(s, t, perm),
    ensures
        spec_mic_milli(t) == spec_mic_milli(s),
{
    if s.len() >= 2 {
        let max_period = if s.len() / 2 < 10 {
            s.len() as int / 2
        } else {
            10int
        };
        lemma_mic_max_map(s, t, perm, max_period);
    }
}

proof fn lemma_mic_max_map(s: Seq<usize>, t: Seq<usize>, perm: spec_fn(usize) -> usize, k: int)
    requires
        relabeled(s, t, perm),
        2 * k <= s.len(),
    ensures
        spec_mic_max(t, k) == spec_mic_max(s, k),
    decreases k,
{
    if k > 0 {
        lemma_mic_max_map(s, t, perm, k - 1);
        lemma_mic_num_map(s, t, perm, k, k);
    }
}

proof fn lemma_mic_num_map(s: Seq<usize>, t: Seq<usize>, perm: spec_fn(usize) -> usize, p: int, k: int)
    requires
        relabeled(s, t, perm),
        1 <= p,
        2 * p <= s.len(),
        k <= p,
    ensures
        mic_num(t, p, k) == mic_num(s, p, k),
    decreases k,
{
    if k > 0 {
        lemma_mic_num_map(s, t, perm, p, k - 1);
        lemma_column_map(s, t, perm, p, k - 1);
        lemma_coincidence_sum_is_dup_pairs(column(s, p, k - 1), 38);
        lemma_coincidence_sum_is_dup_pairs(column(t, p, k - 1), 38);
        lemma_dup_pairs_map(column(s, p, k - 1), column(t, p, k - 1), perm, 38);
    }
}

} // verus!
