//! Stable ranking of scored candidates.
//!
//! Candidates are ranked as `(score, input position)` pairs ordered
//! lexicographically: ascending score, and among equal scores ascending
//! input position. Since positions are pairwise distinct the order is
//! total and the ranking is unique, which makes classification
//! deterministic and its tie-break stable by construction.

use vstd::prelude::*;

verus! {

/// Lexicographic order on `(score, input position)`.
pub open spec fn lex_le(a: (u64, usize), b: (u64, usize)) -> bool {
    a.0 < b.0 || (a.0 == b.0 && a.1 <= b.1)
}

/// Every adjacent-free pair of positions is ordered.
pub open spec fn sorted_lex(s: Seq<(u64, usize)>) -> bool {
    forall|i: int, j: int| 0 <= i < j < s.len() ==> lex_le(#[trigger] s[i], #[trigger] s[j])
}

/// Inserts one pair into a sorted sequence, after every pair that is
/// not greater.
pub open spec fn insert_lex(s: Seq<(u64, usize)>, x: (u64, usize)) -> Seq<(u64, usize)>
    decreases s.len(),
{
    if s.len() == 0 {
        seq![x]
    } else if lex_le(s.last(), x) {
        s.push(x)
    } else {
        insert_lex(s.drop_last(), x).push(s.last())
    }
}

/// Stable insertion sort by `lex_le`.
pub open spec fn sort_lex(s: Seq<(u64, usize)>) -> Seq<(u64, usize)>
    decreases s.len(),
{
    if s.len() == 0 {
        Seq::empty()
    } else {
        insert_lex(sort_lex(s.drop_last()), s.last())
    }
}

/// The input position `v` occurs in the sequence.
pub open spec fn contains_pos(s: Seq<(u64, usize)>, v: int) -> bool {
    exists|i: int| 0 <= i < s.len() && (#[trigger] s[i]).1 == v
}

/// No input position occurs twice.
pub open spec fn distinct_pos(s: Seq<(u64, usize)>) -> bool {
    forall|i: int, j: int|
        0 <= i < j < s.len() ==> (#[trigger] s[i]).1 != (#[trigger] s[j]).1
}

/// Insertion keeps the length, the contents, sortedness, and the
/// distinctness of input positions.
pub proof fn lemma_insert_lex_props(s: Seq<(u64, usize)>, x: (u64, usize))
    requires
        sorted_lex(s),
        distinct_pos(s),
        !contains_pos(s, x.1 as int),
    ensures
        insert_lex(s, x).len() == s.len() + 1,
        sorted_lex(insert_lex(s, x)),
        distinct_pos(insert_lex(s, x)),
        forall|v: int|
            contains_pos(insert_lex(s, x), v) <==> contains_pos(s, v) || v == x.1 as int,
        forall|i: int|
            0 <= i < insert_lex(s, x).len() ==> insert_lex(s, x)[i] == x || exists|k: int|
                0 <= k < s.len() && insert_lex(s, x)[i] == s[k],
    decreases s.len(),
{
    let r = insert_lex(s, x);
    if s.len() == 0 {
        assert(r =~= seq![x]);
        assert forall|v: int| contains_pos(r, v) implies contains_pos(s, v) || v == x.1 as int by {
            let i = choose|i: int| 0 <= i < r.len() && (#[trigger] r[i]).1 == v;
        }
        assert(contains_pos(r, x.1 as int)) by {
            assert(r[0].1 == x.1 as int);
        }
    } else if lex_le(s.last(), x) {
        assert(r =~= s.push(x));
        assert forall|i: int, j: int| 0 <= i < j < r.len() implies lex_le(
            #[trigger] r[i],
            #[trigger] r[j],
        ) by {
            if j < s.len() {
            } else {
                if i < s.len() - 1 {
                    assert(lex_le(s[i], s[s.len() - 1]));
                }
            }
        }
        assert forall|v: int| contains_pos(r, v) implies contains_pos(s, v) || v == x.1 as int by {
            let i = choose|i: int| 0 <= i < r.len() && (#[trigger] r[i]).1 == v;
            if i < s.len() {
                assert(s[i].1 == v);
            }
        }
        assert(contains_pos(r, x.1 as int)) by {
            assert(r[s.len() as int].1 == x.1 as int);
        }
        assert forall|v: int| contains_pos(s, v) implies contains_pos(r, v) by {
            let i = choose|i: int| 0 <= i < s.len() && (#[trigger] s[i]).1 == v;
            assert(r[i].1 == v);
        }
        assert forall|i: int, j: int| 0 <= i < j < r.len() implies (#[trigger] r[i]).1 != (
        #[trigger] r[j]).1 by {
            if j == s.len() {
                assert(!((s[i]).1 == x.1 as int));
            }
        }
    } else {
        let t = s.drop_last();
        let y = s.last();
        assert(sorted_lex(t)) by {
            assert forall|i: int, j: int| 0 <= i < j < t.len() implies lex_le(
                #[trigger] t[i],
                #[trigger] t[j],
            ) by {
                assert(lex_le(s[i], s[j]));
            }
        }
        assert(distinct_pos(t)) by {
            assert forall|i: int, j: int| 0 <= i < j < t.len() implies (#[trigger] t[i]).1 != (
            #[trigger] t[j]).1 by {
                assert(s[i].1 != s[j].1);
            }
        }
        assert(!contains_pos(t, x.1 as int)) by {
            if contains_pos(t, x.1 as int) {
                let i = choose|i: int| 0 <= i < t.len() && (#[trigger] t[i]).1 == x.1 as int;
                assert(s[i].1 == x.1 as int);
                assert(contains_pos(s, x.1 as int));
            }
        }
        lemma_insert_lex_props(t, x);
        let w = insert_lex(t, x);
        assert(r =~= w.push(y));
        // y is at least every element of w: it tops t, and x < y.
        assert forall|i: int| 0 <= i < w.len() implies lex_le(w[i], y) by {
            if w[i] == x {
            } else {
                let k = choose|k: int| 0 <= k < t.len() && w[i] == t[k];
                assert(lex_le(s[k], s[s.len() - 1]));
            }
        }
        assert forall|i: int, j: int| 0 <= i < j < r.len() implies lex_le(
            #[trigger] r[i],
            #[trigger] r[j],
        ) by {
            if j == r.len() - 1 {
                assert(lex_le(w[i], y));
            }
        }
        assert forall|i: int, j: int| 0 <= i < j < r.len() implies (#[trigger] r[i]).1 != (
        #[trigger] r[j]).1 by {
            if j == r.len() - 1 {
                // y's position is neither x's nor any position of t
                if r[i] == x {
                    assert(!contains_pos(s, x.1 as int));
                    assert(s[s.len() - 1].1 != x.1 as int) by {
                        if s[s.len() - 1].1 == x.1 as int {
                            assert(contains_pos(s, x.1 as int));
                        }
                    }
                } else {
                    let k = choose|k: int| 0 <= k < t.len() && r[i] == t[k];
                    assert(s[k].1 != s[s.len() - 1].1);
                }
            }
        }
        assert forall|v: int| contains_pos(r, v) implies contains_pos(s, v) || v == x.1 as int by {
            let i = choose|i: int| 0 <= i < r.len() && (#[trigger] r[i]).1 == v;
            if i == r.len() - 1 {
                assert(s[s.len() - 1].1 == v);
            } else {
                if contains_pos(t, v) {
                    let k = choose|k: int| 0 <= k < t.len() && (#[trigger] t[k]).1 == v;
                    assert(s[k].1 == v);
                }
            }
        }
        assert forall|v: int| contains_pos(s, v) || v == x.1 as int implies contains_pos(
            r,
            v,
        ) by {
            if v == x.1 as int {
                let i = choose|i: int| 0 <= i < w.len() && (#[trigger] w[i]).1 == v;
                assert(r[i].1 == v);
            } else {
                let i = choose|i: int| 0 <= i < s.len() && (#[trigger] s[i]).1 == v;
                if i == s.len() - 1 {
                    assert(r[r.len() - 1].1 == v);
                } else {
                    assert(t[i].1 == v);
                    assert(contains_pos(t, v));
                    let k = choose|k: int| 0 <= k < w.len() && (#[trigger] w[k]).1 == v;
                    assert(r[k].1 == v);
                }
            }
        }
    }
}

/// The sort of a position-distinct sequence keeps its length and its
/// positions, is sorted, and stays position-distinct.
pub proof fn lemma_sort_lex_props(s: Seq<(u64, usize)>)
    requires
        distinct_pos(s),
    ensures
        sort_lex(s).len() == s.len(),
        sorted_lex(sort_lex(s)),
        distinct_pos(sort_lex(s)),
        forall|v: int| contains_pos(sort_lex(s), v) <==> contains_pos(s, v),
        forall|i: int|
            0 <= i < sort_lex(s).len() ==> exists|k: int|
                0 <= k < s.len() && #[trigger] sort_lex(s)[i] == s[k],
    decreases s.len(),
{
    if s.len() > 0 {
        let t = s.drop_last();
        let y = s.last();
        assert(distinct_pos(t)) by {
            assert forall|i: int, j: int| 0 <= i < j < t.len() implies (#[trigger] t[i]).1 != (
            #[trigger] t[j]).1 by {
                assert(s[i].1 != s[j].1);
            }
        }
        lemma_sort_lex_props(t);
        assert(!contains_pos(sort_lex(t), y.1 as int)) by {
            if contains_pos(sort_lex(t), y.1 as int) {
                assert(contains_pos(t, y.1 as int));
                let i = choose|i: int| 0 <= i < t.len() && (#[trigger] t[i]).1 == y.1 as int;
                assert(s[i].1 == s[s.len() - 1].1);
            }
        }
        lemma_insert_lex_props(sort_lex(t), y);
        assert forall|v: int| contains_pos(s, v) implies contains_pos(sort_lex(s), v) by {
            let i = choose|i: int| 0 <= i < s.len() && (#[trigger] s[i]).1 == v;
            if i == s.len() - 1 {
            } else {
                assert(t[i].1 == v);
                assert(contains_pos(t, v));
            }
        }
        assert forall|v: int| contains_pos(sort_lex(s), v) implies contains_pos(s, v) by {
            if contains_pos(t, v) {
                let i = choose|i: int| 0 <= i < t.len() && (#[trigger] t[i]).1 == v;
                assert(s[i].1 == v);
            } else {
                assert(v == y.1 as int);
                assert(s[s.len() - 1].1 == v);
            }
        }
        assert forall|i: int| 0 <= i < sort_lex(s).len() implies exists|k: int|
            0 <= k < s.len() && #[trigger] sort_lex(s)[i] == s[k] by {
            if sort_lex(s)[i] == y {
                assert(sort_lex(s)[i] == s[s.len() - 1]);
            } else {
                let k1 = choose|k1: int| 0 <= k1 < sort_lex(t).len() && sort_lex(s)[i] == sort_lex(
                    t,
                )[k1];
                let k2 = choose|k2: int| 0 <= k2 < t.len() && sort_lex(t)[k1] == t[k2];
                assert(sort_lex(s)[i] == s[k2]);
            }
        }
    }
}

/// Ties are resolved by input position: equal scores appear in the
/// order in which their candidates were listed.
pub proof fn lemma_sort_lex_stable(s: Seq<(u64, usize)>, i: int, j: int)
    requires
        distinct_pos(s),
        0 <= i < j < sort_lex(s).len(),
        sort_lex(s)[i].0 == sort_lex(s)[j].0,
    ensures
        sort_lex(s)[i].1 < sort_lex(s)[j].1,
{
    lemma_sort_lex_props(s);
    assert(lex_le(sort_lex(s)[i], sort_lex(s)[j]));
}

/// Sorts scored candidates by ascending score, ties by input position.
pub fn sort_pairs(pairs: &Vec<(u64, usize)>) -> (r: Vec<(u64, usize)>)
    requires
        distinct_pos(pairs@),
    ensures
        r@ == sort_lex(pairs@),
{
    let n = pairs.len();
    let mut out: Vec<(u64, usize)> = Vec::new();
    let mut i: usize = 0;
    while i < n
        invariant
            i <= n,
            n == pairs@.len(),
            distinct_pos(pairs@),
            out@ == sort_lex(pairs@.take(i as int)),
        decreases n - i,
    {
        let x = pairs[i];
        proof {
            assert(pairs@.take(i + 1).drop_last() =~= pairs@.take(i as int));
            assert(pairs@.take(i + 1).last() == pairs@[i as int]);
        }
        out = insert_pair(out, x);
        i = i + 1;
    }
    proof {
        assert(pairs@.take(n as int) =~= pairs@);
    }
    out
}

/// Inserts one scored candidate into an already sorted vector.
fn insert_pair(v: Vec<(u64, usize)>, x: (u64, usize)) -> (r: Vec<(u64, usize)>)
    ensures
        r@ == insert_lex(v@, x),
{
    let ghost s = v@;
    let mut v = v;
    let n = v.len();
    v.push(x);
    proof {
        assert(v@ =~= s.take(n as int) + seq![x] + s.skip(n as int));
    }
    let mut j: usize = n;
    while j > 0 && lex_gt_at(&v, j - 1, x)
        invariant
            j <= n,
            n == s.len(),
            v@.len() == n + 1,
            v@ == s.take(j as int) + seq![x] + s.skip(j as int),
            forall|k: int| j <= k < n ==> !lex_le(#[trigger] s[k], x),
        decreases j,
    {
        proof {
            assert(v@[j - 1] == s.take(j as int)[j - 1]);
            assert(v@[j as int] == x);
        }
        let tmp = v[j - 1];
        v.set(j - 1, x);
        v.set(j, tmp);
        proof {
            assert(v@ =~= s.take(j - 1) + seq![x] + s.skip(j - 1));
            assert(v@ == s.take(j - 1) + seq![x] + s.skip(j - 1));
        }
        j = j - 1;
    }
    proof {
        lemma_insert_lex_split(s, x, j as int);
    }
    v
}

/// Whether the pair already at `at` must move past the inserted pair.
fn lex_gt_at(v: &Vec<(u64, usize)>, at: usize, x: (u64, usize)) -> (r: bool)
    requires
        at < v@.len(),
    ensures
        r == !lex_le(v@[at as int], x),
{
    let y = v[at];
    !(y.0 < x.0 || (y.0 == x.0 && y.1 <= x.1))
}

/// When everything from `j` on is greater than `x`, and what is before
/// `j` is not, inserting `x` at `j` is exactly `insert_lex`.
proof fn lemma_insert_lex_split(s: Seq<(u64, usize)>, x: (u64, usize), j: int)
    requires
        0 <= j <= s.len(),
        forall|k: int| j <= k < s.len() ==> !lex_le(#[trigger] s[k], x),
        j > 0 ==> lex_le(s[j - 1], x),
    ensures
        insert_lex(s, x) == s.take(j) + seq![x] + s.skip(j),
    decreases s.len(),
{
    if s.len() == 0 {
        assert(insert_lex(s, x) =~= s.take(j) + seq![x] + s.skip(j));
    } else if j == s.len() {
        assert(lex_le(s.last(), x));
        assert(insert_lex(s, x) =~= s.take(j) + seq![x] + s.skip(j));
    } else {
        assert(!lex_le(s.last(), x));
        let t = s.drop_last();
        assert forall|k: int| j <= k < t.len() implies !lex_le(#[trigger] t[k], x) by {
            assert(t[k] == s[k]);
        }
        if j > 0 {
            assert(t[j - 1] == s[j - 1]);
        }
        lemma_insert_lex_split(t, x, j);
        assert(insert_lex(s, x) =~= insert_lex(t, x).push(s.last()));
        assert(insert_lex(t, x).push(s.last()) =~= s.take(j) + seq![x] + s.skip(j)) by {
            assert(insert_lex(t, x) == t.take(j) + seq![x] + t.skip(j));
            assert(t.take(j) =~= s.take(j));
        }
    }
}

} // verus!
