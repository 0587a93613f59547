//! Long Repeat (LR).
//!
//! The largest length `L >= 2`, up to half the stream length, such that
//! some substring of length `L` occurs at least twice; `0` when no such
//! length exists. Candidate lengths are searched from `n / 2` downward,
//! so the first hit is the answer.

use vstd::prelude::*;

use crate::utils::{convert_string, encode_seq, lemma_encode_seq_ok};

verus! {

/// Some substring of length `len` occurs at two distinct positions.
pub open spec fn has_rep(s: Seq<usize>, len: int) -> bool {
    exists|i: int, j: int|
        0 <= i < j <= s.len() - len && #[trigger] s.subrange(i, i + len) == #[trigger] s.subrange(
            j,
            j + len,
        )
}

/// The largest length in `2 ..= l` with a repeat, or `0` if none.
pub open spec fn best_rep(s: Seq<usize>, l: int) -> int
    decreases l,
{
    if l < 2 {
        0
    } else if has_rep(s, l) {
        l
    } else {
        best_rep(s, l - 1)
    }
}

/// LR of an encoded stream: the length of the longest substring that
/// occurs at least twice, searched over lengths `2 ..= n / 2`; `0` for
/// streams shorter than two symbols.
pub open spec fn spec_lr(s: Seq<usize>) -> int {
    if s.len() < 2 {
        0
    } else {
        best_rep(s, s.len() as int / 2)
    }
}

/// `best_rep` is the largest repeat length: when positive it is a
/// length with a repeat, and no larger length up to `l` has one.
pub proof fn lemma_best_rep_props(s: Seq<usize>, l: int)
    ensures
        best_rep(s, l) == 0 || (2 <= best_rep(s, l) <= l && has_rep(s, best_rep(s, l))),
        forall|k: int| best_rep(s, l) < k <= l && k >= 2 ==> !has_rep(s, k),
    decreases l,
{
    if l >= 2 && !has_rep(s, l) {
        lemma_best_rep_props(s, l - 1);
    }
}

/// Compares the windows of length `len` at `i` and `j`.
fn windows_equal(data: &[usize], i: usize, j: usize, len: usize) -> (r: bool)
    requires
        i + len <= data@.len(),
        j + len <= data@.len(),
        data@.len() <= usize::MAX,
    ensures
        r == (data@.subrange(i as int, i + len) == data@.subrange(j as int, j + len)),
{
    let mut k: usize = 0;
    while k < len
        invariant
            k <= len,
            i + len <= data@.len(),
            j + len <= data@.len(),
            data@.len() <= usize::MAX,
            forall|x: int| 0 <= x < k ==> #[trigger] data@[i + x] == data@[j + x],
        decreases len - k,
    {
        if data[i + k] != data[j + k] {
            proof {
                assert(data@.subrange(i as int, i + len)[k as int] != data@.subrange(
                    j as int,
                    j + len,
                )[k as int]);
            }
            return false;
        }
        k = k + 1;
    }
    proof {
        assert forall|x: int|
            0 <= x < len implies #[trigger] data@.subrange(i as int, i + len)[x] == data@.subrange(
            j as int,
            j + len,
        )[x] by {
            assert(data@[i + x] == data@[j + x]);
        }
        assert(data@.subrange(i as int, i + len) =~= data@.subrange(j as int, j + len));
    }
    true
}

/// Reports whether the stream holds a repeated substring of the given
/// length.
pub fn has_repeat(data: &[usize], length: usize) -> (r: bool)
    requires
        1 <= length <= data@.len(),
    ensures
        r == has_rep(data@, length as int),
{
    let n = data.len();
    let last = n - length;
    let mut i: usize = 0;
    while i < last
        invariant
            i <= last,
            last == n - length,
            1 <= length <= n == data@.len(),
            forall|x: int, y: int|
                0 <= x < y <= last && x < i ==> #[trigger] data@.subrange(x, x + length as int)
                    != #[trigger] data@.subrange(y, y + length as int),
        decreases last - i,
    {
        let mut j: usize = i + 1;
        while j <= last
            invariant
                i < j <= last + 1,
                i < last,
                last == n - length,
                1 <= length <= n == data@.len(),
                forall|x: int, y: int|
                    0 <= x < y <= last && x < i ==> #[trigger] data@.subrange(x, x + length as int)
                        != #[trigger] data@.subrange(y, y + length as int),
                forall|y: int|
                    i < y < j ==> data@.subrange(i as int, i + length as int) != #[trigger] data@.subrange(
                        y,
                        y + length as int,
                    ),
            decreases last + 1 - j,
        {
            if windows_equal(data, i, j, length) {
                return true;
            }
            j = j + 1;
        }
        i = i + 1;
    }
    proof {
        assert(!has_rep(data@, length as int)) by {
            if has_rep(data@, length as int) {
                let (x, y) = choose|x: int, y: int|
                    0 <= x < y <= data@.len() - length && #[trigger] data@.subrange(
                        x,
                        x + length as int,
                    ) == #[trigger] data@.subrange(y, y + length as int);
                assert(x < last);
            }
        }
    }
    false
}

/// LR of a pre-encoded stream.
pub fn lr_of(data: &[usize]) -> (r: u64)
    requires
        data@.len() <= u64::MAX,
    ensures
        r == spec_lr(data@),
        r <= data@.len() / 2,
{
    let n = data.len();
    if n < 2 {
        return 0;
    }
    let half = n / 2;
    let mut length: usize = half;
    while length >= 2
        invariant
            length <= half,
            half == n / 2,
            2 <= n == data@.len(),
            best_rep(data@, half as int) == best_rep(data@, length as int),
        decreases length,
    {
        if has_repeat(data, length) {
            return length as u64;
        }
        length = length - 1;
    }
    0
}

/// Long Repeat of a text, computed over its encoded stream: the length
/// of the longest repeated substring.
pub fn get_lr(text: &str) -> (r: u64)
    requires
        text@.len() <= u64::MAX,
    ensures
        r == spec_lr(encode_seq(text@)),
        r <= encode_seq(text@).len() / 2,
{
    proof {
        lemma_encode_seq_ok(text@);
    }
    let data = convert_string(text);
    lr_of(data.as_slice())
}

} // verus!
