//! Binary randomness test.
//!
//! The fraction of adjacent positions holding different symbols is
//! compared against the threshold `0.45`: above it the stream is
//! flagged as random-looking (`"Y"`), otherwise not (`"N"`). The
//! comparison `transitions / (n - 1) > 0.45` is decided exactly as
//! `20 * transitions > 9 * (n - 1)`.

use vstd::prelude::*;

use crate::counts::MAX_STREAM_LEN;
use crate::mka::match_count_upto;
use crate::utils::{convert_string, encode_seq, lemma_encode_seq_ok};

verus! {

/// Number of adjacent positions with different symbols: the positions
/// that are not shift-one matches.
pub open spec fn transition_count(s: Seq<usize>) -> int {
    s.len() - 1 - match_count_upto(s, 1, s.len() - 1)
}

/// The stream is random-looking when more than `0.45` of its adjacent
/// positions differ; streams shorter than two symbols are not.
pub open spec fn spec_binary_random(s: Seq<usize>) -> bool {
    s.len() >= 2 && 20 * transition_count(s) > 9 * (s.len() - 1)
}

/// Binary randomness flag of a text, over its encoded stream: `"Y"`
/// exactly when the fraction of differing adjacent positions exceeds
/// `0.45`, else `"N"`.
pub fn get_binary_random(text: &str) -> (r: String)
    requires
        text@.len() <= MAX_STREAM_LEN,
    ensures
        r@ == "Y"@ <==> spec_binary_random(encode_seq(text@)),
        r@ == "Y"@ || r@ == "N"@,
{
    proof {
        reveal_strlit("Y");
        reveal_strlit("N");
        assert("Y"@.len() == 1);
        assert("Y"@[0] == 'Y');
        assert("N"@[0] == 'N');
        assert("Y"@ != "N"@);
        lemma_encode_seq_ok(text@);
    }
    let data = convert_string(text);
    let ghost s = data@;
    let n = data.len();
    if n < 2 {
        return "N".to_owned();
    }
    let total = n - 1;
    let mut transitions: u64 = 0;
    let mut i: usize = 0;
    while i < total
        invariant
            i <= total,
            total == n - 1,
            2 <= n == s.len() <= MAX_STREAM_LEN,
            s == data@,
            transitions == i - match_count_upto(s, 1, i as int),
            transitions <= i,
        decreases total - i,
    {
        proof {
            crate::mka::lemma_match_count_upto_bounds(s, 1, i as int);
            crate::mka::lemma_match_count_upto_bounds(s, 1, i + 1);
        }
        if data[i] != data[i + 1] {
            transitions = transitions + 1;
        }
        i = i + 1;
    }
    if 20 * transitions > 9 * ((total) as u64) {
        "Y".to_owned()
    } else {
        "N".to_owned()
    }
}

} // verus!
