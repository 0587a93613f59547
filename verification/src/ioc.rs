//! Index of Coincidence (IoC).
//!
//! The IoC of a stream is the probability that two positions drawn
//! without replacement hold the same symbol, scaled by `1000`. It is
//! reported, like all ratio-valued statistics of this crate, in
//! thousandths of that conventional unit: the returned integer is
//! `floor(1000000 * sum / (n * (n - 1)))` where `sum` counts ordered
//! pairs of equal symbols.

use vstd::prelude::*;

use crate::counts::{
    lemma_pair_ratio_milli_le, pair_ratio_milli, spec_pair_ratio_milli, MAX_STREAM_LEN,
};
use crate::utils::{convert_string, encode_seq, lemma_encode_seq_ok, stream_ok};

verus! {

/// IoC of an encoded stream, in thousandths of the `1000`-scaled value;
/// `0` for streams shorter than two symbols.
pub open spec fn spec_ioc_milli(data: Seq<usize>) -> int {
    spec_pair_ratio_milli(data, 38)
}

/// A `1000`-scaled IoC in thousandths never exceeds `1000000`.
pub proof fn lemma_ioc_milli_le(data: Seq<usize>)
    requires
        stream_ok(data),
    ensures
        0 <= spec_ioc_milli(data) <= 1000000,
{
    lemma_pair_ratio_milli_le(data, 38);
}

/// IoC of a pre-encoded stream.
pub fn ioc_of(data: &[usize]) -> (r: u64)
    requires
        stream_ok(data@),
        data@.len() <= MAX_STREAM_LEN,
    ensures
        r == spec_ioc_milli(data@),
        r <= 1000000,
{
    pair_ratio_milli(data, 38)
}

/// Index of Coincidence of a text, computed over its encoded stream.
pub fn get_ioc(text: &str) -> (r: u64)
    requires
        text@.len() <= MAX_STREAM_LEN,
    ensures
        r == spec_ioc_milli(encode_seq(text@)),
        r <= 1000000,
{
    proof {
        lemma_encode_seq_ok(text@);
    }
    let data = convert_string(text);
    ioc_of(data.as_slice())
}

} // verus!
