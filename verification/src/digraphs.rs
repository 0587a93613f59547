//! Digraph Index of Coincidence (DIC) and Even Digraph IoC (EDI).
//!
//! Both statistics apply the IoC formula to a stream of digraphs, each
//! digraph encoded as `first * 38 + second` over the alphabet of the
//! `38 * 38` ordered pairs. DIC reads overlapping adjacent pairs
//! (stride one); EDI reads the non-overlapping pairs that start at even
//! positions (stride two).

use vstd::prelude::*;

use crate::counts::{
    lemma_pair_ratio_milli_le, pair_ratio_milli, spec_pair_ratio_milli, MAX_STREAM_LEN,
};
use crate::utils::{convert_string, encode_seq, lemma_encode_seq_ok, stream_ok};

verus! {

/// Stream of overlapping adjacent digraphs, each encoded in `0 .. 1444`.
pub open spec fn digraph_seq(data: Seq<usize>) -> Seq<usize> {
    Seq::new(
        if data.len() == 0 {
            0nat
        } else {
            (data.len() - 1) as nat
        },
        |i: int| (data[i] * 38 + data[i + 1]) as usize,
    )
}

/// Stream of the non-overlapping digraphs starting at even positions,
/// each encoded in `0 .. 1444`.
pub open spec fn even_digraph_seq(data: Seq<usize>) -> Seq<usize> {
    Seq::new((data.len() / 2) as nat, |i: int| (data[2 * i] * 38 + data[2 * i + 1]) as usize)
}

/// Digraph codes of a well-formed stream lie below `1444`.
pub proof fn lemma_digraph_seq_ok(data: Seq<usize>)
    requires
        stream_ok(data),
    ensures
        forall|i: int| 0 <= i < digraph_seq(data).len() ==> digraph_seq(data)[i] < 1444,
        forall|i: int| 0 <= i < even_digraph_seq(data).len() ==> even_digraph_seq(data)[i] < 1444,
{
}

/// DIC of an encoded stream: the scaled IoC of its overlapping digraph
/// stream, in thousandths; `0` for streams with fewer than two digraphs.
pub open spec fn spec_dic_milli(data: Seq<usize>) -> int {
    spec_pair_ratio_milli(digraph_seq(data), 1444)
}

/// EDI of an encoded stream: the scaled IoC of its even-position digraph
/// stream, in thousandths; `0` for streams with fewer than two of them.
pub open spec fn spec_edi_milli(data: Seq<usize>) -> int {
    spec_pair_ratio_milli(even_digraph_seq(data), 1444)
}

/// Builds the overlapping digraph stream of `data`.
fn build_digraphs(data: &[usize]) -> (r: Vec<usize>)
    requires
        stream_ok(data@),
    ensures
        r@ == digraph_seq(data@),
{
    let n = data.len();
    let mut out: Vec<usize> = Vec::new();
    if n == 0 {
        proof {
            assert(out@ =~= digraph_seq(data@));
        }
        return out;
    }
    let mut i: usize = 0;
    while i < n - 1
        invariant
            i <= n - 1,
            1 <= n == data@.len(),
            stream_ok(data@),
            out@ =~= digraph_seq(data@).take(i as int),
        decreases n - 1 - i,
    {
        out.push(data[i] * 38 + data[i + 1]);
        proof {
            assert(out@ =~= digraph_seq(data@).take(i + 1));
        }
        i = i + 1;
    }
    proof {
        assert(out@ =~= digraph_seq(data@));
    }
    out
}

/// Builds the even-position digraph stream of `data`.
fn build_even_digraphs(data: &[usize]) -> (r: Vec<usize>)
    requires
        stream_ok(data@),
    ensures
        r@ == even_digraph_seq(data@),
{
    let n = data.len();
    let half = n / 2;
    let mut out: Vec<usize> = Vec::new();
    let mut i: usize = 0;
    while i < half
        invariant
            i <= half,
            half == n / 2,
            n == data@.len(),
            stream_ok(data@),
            out@ =~= even_digraph_seq(data@).take(i as int),
        decreases half - i,
    {
        out.push(data[2 * i] * 38 + data[2 * i + 1]);
        proof {
            assert(out@ =~= even_digraph_seq(data@).take(i + 1));
        }
        i = i + 1;
    }
    proof {
        assert(out@ =~= even_digraph_seq(data@));
    }
    out
}

/// DIC of a pre-encoded stream.
pub fn dic_of(data: &[usize]) -> (r: u64)
    requires
        stream_ok(data@),
        data@.len() <= MAX_STREAM_LEN,
    ensures
        r == spec_dic_milli(data@),
        r <= 1000000,
{
    let dgs = build_digraphs(data);
    proof {
        lemma_digraph_seq_ok(data@);
    }
    pair_ratio_milli(dgs.as_slice(), 1444)
}

/// EDI of a pre-encoded stream.
pub fn edi_of(data: &[usize]) -> (r: u64)
    requires
        stream_ok(data@),
        data@.len() <= MAX_STREAM_LEN,
    ensures
        r == spec_edi_milli(data@),
        r <= 1000000,
{
    let dgs = build_even_digraphs(data);
    proof {
        lemma_digraph_seq_ok(data@);
    }
    pair_ratio_milli(dgs.as_slice(), 1444)
}

/// Digraph Index of Coincidence of a text, over its encoded stream.
pub fn get_dic(text: &str) -> (r: u64)
    requires
        text@.len() <= MAX_STREAM_LEN,
    ensures
        r == spec_dic_milli(encode_seq(text@)),
        r <= 1000000,
{
    proof {
        lemma_encode_seq_ok(text@);
    }
    let data = convert_string(text);
    dic_of(data.as_slice())
}

/// Even Digraph Index of Coincidence of a text, over its encoded stream.
pub fn get_even_dic(text: &str) -> (r: u64)
    requires
        text@.len() <= MAX_STREAM_LEN,
    ensures
        r == spec_edi_milli(encode_seq(text@)),
        r <= 1000000,
{
    proof {
        lemma_encode_seq_ok(text@);
    }
    let data = convert_string(text);
    edi_of(data.as_slice())
}

} // verus!
