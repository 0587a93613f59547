//! The combined fingerprint of a ciphertext.
//!
//! A `FingerprintVector` holds the nine classifying statistics of one
//! encoded stream, each in thousandths of its conventional unit (the
//! raw repeat length LR is scaled by `1000` like the rest). It is what
//! the profile-distance classifier consumes.

use vstd::prelude::*;

use crate::binary_random::{get_binary_random, spec_binary_random};
use crate::counts::MAX_STREAM_LEN;
use crate::digraphs::{dic_of, edi_of, spec_dic_milli, spec_edi_milli};
use crate::ioc::{ioc_of, spec_ioc_milli};
use crate::ldi::{ldi_of, spec_ldi_milli};
use crate::lr::{lr_of, spec_lr};
use crate::mic::{mic_of, spec_mic_milli};
use crate::mka::{kappa_of, spec_mka_milli};
use crate::rod::{rod_of, spec_rod_milli};
use crate::sdd::{sdd_of, spec_sdd_milli};
use crate::utils::{convert_string, encode_seq, lemma_encode_seq_ok, stream_ok};

verus! {

/// No metric of a fingerprint or of a reference profile exceeds this
/// bound (in thousandths), which keeps every distance computation
/// inside `u64`.
pub const MAX_METRIC_MILLI: u64 = 3000000000000000;

/// The nine classifying statistics of one ciphertext, each in
/// thousandths of its conventional unit.
#[verifier::ext_equal]
pub struct FingerprintVector {
    /// Index of Coincidence.
    pub ioc: u64,
    /// Maximum periodic Index of Coincidence.
    pub mic: u64,
    /// Maximum Kappa.
    pub mka: u64,
    /// Digraph Index of Coincidence.
    pub dic: u64,
    /// Even Digraph Index of Coincidence.
    pub edi: u64,
    /// Long Repeat length, scaled by `1000`.
    pub lr: u64,
    /// Repeat Order Distance.
    pub rod: u64,
    /// Letter Distribution Index.
    pub ldi: u64,
    /// Standard Deviation of Differences.
    pub sdd: u64,
}

impl FingerprintVector {
    /// Every metric lies below the shared bound.
    pub open spec fn wf(&self) -> bool {
        self.ioc <= MAX_METRIC_MILLI && self.mic <= MAX_METRIC_MILLI && self.mka
            <= MAX_METRIC_MILLI && self.dic <= MAX_METRIC_MILLI && self.edi <= MAX_METRIC_MILLI
            && self.lr <= MAX_METRIC_MILLI && self.rod <= MAX_METRIC_MILLI && self.ldi
            <= MAX_METRIC_MILLI && self.sdd <= MAX_METRIC_MILLI
    }

    /// The fingerprint agrees with the nine statistics of the stream.
    pub open spec fn matches_stream(&self, data: Seq<usize>) -> bool {
        self.ioc == spec_ioc_milli(data) && self.mic == spec_mic_milli(data) && self.mka
            == spec_mka_milli(data) && self.dic == spec_dic_milli(data) && self.edi
            == spec_edi_milli(data) && self.lr == 1000 * spec_lr(data) && self.rod
            == spec_rod_milli(data) && self.ldi == spec_ldi_milli(data) && self.sdd
            == spec_sdd_milli(data)
    }
}

/// The fingerprint of a stream as one spec value: the nine statistics
/// side by side.
pub open spec fn spec_fingerprint_of(data: Seq<usize>) -> FingerprintVector {
    FingerprintVector {
        ioc: spec_ioc_milli(data) as u64,
        mic: spec_mic_milli(data) as u64,
        mka: spec_mka_milli(data) as u64,
        dic: spec_dic_milli(data) as u64,
        edi: spec_edi_milli(data) as u64,
        lr: (1000 * spec_lr(data)) as u64,
        rod: spec_rod_milli(data) as u64,
        ldi: spec_ldi_milli(data) as u64,
        sdd: spec_sdd_milli(data) as u64,
    }
}

/// A fingerprint that matches the stream's statistics is exactly the
/// spec fingerprint of the stream.
pub proof fn lemma_fingerprint_unique(r: FingerprintVector, data: Seq<usize>)
    requires
        r.matches_stream(data),
    ensures
        r == spec_fingerprint_of(data),
{
    assert(r =~= spec_fingerprint_of(data));
}

/// Computes all nine classifying statistics of a pre-encoded stream.
pub fn fingerprint_of(data: &[usize]) -> (r: FingerprintVector)
    requires
        stream_ok(data@),
        data@.len() <= MAX_STREAM_LEN,
    ensures
        r.matches_stream(data@),
        r == spec_fingerprint_of(data@),
        r.wf(),
{
    let r = FingerprintVector {
        ioc: ioc_of(data),
        mic: mic_of(data),
        mka: kappa_of(data),
        dic: dic_of(data),
        edi: edi_of(data),
        lr: 1000 * lr_of(data),
        rod: rod_of(data),
        ldi: ldi_of(data),
        sdd: sdd_of(data),
    };
    proof {
        lemma_fingerprint_unique(r, data@);
    }
    r
}

/// Computes the fingerprint of a text, over its encoded stream.
pub fn compute_fingerprint(text: &str) -> (r: FingerprintVector)
    requires
        text@.len() <= MAX_STREAM_LEN,
    ensures
        r.matches_stream(encode_seq(text@)),
        r == spec_fingerprint_of(encode_seq(text@)),
        r.wf(),
{
    proof {
        lemma_encode_seq_ok(text@);
    }
    let data = convert_string(text);
    fingerprint_of(data.as_slice())
}

/// Runs the whole suite and labels each statistic with its literal
/// test name; the auxiliary binary-randomness flag is exposed as `1`
/// for `"Y"` and `0` for `"N"`. All values are in thousandths of their
/// conventional unit, except `LR`, which is scaled like the rest.
pub fn get_all_stats(text: &str) -> (r: Vec<(String, u64)>)
    requires
        text@.len() <= MAX_STREAM_LEN,
    ensures
        ({
            let data = encode_seq(text@);
            let fp = spec_fingerprint_of(data);
            &&& r@.len() == 10
            &&& (r@[0].0@ == "IoC"@ && r@[0].1 == fp.ioc)
            &&& (r@[1].0@ == "MIC"@ && r@[1].1 == fp.mic)
            &&& (r@[2].0@ == "MKA"@ && r@[2].1 == fp.mka)
            &&& (r@[3].0@ == "DIC"@ && r@[3].1 == fp.dic)
            &&& (r@[4].0@ == "EDI"@ && r@[4].1 == fp.edi)
            &&& (r@[5].0@ == "LR"@ && r@[5].1 == fp.lr)
            &&& (r@[6].0@ == "ROD"@ && r@[6].1 == fp.rod)
            &&& (r@[7].0@ == "LDI"@ && r@[7].1 == fp.ldi)
            &&& (r@[8].0@ == "SDD"@ && r@[8].1 == fp.sdd)
            &&& (r@[9].0@ == "BinaryRandom"@ && (r@[9].1 == 1 <==> spec_binary_random(data)))
        }),
{
    let (fp, flag) = fingerprint_with_random(text);
    let random_value: u64 = if eq_y(&flag) {
        1
    } else {
        0
    };
    let mut out: Vec<(String, u64)> = Vec::new();
    out.push(("IoC".to_owned(), fp.ioc));
    out.push(("MIC".to_owned(), fp.mic));
    out.push(("MKA".to_owned(), fp.mka));
    out.push(("DIC".to_owned(), fp.dic));
    out.push(("EDI".to_owned(), fp.edi));
    out.push(("LR".to_owned(), fp.lr));
    out.push(("ROD".to_owned(), fp.rod));
    out.push(("LDI".to_owned(), fp.ldi));
    out.push(("SDD".to_owned(), fp.sdd));
    out.push(("BinaryRandom".to_owned(), random_value));
    out
}

/// Whether the flag string is `"Y"`.
fn eq_y(flag: &String) -> (r: bool)
    ensures
        r == (flag@ == "Y"@),
{
    crate::utils::str_eq(flag.as_str(), "Y")
}

/// The auxiliary binary-randomness flag alongside the classifying
/// fingerprint: `"Y"` or `"N"` as the eleventh statistic of the suite.
pub fn fingerprint_with_random(text: &str) -> (r: (FingerprintVector, String))
    requires
        text@.len() <= MAX_STREAM_LEN,
    ensures
        r.0.matches_stream(encode_seq(text@)),
        r.0.wf(),
        r.1@ == "Y"@ <==> spec_binary_random(encode_seq(text@)),
        r.1@ == "Y"@ || r.1@ == "N"@,
{
    (compute_fingerprint(text), get_binary_random(text))
}

} // verus!
