//! Accuracy benchmark over a labeled dataset.
//!
//! Each record pairs a true cipher family name with a ciphertext; a
//! record counts as correct when its true name appears among the first
//! `top_n` ranked candidates of `identify`. The result is the pair
//! `(correct, total)`.

use vstd::prelude::*;

use crate::all_stats::spec_fingerprint_of;
use crate::classify::{identify, spec_classified, table_names, ReferenceTable};
use crate::counts::MAX_STREAM_LEN;
use crate::utils::encode_seq;

verus! {

/// One labeled benchmark record.
pub struct CipherTestCase {
    /// The true cipher family of the ciphertext.
    pub ciphertype: String,
    /// The ciphertext to classify.
    pub ciphertext: String,
}

/// Whether a record is classified correctly: its true family name
/// stands among the first `top_n` ranked candidates.
pub open spec fn spec_case_correct(
    case: CipherTestCase,
    table: ReferenceTable,
    top_n: int,
) -> bool {
    let q = spec_fingerprint_of(encode_seq(case.ciphertext@));
    let limit = if top_n < table.entries@.len() {
        top_n
    } else {
        table.entries@.len() as int
    };
    exists|k: int|
        0 <= k < limit && (#[trigger] spec_classified(q, table_names(table), table, k)).0
            == case.ciphertype@
}

/// Number of correctly classified records among the first `m`.
pub open spec fn spec_correct_count(
    cases: Seq<CipherTestCase>,
    table: ReferenceTable,
    top_n: int,
    m: int,
) -> int
    decreases m,
{
    if m <= 0 {
        0
    } else {
        spec_correct_count(cases, table, top_n, m - 1) + if spec_case_correct(
            cases[m - 1],
            table,
            top_n,
        ) {
            1int
        } else {
            0int
        }
    }
}

/// Replays a labeled dataset through `identify` and counts the records
/// whose true family ranks within the first `top_n` candidates. The
/// count never exceeds the number of records.
pub fn benchmark_cases(cases: &Vec<CipherTestCase>, table: &ReferenceTable, top_n: usize) -> (r: (
    usize,
    usize,
))
    requires
        table.wf(),
        forall|i: int|
            0 <= i < cases@.len() ==> (#[trigger] cases@[i]).ciphertext@.len() <= MAX_STREAM_LEN,
    ensures
        r.1 == cases@.len(),
        r.0 == spec_correct_count(cases@, *table, top_n as int, cases@.len() as int),
        r.0 <= r.1,
{
    let total = cases.len();
    let mut correct: usize = 0;
    let mut i: usize = 0;
    while i < total
        invariant
            i <= total,
            total == cases@.len(),
            table.wf(),
            forall|c: int|
                0 <= c < cases@.len() ==> (#[trigger] cases@[c]).ciphertext@.len()
                    <= MAX_STREAM_LEN,
            correct == spec_correct_count(cases@, *table, top_n as int, i as int),
            correct <= i,
        decreases total - i,
    {
        let case = &cases[i];
        let ranked = identify(case.ciphertext.as_str(), table);
        let limit = if top_n < ranked.len() {
            top_n
        } else {
            ranked.len()
        };
        let ghost q = spec_fingerprint_of(encode_seq(case.ciphertext@));
        let mut hit = false;
        let mut k: usize = 0;
        while k < limit
            invariant
                k <= limit,
                i < cases@.len(),
                case == cases@[i as int],
                q == spec_fingerprint_of(encode_seq(case.ciphertext@)),
                ranked@.len() == table.entries@.len(),
                limit == if top_n < table.entries@.len() {
                    top_n as int
                } else {
                    table.entries@.len() as int
                },
                forall|j: int|
                    0 <= j < ranked@.len() ==> ((#[trigger] ranked@[j]).name@, ranked@[j].score)
                        == spec_classified(q, table_names(*table), *table, j),
                hit == exists|j: int|
                    0 <= j < k && (#[trigger] spec_classified(q, table_names(*table), *table, j)).0
                        == case.ciphertype@,
            decreases limit - k,
        {
            if ranked[k].name == case.ciphertype {
                proof {
                    assert((spec_classified(q, table_names(*table), *table, k as int)).0
                        == case.ciphertype@);
                }
                hit = true;
            }
            k = k + 1;
        }
        if hit {
            correct = correct + 1;
        }
        proof {
            assert(hit == spec_case_correct(cases@[i as int], *table, top_n as int));
        }
        i = i + 1;
    }
    (correct, total)
}

} // verus!
