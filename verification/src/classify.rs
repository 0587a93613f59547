//! The profile-distance classifier.
//!
//! A reference table holds, for each known cipher family, the expected
//! value of the nine classifying statistics, together with one
//! normalization scale per metric. The distance between a fingerprint
//! and a profile is the sum over the metrics of the absolute deviation
//! in thousandths of that metric's scale; candidates are ranked by
//! ascending distance, ties broken by their position in the candidate
//! list.

use vstd::prelude::*;

use crate::all_stats::{spec_fingerprint_of, FingerprintVector, MAX_METRIC_MILLI};
use crate::counts::MAX_STREAM_LEN;
use crate::ranking::{distinct_pos, lemma_sort_lex_props, sort_lex, sort_pairs, sorted_lex};
use crate::utils::encode_seq;

verus! {

/// Expected fingerprint of one cipher family, in thousandths per
/// metric, shaped and named like `FingerprintVector`.
pub struct CipherProfile {
    /// Expected Index of Coincidence.
    pub ioc: u64,
    /// Expected maximum periodic Index of Coincidence.
    pub mic: u64,
    /// Expected maximum Kappa.
    pub mka: u64,
    /// Expected Digraph Index of Coincidence.
    pub dic: u64,
    /// Expected Even Digraph Index of Coincidence.
    pub edi: u64,
    /// Expected Long Repeat length, scaled by `1000`.
    pub lr: u64,
    /// Expected Repeat Order Distance.
    pub rod: u64,
    /// Expected Letter Distribution Index.
    pub ldi: u64,
    /// Expected Standard Deviation of Differences.
    pub sdd: u64,
}

impl CipherProfile {
    /// Every expected metric lies below the shared bound.
    pub open spec fn wf(&self) -> bool {
        self.ioc <= MAX_METRIC_MILLI && self.mic <= MAX_METRIC_MILLI && self.mka
            <= MAX_METRIC_MILLI && self.dic <= MAX_METRIC_MILLI && self.edi <= MAX_METRIC_MILLI
            && self.lr <= MAX_METRIC_MILLI && self.rod <= MAX_METRIC_MILLI && self.ldi
            <= MAX_METRIC_MILLI && self.sdd <= MAX_METRIC_MILLI
    }
}

/// One normalization scale per metric, in the same thousandths unit as
/// the metric itself. Deviations are reported in thousandths of the
/// scale, so scales below `1000` are rejected.
pub struct MetricScales {
    /// Scale of the Index of Coincidence.
    pub ioc: u64,
    /// Scale of the maximum periodic Index of Coincidence.
    pub mic: u64,
    /// Scale of the maximum Kappa.
    pub mka: u64,
    /// Scale of the Digraph Index of Coincidence.
    pub dic: u64,
    /// Scale of the Even Digraph Index of Coincidence.
    pub edi: u64,
    /// Scale of the Long Repeat length.
    pub lr: u64,
    /// Scale of the Repeat Order Distance.
    pub rod: u64,
    /// Scale of the Letter Distribution Index.
    pub ldi: u64,
    /// Scale of the Standard Deviation of Differences.
    pub sdd: u64,
}

impl MetricScales {
    /// Every scale is at least `1000`: one whole scale unit.
    pub open spec fn wf(&self) -> bool {
        self.ioc >= 1000 && self.mic >= 1000 && self.mka >= 1000 && self.dic >= 1000 && self.edi
            >= 1000 && self.lr >= 1000 && self.rod >= 1000 && self.ldi >= 1000 && self.sdd >= 1000
    }
}

/// Absolute deviation of one metric in thousandths of its scale.
pub open spec fn spec_dev(q: u64, p: u64, scale: u64) -> int {
    if q >= p {
        1000 * (q - p) / (scale as int)
    } else {
        1000 * (p - q) / (scale as int)
    }
}

/// Distance between a fingerprint and a profile: the sum of the nine
/// per-metric deviations.
pub open spec fn spec_distance(q: FingerprintVector, p: CipherProfile, w: MetricScales) -> int {
    spec_dev(q.ioc, p.ioc, w.ioc) + spec_dev(q.mic, p.mic, w.mic) + spec_dev(q.mka, p.mka, w.mka)
        + spec_dev(q.dic, p.dic, w.dic) + spec_dev(q.edi, p.edi, w.edi) + spec_dev(
        q.lr,
        p.lr,
        w.lr,
    ) + spec_dev(q.rod, p.rod, w.rod) + spec_dev(q.ldi, p.ldi, w.ldi) + spec_dev(
        q.sdd,
        p.sdd,
        w.sdd,
    )
}

/// Absolute deviation of one metric in thousandths of its scale.
fn dev(q: u64, p: u64, scale: u64) -> (r: u64)
    requires
        q <= MAX_METRIC_MILLI,
        p <= MAX_METRIC_MILLI,
        scale >= 1000,
    ensures
        r == spec_dev(q, p, scale),
        r <= MAX_METRIC_MILLI,
{
    let d: u64 = if q >= p {
        q - p
    } else {
        p - q
    };
    let num: u64 = 1000 * d;
    proof {
        vstd::arithmetic::div_mod::lemma_multiply_divide_le(
            num as int,
            scale as int,
            MAX_METRIC_MILLI as int,
        );
        assert(num as int <= (scale as int) * (MAX_METRIC_MILLI as int)) by (nonlinear_arith)
            requires
                num as int <= 1000 * (MAX_METRIC_MILLI as int),
                scale as int >= 1000,
        ;
    }
    num / scale
}

/// Distance between a fingerprint and a profile.
pub fn distance(q: &FingerprintVector, p: &CipherProfile, w: &MetricScales) -> (r: u64)
    requires
        q.wf(),
        p.wf(),
        w.wf(),
    ensures
        r == spec_distance(*q, *p, *w),
        r <= 9 * MAX_METRIC_MILLI,
{
    let mut total: u64 = dev(q.ioc, p.ioc, w.ioc);
    total = total + dev(q.mic, p.mic, w.mic);
    total = total + dev(q.mka, p.mka, w.mka);
    total = total + dev(q.dic, p.dic, w.dic);
    total = total + dev(q.edi, p.edi, w.edi);
    total = total + dev(q.lr, p.lr, w.lr);
    total = total + dev(q.rod, p.rod, w.rod);
    total = total + dev(q.ldi, p.ldi, w.ldi);
    total = total + dev(q.sdd, p.sdd, w.sdd);
    total
}

/// One named reference profile.
pub struct RefEntry {
    /// Cipher family name: the table's key.
    pub name: String,
    /// Expected fingerprint of the family.
    pub profile: CipherProfile,
}

/// The reference profile store: one profile per cipher family, in a
/// fixed order, with the per-metric normalization scales.
pub struct ReferenceTable {
    /// The named profiles, in table order.
    pub entries: Vec<RefEntry>,
    /// The normalization scales used by the distance.
    pub scales: MetricScales,
}

/// Index of the first entry with the given name, or the number of
/// entries when the name is absent.
pub open spec fn spec_find(entries: Seq<RefEntry>, name: Seq<char>) -> int
    decreases entries.len(),
{
    if entries.len() == 0 {
        0
    } else {
        let p = spec_find(entries.drop_last(), name);
        if p < entries.len() - 1 {
            p
        } else if entries.last().name@ == name {
            entries.len() - 1
        } else {
            entries.len() as int
        }
    }
}

/// `spec_find` is the least index whose entry carries the name, and is
/// the length exactly when the name is absent.
pub proof fn lemma_spec_find_props(entries: Seq<RefEntry>, name: Seq<char>)
    ensures
        0 <= spec_find(entries, name) <= entries.len(),
        spec_find(entries, name) < entries.len() ==> entries[spec_find(entries, name)].name@
            == name,
        forall|j: int| 0 <= j < spec_find(entries, name) ==> (#[trigger] entries[j]).name@ != name,
        (exists|j: int| 0 <= j < entries.len() && (#[trigger] entries[j]).name@ == name)
            ==> spec_find(entries, name) < entries.len(),
    decreases entries.len(),
{
    if entries.len() > 0 {
        lemma_spec_find_props(entries.drop_last(), name);
        assert forall|j: int| 0 <= j < entries.len() - 1 implies entries.drop_last()[j]
            == entries[j] by {}
        if exists|j: int| 0 <= j < entries.len() && (#[trigger] entries[j]).name@ == name {
            let j = choose|j: int| 0 <= j < entries.len() && (#[trigger] entries[j]).name@ == name;
            if j < entries.len() - 1 {
                assert(entries.drop_last()[j].name@ == name);
            }
        }
    }
}

impl ReferenceTable {
    /// All profiles and scales are well-formed and the names are
    /// pairwise distinct keys.
    pub open spec fn wf(&self) -> bool {
        &&& self.scales.wf()
        &&& forall|i: int|
            0 <= i < self.entries@.len() ==> (#[trigger] self.entries@[i]).profile.wf()
        &&& forall|i: int, j: int|
            0 <= i < j < self.entries@.len() ==> (#[trigger] self.entries@[i]).name@ != (
            #[trigger] self.entries@[j]).name@
    }

    /// Number of cipher families in the table.
    pub fn len(&self) -> (r: usize)
        ensures
            r == self.entries@.len(),
    {
        self.entries.len()
    }

    /// The profile registered under a name: `Some` of the first entry
    /// with that name, `None` when the name is unknown.
    pub fn lookup(&self, name: &String) -> (r: Option<&CipherProfile>)
        ensures
            match r {
                Some(p) => spec_find(self.entries@, name@) < self.entries@.len() && *p
                    == self.entries@[spec_find(self.entries@, name@)].profile,
                None => spec_find(self.entries@, name@) == self.entries@.len(),
            },
    {
        let i = self.find_index(name);
        if i < self.entries.len() {
            Some(&self.entries[i].profile)
        } else {
            None
        }
    }

    /// Index of the first entry with the given name, or `entries.len()`.
    pub fn find_index(&self, name: &String) -> (r: usize)
        ensures
            r == spec_find(self.entries@, name@),
    {
        let n = self.entries.len();
        let mut i: usize = 0;
        while i < n
            invariant
                i <= n,
                n == self.entries@.len(),
                forall|j: int| 0 <= j < i ==> (#[trigger] self.entries@[j]).name@ != name@,
            decreases n - i,
        {
            if self.entries[i].name == *name {
                proof {
                    lemma_spec_find_props(self.entries@, name@);
                    assert(spec_find(self.entries@, name@) <= i);
                }
                return i;
            }
            i = i + 1;
        }
        proof {
            lemma_spec_find_props(self.entries@, name@);
            if spec_find(self.entries@, name@) < n {
                assert(self.entries@[spec_find(self.entries@, name@)].name@ == name@);
            }
        }
        n
    }

    /// The cipher family names, in table order.
    pub fn all_names(&self) -> (r: Vec<String>)
        ensures
            r@.len() == self.entries@.len(),
            forall|i: int| 0 <= i < r@.len() ==> (#[trigger] r@[i])@ == self.entries@[i].name@,
    {
        let n = self.entries.len();
        let mut out: Vec<String> = Vec::new();
        let mut i: usize = 0;
        while i < n
            invariant
                i <= n,
                n == self.entries@.len(),
                out@.len() == i,
                forall|j: int| 0 <= j < i ==> (#[trigger] out@[j])@ == self.entries@[j].name@,
            decreases n - i,
        {
            out.push(self.entries[i].name.clone());
            i = i + 1;
        }
        out
    }

    /// Builds a reference table after validating it: every scale at
    /// least `1000`, every profile within the metric bound, and no
    /// cipher family named twice.
    pub fn new(entries: Vec<RefEntry>, scales: MetricScales) -> (r: Result<
        ReferenceTable,
        ConfigError,
    >)
        ensures
            match r {
                Ok(t) => t.wf() && t.entries@ == entries@ && t.scales == scales,
                Err(ConfigError::BadScales) => !scales.wf(),
                Err(ConfigError::BadProfile(i)) => scales.wf() && 0 <= i < entries@.len()
                    && !entries@[i as int].profile.wf(),
                Err(ConfigError::DuplicateName(j)) => scales.wf() && exists|i: int|
                    0 <= i < j < entries@.len() && (#[trigger] entries@[i]).name@
                        == entries@[j as int].name@,
                Err(ConfigError::UnknownCipher(_)) => false,
            },
    {
        if !(scales.ioc >= 1000 && scales.mic >= 1000 && scales.mka >= 1000 && scales.dic >= 1000
            && scales.edi >= 1000 && scales.lr >= 1000 && scales.rod >= 1000 && scales.ldi >= 1000
            && scales.sdd >= 1000) {
            return Err(ConfigError::BadScales);
        }
        let n = entries.len();
        let mut i: usize = 0;
        while i < n
            invariant
                i <= n,
                n == entries@.len(),
                scales.wf(),
                forall|j: int| 0 <= j < i ==> (#[trigger] entries@[j]).profile.wf(),
            decreases n - i,
        {
            let p = &entries[i].profile;
            if !(p.ioc <= MAX_METRIC_MILLI && p.mic <= MAX_METRIC_MILLI && p.mka
                <= MAX_METRIC_MILLI && p.dic <= MAX_METRIC_MILLI && p.edi <= MAX_METRIC_MILLI
                && p.lr <= MAX_METRIC_MILLI && p.rod <= MAX_METRIC_MILLI && p.ldi
                <= MAX_METRIC_MILLI && p.sdd <= MAX_METRIC_MILLI) {
                return Err(ConfigError::BadProfile(i));
            }
            i = i + 1;
        }
        let mut j: usize = 1;
        while j < n
            invariant
                1 <= j <= n || n == 0,
                n == entries@.len(),
                scales.wf(),
                forall|a: int, b: int|
                    0 <= a < b < j ==> (#[trigger] entries@[a]).name@ != (
                    #[trigger] entries@[b]).name@,
            decreases n - j,
        {
            let mut a: usize = 0;
            while a < j
                invariant
                    a <= j < n,
                    n == entries@.len(),
                    scales.wf(),
                    forall|b: int| 0 <= b < a ==> (#[trigger] entries@[b]).name@
                        != entries@[j as int].name@,
                decreases j - a,
            {
                if entries[a].name == entries[j].name {
                    return Err(ConfigError::DuplicateName(j));
                }
                a = a + 1;
            }
            j = j + 1;
        }
        Ok(ReferenceTable { entries, scales })
    }
}

/// A defect in the classifier's configuration: a bad scale table, a
/// profile out of range, a cipher family registered twice, or a
/// candidate name that the table does not know (with the offending
/// candidate position).
pub enum ConfigError {
    /// Some normalization scale is below `1000`.
    BadScales,
    /// The profile at this table position has a metric out of range.
    BadProfile(usize),
    /// The entry at this table position repeats an earlier name.
    DuplicateName(usize),
    /// The candidate at this list position is not in the table.
    UnknownCipher(usize),
}

/// One ranked candidate: a cipher family name with its distance score;
/// lower scores are more plausible.
pub struct RankedCandidate {
    /// Cipher family name.
    pub name: String,
    /// Distance between the query fingerprint and the family's profile.
    pub score: u64,
}

/// The views of a list of names: each as a character sequence.
pub open spec fn views_of(names: Seq<String>) -> Seq<Seq<char>> {
    Seq::new(names.len(), |i: int| names[i]@)
}

/// The scored candidates in list order: for each position, the distance
/// to its profile paired with the position itself.
pub open spec fn spec_scored(
    q: FingerprintVector,
    names: Seq<Seq<char>>,
    table: ReferenceTable,
) -> Seq<(u64, usize)> {
    Seq::new(
        names.len(),
        |i: int|
            (
                spec_distance(
                    q,
                    table.entries@[spec_find(table.entries@, names[i])].profile,
                    table.scales,
                ) as u64,
                i as usize,
            ),
    )
}

/// The ranking: the scored candidates sorted by ascending score, ties
/// by list position.
pub open spec fn spec_ranking(
    q: FingerprintVector,
    names: Seq<Seq<char>>,
    table: ReferenceTable,
) -> Seq<(u64, usize)> {
    sort_lex(spec_scored(q, names, table))
}

/// Every candidate name is present in the table.
pub open spec fn all_found(names: Seq<Seq<char>>, table: ReferenceTable) -> bool {
    forall|i: int|
        0 <= i < names.len() ==> spec_find(table.entries@, #[trigger] names[i])
            < table.entries@.len()
}

/// The classifier's output: the `k`-th candidate of the ranking.
pub open spec fn spec_classified(
    q: FingerprintVector,
    names: Seq<Seq<char>>,
    table: ReferenceTable,
    k: int,
) -> (Seq<char>, u64) {
    (names[spec_ranking(q, names, table)[k].1 as int], spec_ranking(q, names, table)[k].0)
}

/// Ranks every candidate by its distance to the query fingerprint.
///
/// The output is the full candidate list ordered by ascending score;
/// candidates with equal scores keep the relative order they had in
/// `candidate_names`, so the ranking is deterministic. A candidate name
/// that the table does not know is a configuration error: the first
/// offending position is reported and nothing is ranked.
pub fn classify(
    fingerprint: &FingerprintVector,
    candidate_names: &Vec<String>,
    table: &ReferenceTable,
) -> (r: Result<Vec<RankedCandidate>, ConfigError>)
    requires
        fingerprint.wf(),
        table.wf(),
    ensures
        match r {
            Ok(ranked) => {
                &&& all_found(views_of(candidate_names@), *table)
                &&& ranked@.len() == candidate_names@.len()
                &&& forall|k: int|
                    0 <= k < ranked@.len() ==> ((#[trigger] ranked@[k]).name@, ranked@[k].score)
                        == spec_classified(*fingerprint, views_of(candidate_names@), *table, k)
            },
            Err(ConfigError::UnknownCipher(i)) => {
                &&& 0 <= i < candidate_names@.len()
                &&& spec_find(table.entries@, candidate_names@[i as int]@) == table.entries@.len()
                &&& forall|j: int|
                    0 <= j < i ==> spec_find(table.entries@, (#[trigger] candidate_names@[j])@)
                        < table.entries@.len()
            },
            Err(_) => false,
        },
{
    let ghost q = *fingerprint;
    let ghost tab = *table;
    let n = candidate_names.len();
    let mut scored: Vec<(u64, usize)> = Vec::new();
    let mut i: usize = 0;
    while i < n
        invariant
            i <= n,
            n == candidate_names@.len(),
            fingerprint.wf(),
            table.wf(),
            q == *fingerprint,
            tab == *table,
            scored@.len() == i,
            forall|k: int|
                0 <= k < i ==> #[trigger] scored@[k] == spec_scored(
                    q,
                    views_of(candidate_names@),
                    tab,
                )[k],
            forall|j: int|
                0 <= j < i ==> spec_find(tab.entries@, (#[trigger] candidate_names@[j])@)
                    < tab.entries@.len(),
        decreases n - i,
    {
        let idx = table.find_index(&candidate_names[i]);
        if idx == table.len() {
            return Err(ConfigError::UnknownCipher(i));
        }
        let d = distance(fingerprint, &table.entries[idx].profile, &table.scales);
        scored.push((d, i));
        i = i + 1;
    }
    proof {
        assert(scored@ =~= spec_scored(q, views_of(candidate_names@), tab));
        assert(distinct_pos(scored@));
        lemma_sort_lex_props(scored@);
    }
    let ranked_pairs = sort_pairs(&scored);
    let mut out: Vec<RankedCandidate> = Vec::new();
    let mut k: usize = 0;
    while k < ranked_pairs.len()
        invariant
            k <= ranked_pairs@.len(),
            n == candidate_names@.len(),
            ranked_pairs@ == spec_ranking(q, views_of(candidate_names@), tab),
            ranked_pairs@.len() == candidate_names@.len(),
            forall|j: int|
                0 <= j < ranked_pairs@.len() ==> exists|m: int|
                    0 <= m < spec_scored(q, views_of(candidate_names@), tab).len()
                        && #[trigger] ranked_pairs@[j] == spec_scored(
                        q,
                        views_of(candidate_names@),
                        tab,
                    )[m],
            out@.len() == k,
            forall|j: int|
                0 <= j < k ==> ((#[trigger] out@[j]).name@, out@[j].score) == spec_classified(
                    q,
                    views_of(candidate_names@),
                    tab,
                    j,
                ),
        decreases ranked_pairs@.len() - k,
    {
        let (score, pos) = ranked_pairs[k];
        proof {
            let m = choose|m: int|
                0 <= m < spec_scored(q, views_of(candidate_names@), tab).len()
                    && #[trigger] ranked_pairs@[k as int] == spec_scored(
                    q,
                    views_of(candidate_names@),
                    tab,
                )[m];
            assert(pos == m);
        }
        out.push(RankedCandidate { name: candidate_names[pos].clone(), score });
        k = k + 1;
    }
    Ok(out)
}

/// Runs the encoder, the fingerprint suite and the classifier over all
/// cipher families of the table, in table order.
pub fn identify(text: &str, table: &ReferenceTable) -> (r: Vec<RankedCandidate>)
    requires
        text@.len() <= MAX_STREAM_LEN,
        table.wf(),
    ensures
        r@.len() == table.entries@.len(),
        forall|k: int|
            0 <= k < r@.len() ==> ((#[trigger] r@[k]).name@, r@[k].score) == spec_classified(
                spec_fingerprint_of(encode_seq(text@)),
                table_names(*table),
                *table,
                k,
            ),
{
    let fp = crate::all_stats::compute_fingerprint(text);
    let names = table.all_names();
    proof {
        assert(fp =~= spec_fingerprint_of(encode_seq(text@)));
        assert(views_of(names@) =~= table_names(*table));
        assert forall|i: int| 0 <= i < views_of(names@).len() implies spec_find(
            table.entries@,
            #[trigger] views_of(names@)[i],
        ) < table.entries@.len() by {
            lemma_spec_find_props(table.entries@, views_of(names@)[i]);
            assert(table.entries@[i].name@ == views_of(names@)[i]);
        }
    }
    let r = classify(&fp, &names, table);
    match r {
        Ok(ranked) => ranked,
        Err(ConfigError::UnknownCipher(i)) => {
            proof {
                assert(views_of(names@)[i as int] == names@[i as int]@);
                assert(false);
            }
            Vec::new()
        },
        Err(_) => {
            proof {
                assert(false);
            }
            Vec::new()
        },
    }
}

/// The table's family names as character sequences, in table order.
pub open spec fn table_names(table: ReferenceTable) -> Seq<Seq<char>> {
    Seq::new(table.entries@.len(), |i: int| table.entries@[i].name@)
}


/// Index of the first ranked candidate with the given name, or the
/// length of the ranking when the name is absent.
pub open spec fn spec_rank_of(s: Seq<RankedCandidate>, name: Seq<char>) -> int
    decreases s.len(),
{
    if s.len() == 0 {
        0
    } else {
        let p = spec_rank_of(s.drop_last(), name);
        if p < s.len() - 1 {
            p
        } else if s.last().name@ == name {
            s.len() - 1
        } else {
            s.len() as int
        }
    }
}

/// `spec_rank_of` is the least matching index, and the length exactly
/// when the name is absent.
pub proof fn lemma_spec_rank_of_props(s: Seq<RankedCandidate>, name: Seq<char>)
    ensures
        0 <= spec_rank_of(s, name) <= s.len(),
        spec_rank_of(s, name) < s.len() ==> s[spec_rank_of(s, name)].name@ == name,
        forall|j: int| 0 <= j < spec_rank_of(s, name) ==> (#[trigger] s[j]).name@ != name,
        (exists|j: int| 0 <= j < s.len() && (#[trigger] s[j]).name@ == name) ==> spec_rank_of(
            s,
            name,
        ) < s.len(),
    decreases s.len(),
{
    if s.len() > 0 {
        lemma_spec_rank_of_props(s.drop_last(), name);
        assert forall|j: int| 0 <= j < s.len() - 1 implies s.drop_last()[j] == s[j] by {}
        if exists|j: int| 0 <= j < s.len() && (#[trigger] s[j]).name@ == name {
            let j = choose|j: int| 0 <= j < s.len() && (#[trigger] s[j]).name@ == name;
            if j < s.len() - 1 {
                assert(s.drop_last()[j].name@ == name);
            }
        }
    }
}

/// Position of the named candidate in a ranking: `Some` of its first
/// occurrence, `None` when it is not ranked.
pub fn rank_of(ranked: &Vec<RankedCandidate>, name: &String) -> (r: Option<usize>)
    ensures
        match r {
            Some(p) => p == spec_rank_of(ranked@, name@) && p < ranked@.len(),
            None => spec_rank_of(ranked@, name@) == ranked@.len(),
        },
{
    let n = ranked.len();
    let mut i: usize = 0;
    while i < n
        invariant
            i <= n,
            n == ranked@.len(),
            forall|j: int| 0 <= j < i ==> (#[trigger] ranked@[j]).name@ != name@,
        decreases n - i,
    {
        if ranked[i].name == *name {
            proof {
                lemma_spec_rank_of_props(ranked@, name@);
                assert(spec_rank_of(ranked@, name@) <= i);
            }
            return Some(i);
        }
        i = i + 1;
    }
    proof {
        lemma_spec_rank_of_props(ranked@, name@);
        if spec_rank_of(ranked@, name@) < n {
            assert(ranked@[spec_rank_of(ranked@, name@)].name@ == name@);
        }
    }
    None
}

/// Copies one ranked candidate.
fn clone_candidate(c: &RankedCandidate) -> (r: RankedCandidate)
    ensures
        r == *c,
{
    let r = RankedCandidate { name: c.name.clone(), score: c.score };
    proof {
        assert(r =~= *c);
    }
    r
}

/// The rows to display for a ranking: the first `top_n` candidates,
/// and, when a highlighted name is ranked below them, that candidate
/// appended as one extra row so that truncation never hides it.
pub fn select_display(
    ranked: &Vec<RankedCandidate>,
    top_n: usize,
    highlight: Option<&String>,
) -> (r: Vec<RankedCandidate>)
    ensures
        ({
            let k = if top_n < ranked@.len() {
                top_n as int
            } else {
                ranked@.len() as int
            };
            let extra = match highlight {
                Some(h) => spec_rank_of(ranked@, h@) < ranked@.len() && spec_rank_of(ranked@, h@)
                    >= k,
                None => false,
            };
            &&& r@.len() == k + if extra {
                1int
            } else {
                0int
            }
            &&& forall|j: int| 0 <= j < k ==> #[trigger] r@[j] == ranked@[j]
            &&& (extra ==> r@[k] == ranked@[spec_rank_of(
                ranked@,
                match highlight {
                    Some(h) => h@,
                    None => Seq::empty(),
                },
            )])
        }),
{
    let k = if top_n < ranked.len() {
        top_n
    } else {
        ranked.len()
    };
    let mut out: Vec<RankedCandidate> = Vec::new();
    let mut i: usize = 0;
    while i < k
        invariant
            i <= k,
            k <= ranked@.len(),
            out@.len() == i,
            forall|j: int| 0 <= j < i ==> #[trigger] out@[j] == ranked@[j],
        decreases k - i,
    {
        out.push(clone_candidate(&ranked[i]));
        i = i + 1;
    }
    match highlight {
        Some(h) => {
            let pos = rank_of(ranked, h);
            match pos {
                Some(p) => {
                    if p >= k {
                        out.push(clone_candidate(&ranked[p]));
                    }
                },
                None => {},
            }
        },
        None => {},
    }
    out
}


/// Ranking ties are broken by candidate-list position: two candidates
/// with equal scores appear in the order in which they were listed, so
/// reordering the list only ever reorders tied candidates accordingly.
pub proof fn lemma_classify_stable(
    q: FingerprintVector,
    names: Seq<Seq<char>>,
    table: ReferenceTable,
    i: int,
    j: int,
)
    requires
        names.len() <= usize::MAX,
        0 <= i < j < spec_ranking(q, names, table).len(),
        spec_ranking(q, names, table)[i].0 == spec_ranking(q, names, table)[j].0,
    ensures
        spec_ranking(q, names, table)[i].1 < spec_ranking(q, names, table)[j].1,
{
    lemma_scored_distinct(q, names, table);
    crate::ranking::lemma_sort_lex_stable(spec_scored(q, names, table), i, j);
}

/// The scored candidates carry pairwise distinct list positions.
proof fn lemma_scored_distinct(q: FingerprintVector, names: Seq<Seq<char>>, table: ReferenceTable)
    requires
        names.len() <= usize::MAX,
    ensures
        distinct_pos(spec_scored(q, names, table)),
{
    let s = spec_scored(q, names, table);
    assert forall|a: int, b: int| 0 <= a < b < s.len() implies (#[trigger] s[a]).1 != (
    #[trigger] s[b]).1 by {
        assert(s[a].1 == a as usize);
        assert(s[b].1 == b as usize);
    }
}

/// The ranking is sorted: scores never decrease along it.
pub proof fn lemma_classify_sorted(
    q: FingerprintVector,
    names: Seq<Seq<char>>,
    table: ReferenceTable,
    i: int,
    j: int,
)
    requires
        names.len() <= usize::MAX,
        0 <= i < j < spec_ranking(q, names, table).len(),
    ensures
        spec_ranking(q, names, table)[i].0 <= spec_ranking(q, names, table)[j].0,
{
    lemma_scored_distinct(q, names, table);
    lemma_sort_lex_props(spec_scored(q, names, table));
    assert(sorted_lex(spec_ranking(q, names, table)));
}

} // verus!
