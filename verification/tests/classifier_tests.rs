//! Tests of the reference table, the classifier, the benchmark and the
//! metadata helpers.

use cipher_identifier::all_stats::{compute_fingerprint, FingerprintVector};
use cipher_identifier::analyzer::CipherAnalyzer;
use cipher_identifier::benchmark::{benchmark_cases, CipherTestCase};
use cipher_identifier::classify::{
    classify, identify, rank_of, select_display, CipherProfile, ConfigError, MetricScales,
    RankedCandidate, RefEntry, ReferenceTable,
};
use cipher_identifier::models::{get_cipher_primary_type, CipherType, CipherTypes};

/// A profile with every metric zero except the IoC.
fn profile_with_ioc(ioc: u64) -> CipherProfile {
    CipherProfile { ioc, mic: 0, mka: 0, dic: 0, edi: 0, lr: 0, rod: 0, ldi: 0, sdd: 0 }
}

/// Unit scales: a deviation of one thousandth scores one point.
fn unit_scales() -> MetricScales {
    MetricScales {
        ioc: 1000,
        mic: 1000,
        mka: 1000,
        dic: 1000,
        edi: 1000,
        lr: 1000,
        rod: 1000,
        ldi: 1000,
        sdd: 1000,
    }
}

fn entry(name: &str, ioc: u64) -> RefEntry {
    RefEntry { name: name.to_string(), profile: profile_with_ioc(ioc) }
}

fn small_table() -> ReferenceTable {
    ReferenceTable::new(
        vec![entry("alpha", 100), entry("beta", 300), entry("gamma", 200)],
        unit_scales(),
    )
    .ok()
    .unwrap()
}

fn zero_fingerprint() -> FingerprintVector {
    FingerprintVector { ioc: 0, mic: 0, mka: 0, dic: 0, edi: 0, lr: 0, rod: 0, ldi: 0, sdd: 0 }
}

fn names(list: &[&str]) -> Vec<String> {
    list.iter().map(|s| s.to_string()).collect()
}

#[test]
fn test_classify_orders_by_distance() {
    let table = small_table();
    let fp = zero_fingerprint();
    let ranked = classify(&fp, &names(&["alpha", "beta", "gamma"]), &table).ok().unwrap();
    let got: Vec<(String, u64)> = ranked.iter().map(|c| (c.name.clone(), c.score)).collect();
    assert_eq!(
        got,
        vec![
            ("alpha".to_string(), 100),
            ("gamma".to_string(), 200),
            ("beta".to_string(), 300)
        ]
    );
}

#[test]
fn test_classify_is_deterministic() {
    let table = small_table();
    let fp = zero_fingerprint();
    let list = names(&["gamma", "alpha", "beta"]);
    let first = classify(&fp, &list, &table).ok().unwrap();
    let second = classify(&fp, &list, &table).ok().unwrap();
    assert_eq!(first.len(), second.len());
    for (a, b) in first.iter().zip(second.iter()) {
        assert_eq!(a.name, b.name);
        assert_eq!(a.score, b.score);
    }
}

#[test]
fn test_classify_ties_keep_list_order() {
    // two candidates with identical profiles tie; the listed order wins
    let table = ReferenceTable::new(
        vec![entry("first", 500), entry("second", 500), entry("closer", 0)],
        unit_scales(),
    )
    .ok()
    .unwrap();
    let fp = zero_fingerprint();
    let ranked = classify(&fp, &names(&["second", "first", "closer"]), &table).ok().unwrap();
    assert_eq!(ranked[0].name, "closer");
    assert_eq!(ranked[1].name, "second");
    assert_eq!(ranked[2].name, "first");
    assert_eq!(ranked[1].score, ranked[2].score);
}

#[test]
fn test_classify_unknown_candidate_is_an_error() {
    let table = small_table();
    let fp = zero_fingerprint();
    let r = classify(&fp, &names(&["alpha", "delta"]), &table);
    match r {
        Err(ConfigError::UnknownCipher(i)) => assert_eq!(i, 1),
        _ => panic!("an unknown candidate must be reported"),
    }
}

#[test]
fn test_table_rejects_bad_scales() {
    let mut scales = unit_scales();
    scales.lr = 999;
    match ReferenceTable::new(vec![entry("alpha", 100)], scales) {
        Err(ConfigError::BadScales) => {}
        _ => panic!("a scale below 1000 must be rejected"),
    }
}

#[test]
fn test_table_rejects_profile_out_of_range() {
    let huge = entry("alpha", 3000000000000001);
    match ReferenceTable::new(vec![huge], unit_scales()) {
        Err(ConfigError::BadProfile(i)) => assert_eq!(i, 0),
        _ => panic!("a metric beyond the bound must be rejected"),
    }
}

#[test]
fn test_table_rejects_duplicate_names() {
    let entries = vec![entry("alpha", 100), entry("beta", 200), entry("alpha", 300)];
    match ReferenceTable::new(entries, unit_scales()) {
        Err(ConfigError::DuplicateName(j)) => assert_eq!(j, 2),
        _ => panic!("a duplicated family name must be rejected"),
    }
}

#[test]
fn test_lookup_finds_registered_profile() {
    let table = small_table();
    let p = table.lookup(&"gamma".to_string()).unwrap();
    assert_eq!(p.ioc, 200);
    assert!(table.lookup(&"delta".to_string()).is_none());
}

#[test]
fn test_all_names_keeps_table_order() {
    let table = small_table();
    assert_eq!(table.all_names(), names(&["alpha", "beta", "gamma"]));
}

#[test]
fn test_identify_ranks_whole_table() {
    let table = small_table();
    let ranked = identify("HELLOWORLD", &table);
    assert_eq!(ranked.len(), 3);
    assert!(ranked[0].score <= ranked[1].score);
    assert!(ranked[1].score <= ranked[2].score);
}

#[test]
fn test_select_display_truncates() {
    let table = small_table();
    let fp = zero_fingerprint();
    let ranked = classify(&fp, &names(&["alpha", "beta", "gamma"]), &table).ok().unwrap();
    let shown = select_display(&ranked, 2, None);
    assert_eq!(shown.len(), 2);
    assert_eq!(shown[0].name, "alpha");
    assert_eq!(shown[1].name, "gamma");
}

#[test]
fn test_select_display_keeps_highlight_visible() {
    let table = small_table();
    let fp = zero_fingerprint();
    let ranked = classify(&fp, &names(&["alpha", "beta", "gamma"]), &table).ok().unwrap();
    let highlight = "beta".to_string();
    let shown = select_display(&ranked, 1, Some(&highlight));
    assert_eq!(shown.len(), 2);
    assert_eq!(shown[0].name, "alpha");
    assert_eq!(shown[1].name, "beta");
    assert_eq!(rank_of(&ranked, &highlight), Some(2));
}

#[test]
fn test_benchmark_counts_and_percentage() {
    let table = ReferenceTable::new(vec![entry("only", 100)], unit_scales()).ok().unwrap();
    let cases = vec![
        CipherTestCase { ciphertype: "only".to_string(), ciphertext: "HELLOWORLD".to_string() },
        CipherTestCase { ciphertype: "other".to_string(), ciphertext: "HELLOWORLD".to_string() },
    ];
    let (correct, total) = benchmark_cases(&cases, &table, 5);
    assert_eq!(total, 2);
    assert_eq!(correct, 1);
    assert!(correct <= total);
    let percentage = 100.0 * correct as f64 / total as f64;
    assert!((percentage - 50.0).abs() < 1e-9);
}

#[test]
fn test_fingerprint_matches_suite() {
    let fp = compute_fingerprint("ABAB");
    assert_eq!(fp.ioc, 333333);
    assert_eq!(fp.dic, 333333);
    assert_eq!(fp.edi, 1000000);
    assert_eq!(fp.mka, 1000000);
    assert_eq!(fp.lr, 2000);
}

#[test]
fn test_find_missing_letters() {
    let analyzer = CipherAnalyzer::new();
    let missing = analyzer.find_missing_letters("HELLOWORLD");
    assert!(missing.contains('A'));
    assert!(!missing.contains('L'));
    assert_eq!(analyzer.find_missing_letters("ABCDEFGHIJKLMNOPQRSTUVWXYZ"), "");
}

#[test]
fn test_get_cipher_primary_type() {
    let types = CipherTypes {
        entries: vec![(
            "playfair".to_string(),
            CipherType {
                types: vec!["substitution".to_string()],
                subtypes: vec!["polygraphic".to_string()],
                subtypes2: vec![],
                table: vec!["polybius square".to_string()],
                size: "5x5".to_string(),
                notes: String::new(),
            },
        )],
    };
    assert_eq!(get_cipher_primary_type(&types, "playfair"), "substitution");
    assert_eq!(get_cipher_primary_type(&types, "caesar"), "unknown");
}

#[test]
fn test_fingerprint_with_random_flag() {
    let (fp, flag) = cipher_identifier::all_stats::fingerprint_with_random("ABABABABABABABABAB");
    assert_eq!(flag, "Y");
    assert_eq!(fp.ioc, compute_fingerprint("ABABABABABABABABAB").ioc);
}

#[test]
fn test_get_all_stats() {
    let text = "THEQUICKBROWNFOXJUMPSOVERTHELAZYDOG";
    let stats = cipher_identifier::all_stats::get_all_stats(text);
    let keys: Vec<&str> = stats.iter().map(|(k, _)| k.as_str()).collect();
    assert_eq!(
        keys,
        vec!["IoC", "MIC", "MKA", "DIC", "EDI", "LR", "ROD", "LDI", "SDD", "BinaryRandom"]
    );
    assert_eq!(stats[0].1, cipher_identifier::ioc::get_ioc(text));
    assert_eq!(stats[8].1, cipher_identifier::sdd::get_sdd(text));
    assert!(stats[9].1 == 0 || stats[9].1 == 1);
}

#[test]
fn test_ranked_candidate_fields() {
    let c = RankedCandidate { name: "alpha".to_string(), score: 7 };
    assert_eq!(c.name, "alpha");
    assert_eq!(c.score, 7);
}
