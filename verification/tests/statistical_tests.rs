//! Tests of the symbol encoder and the fingerprint test suite.

use cipher_identifier::binary_random::get_binary_random;
use cipher_identifier::digraphs::{get_dic, get_even_dic};
use cipher_identifier::ioc::get_ioc;
use cipher_identifier::ldi::get_ldi;
use cipher_identifier::lr::{get_lr, has_repeat};
use cipher_identifier::mic::get_max_periodic_ic;
use cipher_identifier::mka::get_kappa;
use cipher_identifier::rod::get_rod;
use cipher_identifier::sdd::get_sdd;
use cipher_identifier::utils::{convert_string, has_digits, has_hash};

/// A statistic in thousandths, as its conventional value.
fn conv(milli: u64) -> f64 {
    milli as f64 / 1000.0
}

#[test]
fn test_binary_random_alternating() {
    let text = "ABABABABABABABABAB";
    let result = get_binary_random(text);
    assert_eq!(result, "Y");
}

#[test]
fn test_binary_random_repeated() {
    let text = "AAAAAAAAAAAAAAAAA";
    let result = get_binary_random(text);
    assert_eq!(result, "N");
}

#[test]
fn test_binary_random_threshold() {
    // one transition out of two is above 0.45, one out of three is not
    assert_eq!(get_binary_random("AAB"), "Y");
    assert_eq!(get_binary_random("AAAB"), "N");
}

#[test]
fn test_edi_repeated_even_digraphs() {
    let text = "ABABCDCD";
    let edi = conv(get_even_dic(text));
    assert!(edi >= 0.0);
}

#[test]
fn test_edi_varied_digraphs() {
    let text = "ABCDEFGH";
    let edi = conv(get_even_dic(text));
    assert!(edi >= 0.0);
}

#[test]
fn test_edi_short_text() {
    let text = "ABC";
    let edi = conv(get_even_dic(text));
    assert_eq!(edi, 0.0);
}

#[test]
fn test_edi_exact_value() {
    // even digraphs of "ABAB" are AB and AB: 1000000 * 2 / 2
    assert_eq!(get_even_dic("ABAB"), 1000000);
}

#[test]
fn test_lr_with_repeats() {
    let text = "ABCDEFABCDEF";
    let lr = get_lr(text) as f64;
    assert!(lr >= 6.0);
}

#[test]
fn test_lr_without_repeats() {
    let text = "ABCDEFGHIJKL";
    let lr = get_lr(text) as f64;
    assert_eq!(lr, 0.0);
}

#[test]
fn test_lr_short_text() {
    let text = "A";
    let lr = get_lr(text) as f64;
    assert_eq!(lr, 0.0);
}

#[test]
fn test_has_repeat_direct() {
    let data = convert_string("ABCABC");
    assert!(has_repeat(&data, 3));
    assert!(!has_repeat(&data, 4));
}

#[test]
fn test_dic_repeated_digraphs() {
    let text = "ABABABABAB";
    let dic = conv(get_dic(text));
    assert!(dic > 100.0);
}

#[test]
fn test_dic_varied_digraphs() {
    let text = "ABCDEFGHIJ";
    let dic = conv(get_dic(text));
    assert!(dic < 100.0);
}

#[test]
fn test_dic_short_text() {
    let text = "A";
    let dic = conv(get_dic(text));
    assert_eq!(dic, 0.0);
}

#[test]
fn test_dic_exact_value() {
    // digraphs of "ABAB": AB, BA, AB; 1000000 * 2 / (3 * 2)
    assert_eq!(get_dic("ABAB"), 333333);
}

#[test]
fn test_kappa_repeated_pattern() {
    let text = "ABCABCABCABC";
    let kappa = conv(get_kappa(text));
    assert!(kappa > 100.0);
}

#[test]
fn test_kappa_random_text() {
    let text = "QWERTYUIOPASDFGHJKLZXCVBNM";
    let kappa = conv(get_kappa(text));
    assert!(kappa < 100.0);
}

#[test]
fn test_kappa_exact_value() {
    // shift 2 matches both compared positions of "ABAB"
    assert_eq!(get_kappa("ABAB"), 1000000);
}

#[test]
fn test_rod_with_close_repeats() {
    let text = "AABBCCDD";
    let rod = conv(get_rod(text));
    assert_eq!(rod, 1.0);
}

#[test]
fn test_rod_with_distant_repeats() {
    let text = "ABCDABCD";
    let rod = conv(get_rod(text));
    assert_eq!(rod, 4.0);
}

#[test]
fn test_rod_no_repeats() {
    let text = "ABCDEFG";
    let rod = conv(get_rod(text));
    assert_eq!(rod, 0.0);
}

#[test]
fn test_sdd_constant_differences() {
    let text = "ACEGIKMOQSUWY";
    let sdd = conv(get_sdd(text));
    assert_eq!(sdd, 0.0);
}

#[test]
fn test_sdd_varied_differences() {
    let text = "ABCDEFZYXWVU";
    let sdd = conv(get_sdd(text));
    assert!(sdd > 0.0);
}

#[test]
fn test_sdd_short_text() {
    let text = "A";
    let sdd = conv(get_sdd(text));
    assert_eq!(sdd, 0.0);
}

#[test]
fn test_ioc_english_text() {
    // the pangram has 26 ordered equal pairs over 35 * 34 position
    // pairs: floor(1000000 * 26 / 1190)
    let text = "THEQUICKBROWNFOXJUMPSOVERTHELAZYDOG";
    assert_eq!(get_ioc(text), 21848);
    assert!(get_ioc(text) > get_ioc("XQZJKVBPWMFYORGHLDSETNAIUC"));
}

#[test]
fn test_ioc_random_text() {
    let text = "XQZJKVBPWMFYORGHLDSETNAIUC";
    let ioc = conv(get_ioc(text));
    assert!(ioc < 1000.0);
}

#[test]
fn test_ioc_exact_value() {
    // counts of "ABAB" are 2 and 2: 1000000 * (2 + 2) / (4 * 3)
    assert_eq!(get_ioc("ABAB"), 333333);
}

#[test]
fn test_ioc_all_distinct_below_prose() {
    // a text of 26 distinct letters repeats nothing; English prose of
    // similar length repeats plenty
    let distinct = get_ioc("QWERTYUIOPASDFGHJKLZXCVBNM");
    let prose = get_ioc("THEQUICKBROWNFOXJUMPSOVERT");
    assert_eq!(distinct, 0);
    assert!(distinct < prose);
}

#[test]
fn test_mic_above_plain_ioc_on_periodic_text() {
    // "HELLOWORLD" under a three-letter Vigenere key
    let text = "LXFOPVEFRNHR";
    assert!(get_max_periodic_ic(text) > get_ioc(text));
}

#[test]
fn test_mic_short_text() {
    assert_eq!(get_max_periodic_ic("AB"), 0);
}

#[test]
fn test_ldi_empty_text() {
    assert_eq!(get_ldi(""), 0);
}

#[test]
fn test_ldi_single_letter_exact() {
    // one letter E: its own addend is floor(100 * 873^2 / 127), every
    // other letter contributes 100 times its frequency
    assert_eq!(get_ldi("E"), 600101 + 87400);
}

#[test]
fn test_ldi_non_english_distribution() {
    let ldi = conv(get_ldi("AAAAAAAAAAAAAAAAAAAA"));
    assert!(ldi > 0.0);
}

#[test]
fn test_convert_string_doc_example() {
    let result = convert_string("ABC123");
    assert_eq!(result, vec![0, 1, 2, 28, 29, 30]);
}

#[test]
fn test_encode_round_trip_hello() {
    assert_eq!(convert_string("HELLO"), vec![7, 4, 11, 11, 14]);
}

#[test]
fn test_encode_drops_unrecognized() {
    // blank and punctuation are dropped; '1' is the second digit code
    assert_eq!(convert_string("AB 1!"), vec![0, 1, 28]);
}

#[test]
fn test_encode_case_insensitive() {
    assert_eq!(convert_string("hello"), convert_string("HELLO"));
}

#[test]
fn test_encode_hash_and_slashed_zero() {
    assert_eq!(convert_string("#"), vec![26]);
    assert_eq!(convert_string("\u{00D8}"), vec![27]);
    assert_eq!(convert_string("\u{00D8}"), convert_string("0"));
}

#[test]
fn test_has_digits_reports_codes_above_hash() {
    assert_eq!(has_digits(&[0, 1, 2, 30]), "Y");
    assert_eq!(has_digits(&[0, 1, 2, 25]), "N");
}

#[test]
fn test_has_hash_reports_hash_code() {
    assert_eq!(has_hash(&[0, 1, 26, 2]), "Y");
    assert_eq!(has_hash(&[0, 1, 2, 25]), "N");
}

#[test]
fn test_frequency_statistics_survive_relabeling() {
    // relabeling A<->Z, B<->Q keeps every frequency-structure statistic
    let original = "ABABBAAB";
    let relabeled = "ZQZQQZZQ";
    assert_eq!(get_ioc(original), get_ioc(relabeled));
    assert_eq!(get_dic(original), get_dic(relabeled));
    assert_eq!(get_even_dic(original), get_even_dic(relabeled));
    assert_eq!(get_max_periodic_ic(original), get_max_periodic_ic(relabeled));
}

#[test]
fn test_sdd_exact_value() {
    // differences of "ABABAB" are 1, 25, 1, 25, 1: the scaled variance
    // is 100000000 * 3456 / 25 and the statistic its floor square root
    assert_eq!(get_sdd("ABABAB"), 117575);
}

#[test]
fn test_value_statistics_see_relabeling() {
    // the difference statistic reads symbol values, not just structure
    let original = "ABABBAAB";
    let relabeled = "ZQZQQZZQ";
    assert_ne!(get_sdd(original), get_sdd(relabeled));
}
