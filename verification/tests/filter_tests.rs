use strung::config::Config;
use strung::digram::{check_digram, find_digram_hits, is_likely_meaningful, DigramTable, Digrams};
use strung::filter::{char_counts, is_not_junk};
use strung::text::{char_is_alphanumeric, char_is_lowercase, char_is_uppercase, to_lowercase, trim};

fn table(pairs: &[&str]) -> DigramTable {
    DigramTable { pairs: pairs.iter().map(|p| p.as_bytes().to_vec()).collect() }
}

fn digrams() -> Digrams {
    Digrams {
        english: table(&["th", "he", "in", "er", "an"]),
        spanish: table(&["de", "la", "qu"]),
        french: table(&["le", "ou", "es"]),
    }
}

#[test]
fn digits_only_is_junk() {
    assert!(!is_not_junk("12345678", &Config::default(), &digrams()));
}

#[test]
fn no_vowel_is_junk() {
    assert!(!is_not_junk("bcdfg", &Config::default(), &digrams()));
}

#[test]
fn short_without_known_pair_is_junk() {
    assert!(!is_not_junk("xyzzy", &Config::default(), &digrams()));
}

#[test]
fn short_with_known_pair_is_kept() {
    assert!(is_not_junk("the cat", &Config::default(), &digrams()));
}

#[test]
fn spanish_and_french_pairs_count() {
    assert!(is_not_junk("quo", &Config::default(), &digrams()));
    assert!(is_not_junk("ou", &Config::default(), &digrams()));
}

#[test]
fn long_strings_skip_the_short_rules() {
    assert!(is_not_junk("qqqqqqqqqqqqu", &Config::default(), &digrams()));
}

#[test]
fn symbol_heavy_short_string_is_junk() {
    let mut c = Config::default();
    c.english_filter = false;
    // 4 symbols, 5 letters, 9 bytes: 5 < 4 + 9 / 4.
    assert!(!is_not_junk("a=b=c=d=e", &c, &digrams()));
    // 1 symbol, 5 letters, 6 bytes: 5 >= 1 + 1.
    assert!(is_not_junk("abc=de", &c, &digrams()));
}

#[test]
fn symbols_forbidden_without_rx_symbole() {
    let mut c = Config::default();
    c.rx_symbole = false;
    assert!(!is_not_junk("the-cat", &c, &digrams()));
    assert!(is_not_junk("the cat", &c, &digrams()));
}

#[test]
fn filter_switched_off_keeps_everything() {
    let mut c = Config::default();
    c.no_number = false;
    c.mix_cons_voy = false;
    c.rx_effective_length = 0;
    for s in ["", "1234", "!!!!", "zzzz", "\u{1}\u{2}"] {
        assert!(is_not_junk(s, &c, &digrams()));
    }
}

#[test]
fn counts_of_character_classes() {
    let c = char_counts("ab1 !?é");
    assert!(!c.all_digits);
    assert!(c.has_vowel);
    assert_eq!(c.symbols, 2);
    assert_eq!(c.ascii_alpha, 2);
    assert!(char_counts("").all_digits);
    assert!(char_counts("0123").all_digits);
}

#[test]
fn lowercasing_is_applied_before_pair_lookup() {
    assert!(is_likely_meaningful("THE", &digrams()));
    assert!(!is_likely_meaningful("ZZZ", &digrams()));
    assert!(is_likely_meaningful("Z", &digrams()));
}

#[test]
fn check_digram_on_values() {
    let t = table(&["th", "he"]);
    assert!(check_digram("", &t));
    assert!(check_digram("a", &t));
    assert!(check_digram("other", &t));
    assert!(!check_digram("abc", &t));
    // Two-byte windows that split a character are not compared.
    assert!(!check_digram("é", &table(&["\u{e9}x"])));
    assert!(check_digram("é", &table(&["é"])));
}

#[test]
fn digram_hits_in_order() {
    let t = table(&["th", "he", "in", "he"]);
    assert_eq!(find_digram_hits("the thin", &t), vec![0, 1, 0, 2]);
    assert_eq!(find_digram_hits("", &t), Vec::<usize>::new());
    assert_eq!(find_digram_hits("h", &t), Vec::<usize>::new());
}

#[test]
fn letter_case_does_not_matter_to_the_language_check() {
    for s in ["the cat", "ZZZ", "qu", "xyzzy", "Le Chat"] {
        let upper = s.to_ascii_uppercase();
        assert_eq!(is_likely_meaningful(s, &digrams()), is_likely_meaningful(&upper, &digrams()));
    }
    assert!(is_likely_meaningful("THE CAT", &digrams()));
}

#[test]
fn mostly_symbols_is_junk() {
    let mut c = Config::default();
    c.english_filter = false;
    assert!(!is_not_junk("a!!!", &c, &digrams()));
}

#[test]
fn trim_removes_unicode_white_space_at_both_ends() {
    assert_eq!(trim(" \u{3000}ab c\u{2029}\n"), "ab c");
    assert_eq!(trim("\t\u{85}\u{a0}"), "");
    assert_eq!(trim("x"), "x");
    assert_eq!(trim("\u{200b}x"), "\u{200b}x");
}

#[test]
fn ascii_classes() {
    assert!(char_is_alphanumeric('a') && char_is_alphanumeric('7') && !char_is_alphanumeric('!'));
    assert!(char_is_lowercase('q') && !char_is_lowercase('Q'));
    assert!(char_is_uppercase('Q') && !char_is_uppercase('q'));
    assert_eq!(to_lowercase("MiXeD 1!"), "mixed 1!".to_string());
}
