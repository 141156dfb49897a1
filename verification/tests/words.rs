use phrasegen::generate::{
    is_ascii_lower_word, join_words, wordlist_from_text, wordlist_from_vec, GenerateConfig,
    GenerateError,
};
use phrasegen::passphrase::{
    apply_case, apply_style, assemble_phrase, corpus_counts, corpus_entries, count_vowels,
    length_ok, sum_counts, title_case_ascii, CaseMode, SampleSettings, SampleStyle,
};
use phrasegen::score::graphemes_normalized;
use phrasegen::textprep::{is_combining_mark, scrub};

#[test]
fn scrub_folds_case_and_accents() {
    assert_eq!(scrub("ABC"), "abc");
    assert_eq!(scrub("Café"), "cafe");
    assert_eq!(scrub("Crème brûlée"), "creme brulee");
    assert_eq!(scrub(""), "");
}

#[test]
fn scrub_expands_compatibility_forms() {
    // NFKD splits the ligature into two letters.
    assert_eq!(scrub("\u{FB01}ne"), "fine");
}

#[test]
fn scrub_keeps_separators_and_drops_the_rest() {
    assert_eq!(scrub("a-b_c"), "a-b_c");
    assert_eq!(scrub("it\u{2019}s"), "it's");
    assert_eq!(scrub("x1y!"), "xy");
    assert_eq!(scrub("  a   b  "), "a b");
    assert_eq!(scrub("a\tb"), "ab");
}

#[test]
fn combining_marks_are_recognised() {
    assert!(is_combining_mark('\u{301}'));
    assert!(is_combining_mark('\u{20D0}'));
    assert!(is_combining_mark('\u{FE2F}'));
    assert!(!is_combining_mark('a'));
    assert!(!is_combining_mark('\u{370}'));
}

#[test]
fn graphemes_are_composed_first() {
    let g = graphemes_normalized("e\u{301}x");
    assert_eq!(g, vec!["\u{e9}".to_string(), "x".to_string()]);
    assert_eq!(graphemes_normalized(""), Vec::<String>::new());
    assert_eq!(graphemes_normalized("ab"), vec!["a".to_string(), "b".to_string()]);
}

#[test]
fn title_case_uppercases_the_first_character() {
    assert_eq!(title_case_ascii("hello"), "Hello");
    assert_eq!(title_case_ascii(""), "");
    assert_eq!(title_case_ascii("\u{df}a"), "SSa");
    assert_eq!(title_case_ascii("aBC"), "ABC");
}

#[test]
fn apply_case_modes() {
    assert_eq!(apply_case("hello", CaseMode::Lower, 7), "hello");
    assert_eq!(apply_case("hello", CaseMode::Upper, 7), "HELLO");
    assert_eq!(apply_case("hello", CaseMode::Title, 0), "Hello");
    assert_eq!(apply_case("hello", CaseMode::RandomTitle, 1), "Hello");
    assert_eq!(apply_case("hello", CaseMode::RandomTitle, 2), "hello");
}

#[test]
fn vowels_are_counted_in_lowercase_ascii() {
    assert_eq!(count_vowels("banana"), 3);
    assert_eq!(count_vowels("sky"), 1);
    assert_eq!(count_vowels("AEIOU"), 0);
    assert_eq!(count_vowels(""), 0);
}

#[test]
fn ascii_lower_words() {
    assert!(is_ascii_lower_word("abc"));
    assert!(is_ascii_lower_word(""));
    assert!(!is_ascii_lower_word("a-b"));
    assert!(!is_ascii_lower_word("Abc"));
}

#[test]
fn wordlist_from_vec_refuses_empty() {
    match wordlist_from_vec(Vec::new()) {
        Err(e) => assert_eq!(e, GenerateError::EmptyWordlist),
        Ok(_) => panic!("an empty list must be refused"),
    }
    match wordlist_from_vec(vec!["a".to_string(), "b".to_string()]) {
        Ok(wl) => {
            assert_eq!(wl.words, vec!["a".to_string(), "b".to_string()]);
            assert_eq!(wl.total_words_in_file, 2);
        }
        Err(_) => panic!("a non-empty list is accepted"),
    }
}

#[test]
fn wordlist_from_text_filters_entries() {
    let cfg = GenerateConfig::default();
    let text = "# comment\n\nApple\nbe\nbanana!\nno-way\n";
    match wordlist_from_text(text, &cfg) {
        Ok(wl) => {
            assert_eq!(wl.words, vec!["apple".to_string(), "banana".to_string()]);
            assert_eq!(wl.total_words_in_file, 4);
        }
        Err(e) => panic!("unexpected error {e:?}"),
    }
}

#[test]
fn wordlist_from_text_reports_no_usable_words() {
    let cfg = GenerateConfig::default();
    match wordlist_from_text("# x\nab\n", &cfg) {
        Err(e) => assert_eq!(e, GenerateError::NoUsableWords { total_words_in_file: 1 }),
        Ok(_) => panic!("no word passes the filters"),
    }
}

#[test]
fn default_generate_config() {
    let cfg = GenerateConfig::default();
    assert_eq!(cfg.words, 4);
    assert_eq!(cfg.separator, " ");
    assert_eq!(cfg.samples, 10_000);
    assert_eq!(cfg.top_k, 20);
    assert_eq!(cfg.min_word_len, 3);
    assert_eq!(cfg.max_word_len, 12);
    assert!(cfg.ascii_lower_only);
}

#[test]
fn join_words_puts_separators_between() {
    let parts = vec!["a".to_string(), "bc".to_string(), "d".to_string()];
    assert_eq!(join_words(&parts, "-"), "a-bc-d");
    assert_eq!(join_words(&parts[..1], "-"), "a");
    assert_eq!(join_words(&[], " "), "");
}

#[test]
fn corpus_entries_read_words_and_counts() {
    let text = "the 10\n# c\nApple\nx 5\nbad count\n\n";
    let es = corpus_entries(text, false, 1, 12);
    assert_eq!(
        es,
        vec![
            ("the".to_string(), 10),
            ("apple".to_string(), 1),
            ("x".to_string(), 5),
            ("bad".to_string(), 1),
        ]
    );
    let es = corpus_entries(text, false, 2, 12);
    assert_eq!(es.len(), 3);
    let es = corpus_entries("don't 2\nok 1\n", true, 1, 12);
    assert_eq!(es, vec![("ok".to_string(), 1)]);
}

#[test]
fn corpus_counts_sum_equal_words() {
    let r = corpus_counts("the 2\nThe 3\nan\n", true, 1, 12);
    assert_eq!(r, Some(vec![("the".to_string(), 5), ("an".to_string(), 1)]));
}

#[test]
fn corpus_counts_refuse_overflow() {
    let r = corpus_counts("a 18446744073709551615\na 1\n", true, 1, 12);
    assert_eq!(r, None);
}

#[test]
fn sum_counts_keeps_first_appearance_order() {
    let es = vec![
        ("b".to_string(), 1),
        ("a".to_string(), 2),
        ("b".to_string(), 3),
        ("c".to_string(), 0),
    ];
    assert_eq!(
        sum_counts(&es),
        Some(vec![("b".to_string(), 4), ("a".to_string(), 2), ("c".to_string(), 0)])
    );
    assert_eq!(sum_counts(&[]), Some(Vec::new()));
}

fn settings(sep: &str, gap: Option<&str>, case: CaseMode, suffix: Option<&str>) -> SampleSettings {
    SampleSettings {
        separator: sep.to_string(),
        gap_regex: gap.map(|g| g.to_string()),
        case,
        prefix_regex: None,
        suffix_regex: suffix.map(|s| s.to_string()),
    }
}

#[test]
fn style_presets_fill_in_defaults() {
    let s = apply_style(SampleStyle::Hyphens, settings(" ", None, CaseMode::Upper, None));
    assert_eq!(s.separator, "-");
    assert_eq!(s.case, CaseMode::Lower);
    let s = apply_style(SampleStyle::Hyphens, settings(" ", Some("[_]"), CaseMode::Upper, None));
    assert_eq!(s.separator, " ");
    assert_eq!(s.gap_regex.as_deref(), Some("[_]"));
    let s = apply_style(SampleStyle::Numbers, settings(" ", None, CaseMode::Title, None));
    assert_eq!(s.gap_regex.as_deref(), Some("[0-9]"));
    assert_eq!(s.case, CaseMode::Lower);
    let s = apply_style(SampleStyle::NumbersSymbols, settings(" ", None, CaseMode::Lower, None));
    assert_eq!(s.gap_regex.as_deref(), Some("[0-9!@#$%^&*_\\-]"));
    let s = apply_style(SampleStyle::LoginTitle2Digits, settings(" ", None, CaseMode::Lower, None));
    assert_eq!(s.separator, "");
    assert_eq!(s.case, CaseMode::Title);
    assert_eq!(s.suffix_regex.as_deref(), Some("[0-9]{2}"));
    let s = apply_style(SampleStyle::LoginTitleEndPunct, settings(" ", None, CaseMode::Lower, Some("x")));
    assert_eq!(s.suffix_regex.as_deref(), Some("x"));
    let s = apply_style(SampleStyle::LoginTitleEndPunct, settings(" ", None, CaseMode::Lower, None));
    assert_eq!(s.suffix_regex.as_deref(), Some("[!?_\\-]"));
    let s = apply_style(SampleStyle::Custom, settings("+", None, CaseMode::Upper, None));
    assert_eq!(s.separator, "+");
    assert_eq!(s.case, CaseMode::Upper);
    let s = apply_style(SampleStyle::Spaces, settings("+", None, CaseMode::Upper, None));
    assert_eq!(s.separator, " ");
    assert_eq!(s.case, CaseMode::Lower);
}

#[test]
fn phrases_are_assembled_from_parts() {
    let words = vec!["Ab".to_string(), "cd".to_string(), "ef".to_string()];
    let gaps = vec!["1".to_string(), "-".to_string()];
    assert_eq!(assemble_phrase("<", &words, &gaps, ">"), "<Ab1cd-ef>");
    assert_eq!(assemble_phrase("", &words, &gaps[..1], ""), "Ab1cdef");
    assert_eq!(assemble_phrase("p", &[], &gaps, "s"), "ps");
}

#[test]
fn length_bounds() {
    assert!(length_ok("abc", None, None));
    assert!(length_ok("abc", Some(3), Some(3)));
    assert!(!length_ok("abc", Some(4), None));
    assert!(!length_ok("abc", None, Some(2)));
    assert!(length_ok("\u{e9}\u{e9}", None, Some(2)));
}

#[test]
fn scrubbing_twice_is_scrubbing_once() {
    for s in ["  Crème  Brûlée ", "O’Neil's-dog_x", "ÅNGSTRÖM\tunit", "a  b   c", "", "ﬁne ＡＢＣ"] {
        let once = scrub(s);
        assert_eq!(scrub(&once), once);
    }
    assert_eq!(scrub("hello world"), "hello world");
}
