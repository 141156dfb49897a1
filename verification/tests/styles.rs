use phrasegen::passphrase::{CaseMode, SampleStyle};
use phrasegen::styles::{
    compared_styles, config_seed, nominal_choices, pool_sizes, separator_choices, style_case, style_index, suffix_choices,
    uniform_separator, uniform_suffix,
};

#[test]
fn login_presets_title_case_words() {
    assert_eq!(style_case(SampleStyle::LoginTitle2Digits), CaseMode::Title);
    assert_eq!(style_case(SampleStyle::LoginTitleEndPunct), CaseMode::Title);
    assert_eq!(style_case(SampleStyle::Hyphens), CaseMode::Lower);
    assert_eq!(style_case(SampleStyle::Numbers), CaseMode::Lower);
    assert_eq!(style_case(SampleStyle::Custom), CaseMode::Lower);
}

#[test]
fn separators_follow_the_draw() {
    assert_eq!(uniform_separator(SampleStyle::Hyphens, 77), Some('-'));
    assert_eq!(uniform_separator(SampleStyle::Spaces, 77), Some(' '));
    assert_eq!(uniform_separator(SampleStyle::Numbers, 13), Some('3'));
    assert_eq!(uniform_separator(SampleStyle::NumbersSymbols, 7), Some('7'));
    assert_eq!(uniform_separator(SampleStyle::NumbersSymbols, 10), Some('!'));
    assert_eq!(uniform_separator(SampleStyle::NumbersSymbols, 15), Some('^'));
    assert_eq!(uniform_separator(SampleStyle::NumbersSymbols, 39), Some('-'));
    assert_eq!(uniform_separator(SampleStyle::LoginTitle2Digits, 3), None);
    assert_eq!(uniform_separator(SampleStyle::Custom, 3), None);
}

#[test]
fn suffixes_follow_the_draw() {
    assert_eq!(uniform_suffix(SampleStyle::LoginTitle2Digits, 7), "07");
    assert_eq!(uniform_suffix(SampleStyle::LoginTitle2Digits, 1234), "34");
    assert_eq!(uniform_suffix(SampleStyle::LoginTitleEndPunct, 0), "!");
    assert_eq!(uniform_suffix(SampleStyle::LoginTitleEndPunct, 5), "?");
    assert_eq!(uniform_suffix(SampleStyle::LoginTitleEndPunct, 6), "_");
    assert_eq!(uniform_suffix(SampleStyle::LoginTitleEndPunct, 7), "-");
    assert_eq!(uniform_suffix(SampleStyle::Numbers, 7), "");
}

#[test]
fn each_choice_gives_its_own_outcome() {
    let styles = [
        SampleStyle::Spaces,
        SampleStyle::Hyphens,
        SampleStyle::Numbers,
        SampleStyle::NumbersSymbols,
        SampleStyle::LoginTitle2Digits,
        SampleStyle::LoginTitleEndPunct,
    ];
    for st in styles {
        let n = separator_choices(st);
        let mut seps: Vec<Option<char>> = (0..n).map(|d| uniform_separator(st, d)).collect();
        seps.sort();
        seps.dedup();
        assert_eq!(seps.len() as u32, n);
        for d in 0..n {
            assert_eq!(uniform_separator(st, d), uniform_separator(st, d + 5 * n));
        }
        let m = suffix_choices(st);
        let mut sufs: Vec<String> = (0..m).map(|d| uniform_suffix(st, d)).collect();
        sufs.sort();
        sufs.dedup();
        assert_eq!(sufs.len() as u32, m);
    }
    assert_eq!(separator_choices(SampleStyle::Numbers), 10);
    assert_eq!(separator_choices(SampleStyle::NumbersSymbols), 20);
    assert_eq!(suffix_choices(SampleStyle::LoginTitle2Digits), 100);
    assert_eq!(suffix_choices(SampleStyle::LoginTitleEndPunct), 4);
}

#[test]
fn pool_sizes_are_clamped_sorted_and_unique() {
    assert_eq!(pool_sizes(&[], 5000), vec![1024, 2048, 4096, 5000]);
    assert_eq!(pool_sizes(&[], 100_000), vec![1024, 2048, 4096, 8192, 16384, 32768]);
    assert_eq!(pool_sizes(&[1, 3, 3, 100, 50, 0], 60), vec![3, 50, 60]);
    assert_eq!(pool_sizes(&[1, 0], 60), Vec::<usize>::new());
}

#[test]
fn compared_styles_default_and_refuse_custom() {
    assert_eq!(
        compared_styles(&[]),
        Some(vec![
            SampleStyle::Hyphens,
            SampleStyle::Numbers,
            SampleStyle::NumbersSymbols,
            SampleStyle::LoginTitle2Digits
        ])
    );
    assert_eq!(
        compared_styles(&[SampleStyle::Spaces, SampleStyle::LoginTitleEndPunct]),
        Some(vec![SampleStyle::Spaces, SampleStyle::LoginTitleEndPunct])
    );
    assert_eq!(compared_styles(&[SampleStyle::Numbers, SampleStyle::Custom]), None);
}

#[test]
fn config_seeds_mix_pool_and_preset() {
    assert_eq!(style_index(SampleStyle::Custom), 0);
    assert_eq!(style_index(SampleStyle::LoginTitleEndPunct), 6);
    assert_eq!(config_seed(5, 1024, SampleStyle::Numbers), 5 ^ 2048 ^ (3u64 << 48));
    assert_eq!(config_seed(0, 1, SampleStyle::Custom), 2);
}

#[test]
fn preset_patterns_have_nominal_choices() {
    assert_eq!(nominal_choices("[0-9]"), Some(10));
    assert_eq!(nominal_choices("[0-9]{2}"), Some(100));
    assert_eq!(nominal_choices(r"[!?_\-]"), Some(4));
    assert_eq!(nominal_choices(r"[0-9!@#$%^&*_\-]"), Some(20));
    assert_eq!(nominal_choices("[a-z]"), None);
    assert_eq!(nominal_choices(""), None);
}
