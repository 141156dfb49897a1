use phrasegen::entropy::{collision_pairs, collision_pairs_checked, n_pairs, string_lt, top_k_counts};
use phrasegen::model::{clean_typing, delays_fit, digraph_counts, digraph_key, digraph_keys, kept_digraphs, split_digraph_key};
use phrasegen::timing::{backoff_plan, class_of_grapheme, hand_of_grapheme, BackoffEvidence, BackoffPlan, CharClass, Hand};

fn counts(v: &[(&str, u32)]) -> Vec<(String, u32)> {
    v.iter().map(|(s, c)| (s.to_string(), *c)).collect()
}

#[test]
fn n_pairs_values() {
    assert_eq!(n_pairs(0), 0);
    assert_eq!(n_pairs(1), 0);
    assert_eq!(n_pairs(2), 1);
    assert_eq!(n_pairs(5), 10);
    assert_eq!(n_pairs(u64::MAX), u64::MAX / 2);
}

#[test]
fn n_pairs_grows_with_draws() {
    let mut prev = 0;
    for n in [0u64, 1, 2, 3, 10, 100, 1 << 32, u64::MAX] {
        let p = n_pairs(n);
        assert!(p >= prev);
        prev = p;
    }
}

#[test]
fn collision_pairs_sums_choose_two() {
    assert_eq!(collision_pairs(&counts(&[("a", 3), ("b", 1), ("c", 2)])), 4);
    assert_eq!(collision_pairs(&[]), 0);
    assert_eq!(collision_pairs(&counts(&[("x", 0)])), 0);
}

#[test]
fn collision_pairs_never_exceed_pairs() {
    let cs = counts(&[("a", 7), ("b", 2), ("c", 1), ("d", 4)]);
    let n: u64 = cs.iter().map(|(_, c)| *c as u64).sum();
    assert!(collision_pairs(&cs) <= n_pairs(n));
    assert_eq!(n_pairs(n), 91);
    assert_eq!(collision_pairs(&cs), 21 + 1 + 6);
}

#[test]
fn string_order_is_byte_order() {
    assert!(string_lt("a", "b"));
    assert!(string_lt("a", "ab"));
    assert!(!string_lt("ab", "ab"));
    assert!(string_lt("Z", "a"));
    assert!(string_lt("z", "\u{e9}"));
}

#[test]
fn top_k_orders_by_count_then_outcome() {
    let cs = counts(&[("b", 2), ("a", 2), ("c", 5), ("d", 1)]);
    assert_eq!(top_k_counts(&cs, 3), counts(&[("c", 5), ("a", 2), ("b", 2)]));
    assert_eq!(top_k_counts(&cs, 10), counts(&[("c", 5), ("a", 2), ("b", 2), ("d", 1)]));
    assert_eq!(top_k_counts(&cs, 0), Vec::new());
}

#[test]
fn digraph_keys_round_trip() {
    let k = digraph_key("a", "b");
    assert_eq!(k, "a|b");
    assert_eq!(split_digraph_key(&k), ("a".to_string(), "b".to_string()));
    let k = digraph_key(" ", "\u{e9}");
    assert_eq!(split_digraph_key(&k), (" ".to_string(), "\u{e9}".to_string()));
}

#[test]
fn split_digraph_key_edge_cases() {
    assert_eq!(split_digraph_key("ab"), (String::new(), String::new()));
    assert_eq!(split_digraph_key("a|b|c"), ("a".to_string(), "b|c".to_string()));
    assert_eq!(split_digraph_key("|"), (String::new(), String::new()));
}

#[test]
fn digraph_keys_of_a_sequence() {
    let g = vec!["h".to_string(), "e".to_string(), "y".to_string()];
    assert_eq!(digraph_keys(&g), vec!["h|e".to_string(), "e|y".to_string()]);
    assert_eq!(digraph_keys(&g[..1]), Vec::<String>::new());
    assert_eq!(digraph_keys(&[]), Vec::<String>::new());
}

#[test]
fn hands_of_graphemes() {
    assert_eq!(hand_of_grapheme("a"), Hand::Left);
    assert_eq!(hand_of_grapheme("B"), Hand::Left);
    assert_eq!(hand_of_grapheme("j"), Hand::Right);
    assert_eq!(hand_of_grapheme("1"), Hand::Other);
    assert_eq!(hand_of_grapheme("ab"), Hand::Other);
    assert_eq!(hand_of_grapheme("\u{e9}"), Hand::Other);
    assert_eq!(hand_of_grapheme(""), Hand::Other);
}

#[test]
fn classes_of_graphemes() {
    assert_eq!(class_of_grapheme("a"), CharClass::Vowel);
    assert_eq!(class_of_grapheme("E"), CharClass::Vowel);
    assert_eq!(class_of_grapheme("y"), CharClass::Consonant);
    assert_eq!(class_of_grapheme("z"), CharClass::Consonant);
    assert_eq!(class_of_grapheme(" "), CharClass::Other);
    assert_eq!(class_of_grapheme("ou"), CharClass::Other);
}

#[test]
fn letters_have_both_a_hand_and_a_class() {
    for c in 'a'..='z' {
        let g = c.to_string();
        assert_ne!(hand_of_grapheme(&g), Hand::Other);
        assert_ne!(class_of_grapheme(&g), CharClass::Other);
    }
    for g in ["1", ";", " ", "ab"] {
        assert_eq!(hand_of_grapheme(g), Hand::Other);
        assert_eq!(class_of_grapheme(g), CharClass::Other);
    }
}

#[test]
fn tuned_digraphs_skip_backoff() {
    let e = BackoffEvidence {
        tuned_has: true,
        out_count: Some(50),
        out_mean_known: true,
        in_count: Some(50),
        in_mean_known: true,
        hand_count: Some(50),
        class_count: Some(50),
    };
    let p = backoff_plan(e, 5);
    assert!(p.use_tuned && !p.key_out && !p.key_in && !p.hand_group && !p.class_group);
}

#[test]
fn backoff_uses_only_trusted_effects() {
    let e = BackoffEvidence {
        tuned_has: false,
        out_count: Some(5),
        out_mean_known: true,
        in_count: Some(4),
        in_mean_known: true,
        hand_count: None,
        class_count: Some(9),
    };
    let p = backoff_plan(e, 5);
    assert_eq!(
        p,
        BackoffPlan { use_tuned: false, key_out: true, key_in: false, hand_group: false, class_group: true }
    );
    let e2 = BackoffEvidence { out_mean_known: false, in_count: Some(5), ..e };
    let p2 = backoff_plan(e2, 5);
    assert!(!p2.key_out && p2.key_in);
}

#[test]
fn delays_must_fit_the_phrase() {
    assert!(delays_fit(2, 1));
    assert!(delays_fit(5, 4));
    assert!(!delays_fit(1, 0));
    assert!(!delays_fit(0, 0));
    assert!(!delays_fit(5, 5));
    assert!(!delays_fit(5, 3));
}

#[test]
fn corrections_are_left_out_unless_allowed() {
    assert!(clean_typing(None, false));
    assert!(clean_typing(Some(0), false));
    assert!(!clean_typing(Some(2), false));
    assert!(clean_typing(Some(2), true));
}

#[test]
fn checked_collision_pairs() {
    assert_eq!(collision_pairs_checked(&counts(&[("a", 3), ("b", 1), ("c", 4)])), Some(9));
    assert_eq!(collision_pairs_checked(&[]), Some(0));
    let big = vec![("x".to_string(), u32::MAX); 3];
    assert_eq!(collision_pairs_checked(&big), None);
    let two = vec![("x".to_string(), u32::MAX); 2];
    assert!(collision_pairs_checked(&two).is_some());
}

#[test]
fn digraph_counts_in_first_seen_order() {
    let keys: Vec<String> = ["t|h", "h|e", "t|h", "e|x", "t|h", "h|e"].iter().map(|s| s.to_string()).collect();
    let counts = digraph_counts(&keys);
    assert_eq!(
        counts,
        vec![("t|h".to_string(), 3), ("h|e".to_string(), 2), ("e|x".to_string(), 1)]
    );
    assert!(digraph_counts(&[]).is_empty());
}

#[test]
fn kept_digraphs_reach_min_count() {
    let counts = vec![
        ("t|h".to_string(), 3u64),
        ("h|e".to_string(), 2u64),
        ("e|x".to_string(), 1u64),
        ("b|i".to_string(), 5_000_000_000u64),
    ];
    let kept = kept_digraphs(&counts, 2);
    let got: Vec<(String, u64, u32)> = kept.into_iter().map(|d| (d.key, d.count, d.stored_count)).collect();
    assert_eq!(
        got,
        vec![
            ("t|h".to_string(), 3, 3),
            ("h|e".to_string(), 2, 2),
            ("b|i".to_string(), 5_000_000_000, u32::MAX),
        ]
    );
    assert_eq!(kept_digraphs(&counts, 0).len(), 4);
    assert!(kept_digraphs(&counts, 6_000_000_000).is_empty());
}
