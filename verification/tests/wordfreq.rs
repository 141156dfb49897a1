use std::cmp::Ordering;

use phrasegen::rank::rank_order;
use phrasegen::wordfreq::{list_words, merge_word_counts};

fn entry(w: &str, c: u64) -> (String, u64) {
    (w.to_string(), c)
}

#[test]
fn plain_lists_give_trimmed_lines() {
    let text = "# header\n  apple \n\nbanana\r\n#skip\ncherry pie\n";
    assert_eq!(list_words(text, false), vec!["apple", "banana", "cherry pie"]);
}

#[test]
fn numbered_lists_give_second_tokens() {
    let text = "11111\tabacus\n11112 abdomen extra\n# comment\n11113\n\n";
    assert_eq!(list_words(text, true), vec!["abacus", "abdomen"]);
}

#[test]
fn merge_keeps_last_head_count_and_fills_tail_with_one() {
    let head = vec![entry("the", 100), entry("cat", 5), entry("the", 7)];
    let tail = vec!["dog".to_string(), "cat".to_string(), "ant".to_string(), "dog".to_string()];
    let merged = merge_word_counts(&head, &tail);
    assert_eq!(merged, vec![entry("the", 7), entry("cat", 5), entry("ant", 1), entry("dog", 1)]);
}

#[test]
fn merge_of_nothing_is_empty() {
    assert!(merge_word_counts(&[], &[]).is_empty());
    assert_eq!(merge_word_counts(&[], &["b".to_string(), "a".to_string()]), vec![entry("a", 1), entry("b", 1)]);
}

#[test]
fn rank_orders_by_count_then_word() {
    assert_eq!(rank_order(&entry("b", 9), &entry("a", 3)), Ordering::Less);
    assert_eq!(rank_order(&entry("b", 3), &entry("a", 3)), Ordering::Greater);
    assert_eq!(rank_order(&entry("a", 3), &entry("b", 3)), Ordering::Less);
    assert_eq!(rank_order(&entry("a", 3), &entry("a", 3)), Ordering::Equal);
}
