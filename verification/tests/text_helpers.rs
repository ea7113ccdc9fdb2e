use jisho_scraper::jisho::{
    collapse_whitespace, jlpt_level_code, is_kana, jlpt_search_url, kana_only, strip_common_prefix, SelectorRole,
};
use jisho_scraper::sensei_cloze::{blank_first_occurrence, unique_preserve_order};
use jisho_scraper::text::{push_decimal, push_decimal_width3, remove_whitespace, to_ascii_lowercase, trim};

#[test]
fn search_url_for_plain_level() {
    assert_eq!(
        jlpt_search_url("n5", 1),
        "https://jisho.org/search/%20%23words%20%23jlpt-n5?page=1"
    );
}

#[test]
fn search_url_accepts_prefixed_uppercase_padded_level() {
    let expected = "https://jisho.org/search/%20%23words%20%23jlpt-n3?page=12";
    assert_eq!(jlpt_search_url(" JLPT-N3 ", 12), expected);
    assert_eq!(jlpt_search_url("jlpt-n3", 12), expected);
    assert_eq!(jlpt_search_url("N3", 12), expected);
    assert_eq!(jlpt_search_url("3", 12), expected);
}

#[test]
fn search_url_extreme_pages() {
    assert_eq!(
        jlpt_search_url("n1", 0),
        "https://jisho.org/search/%20%23words%20%23jlpt-n1?page=0"
    );
    assert_eq!(
        jlpt_search_url("n1", u32::MAX),
        "https://jisho.org/search/%20%23words%20%23jlpt-n1?page=4294967295"
    );
}

#[test]
fn search_url_strips_only_one_prefix_each() {
    assert_eq!(
        jlpt_search_url("nn2", 2),
        "https://jisho.org/search/%20%23words%20%23jlpt-nn2?page=2"
    );
}

#[test]
fn collapse_whitespace_joins_words_with_single_spaces() {
    assert_eq!(collapse_whitespace("  river;\n\t   stream  "), "river; stream");
    assert_eq!(collapse_whitespace(""), "");
    assert_eq!(collapse_whitespace(" \n\t "), "");
    assert_eq!(collapse_whitespace("\u{3000}川\u{3000}\u{a0}です\u{2003}"), "川 です");
    assert_eq!(collapse_whitespace("a"), "a");
}

#[test]
fn remove_whitespace_drops_every_space() {
    assert_eq!(remove_whitespace(" か わ\n"), "かわ");
    assert_eq!(remove_whitespace("\u{85}x\u{2028}y"), "xy");
}

#[test]
fn trim_and_lowercase() {
    assert_eq!(trim("\t Ab C \n"), "Ab C");
    assert_eq!(trim("   "), "");
    assert_eq!(to_ascii_lowercase("JLPT-N5 Ä"), "jlpt-n5 Ä");
}

#[test]
fn decimal_rendering() {
    let mut s = String::from("p");
    push_decimal(&mut s, 0);
    assert_eq!(s, "p0");
    let mut s = String::new();
    push_decimal(&mut s, 18446744073709551615);
    assert_eq!(s, "18446744073709551615");
    for (n, want) in [(1u64, "001"), (9, "009"), (10, "010"), (99, "099"), (100, "100"), (1234, "1234")] {
        let mut s = String::new();
        push_decimal_width3(&mut s, n);
        assert_eq!(s, want);
    }
}

#[test]
fn kana_detection() {
    assert!(is_kana('か'));
    assert!(is_kana('カ'));
    assert!(is_kana('ㇰ'));
    assert!(!is_kana('川'));
    assert!(!is_kana('a'));
}

#[test]
fn kana_only_keeps_kana_and_long_mark() {
    assert_eq!(kana_only("長い"), "い");
    assert_eq!(kana_only("コーヒー"), "コーヒー");
    assert_eq!(kana_only("ab漢"), "");
    assert_eq!(kana_only("食べる"), "べる");
}

#[test]
fn strip_common_prefix_cases() {
    assert_eq!(strip_common_prefix("なが", "い"), "い");
    assert_eq!(strip_common_prefix("かわ", "かわ"), "");
    assert_eq!(strip_common_prefix("た", "たべる"), "べる");
    assert_eq!(strip_common_prefix("", "x"), "x");
    assert_eq!(strip_common_prefix("たべる", "た"), "");
}

#[test]
fn blank_replaces_first_occurrence_only() {
    assert_eq!(
        blank_first_occurrence("この川はあの川の３倍長い。", "川"),
        Some("この＿はあの川の３倍長い。".to_string())
    );
    assert_eq!(blank_first_occurrence("abcabc", "bc"), Some("a＿abc".to_string()));
    assert_eq!(blank_first_occurrence("abc", "abc"), Some("＿".to_string()));
}

#[test]
fn blank_refuses_empty_or_missing_word() {
    assert_eq!(blank_first_occurrence("abc", ""), None);
    assert_eq!(blank_first_occurrence("abc", "x"), None);
    assert_eq!(blank_first_occurrence("", "x"), None);
}

#[test]
fn blank_round_trip() {
    let sentence = "猫が猫を見る";
    let prompt = blank_first_occurrence(sentence, "猫").unwrap();
    assert_eq!(prompt.replacen('＿', "猫", 1), sentence);
}

#[test]
fn unique_preserve_order_keeps_first_occurrences() {
    let items: Vec<String> = ["b", "a", "b", "c", "a"].iter().map(|s| s.to_string()).collect();
    assert_eq!(unique_preserve_order(&items), vec!["b", "a", "c"]);
    assert!(unique_preserve_order(&Vec::new()).is_empty());
}

#[test]
fn selector_roles_name_their_selectors() {
    assert_eq!(SelectorRole::Concept.selector(), "div.concepts div.concept_light");
    assert_eq!(SelectorRole::Concept.label(), "concept");
    assert_eq!(SelectorRole::SentenceUnlinked.selector(), "span.unlinked");
    assert_eq!(SelectorRole::SentenceUnlinked.label(), "sentence_unlinked");
}

#[test]
fn level_code_normalizes_level_names() {
    assert_eq!(jlpt_level_code("n5"), "5");
    assert_eq!(jlpt_level_code(" JLPT-N2\n"), "2");
    assert_eq!(jlpt_level_code("jlpt-4"), "4");
    assert_eq!(jlpt_level_code(""), "");
}

#[test]
fn collapsing_twice_is_collapsing_once() {
    for s in ["  a  b ", "x", "", "\u{3000}\u{3000}", "a\u{a0}\u{2003}b\nc"] {
        let once = collapse_whitespace(s);
        assert_eq!(collapse_whitespace(&once), once);
        assert_eq!(once.trim(), once);
        assert_eq!(remove_whitespace(&once), remove_whitespace(s));
    }
}
