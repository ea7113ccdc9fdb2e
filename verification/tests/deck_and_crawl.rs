use jisho_scraper::crawl::{CrawlAction, PageCrawl};
use jisho_scraper::jisho::{ExampleSentence, WordEntry};
use jisho_scraper::sensei_cloze::{
    build_vocab_cloze_deck, build_vocab_cloze_deck_in_order, BankFrom, ClozeBuildOptions,
};

fn entry(word: &str, definition: &str, sentence: Option<&str>) -> WordEntry {
    WordEntry {
        word: word.to_string(),
        reading: word.to_string(),
        definition: definition.to_string(),
        example: sentence.map(|s| ExampleSentence {
            japanese: s.to_string(),
            reading: s.to_string(),
            english: "E".to_string(),
        }),
    }
}

fn opts(seed: Option<u64>, max: Option<usize>, bank: BankFrom, require: bool) -> ClozeBuildOptions {
    ClozeBuildOptions {
        seed,
        max_cards: max,
        bank_from: bank,
        require_word_in_example: require,
        tag: "t".to_string(),
    }
}

fn deck(entries: Vec<WordEntry>, o: ClozeBuildOptions) -> jisho_scraper::sensei_cloze::ClozeDeck {
    build_vocab_cloze_deck("d".to_string(), "T".to_string(), "D".to_string(), entries, o)
}

#[test]
fn unseeded_deck_keeps_entry_order_and_numbers_cards() {
    let d = deck(
        vec![
            entry("犬", "dog", Some("犬がいる")),
            entry("猫", "cat", None),
            entry("鳥", "bird", Some("鳥が飛ぶ")),
        ],
        opts(None, None, BankFrom::Examples, true),
    );
    let ids: Vec<&str> = d.cards.iter().map(|c| c.card_local_id.as_str()).collect();
    assert_eq!(ids, ["犬-001", "鳥-002"]);
    assert_eq!(d.cards[1].prompt_jp, "＿が飛ぶ");
    assert_eq!(d.cards[1].expected, ["鳥"]);
    assert_eq!(d.cards[1].context_fr, "bird");
    assert_eq!(d.bank, ["犬", "鳥"]);
    assert_eq!(d.deck_id, "d");
    assert_eq!(d.title, "T");
    assert_eq!(d.description, "D");
}

#[test]
fn word_missing_from_sentence_is_a_candidate_without_card_when_not_required() {
    let d = deck(
        vec![entry("犬", "dog", Some("猫です")), entry("猫", "cat", Some("猫がいる"))],
        opts(None, None, BankFrom::Examples, false),
    );
    assert_eq!(d.cards.len(), 1);
    assert_eq!(d.cards[0].card_local_id, "猫-002");
}

#[test]
fn required_word_filters_before_numbering() {
    let d = deck(
        vec![entry("犬", "dog", Some("猫です")), entry("猫", "cat", Some("猫がいる"))],
        opts(None, None, BankFrom::Examples, true),
    );
    assert_eq!(d.cards.len(), 1);
    assert_eq!(d.cards[0].card_local_id, "猫-001");
}

#[test]
fn max_cards_caps_the_deck() {
    let entries: Vec<WordEntry> =
        (0..5).map(|i| entry(&format!("w{i}"), "x", Some(&format!("a w{i} b")))).collect();
    let d = deck(entries.clone(), opts(None, Some(2), BankFrom::Examples, true));
    assert_eq!(d.cards.len(), 2);
    let d = deck(entries, opts(Some(3), Some(0), BankFrom::All, true));
    assert!(d.cards.is_empty());
    assert_eq!(d.bank.len(), 5);
}

#[test]
fn bank_from_all_has_each_word_once() {
    let d = deck(
        vec![entry("a", "x", None), entry("b", "y", Some("b")), entry("a", "z", Some("a"))],
        opts(None, None, BankFrom::All, true),
    );
    assert_eq!(d.bank, ["a", "b"]);
}

#[test]
fn seeded_deck_is_a_reproducible_permutation() {
    let entries: Vec<WordEntry> =
        (0..12).map(|i| entry(&format!("w{i:02}"), "x", Some(&format!("<w{i:02}>")))).collect();
    let plain = deck(entries.clone(), opts(None, None, BankFrom::Examples, true));
    let a = deck(entries.clone(), opts(Some(7), None, BankFrom::Examples, true));
    let b = deck(entries, opts(Some(7), None, BankFrom::Examples, true));
    assert_eq!(a, b);
    let mut got: Vec<String> = a.cards.iter().map(|c| c.expected[0].clone()).collect();
    let want: Vec<String> = plain.cards.iter().map(|c| c.expected[0].clone()).collect();
    assert_ne!(got, want);
    got.sort();
    assert_eq!(got, want);
    assert_eq!(a.cards.len(), plain.cards.len());
    let mut bank = a.bank.clone();
    assert_ne!(bank, plain.bank);
    bank.sort();
    assert_eq!(bank, plain.bank);
}

#[test]
fn explicit_order_is_followed() {
    let entries = vec![
        entry("a", "x", Some("a")),
        entry("b", "y", Some("b")),
        entry("c", "z", Some("c")),
    ];
    let d = build_vocab_cloze_deck_in_order(
        "d".to_string(),
        "T".to_string(),
        "D".to_string(),
        &entries,
        &opts(None, None, BankFrom::Examples, true),
        &vec![2, 0, 2],
    );
    let ids: Vec<&str> = d.cards.iter().map(|c| c.card_local_id.as_str()).collect();
    assert_eq!(ids, ["c-001", "a-002", "c-003"]);
    assert_eq!(d.bank, ["c", "a"]);
}

#[test]
fn page_crawl_fetches_fixed_pages_with_pauses_between() {
    let mut c = PageCrawl::for_pages(3, 2, 500);
    assert_eq!(c.next_action(), CrawlAction::Fetch(3));
    assert_eq!(c.record_page(vec![entry("a", "x", None)]), Some(500));
    assert_eq!(c.next_action(), CrawlAction::Fetch(4));
    assert_eq!(c.record_page(vec![]), None);
    assert_eq!(c.next_action(), CrawlAction::Done);
    assert_eq!(c.finish().len(), 1);
}

#[test]
fn page_crawl_without_delay_never_pauses() {
    let mut c = PageCrawl::for_pages(1, 3, 0);
    assert_eq!(c.record_page(vec![]), None);
    assert_eq!(c.next_action(), CrawlAction::Fetch(2));
}

#[test]
fn target_crawl_keeps_examples_and_stops_at_target() {
    let mut c = PageCrawl::until_target(1, 10, 2, 100);
    assert_eq!(c.next_action(), CrawlAction::Fetch(1));
    let pause = c.record_page(vec![
        entry("a", "x", None),
        entry("b", "y", Some("b")),
        entry("c", "z", Some("c")),
        entry("d", "w", Some("d")),
    ]);
    assert_eq!(pause, Some(100));
    assert_eq!(c.next_action(), CrawlAction::Done);
    let words: Vec<String> = c.finish().into_iter().map(|e| e.word).collect();
    assert_eq!(words, ["b", "c"]);
}

#[test]
fn target_crawl_stops_on_empty_page_and_page_limit() {
    let mut c = PageCrawl::until_target(5, 10, 9, 100);
    assert_eq!(c.record_page(vec![entry("b", "y", Some("b"))]), Some(100));
    assert_eq!(c.next_action(), CrawlAction::Fetch(6));
    assert_eq!(c.record_page(vec![]), None);
    assert_eq!(c.next_action(), CrawlAction::Done);
    assert_eq!(c.finish().len(), 1);

    let mut c = PageCrawl::until_target(1, 1, 9, 100);
    assert_eq!(c.record_page(vec![entry("b", "y", Some("b"))]), None);
    assert_eq!(c.next_action(), CrawlAction::Done);

    let c = PageCrawl::until_target(1, 0, 9, 100);
    assert_eq!(c.next_action(), CrawlAction::Done);
}

#[test]
fn card_ids_are_distinct_even_for_repeated_words() {
    let d = deck(
        vec![
            entry("a", "x", Some("a")),
            entry("a", "y", Some("ba")),
            entry("a-001", "z", Some("a-001")),
        ],
        opts(None, None, BankFrom::Examples, true),
    );
    let ids: Vec<&str> = d.cards.iter().map(|c| c.card_local_id.as_str()).collect();
    assert_eq!(ids, ["a-001", "a-002", "a-001-003"]);
    assert_eq!(d.bank, ["a", "a-001"]);
}

#[test]
fn crawl_reports_page_overflow_only_when_reached() {
    let mut c = PageCrawl::until_target(u32::MAX, 5, 1, 0);
    assert_eq!(c.next_action(), CrawlAction::Fetch(u32::MAX));
    assert_eq!(c.record_page(vec![entry("b", "y", Some("b"))]), None);
    assert_eq!(c.next_action(), CrawlAction::Done);

    let mut c = PageCrawl::for_pages(u32::MAX, 2, 0);
    assert_eq!(c.next_action(), CrawlAction::Fetch(u32::MAX));
    assert_eq!(c.record_page(vec![]), None);
    assert_eq!(c.next_action(), CrawlAction::PageOverflow);
}
