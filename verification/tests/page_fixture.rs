use jisho_scraper::jisho::{parse_words_from_html, WordEntry};
use jisho_scraper::sensei_cloze::{build_vocab_cloze_deck, BankFrom, ClozeBuildOptions};

/// A result page in the markup Jisho uses: one word with an example
/// sentence, one without, and one concept without a definition.
const PAGE: &str = r#"<!DOCTYPE html>
<html><head><title>jlpt-n5</title></head><body>
<div id="primary"><div class="concepts">
 <div class="concept_light clearfix">
  <div class="concept_light-wrapper"><div class="concept_light-readings">
   <div class="concept_light-representation">
    <span class="furigana"><span class="kanji-2-up kanji">がっ</span><span class="kanji-2-up kanji">こう</span></span>
    <span class="text">
      学<span>校</span>
    </span>
   </div>
  </div></div>
  <div class="concept_light-meanings">
   <div class="meanings-wrapper"><div class="meaning-wrapper"><div class="meaning-definition">
    <span class="meaning-definition-section_divider">1. </span><span class="meaning-meaning">school</span>
   </div></div></div>
  </div>
 </div>
 <div class="concept_light clearfix">
  <div class="concept_light-wrapper"><div class="concept_light-readings">
   <div class="concept_light-representation">
    <span class="furigana"><span class="kanji-1-up kanji">かわ</span></span>
    <span class="text">川</span>
   </div>
  </div></div>
  <div class="concept_light-meanings">
   <div class="meanings-wrapper"><div class="meaning-wrapper"><div class="meaning-definition">
    <span class="meaning-definition-section_divider">1. </span><span class="meaning-meaning">river;   stream</span>
    <span class="supplemental_info"></span>
    <div class="sentences"><div class="sentence">
     <ul class="japanese japanese_gothic clearfix" lang="ja">
      <li class="clearfix"><span class="unlinked">この</span></li>
      <li class="clearfix"><span class="furigana">かわ</span><span class="unlinked">川</span></li>
      <li class="clearfix"><span class="unlinked">は</span></li>
      <li class="clearfix"><span class="unlinked">あの</span></li>
      <li class="clearfix"><span class="furigana">かわ</span><span class="unlinked">川</span></li>
      <li class="clearfix"><span class="unlinked">の</span></li>
      <li class="clearfix"><span class="furigana">さんばい</span><span class="unlinked">３倍</span></li>
      <li class="clearfix"><span class="furigana">なが</span><span class="unlinked">長い</span></li>
      。
     </ul>
     <div class="english_sentence clearfix"><span class="english">This river is three times longer than that one.</span></div>
    </div></div>
   </div></div></div>
  </div>
 </div>
 <div class="concept_light clearfix">
  <div class="concept_light-wrapper"><div class="concept_light-readings">
   <div class="concept_light-representation"><span class="text">空</span></div>
  </div></div>
  <div class="concept_light-meanings"></div>
 </div>
</div></div>
</body></html>"#;

fn entries() -> Vec<WordEntry> {
    parse_words_from_html(PAGE).expect("page should parse")
}

#[test]
fn parses_known_words_from_inline_page() {
    let entries = entries();
    assert_eq!(entries.len(), 2);

    let gakkou = entries.iter().find(|e| e.word == "学校").expect("学校");
    assert_eq!(gakkou.reading, "がっこう");
    assert_eq!(gakkou.definition, "school");
    assert!(gakkou.example.is_none());

    let kawa = entries.iter().find(|e| e.word == "川").expect("川");
    assert_eq!(kawa.reading, "かわ");
    assert_eq!(kawa.definition, "river; stream");
    let example = kawa.example.as_ref().expect("川 should have an example");
    assert_eq!(example.japanese, "この川はあの川の３倍長い。");
    assert_eq!(example.reading, "このかわはあのかわのさんばいながい。");
    assert_eq!(example.english, "This river is three times longer than that one.");
}

#[test]
fn concept_without_definition_is_skipped() {
    assert!(entries().iter().all(|e| e.word != "空"));
}

#[test]
fn page_without_concepts_gives_no_entries() {
    let entries = parse_words_from_html("<html><body><p>nothing</p></body></html>").unwrap();
    assert!(entries.is_empty());
}

#[test]
fn reading_falls_back_to_word() {
    let page = r#"<div class="concepts"><div class="concept_light">
        <div class="concept_light-representation"><span class="text">ペン</span></div>
        <div class="concept_light-meanings"><span class="meaning-meaning">pen</span></div>
    </div></div>"#;
    let entries = parse_words_from_html(page).unwrap();
    assert_eq!(entries.len(), 1);
    assert_eq!(entries[0].reading, "ペン");
    assert!(entries[0].example.is_none());
}

#[test]
fn exports_cloze_deck_with_blank_and_tags_inline() {
    let deck = build_vocab_cloze_deck(
        "n5-vocab-1".to_string(),
        "N5 — Vocab (cloze)".to_string(),
        "Complète avec le bon mot.".to_string(),
        entries(),
        ClozeBuildOptions {
            seed: Some(0),
            max_cards: None,
            bank_from: BankFrom::Examples,
            require_word_in_example: true,
            tag: "jlpt-n5".to_string(),
        },
    );

    let kawa = deck
        .cards
        .iter()
        .find(|c| c.expected.first().is_some_and(|w| w == "川"))
        .expect("川 card should exist");

    assert_eq!(kawa.prompt_jp, "この＿はあの川の３倍長い。");
    assert_eq!(kawa.context_fr, "river; stream");
    assert_eq!(kawa.tags, ["jlpt-n5"]);
    assert_eq!(kawa.card_local_id, "川-001");
    assert!(deck.bank.contains(&"川".to_string()));
    assert_eq!(deck.deck_type, "cloze");
    assert_eq!(deck.cloze_subtype, "vocab");
}

#[test]
fn bank_from_all_includes_words_without_examples_inline() {
    let deck = build_vocab_cloze_deck(
        "n5-vocab-1".to_string(),
        "N5 — Vocab (cloze)".to_string(),
        "Complète avec le bon mot.".to_string(),
        entries(),
        ClozeBuildOptions {
            seed: None,
            max_cards: Some(1),
            bank_from: BankFrom::All,
            require_word_in_example: true,
            tag: "jlpt-n5".to_string(),
        },
    );

    assert!(deck.bank.contains(&"学校".to_string()));
    assert_eq!(deck.cards.len(), 1);
}

#[test]
fn every_entry_of_a_page_is_complete() {
    for e in entries() {
        assert!(!e.word.is_empty() && !e.reading.is_empty() && !e.definition.is_empty());
        if let Some(x) = e.example {
            assert!(!x.japanese.is_empty() && !x.reading.is_empty() && !x.english.is_empty());
        }
    }
}
