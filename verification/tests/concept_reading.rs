use jisho_scraper::dom::{DomEdge, DomNode};
use jisho_scraper::jisho::{words_from_concepts, Concept, ConceptMatches, WordEntry};

/// A small tree, written as nested elements and texts.
enum T {
    E(&'static str, Vec<T>),
    X(&'static str),
}

fn edges_of(t: &T, out: &mut Vec<DomEdge>) {
    match t {
        T::E(name, kids) => {
            out.push(DomEdge::Open(DomNode::Element(name.to_string())));
            for k in kids {
                edges_of(k, out);
            }
            out.push(DomEdge::Close);
        }
        T::X(text) => {
            out.push(DomEdge::Open(DomNode::Text(text.to_string())));
            out.push(DomEdge::Close);
        }
    }
}

/// Flags for every element named `name` (standing in for a selector).
fn flags(edges: &[DomEdge], name: &str) -> Vec<bool> {
    edges
        .iter()
        .map(|e| matches!(e, DomEdge::Open(DomNode::Element(n)) if n == name))
        .collect()
}

fn concept(tree: T) -> Concept {
    let mut edges = Vec::new();
    edges_of(&tree, &mut edges);
    let matches = ConceptMatches {
        word: flags(&edges, "word"),
        furigana: flags(&edges, "furi"),
        meaning: flags(&edges, "meaning"),
        sentence: flags(&edges, "sentence"),
        sentence_japanese: flags(&edges, "ul"),
        sentence_english: flags(&edges, "english"),
        sentence_furigana: flags(&edges, "sfuri"),
        sentence_unlinked: flags(&edges, "unlinked"),
    };
    Concept { edges, matches }
}

fn read(tree: T) -> Vec<WordEntry> {
    words_from_concepts(&vec![concept(tree)])
}

use T::{E, X};

#[test]
fn word_and_definition_are_first_matches() {
    let entries = read(E("div", vec![
        E("word", vec![X(" 犬 ")]),
        E("word", vec![X("猫")]),
        E("meaning", vec![X("dog,\n  hound")]),
        E("meaning", vec![X("cat")]),
    ]));
    assert_eq!(entries.len(), 1);
    assert_eq!(entries[0].word, "犬");
    assert_eq!(entries[0].reading, "犬");
    assert_eq!(entries[0].definition, "dog, hound");
    assert!(entries[0].example.is_none());
}

#[test]
fn reading_loses_its_spaces() {
    let entries = read(E("div", vec![
        E("furi", vec![E("span", vec![X(" いぬ ")]), X("\n"), E("span", vec![X("ころ")])]),
        E("word", vec![X("犬")]),
        E("meaning", vec![X("dog")]),
    ]));
    assert_eq!(entries[0].reading, "いぬころ");
}

#[test]
fn concept_without_word_or_meaning_yields_nothing() {
    assert!(read(E("div", vec![E("word", vec![X("犬")])])).is_empty());
    assert!(read(E("div", vec![E("meaning", vec![X("dog")])])).is_empty());
    assert!(read(E("div", vec![E("word", vec![X("  ")]), E("meaning", vec![X("dog")])])).is_empty());
    assert!(words_from_concepts(&vec![Concept {
        edges: Vec::new(),
        matches: ConceptMatches {
            word: vec![],
            furigana: vec![],
            meaning: vec![],
            sentence: vec![],
            sentence_japanese: vec![],
            sentence_english: vec![],
            sentence_furigana: vec![],
            sentence_unlinked: vec![],
        },
    }])
    .is_empty());
}

fn with_sentence(sentence: T) -> Vec<WordEntry> {
    read(E("div", vec![
        E("word", vec![X("食べる")]),
        E("meaning", vec![X("to eat")]),
        sentence,
    ]))
}

#[test]
fn example_lines_are_read_from_the_list_items() {
    let entries = with_sentence(E("sentence", vec![
        E("ul", vec![
            E("li", vec![E("sfuri", vec![X("ご")]), E("unlinked", vec![X("ご")])]),
            E("li", vec![E("sfuri", vec![X("はん")]), E("unlinked", vec![X("飯")])]),
            E("li", vec![E("unlinked", vec![X("を")])]),
            E("li", vec![E("sfuri", vec![X("た")]), E("unlinked", vec![X("食べる")])]),
            X(" 。 "),
        ]),
        E("english", vec![X("  I eat\n rice. ")]),
    ]));
    let ex = entries[0].example.as_ref().expect("example");
    assert_eq!(ex.japanese, "ご飯を食べる。");
    assert_eq!(ex.reading, "ごはんをたべる。");
    assert_eq!(ex.english, "I eat rice.");
}

#[test]
fn non_li_children_and_li_without_spans() {
    let entries = with_sentence(E("sentence", vec![
        E("ul", vec![
            E("span", vec![X("無視")]),
            E("li", vec![X("パン を")]),
            X("食べた"),
        ]),
        E("english", vec![X("Ate bread.")]),
    ]));
    let ex = entries[0].example.as_ref().expect("example");
    assert_eq!(ex.japanese, "パンを食べた");
    assert_eq!(ex.reading, "パンを食べた");
}

#[test]
fn example_needs_both_lines_and_text() {
    let no_english = with_sentence(E("sentence", vec![E("ul", vec![X("あ")])]));
    assert!(no_english[0].example.is_none());
    let no_japanese = with_sentence(E("sentence", vec![E("english", vec![X("A")])]));
    assert!(no_japanese[0].example.is_none());
    let empty_english = with_sentence(E("sentence", vec![E("ul", vec![X("あ")]), E("english", vec![X(" ")])]));
    assert!(empty_english[0].example.is_none());
    let empty_japanese = with_sentence(E("sentence", vec![E("ul", vec![X("  ")]), E("english", vec![X("A")])]));
    assert!(empty_japanese[0].example.is_none());
}

#[test]
fn only_the_first_sentence_counts() {
    let entries = read(E("div", vec![
        E("word", vec![X("水")]),
        E("meaning", vec![X("water")]),
        E("sentence", vec![E("ul", vec![X("水")])]),
        E("sentence", vec![E("ul", vec![X("水だ")]), E("english", vec![X("Water.")])]),
    ]));
    assert!(entries[0].example.is_none());
}

#[test]
fn several_concepts_in_order() {
    let a = concept(E("div", vec![E("word", vec![X("一")]), E("meaning", vec![X("one")])]));
    let b = concept(E("div", vec![E("word", vec![X("二")])]));
    let c = concept(E("div", vec![E("word", vec![X("三")]), E("meaning", vec![X("three")])]));
    let entries = words_from_concepts(&vec![a, b, c]);
    let words: Vec<&str> = entries.iter().map(|e| e.word.as_str()).collect();
    assert_eq!(words, ["一", "三"]);
}
