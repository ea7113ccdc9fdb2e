//! Jisho JLPT word lists: the search URL of a page, and the word entries that
//! a result page lists.
use vstd::prelude::*;
use vstd::string::StringSliceAdditionalSpecFns;

use crate::dom::{
    css_scoped_match_flags, css_select_traversals, css_selector_parses, describe_selector_error,
    find_first_inside, node_end, node_text, first_inside, collect_node_text, find_node_end,
    scoped_match_flags, select_traversals, lemma_node_end_bounds, CssSelector, DomEdge,
    DomEdgeView, DomNode, DomNodeView, HtmlDocument,
};
use crate::text::{
    in_collapsed_shape, lemma_collapse_empty, lemma_collapse_keeps_text, lemma_collapse_shape,
    ascii_lowercase, chars_of, lemma_decimal_all_digits, collapse_white_space, decimal, is_white_space, is_whitespace,
    push_all, push_char, push_decimal, remove_whitespace, string_of, to_ascii_lowercase, trim,
    trim_end, trim_start, trimmed, without_white_space,
};

verus! {

broadcast use vstd::string::group_string_axioms;

/// One word of a JLPT list.
#[derive(Debug, Clone, PartialEq, Eq)]
pub struct WordEntry {
    /// Kanji / surface form.
    pub word: String,
    /// Kana reading.
    pub reading: String,
    /// First English definition.
    pub definition: String,
    /// One example sentence, when the page gives a usable one.
    pub example: Option<ExampleSentence>,
}

/// An example sentence: its surface form, its reading, and its translation.
#[derive(Debug, Clone, PartialEq, Eq)]
pub struct ExampleSentence {
    pub japanese: String,
    pub reading: String,
    pub english: String,
}

/// The mathematical value of an [`ExampleSentence`].
pub struct ExampleView {
    pub japanese: Seq<char>,
    pub reading: Seq<char>,
    pub english: Seq<char>,
}

/// The mathematical value of a [`WordEntry`].
pub struct WordEntryView {
    pub word: Seq<char>,
    pub reading: Seq<char>,
    pub definition: Seq<char>,
    pub example: Option<ExampleView>,
}

impl View for ExampleSentence {
    type V = ExampleView;

    open spec fn view(&self) -> ExampleView {
        ExampleView { japanese: self.japanese@, reading: self.reading@, english: self.english@ }
    }
}

impl DeepView for ExampleSentence {
    type V = ExampleView;

    open spec fn deep_view(&self) -> ExampleView {
        self@
    }
}

impl View for WordEntry {
    type V = WordEntryView;

    open spec fn view(&self) -> WordEntryView {
        WordEntryView {
            word: self.word@,
            reading: self.reading@,
            definition: self.definition@,
            example: match self.example {
                Some(x) => Some(x@),
                None => None,
            },
        }
    }
}

impl DeepView for WordEntry {
    type V = WordEntryView;

    open spec fn deep_view(&self) -> WordEntryView {
        self@
    }
}

// ---------------------------------------------------------------------------
// Search URL
// ---------------------------------------------------------------------------

/// The part of every JLPT search URL before the level number.
pub const SEARCH_URL_HEAD: &'static str = "https://jisho.org/search/%20%23words%20%23jlpt-n";

/// The part of every JLPT search URL between the level number and the page.
pub const SEARCH_URL_PAGE: &'static str = "?page=";

/// `s` without `prefix`, if it starts with it (`str::strip_prefix(..).unwrap_or(s)`).
pub open spec fn without_prefix(s: Seq<char>, prefix: Seq<char>) -> Seq<char> {
    if prefix.len() <= s.len() && s.subrange(0, prefix.len() as int) == prefix {
        s.skip(prefix.len() as int)
    } else {
        s
    }
}

/// The level as it goes into the URL: trimmed, lowercased, and without a
/// leading `jlpt-` and then a leading `n`.
pub open spec fn level_code(level: Seq<char>) -> Seq<char> {
    without_prefix(
        without_prefix(ascii_lowercase(trimmed(level)), seq!['j', 'l', 'p', 't', '-']),
        seq!['n'],
    )
}

/// The Jisho search URL of one page of a JLPT level's word list.
pub open spec fn search_url(level: Seq<char>, page: u32) -> Seq<char> {
    SEARCH_URL_HEAD@ + level_code(level) + SEARCH_URL_PAGE@ + decimal(page as nat)
}

/// The level code of `jlpt_level` as it goes into the URL (`n5`, `N5`,
/// `jlpt-n5` and `5` all give `5`).
pub fn jlpt_level_code(jlpt_level: &str) -> (code: String)
    ensures
        code@ == level_code(jlpt_level@),
{
    let t = trim(jlpt_level);
    let l = to_ascii_lowercase(t.as_str());
    let v = chars_of(l.as_str());
    let ghost lowered = ascii_lowercase(trimmed(jlpt_level@));
    let mut start: usize = 0;
    if v.len() >= 5 && v[0] == 'j' && v[1] == 'l' && v[2] == 'p' && v[3] == 't' && v[4] == '-' {
        assert(v@.subrange(0, 5) == seq!['j', 'l', 'p', 't', '-']);
        start = 5;
    } else {
        assert(!(5 <= v@.len() && v@.subrange(0, 5) == seq!['j', 'l', 'p', 't', '-'])) by {
            if 5 <= v@.len() && v@.subrange(0, 5) == seq!['j', 'l', 'p', 't', '-'] {
                assert(v@.subrange(0, 5)[0] == v@[0]);
                assert(v@.subrange(0, 5)[1] == v@[1]);
                assert(v@.subrange(0, 5)[2] == v@[2]);
                assert(v@.subrange(0, 5)[3] == v@[3]);
                assert(v@.subrange(0, 5)[4] == v@[4]);
            }
        }
        assert(v@.skip(0) == v@);
    }
    let ghost once = without_prefix(lowered, seq!['j', 'l', 'p', 't', '-']);
    assert(once == v@.skip(start as int));
    if start < v.len() && v[start] == 'n' {
        assert(once.subrange(0, 1) == seq!['n']);
        assert(once.skip(1) == v@.skip(start + 1));
        start = start + 1;
    } else {
        assert(!(1 <= once.len() && once.subrange(0, 1) == seq!['n'])) by {
            if 1 <= once.len() && once.subrange(0, 1) == seq!['n'] {
                assert(once.subrange(0, 1)[0] == once[0]);
            }
        }
    }
    assert(level_code(jlpt_level@) == v@.subrange(start as int, v@.len() as int));
    string_of(&v, start, v.len())
}

/// The Jisho search URL of page `page` of the word list of `jlpt_level`
/// (`n5`, `N5`, `jlpt-n5`, `5`, ... all name the same level).
pub fn jlpt_search_url(jlpt_level: &str, page: u32) -> (url: String)
    ensures
        url@ == search_url(jlpt_level@, page),
{
    let code = jlpt_level_code(jlpt_level);
    let mut url = String::new();
    push_all(&mut url, SEARCH_URL_HEAD);
    push_all(&mut url, code.as_str());
    push_all(&mut url, SEARCH_URL_PAGE);
    push_decimal(&mut url, page as u64);
    url
}

// ---------------------------------------------------------------------------
// Text helpers
// ---------------------------------------------------------------------------

/// Hiragana, Katakana, and Katakana Phonetic Extensions.
pub open spec fn is_kana_char(c: char) -> bool {
    ||| ('\u{3040}' <= c && c <= '\u{309F}')
    ||| ('\u{30A0}' <= c && c <= '\u{30FF}')
    ||| ('\u{31F0}' <= c && c <= '\u{31FF}')
}

/// The kana of `s` (and the prolonged sound mark), in order.
pub open spec fn kana_filter(s: Seq<char>) -> Seq<char>
    decreases s.len(),
{
    if s.len() == 0 {
        seq![]
    } else if is_kana_char(s.last()) || s.last() == 'ー' {
        kana_filter(s.drop_last()).push(s.last())
    } else {
        kana_filter(s.drop_last())
    }
}

/// The length of the longest common prefix of `a` and `b`.
pub open spec fn common_prefix_len(a: Seq<char>, b: Seq<char>) -> nat
    decreases a.len(),
{
    if a.len() == 0 || b.len() == 0 || a[0] != b[0] {
        0
    } else {
        1 + common_prefix_len(a.drop_first(), b.drop_first())
    }
}

/// `kana` without the prefix it shares with `base`.
pub open spec fn after_common_prefix(base: Seq<char>, kana: Seq<char>) -> Seq<char> {
    kana.skip(common_prefix_len(base, kana) as int)
}

/// Whether `ch` is kana.
pub fn is_kana(ch: char) -> (b: bool)
    ensures
        b == is_kana_char(ch),
{
    ('\u{3040}' <= ch && ch <= '\u{309F}') || ('\u{30A0}' <= ch && ch <= '\u{30FF}') || (
    '\u{31F0}' <= ch && ch <= '\u{31FF}')
}

/// The kana of `s` (and the prolonged sound mark `ー`), in order.
pub fn kana_only(s: &str) -> (r: String)
    ensures
        r@ == kana_filter(s@),
{
    let mut r = String::new();
    for c in it: s.chars()
        invariant
            it.seq() == s@,
            r@ == kana_filter(s@.take(it.index() as int)),
    {
        assert(c == s@[it.index() as int]);
        assert(s@.take(it.index() + 1).drop_last() == s@.take(it.index() as int));
        if is_kana(c) || c == 'ー' {
            push_char(&mut r, c);
        }
    }
    assert(s@.take(s@.len() as int) == s@);
    r
}

/// The common prefix length is the first index where the sequences differ.
pub proof fn lemma_common_prefix_len(a: Seq<char>, b: Seq<char>, k: int)
    requires
        0 <= k <= a.len(),
        k <= b.len(),
        forall|j: int| 0 <= j < k ==> a[j] == b[j],
        k == a.len() || k == b.len() || a[k] != b[k],
    ensures
        common_prefix_len(a, b) == k,
    decreases k,
{
    if k > 0 {
        lemma_common_prefix_len(a.drop_first(), b.drop_first(), k - 1);
    }
}

/// `kana` without the prefix it shares with `base`.
pub fn strip_common_prefix(base: &str, kana: &str) -> (r: String)
    ensures
        r@ == after_common_prefix(base@, kana@),
{
    let b = chars_of(base);
    let k = chars_of(kana);
    let mut n: usize = 0;
    while n < k.len() && n < b.len() && b[n] == k[n]
        invariant
            n <= k.len(),
            n <= b.len(),
            forall|j: int| 0 <= j < n ==> b@[j] == k@[j],
        decreases k.len() - n,
    {
        n = n + 1;
    }
    proof {
        lemma_common_prefix_len(b@, k@, n as int);
    }
    string_of(&k, n, k.len())
}

/// `s` with its white-space runs collapsed to single spaces and trimmed.
pub fn collapse_whitespace(s: &str) -> (r: String)
    ensures
        r@ == collapse_white_space(s@),
{
    let mut out = String::new();
    let mut prev_was_space = false;
    for ch in it: s.chars()
        invariant
            it.seq() == s@,
            out@ == collapse_white_space(s@.take(it.index() as int)),
            prev_was_space == (it.index() > 0 && is_white_space(s@[it.index() - 1])),
    {
        let ghost i = it.index() as int;
        assert(ch == s@[i]);
        assert(s@.take(i + 1).drop_last() == s@.take(i));
        if is_whitespace(ch) {
            prev_was_space = true;
        } else {
            if prev_was_space && out.as_str().unicode_len() > 0 {
                push_char(&mut out, ' ');
            }
            prev_was_space = false;
            push_char(&mut out, ch);
        }
    }
    assert(s@.take(s@.len() as int) == s@);
    out
}

// ---------------------------------------------------------------------------
// Reading a result page
// ---------------------------------------------------------------------------

/// Each word of a result page.
pub const CONCEPT_SELECTOR: &'static str = "div.concepts div.concept_light";

/// The surface form of a word, inside its concept.
pub const WORD_SELECTOR: &'static str = "div.concept_light-representation span.text";

/// The reading of a word, inside its concept.
pub const FURIGANA_SELECTOR: &'static str = "div.concept_light-representation span.furigana";

/// A meaning of a word, inside its concept.
pub const MEANING_SELECTOR: &'static str = "div.concept_light-meanings span.meaning-meaning";

/// An example sentence, inside a concept.
pub const SENTENCE_SELECTOR: &'static str = "div.concept_light-meanings div.sentence";

/// The Japanese line of an example sentence, inside the sentence.
pub const SENTENCE_JAPANESE_SELECTOR: &'static str = "ul.japanese";

/// The English line of an example sentence, inside the sentence.
pub const SENTENCE_ENGLISH_SELECTOR: &'static str = "span.english";

/// The reading of a word of an example sentence, inside the word.
pub const SENTENCE_FURIGANA_SELECTOR: &'static str = "span.furigana";

/// The written form of a word of an example sentence, inside the word.
pub const SENTENCE_UNLINKED_SELECTOR: &'static str = "span.unlinked";

/// Which of the page's selectors is meant.
#[derive(Debug, Clone, Copy, PartialEq, Eq)]
pub enum SelectorRole {
    Concept,
    Word,
    Furigana,
    Meaning,
    Sentence,
    SentenceJapanese,
    SentenceEnglish,
    SentenceFurigana,
    SentenceUnlinked,
}

/// The text of the selector of `role`.
pub open spec fn role_selector(role: SelectorRole) -> Seq<char> {
    match role {
        SelectorRole::Concept => CONCEPT_SELECTOR@,
        SelectorRole::Word => WORD_SELECTOR@,
        SelectorRole::Furigana => FURIGANA_SELECTOR@,
        SelectorRole::Meaning => MEANING_SELECTOR@,
        SelectorRole::Sentence => SENTENCE_SELECTOR@,
        SelectorRole::SentenceJapanese => SENTENCE_JAPANESE_SELECTOR@,
        SelectorRole::SentenceEnglish => SENTENCE_ENGLISH_SELECTOR@,
        SelectorRole::SentenceFurigana => SENTENCE_FURIGANA_SELECTOR@,
        SelectorRole::SentenceUnlinked => SENTENCE_UNLINKED_SELECTOR@,
    }
}

/// The position of `role` in the order in which the selectors are parsed.
pub open spec fn role_rank(role: SelectorRole) -> nat {
    match role {
        SelectorRole::Concept => 0,
        SelectorRole::Word => 1,
        SelectorRole::Furigana => 2,
        SelectorRole::Meaning => 3,
        SelectorRole::Sentence => 4,
        SelectorRole::SentenceJapanese => 5,
        SelectorRole::SentenceEnglish => 6,
        SelectorRole::SentenceFurigana => 7,
        SelectorRole::SentenceUnlinked => 8,
    }
}

/// The short name of `role`.
pub open spec fn role_label(role: SelectorRole) -> Seq<char> {
    match role {
        SelectorRole::Concept => "concept"@,
        SelectorRole::Word => "word"@,
        SelectorRole::Furigana => "furigana"@,
        SelectorRole::Meaning => "meaning"@,
        SelectorRole::Sentence => "sentence"@,
        SelectorRole::SentenceJapanese => "sentence_japanese"@,
        SelectorRole::SentenceEnglish => "sentence_english"@,
        SelectorRole::SentenceFurigana => "sentence_furigana"@,
        SelectorRole::SentenceUnlinked => "sentence_unlinked"@,
    }
}

/// Every selector of the page is accepted.
pub open spec fn all_selectors_parse() -> bool {
    forall|r: SelectorRole| #[trigger] css_selector_parses(role_selector(r))
}

impl SelectorRole {
    /// The text of this role's selector.
    pub fn selector(&self) -> (s: &'static str)
        ensures
            s@ == role_selector(*self),
    {
        match self {
            SelectorRole::Concept => CONCEPT_SELECTOR,
            SelectorRole::Word => WORD_SELECTOR,
            SelectorRole::Furigana => FURIGANA_SELECTOR,
            SelectorRole::Meaning => MEANING_SELECTOR,
            SelectorRole::Sentence => SENTENCE_SELECTOR,
            SelectorRole::SentenceJapanese => SENTENCE_JAPANESE_SELECTOR,
            SelectorRole::SentenceEnglish => SENTENCE_ENGLISH_SELECTOR,
            SelectorRole::SentenceFurigana => SENTENCE_FURIGANA_SELECTOR,
            SelectorRole::SentenceUnlinked => SENTENCE_UNLINKED_SELECTOR,
        }
    }

    /// A short name of this role, for messages.
    pub fn label(&self) -> (s: &'static str)
        ensures
            s@ == role_label(*self),
    {
        match self {
            SelectorRole::Concept => "concept",
            SelectorRole::Word => "word",
            SelectorRole::Furigana => "furigana",
            SelectorRole::Meaning => "meaning",
            SelectorRole::Sentence => "sentence",
            SelectorRole::SentenceJapanese => "sentence_japanese",
            SelectorRole::SentenceEnglish => "sentence_english",
            SelectorRole::SentenceFurigana => "sentence_furigana",
            SelectorRole::SentenceUnlinked => "sentence_unlinked",
        }
    }
}

/// Why a page could not be read.
#[derive(Debug, Clone, PartialEq, Eq)]
pub enum ScrapeError {
    /// The selector of `role` was refused; `detail` says why.
    InvalidSelector { role: SelectorRole, detail: String },
}

/// Which elements inside one concept each of the inner selectors matches:
/// one flag per edge of the concept's traversal.
#[derive(Debug, Clone)]
pub struct ConceptMatches {
    pub word: Vec<bool>,
    pub furigana: Vec<bool>,
    pub meaning: Vec<bool>,
    pub sentence: Vec<bool>,
    pub sentence_japanese: Vec<bool>,
    pub sentence_english: Vec<bool>,
    pub sentence_furigana: Vec<bool>,
    pub sentence_unlinked: Vec<bool>,
}

/// The mathematical value of a [`ConceptMatches`].
pub struct MatchSets {
    pub word: Seq<bool>,
    pub furigana: Seq<bool>,
    pub meaning: Seq<bool>,
    pub sentence: Seq<bool>,
    pub sentence_japanese: Seq<bool>,
    pub sentence_english: Seq<bool>,
    pub sentence_furigana: Seq<bool>,
    pub sentence_unlinked: Seq<bool>,
}

impl View for ConceptMatches {
    type V = MatchSets;

    open spec fn view(&self) -> MatchSets {
        MatchSets {
            word: self.word@,
            furigana: self.furigana@,
            meaning: self.meaning@,
            sentence: self.sentence@,
            sentence_japanese: self.sentence_japanese@,
            sentence_english: self.sentence_english@,
            sentence_furigana: self.sentence_furigana@,
            sentence_unlinked: self.sentence_unlinked@,
        }
    }
}

/// One `div.concept_light` element as the scraper reads it: its traversal
/// and what the inner selectors match in it.
#[derive(Debug, Clone)]
pub struct Concept {
    pub edges: Vec<DomEdge>,
    pub matches: ConceptMatches,
}

/// The mathematical value of a [`Concept`].
pub struct ConceptView {
    pub edges: Seq<DomEdgeView>,
    pub matches: MatchSets,
}

impl View for Concept {
    type V = ConceptView;

    open spec fn view(&self) -> ConceptView {
        ConceptView { edges: self.edges.deep_view(), matches: self.matches@ }
    }
}

impl DeepView for Concept {
    type V = ConceptView;

    open spec fn deep_view(&self) -> ConceptView {
        self@
    }
}

/// How a line of an example sentence is read off its words.
#[derive(Debug, Clone, Copy, PartialEq, Eq)]
pub enum SentenceMode {
    /// The written form.
    Surface,
    /// The kana reading.
    Reading,
}

/// The text of the element opened at `p`, white space collapsed.
pub open spec fn compact_text(e: Seq<DomEdgeView>, p: int) -> Seq<char> {
    collapse_white_space(node_text(e, p))
}

/// The text of the element opened at `p`, white space removed.
pub open spec fn bare_text(e: Seq<DomEdgeView>, p: int) -> Seq<char> {
    without_white_space(node_text(e, p))
}

/// What the `li` element opened at `c` contributes to a line of an example
/// sentence.
pub open spec fn li_piece(e: Seq<DomEdgeView>, m: MatchSets, c: int, mode: SentenceMode) -> Seq<
    char,
> {
    let unlinked = first_inside(e, m.sentence_unlinked, c);
    match mode {
        SentenceMode::Surface => match unlinked {
            Some(u) => bare_text(e, u),
            None => bare_text(e, c),
        },
        SentenceMode::Reading => match first_inside(e, m.sentence_furigana, c) {
            Some(f) => match unlinked {
                Some(u) => bare_text(e, f) + after_common_prefix(
                    bare_text(e, f),
                    kana_filter(bare_text(e, u)),
                ),
                None => bare_text(e, f),
            },
            None => match unlinked {
                Some(u) => bare_text(e, u),
                None => bare_text(e, c),
            },
        },
    }
}

/// What the child node opened at `c` contributes to a line of an example
/// sentence: a text node its text without white space, an `li` element its
/// word, anything else nothing.
pub open spec fn child_piece(e: Seq<DomEdgeView>, m: MatchSets, c: int, mode: SentenceMode) -> Seq<
    char,
> {
    match e[c] {
        DomEdgeView::Open(DomNodeView::Text(t)) => without_white_space(t),
        DomEdgeView::Open(DomNodeView::Element(name)) => if name == seq!['l', 'i'] {
            li_piece(e, m, c, mode)
        } else {
            seq![]
        },
        _ => seq![],
    }
}

/// The pieces of the child nodes that open in `[i, end)`, in order.
pub open spec fn children_line(
    e: Seq<DomEdgeView>,
    m: MatchSets,
    i: int,
    end: int,
    mode: SentenceMode,
) -> Seq<char>
    decreases end - i,
    via children_line_decreases
{
    if i < 0 || i >= end || i >= e.len() {
        seq![]
    } else {
        match e[i] {
            DomEdgeView::Open(_) => {
                let next = node_end(e, i) + 1;
                child_piece(e, m, i, mode) + if next < end {
                    children_line(e, m, next, end, mode)
                } else {
                    seq![]
                }
            },
            DomEdgeView::Close => children_line(e, m, i + 1, end, mode),
        }
    }
}

#[via_fn]
proof fn children_line_decreases(
    e: Seq<DomEdgeView>,
    m: MatchSets,
    i: int,
    end: int,
    mode: SentenceMode,
) {
    if 0 <= i < e.len() {
        lemma_node_end_bounds(e, i);
    }
}

/// A line of the example sentence whose `ul.japanese` element opens at `ul`.
pub open spec fn sentence_line(e: Seq<DomEdgeView>, m: MatchSets, ul: int, mode: SentenceMode) -> Seq<
    char,
> {
    children_line(e, m, ul + 1, node_end(e, ul), mode)
}

/// The example read off the sentence element opened at `s`, if it has a
/// Japanese line, an English line, and all three texts are non-empty.
pub open spec fn example_at(e: Seq<DomEdgeView>, m: MatchSets, s: int) -> Option<ExampleView> {
    match (first_inside(e, m.sentence_japanese, s), first_inside(e, m.sentence_english, s)) {
        (Some(ul), Some(en)) => {
            let english = compact_text(e, en);
            let japanese = sentence_line(e, m, ul, SentenceMode::Surface);
            let reading = sentence_line(e, m, ul, SentenceMode::Reading);
            if english.len() == 0 || japanese.len() == 0 || reading.len() == 0 {
                None
            } else {
                Some(ExampleView { japanese, reading, english })
            }
        },
        _ => None,
    }
}

/// The text of the first element inside the concept that `f` flags,
/// white space collapsed, or nothing.
pub open spec fn first_compact(e: Seq<DomEdgeView>, f: Seq<bool>) -> Seq<char> {
    match first_inside(e, f, 0) {
        Some(i) => compact_text(e, i),
        None => seq![],
    }
}

/// The entry a concept yields: none if its word or its definition is empty;
/// the reading falls back to the word.
pub open spec fn concept_entry(c: ConceptView) -> Option<WordEntryView> {
    let e = c.edges;
    let m = c.matches;
    let word = first_compact(e, m.word);
    let given_reading = match first_inside(e, m.furigana, 0) {
        Some(i) => bare_text(e, i),
        None => seq![],
    };
    let reading = if given_reading.len() == 0 {
        word
    } else {
        given_reading
    };
    let definition = first_compact(e, m.meaning);
    if word.len() == 0 || definition.len() == 0 {
        None
    } else {
        Some(
            WordEntryView {
                word,
                reading,
                definition,
                example: match first_inside(e, m.sentence, 0) {
                    Some(s) => example_at(e, m, s),
                    None => None,
                },
            },
        )
    }
}

/// The entries of the concepts, in order, skipping concepts without one.
pub open spec fn concept_entries(cs: Seq<ConceptView>) -> Seq<WordEntryView>
    decreases cs.len(),
{
    if cs.len() == 0 {
        seq![]
    } else {
        let before = concept_entries(cs.drop_last());
        match concept_entry(cs.last()) {
            Some(w) => before.push(w),
            None => before,
        }
    }
}

/// The flags of the `k`-th concept, or none if there are fewer.
pub open spec fn flags_of(all: Seq<Seq<bool>>, k: int) -> Seq<bool> {
    if 0 <= k < all.len() {
        all[k]
    } else {
        seq![]
    }
}

/// What the inner selector of `role` matches in each concept of `html`.
pub open spec fn page_flags(html: Seq<char>, role: SelectorRole) -> Seq<Seq<bool>> {
    css_scoped_match_flags(html, CONCEPT_SELECTOR@, role_selector(role))
}

/// The concepts of the page `html`, as the scraper reads them.
pub open spec fn page_concepts(html: Seq<char>) -> Seq<ConceptView> {
    let t = css_select_traversals(html, CONCEPT_SELECTOR@);
    Seq::new(
        t.len(),
        |k: int|
            ConceptView {
                edges: t[k],
                matches: MatchSets {
                    word: flags_of(page_flags(html, SelectorRole::Word), k),
                    furigana: flags_of(page_flags(html, SelectorRole::Furigana), k),
                    meaning: flags_of(page_flags(html, SelectorRole::Meaning), k),
                    sentence: flags_of(page_flags(html, SelectorRole::Sentence), k),
                    sentence_japanese: flags_of(page_flags(html, SelectorRole::SentenceJapanese), k),
                    sentence_english: flags_of(page_flags(html, SelectorRole::SentenceEnglish), k),
                    sentence_furigana: flags_of(page_flags(html, SelectorRole::SentenceFurigana), k),
                    sentence_unlinked: flags_of(page_flags(html, SelectorRole::SentenceUnlinked), k),
                },
            },
    )
}

/// The text of the element opened at `p`, white space collapsed.
pub fn element_text_compact(e: &Vec<DomEdge>, p: usize) -> (s: String)
    requires
        p < e.len(),
    ensures
        s@ == compact_text(e.deep_view(), p as int),
{
    let t = collect_node_text(e, p);
    collapse_whitespace(t.as_str())
}

/// The text of the element opened at `p`, white space removed.
pub fn element_text_compact_no_spaces(e: &Vec<DomEdge>, p: usize) -> (s: String)
    requires
        p < e.len(),
    ensures
        s@ == bare_text(e.deep_view(), p as int),
{
    let t = collect_node_text(e, p);
    remove_whitespace(t.as_str())
}

/// Whether `name` is `li`.
fn is_li(name: &String) -> (b: bool)
    ensures
        b == (name@ == seq!['l', 'i']),
{
    let v = chars_of(name.as_str());
    if v.len() == 2 && v[0] == 'l' && v[1] == 'i' {
        assert(v@ == seq!['l', 'i']);
        true
    } else {
        assert(v@ != seq!['l', 'i']) by {
            if v@ == seq!['l', 'i'] {
                assert(v@[0] == 'l' && v@[1] == 'i');
            }
        }
        false
    }
}

/// What the `li` element opened at `c` contributes to a line.
fn li_text(e: &Vec<DomEdge>, m: &ConceptMatches, c: usize, mode: SentenceMode) -> (s: String)
    requires
        c < e.len(),
    ensures
        s@ == li_piece(e.deep_view(), m@, c as int, mode),
{
    let unlinked = find_first_inside(e, &m.sentence_unlinked, c);
    match mode {
        SentenceMode::Surface => match unlinked {
            Some(u) => element_text_compact_no_spaces(e, u),
            None => element_text_compact_no_spaces(e, c),
        },
        SentenceMode::Reading => match find_first_inside(e, &m.sentence_furigana, c) {
            Some(f) => {
                let base = element_text_compact_no_spaces(e, f);
                match unlinked {
                    Some(u) => {
                        let kana = kana_only(element_text_compact_no_spaces(e, u).as_str());
                        let remainder = strip_common_prefix(base.as_str(), kana.as_str());
                        let mut out = base;
                        push_all(&mut out, remainder.as_str());
                        out
                    },
                    None => base,
                }
            },
            None => match unlinked {
                Some(u) => element_text_compact_no_spaces(e, u),
                None => element_text_compact_no_spaces(e, c),
            },
        },
    }
}

/// A line of the example sentence whose `ul.japanese` element opens at `ul`:
/// the pieces of its child nodes in order.
pub fn sentence_from_ul(e: &Vec<DomEdge>, m: &ConceptMatches, ul: usize, mode: SentenceMode) -> (s: String)
    requires
        ul < e.len(),
    ensures
        s@ == sentence_line(e.deep_view(), m@, ul as int, mode),
{
    let ghost ev = e.deep_view();
    let end = find_node_end(e, ul);
    let mut out = String::new();
    let mut i = ul + 1;
    while i < end
        invariant
            ul < i <= end,
            end <= e.len(),
            ev == e.deep_view(),
            end == node_end(ev, ul as int),
            out@ + children_line(ev, m@, i as int, end as int, mode) == sentence_line(
                ev,
                m@,
                ul as int,
                mode,
            ),
        decreases end - i,
    {
        match &e[i] {
            DomEdge::Open(node) => {
                let next = find_node_end(e, i);
                let ghost before = out@;
                match node {
                    DomNode::Text(t) => {
                        let piece = remove_whitespace(t.as_str());
                        push_all(&mut out, piece.as_str());
                    },
                    DomNode::Element(name) => {
                        if is_li(name) {
                            let piece = li_text(e, m, i, mode);
                            push_all(&mut out, piece.as_str());
                        }
                    },
                    DomNode::Other => {},
                }
                assert(out@ == before + child_piece(ev, m@, i as int, mode));
                assert(children_line(ev, m@, i as int, end as int, mode) == child_piece(
                    ev,
                    m@,
                    i as int,
                    mode,
                ) + children_line(ev, m@, next + 1, end as int, mode));
                assert(before + (child_piece(ev, m@, i as int, mode) + children_line(
                    ev,
                    m@,
                    next + 1,
                    end as int,
                    mode,
                )) == out@ + children_line(ev, m@, next + 1, end as int, mode));
                if next < end {
                    i = next + 1;
                } else {
                    i = end;
                }
            },
            DomEdge::Close => {
                i = i + 1;
            },
        }
    }
    assert(out@ + seq![] == out@);
    out
}

/// The written line of the example sentence at `ul`.
pub fn sentence_surface_from_ul(e: &Vec<DomEdge>, m: &ConceptMatches, ul: usize) -> (s: String)
    requires
        ul < e.len(),
    ensures
        s@ == sentence_line(e.deep_view(), m@, ul as int, SentenceMode::Surface),
{
    sentence_from_ul(e, m, ul, SentenceMode::Surface)
}

/// The kana line of the example sentence at `ul`.
pub fn sentence_reading_from_ul(e: &Vec<DomEdge>, m: &ConceptMatches, ul: usize) -> (s: String)
    requires
        ul < e.len(),
    ensures
        s@ == sentence_line(e.deep_view(), m@, ul as int, SentenceMode::Reading),
{
    sentence_from_ul(e, m, ul, SentenceMode::Reading)
}

/// The example read off the sentence element opened at `sentence`.
pub fn parse_example_sentence(e: &Vec<DomEdge>, m: &ConceptMatches, sentence: usize) -> (r: Option<
    ExampleSentence,
>)
    requires
        sentence < e.len(),
    ensures
        r.deep_view() == example_at(e.deep_view(), m@, sentence as int),
{
    let ul = match find_first_inside(e, &m.sentence_japanese, sentence) {
        Some(ul) => ul,
        None => return None,
    };
    let english = match find_first_inside(e, &m.sentence_english, sentence) {
        Some(en) => element_text_compact(e, en),
        None => return None,
    };
    if english.as_str().unicode_len() == 0 {
        return None;
    }
    let japanese = sentence_surface_from_ul(e, m, ul);
    let reading = sentence_reading_from_ul(e, m, ul);
    if japanese.as_str().unicode_len() == 0 || reading.as_str().unicode_len() == 0 {
        return None;
    }
    Some(ExampleSentence { japanese, reading, english })
}

/// The text of the first element inside the concept that `f` flags, white
/// space collapsed, or the empty string.
fn first_compact_text(e: &Vec<DomEdge>, f: &Vec<bool>) -> (s: String)
    ensures
        s@ == first_compact(e.deep_view(), f@),
{
    if e.len() == 0 {
        return String::new();
    }
    match find_first_inside(e, f, 0) {
        Some(i) => element_text_compact(e, i),
        None => String::new(),
    }
}

/// The entry that one concept yields, if any.
pub fn word_entry_from_concept(c: &Concept) -> (r: Option<WordEntry>)
    ensures
        r.deep_view() == concept_entry(c@),
{
    let e = &c.edges;
    let m = &c.matches;
    let word = first_compact_text(e, &m.word);
    let mut reading = if e.len() == 0 {
        String::new()
    } else {
        match find_first_inside(e, &m.furigana, 0) {
            Some(i) => element_text_compact_no_spaces(e, i),
            None => String::new(),
        }
    };
    if reading.as_str().unicode_len() == 0 {
        reading = word.clone();
    }
    let definition = first_compact_text(e, &m.meaning);
    if word.as_str().unicode_len() == 0 || definition.as_str().unicode_len() == 0 {
        return None;
    }
    let example = if e.len() == 0 {
        None
    } else {
        match find_first_inside(e, &m.sentence, 0) {
            Some(s) => parse_example_sentence(e, m, s),
            None => None,
        }
    };
    Some(WordEntry { word, reading, definition, example })
}

/// The entries of the concepts, in order.
pub fn words_from_concepts(concepts: &Vec<Concept>) -> (r: Vec<WordEntry>)
    ensures
        r.deep_view() == concept_entries(concepts.deep_view()),
{
    let mut out: Vec<WordEntry> = Vec::new();
    let mut k: usize = 0;
    while k < concepts.len()
        invariant
            k <= concepts.len(),
            out.deep_view() == concept_entries(concepts.deep_view().take(k as int)),
        decreases concepts.len() - k,
    {
        assert(concepts.deep_view().take(k + 1).drop_last() == concepts.deep_view().take(k as int));
        match word_entry_from_concept(&concepts[k]) {
            Some(w) => {
                out.push(w);
            },
            None => {},
        }
        k = k + 1;
    }
    assert(concepts.deep_view().take(concepts.len() as int) == concepts.deep_view());
    out
}

/// The entries that the page `html` lists, as the scraper reads them.
pub open spec fn words_on_page(html: Seq<char>) -> Seq<WordEntryView> {
    concept_entries(page_concepts(html))
}

/// Parses the selector of `role`.
fn parse_role(role: SelectorRole) -> (r: Result<CssSelector, ScrapeError>)
    ensures
        r is Ok <==> css_selector_parses(role_selector(role)),
        r matches Ok(c) ==> c.text() == role_selector(role),
        r matches Err(ScrapeError::InvalidSelector { role: failed, .. }) ==> failed == role,
{
    match CssSelector::parse(role.selector()) {
        Ok(c) => Ok(c),
        Err(e) => Err(ScrapeError::InvalidSelector { role, detail: describe_selector_error(&e) }),
    }
}

/// A copy of the flags of the `k`-th concept, or none if there are fewer.
fn flags_at(all: &Vec<Vec<bool>>, k: usize) -> (f: Vec<bool>)
    ensures
        f@ == flags_of(all.deep_view(), k as int),
{
    if k < all.len() {
        let mut f: Vec<bool> = Vec::new();
        let src = &all[k];
        let mut i: usize = 0;
        while i < src.len()
            invariant
                i <= src.len(),
                f@ == src@.take(i as int),
            decreases src.len() - i,
        {
            f.push(src[i]);
            i = i + 1;
            assert(f@ == src@.take(i as int));
        }
        assert(src@.take(src@.len() as int) == src@);
        f
    } else {
        Vec::new()
    }
}

/// The word entries listed on the result page `html`.
///
/// Each `div.concepts div.concept_light` element gives one entry, unless its
/// word or its definition is empty.  The word and the definition are the text
/// of the first matching element with white space collapsed, the reading the
/// text of the first furigana element without white space (or the word, if
/// that is empty), and the example the first example sentence that has a
/// Japanese and an English line, if all three of its texts are non-empty.
/// The page may hold at most `u32::MAX` bytes of UTF-8, the most the HTML
/// parser takes.
pub fn parse_words_from_html(html: &str) -> (r: Result<Vec<WordEntry>, ScrapeError>)
    requires
        html.spec_bytes().len() <= u32::MAX,
    ensures
        r is Ok <==> all_selectors_parse(),
        r matches Ok(w) ==> w.deep_view() == words_on_page(html@),
        r matches Ok(w) ==> forall|i: int|
            0 <= i < w.len() ==> #[trigger] entry_is_complete(w.deep_view()[i]),
        r matches Ok(w) ==> w.len() == listed_count(page_concepts(html@)),
        r matches Ok(w) ==> forall|k: int|
            0 <= k < page_concepts(html@).len() && #[trigger] concept_is_listed(
                page_concepts(html@)[k],
            ) ==> entry_reads_concept(
                w.deep_view()[listed_count(page_concepts(html@).take(k)) as int],
                page_concepts(html@)[k],
            ),
        r matches Err(ScrapeError::InvalidSelector { role, .. }) ==> {
            &&& !css_selector_parses(role_selector(role))
            &&& forall|q: SelectorRole|
                role_rank(q) < role_rank(role) ==> #[trigger] css_selector_parses(role_selector(q))
        },
{
    let document = HtmlDocument::parse(html);
    let concept = parse_role(SelectorRole::Concept)?;
    let word = parse_role(SelectorRole::Word)?;
    let furigana = parse_role(SelectorRole::Furigana)?;
    let meaning = parse_role(SelectorRole::Meaning)?;
    let sentence = parse_role(SelectorRole::Sentence)?;
    let sentence_japanese = parse_role(SelectorRole::SentenceJapanese)?;
    let sentence_english = parse_role(SelectorRole::SentenceEnglish)?;
    let sentence_furigana = parse_role(SelectorRole::SentenceFurigana)?;
    let sentence_unlinked = parse_role(SelectorRole::SentenceUnlinked)?;
    assert(all_selectors_parse()) by {
        assert forall|q: SelectorRole| #[trigger] css_selector_parses(role_selector(q)) by {
            match q {
                SelectorRole::Concept => {},
                SelectorRole::Word => {},
                SelectorRole::Furigana => {},
                SelectorRole::Meaning => {},
                SelectorRole::Sentence => {},
                SelectorRole::SentenceJapanese => {},
                SelectorRole::SentenceEnglish => {},
                SelectorRole::SentenceFurigana => {},
                SelectorRole::SentenceUnlinked => {},
            }
        }
    }

    let traversals = select_traversals(&document, &concept);
    let f_word = scoped_match_flags(&document, &concept, &word);
    let f_furigana = scoped_match_flags(&document, &concept, &furigana);
    let f_meaning = scoped_match_flags(&document, &concept, &meaning);
    let f_sentence = scoped_match_flags(&document, &concept, &sentence);
    let f_japanese = scoped_match_flags(&document, &concept, &sentence_japanese);
    let f_english = scoped_match_flags(&document, &concept, &sentence_english);
    let f_sfurigana = scoped_match_flags(&document, &concept, &sentence_furigana);
    let f_unlinked = scoped_match_flags(&document, &concept, &sentence_unlinked);

    let concepts = page_concepts_of(
        traversals,
        &f_word,
        &f_furigana,
        &f_meaning,
        &f_sentence,
        &f_japanese,
        &f_english,
        &f_sfurigana,
        &f_unlinked,
        Ghost(html@),
    );
    proof {
        lemma_page_entries_complete(html@);
        lemma_page_lists_every_concept(html@);
    }
    Ok(words_from_concepts(&concepts))
}

/// Pairs each concept's traversal with the match flags of each role inside
/// it, giving the page's concepts in order.
fn page_concepts_of(
    traversals: Vec<Vec<DomEdge>>,
    f_word: &Vec<Vec<bool>>,
    f_furigana: &Vec<Vec<bool>>,
    f_meaning: &Vec<Vec<bool>>,
    f_sentence: &Vec<Vec<bool>>,
    f_japanese: &Vec<Vec<bool>>,
    f_english: &Vec<Vec<bool>>,
    f_sfurigana: &Vec<Vec<bool>>,
    f_unlinked: &Vec<Vec<bool>>,
    Ghost(html): Ghost<Seq<char>>,
) -> (concepts: Vec<Concept>)
    requires
        traversals.deep_view() == css_select_traversals(html, CONCEPT_SELECTOR@),
        f_word.deep_view() == page_flags(html, SelectorRole::Word),
        f_furigana.deep_view() == page_flags(html, SelectorRole::Furigana),
        f_meaning.deep_view() == page_flags(html, SelectorRole::Meaning),
        f_sentence.deep_view() == page_flags(html, SelectorRole::Sentence),
        f_japanese.deep_view() == page_flags(html, SelectorRole::SentenceJapanese),
        f_english.deep_view() == page_flags(html, SelectorRole::SentenceEnglish),
        f_sfurigana.deep_view() == page_flags(html, SelectorRole::SentenceFurigana),
        f_unlinked.deep_view() == page_flags(html, SelectorRole::SentenceUnlinked),
    ensures
        concepts.deep_view() == page_concepts(html),
{
    let mut traversals = traversals;
    let ghost page = page_concepts(html);
    let ghost all_t = traversals.deep_view();
    let n = traversals.len();
    assert(page.len() == n);
    let mut concepts: Vec<Concept> = Vec::new();
    let mut k: usize = 0;
    while k < n
        invariant
            k <= n,
            n == all_t.len(),
            all_t == css_select_traversals(html, CONCEPT_SELECTOR@),
            page == page_concepts(html),
            page.len() == n,
            traversals.deep_view() == all_t.skip(k as int),
            concepts.deep_view() == page.take(k as int),
            f_word.deep_view() == page_flags(html, SelectorRole::Word),
            f_furigana.deep_view() == page_flags(html, SelectorRole::Furigana),
            f_meaning.deep_view() == page_flags(html, SelectorRole::Meaning),
            f_sentence.deep_view() == page_flags(html, SelectorRole::Sentence),
            f_japanese.deep_view() == page_flags(html, SelectorRole::SentenceJapanese),
            f_english.deep_view() == page_flags(html, SelectorRole::SentenceEnglish),
            f_sfurigana.deep_view() == page_flags(html, SelectorRole::SentenceFurigana),
            f_unlinked.deep_view() == page_flags(html, SelectorRole::SentenceUnlinked),
        decreases n - k,
    {
        assert(traversals.deep_view().len() == n - k);
        assert(traversals.deep_view()[0] == all_t[k as int]);
        let ghost before_t = traversals@;
        let ghost before_dv = traversals.deep_view();
        let edges = traversals.remove(0);
        assert(edges.deep_view() == all_t[k as int]);
        assert(traversals@ == before_t.subrange(1, before_t.len() as int));
        assert forall|j: int| 0 <= j < traversals@.len() implies traversals.deep_view()[j]
            == all_t.skip(k + 1)[j] by {
            assert(traversals.deep_view()[j] == traversals@[j].deep_view());
            assert(traversals@[j] == before_t[j + 1]);
            assert(before_dv[j + 1] == before_t[j + 1].deep_view());
        }
        assert(traversals.deep_view() =~= all_t.skip(k + 1));
        let matches = ConceptMatches {
            word: flags_at(&f_word, k),
            furigana: flags_at(&f_furigana, k),
            meaning: flags_at(&f_meaning, k),
            sentence: flags_at(&f_sentence, k),
            sentence_japanese: flags_at(&f_japanese, k),
            sentence_english: flags_at(&f_english, k),
            sentence_furigana: flags_at(&f_sfurigana, k),
            sentence_unlinked: flags_at(&f_unlinked, k),
        };
        let c = Concept { edges, matches };
        assert(c.deep_view() == page[k as int]);
        let ghost before_c = concepts@;
        let ghost before_cdv = concepts.deep_view();
        concepts.push(c);
        assert(concepts@ == before_c.push(c));
        assert forall|j: int| 0 <= j < concepts@.len() implies concepts.deep_view()[j]
            == page.take(k + 1)[j] by {
            assert(concepts.deep_view()[j] == concepts@[j].deep_view());
            assert(before_cdv.len() == k);
            if j < k {
                assert(before_cdv[j] == before_c[j].deep_view());
            }
        }
        assert(before_c.len() == before_cdv.len());
        assert(concepts@.len() == k + 1);
        assert(concepts.deep_view().len() == k + 1);
        assert(page.take(k + 1).len() == k + 1);
        assert(concepts.deep_view() =~= page.take(k + 1));
        k = k + 1;
    }
    assert(page.take(n as int) == page);
    concepts
}

// ---------------------------------------------------------------------------
// Properties
// ---------------------------------------------------------------------------

/// An entry is complete: word, reading and definition are non-empty, and so
/// are the three lines of its example, if it has one.
pub open spec fn entry_is_complete(w: WordEntryView) -> bool {
    &&& w.word.len() > 0
    &&& w.reading.len() > 0
    &&& w.definition.len() > 0
    &&& (w.example matches Some(x) ==> x.japanese.len() > 0 && x.reading.len() > 0
        && x.english.len() > 0)
}

/// Every entry a concept yields is complete.
pub proof fn lemma_concept_entry_complete(c: ConceptView)
    ensures
        concept_entry(c) matches Some(w) ==> entry_is_complete(w),
{
}

/// Every entry read off a sequence of concepts is complete.
pub proof fn lemma_concept_entries_complete(cs: Seq<ConceptView>)
    ensures
        forall|i: int|
            0 <= i < concept_entries(cs).len() ==> #[trigger] entry_is_complete(
                concept_entries(cs)[i],
            ),
    decreases cs.len(),
{
    if cs.len() > 0 {
        let before = concept_entries(cs.drop_last());
        lemma_concept_entries_complete(cs.drop_last());
        lemma_concept_entry_complete(cs.last());
        assert forall|i: int| 0 <= i < concept_entries(cs).len() implies #[trigger] entry_is_complete(
            concept_entries(cs)[i],
        ) by {
            if i < before.len() {
                assert(concept_entries(cs)[i] == before[i]);
            }
        }
    }
}

/// The text of the first element inside the concept that `f` flags, as the
/// page has it, if there is one.
pub open spec fn first_node_text(e: Seq<DomEdgeView>, f: Seq<bool>) -> Option<Seq<char>> {
    match first_inside(e, f, 0) {
        Some(i) => Some(node_text(e, i)),
        None => None,
    }
}

/// The first element that `f` flags in the concept exists and holds
/// something besides white space.
pub open spec fn shows_text(e: Seq<DomEdgeView>, f: Seq<bool>) -> bool {
    first_node_text(e, f) matches Some(t) && without_white_space(t).len() > 0
}

/// A concept the page lists as a word: it shows a word and a meaning.
pub open spec fn concept_is_listed(c: ConceptView) -> bool {
    shows_text(c.edges, c.matches.word) && shows_text(c.edges, c.matches.meaning)
}

/// How many of the concepts are listed.
pub open spec fn listed_count(cs: Seq<ConceptView>) -> nat
    decreases cs.len(),
{
    if cs.len() == 0 {
        0
    } else {
        listed_count(cs.drop_last()) + if concept_is_listed(cs.last()) {
            1nat
        } else {
            0nat
        }
    }
}

/// `t` read with white space collapsed: it is in collapsed shape and has
/// exactly the characters of `t` other than white space, in order, each
/// kept as it is.
pub open spec fn reads_as(r: Seq<char>, t: Seq<char>) -> bool {
    in_collapsed_shape(r) && without_white_space(r) == without_white_space(t)
}

/// The entry reads the concept: its word is the concept's first word element
/// and its definition the concept's first meaning element, each read with
/// white space collapsed.
pub open spec fn entry_reads_concept(w: WordEntryView, c: ConceptView) -> bool {
    &&& first_node_text(c.edges, c.matches.word) matches Some(t) && reads_as(w.word, t)
    &&& first_node_text(c.edges, c.matches.meaning) matches Some(t) && reads_as(w.definition, t)
}

/// A concept yields an entry exactly when it is listed, and the entry reads
/// the concept.
pub proof fn lemma_concept_entry_reads(c: ConceptView)
    ensures
        concept_entry(c) is Some <==> concept_is_listed(c),
        concept_entry(c) matches Some(w) ==> entry_reads_concept(w, c),
{
    let e = c.edges;
    if let Some(i) = first_inside(e, c.matches.word, 0) {
        lemma_collapse_empty(node_text(e, i));
        lemma_collapse_keeps_text(node_text(e, i));
        lemma_collapse_shape(node_text(e, i));
    }
    if let Some(i) = first_inside(e, c.matches.meaning, 0) {
        lemma_collapse_empty(node_text(e, i));
        lemma_collapse_keeps_text(node_text(e, i));
        lemma_collapse_shape(node_text(e, i));
    }
}

/// One entry per listed concept, in order: there are as many entries as
/// listed concepts, and the listed concept at `k` gives the entry whose
/// index is the number of listed concepts before it.
pub proof fn lemma_concept_entries_one_per_listed(cs: Seq<ConceptView>)
    ensures
        concept_entries(cs).len() == listed_count(cs),
        forall|k: int|
            0 <= k < cs.len() && #[trigger] concept_is_listed(cs[k]) ==> {
                &&& listed_count(cs.take(k)) < concept_entries(cs).len()
                &&& entry_reads_concept(concept_entries(cs)[listed_count(cs.take(k)) as int], cs[k])
            },
    decreases cs.len(),
{
    if cs.len() > 0 {
        let p = cs.drop_last();
        lemma_concept_entries_one_per_listed(p);
        lemma_concept_entry_reads(cs.last());
        let all = concept_entries(cs);
        let before = concept_entries(p);
        assert(all.len() >= before.len());
        assert forall|j: int| 0 <= j < before.len() implies all[j] == before[j] by {}
        assert forall|k: int|
            0 <= k < cs.len() && #[trigger] concept_is_listed(cs[k]) implies {
                &&& listed_count(cs.take(k)) < all.len()
                &&& entry_reads_concept(all[listed_count(cs.take(k)) as int], cs[k])
            } by {
            if k < p.len() {
                assert(cs.take(k) == p.take(k));
                assert(cs[k] == p[k]);
                assert(concept_is_listed(p[k]));
            } else {
                assert(cs.take(k) == p);
            }
        }
    }
}

/// The page lists every listed concept once, in page order, whatever the
/// number of concepts: the entries are as many as the concepts that show a
/// word and a meaning, and each such concept gives the entry at its rank,
/// with its word and definition read from the page.
pub proof fn lemma_page_lists_every_concept(html: Seq<char>)
    ensures
        words_on_page(html).len() == listed_count(page_concepts(html)),
        forall|k: int|
            0 <= k < page_concepts(html).len() && #[trigger] concept_is_listed(page_concepts(html)[k])
                ==> {
                &&& listed_count(page_concepts(html).take(k)) < words_on_page(html).len()
                &&& entry_reads_concept(
                    words_on_page(html)[listed_count(page_concepts(html).take(k)) as int],
                    page_concepts(html)[k],
                )
            },
{
    lemma_concept_entries_one_per_listed(page_concepts(html));
}

/// Every entry that a page yields has a non-empty word, reading and
/// definition, and an example with three non-empty lines if any.
pub proof fn lemma_page_entries_complete(html: Seq<char>)
    ensures
        forall|i: int|
            0 <= i < words_on_page(html).len() ==> #[trigger] entry_is_complete(
                words_on_page(html)[i],
            ),
{
    lemma_concept_entries_complete(page_concepts(html));
}

/// What `kana_only` keeps is kana or the prolonged sound mark.
pub proof fn lemma_kana_filter_only_kana(s: Seq<char>)
    ensures
        forall|i: int|
            0 <= i < kana_filter(s).len() ==> is_kana_char(#[trigger] kana_filter(s)[i])
                || kana_filter(s)[i] == 'ー',
    decreases s.len(),
{
    if s.len() > 0 {
        let before = kana_filter(s.drop_last());
        lemma_kana_filter_only_kana(s.drop_last());
        assert forall|i: int| 0 <= i < kana_filter(s).len() implies is_kana_char(
            #[trigger] kana_filter(s)[i],
        ) || kana_filter(s)[i] == 'ー' by {
            if i < before.len() {
                assert(kana_filter(s)[i] == before[i]);
            }
        }
    }
}

/// A text made only of kana is kept whole by `kana_only`.
pub proof fn lemma_kana_filter_keeps_kana(s: Seq<char>)
    requires
        forall|i: int| 0 <= i < s.len() ==> #[trigger] is_kana_char(s[i]),
    ensures
        kana_filter(s) == s,
    decreases s.len(),
{
    if s.len() > 0 {
        lemma_kana_filter_keeps_kana(s.drop_last());
        assert(is_kana_char(s[s.len() - 1]));
        assert(s.drop_last().push(s.last()) == s);
    }
}

/// The common prefix is a prefix of both texts.
pub proof fn lemma_common_prefix_is_prefix(a: Seq<char>, b: Seq<char>)
    ensures
        common_prefix_len(a, b) <= a.len(),
        common_prefix_len(a, b) <= b.len(),
        a.take(common_prefix_len(a, b) as int) == b.take(common_prefix_len(a, b) as int),
        common_prefix_len(a, b) < a.len() && common_prefix_len(a, b) < b.len() ==> a[common_prefix_len(
            a,
            b,
        ) as int] != b[common_prefix_len(a, b) as int],
    decreases a.len(),
{
    if !(a.len() == 0 || b.len() == 0 || a[0] != b[0]) {
        lemma_common_prefix_is_prefix(a.drop_first(), b.drop_first());
        let n = common_prefix_len(a, b) as int;
        assert(a.take(n) =~= seq![a[0]] + a.drop_first().take(n - 1));
        assert(b.take(n) =~= seq![b[0]] + b.drop_first().take(n - 1));
    }
}

/// Stripping the common prefix loses nothing: the stripped prefix of `kana`,
/// which `base` starts with too, followed by the rest, is `kana`; and the rest
/// does not start where `base` goes on.
pub proof fn lemma_strip_common_prefix_parts(base: Seq<char>, kana: Seq<char>)
    ensures
        ({
            let n = common_prefix_len(base, kana) as int;
            let rest = after_common_prefix(base, kana);
            &&& base.take(n) + rest == kana
            &&& (rest.len() > 0 && n < base.len() ==> rest[0] != base[n])
        }),
{
    lemma_common_prefix_is_prefix(base, kana);
    let n = common_prefix_len(base, kana) as int;
    assert(kana.take(n) + kana.skip(n) =~= kana);
}

/// The level code of any level string depends only on its trimmed,
/// lowercased form: `N5`, ` n5 ` and `n5` give the same URL.
pub proof fn lemma_search_url_normalizes(a: Seq<char>, b: Seq<char>, page: u32)
    requires
        ascii_lowercase(trimmed(a)) == ascii_lowercase(trimmed(b)),
    ensures
        search_url(a, page) == search_url(b, page),
{
}

/// `jlpt-n5`, `n5` and `5` name the same level, for any digits.
pub proof fn lemma_search_url_level_forms(level: nat, page: u32)
    ensures
        search_url(seq!['j', 'l', 'p', 't', '-', 'n'] + decimal(level), page) == search_url(
            seq!['n'] + decimal(level),
            page,
        ),
        search_url(seq!['n'] + decimal(level), page) == search_url(decimal(level), page),
        level_code(decimal(level)) == decimal(level),
{
    let d = decimal(level);
    lemma_decimal_all_digits(level);
    lemma_digits_trim_lower(d);
    let jl = seq!['j', 'l', 'p', 't', '-', 'n'] + d;
    let n = seq!['n'] + d;
    lemma_prefixed_digits(seq!['j', 'l', 'p', 't', '-', 'n'], d);
    lemma_prefixed_digits(seq!['n'], d);
    assert(jl.subrange(0, 5) =~= seq!['j', 'l', 'p', 't', '-']);
    assert(jl.skip(5) =~= n);
    assert(n.subrange(0, 1) =~= seq!['n']);
    assert(n.skip(1) =~= d);
    if d.len() >= 5 {
        assert(d.subrange(0, 5)[0] == d[0]);
    }
    if d.len() >= 1 {
        assert(d.subrange(0, 1)[0] == d[0]);
    }
}

/// A text of lowercase letters and digits, with no white space, is unchanged
/// by trimming and lowercasing.
proof fn lemma_digits_trim_lower(d: Seq<char>)
    requires
        forall|i: int| 0 <= i < d.len() ==> '0' <= #[trigger] d[i] <= '9',
    ensures
        ascii_lowercase(trimmed(d)) == d,
{
    lemma_plain_trim_lower(d);
}

/// `prefix + d`, with `prefix` lowercase letters or `-` and `d` digits, is
/// unchanged by trimming and lowercasing.
proof fn lemma_prefixed_digits(prefix: Seq<char>, d: Seq<char>)
    requires
        forall|i: int| 0 <= i < prefix.len() ==> 'a' <= #[trigger] prefix[i] <= 'z' || prefix[i]
            == '-',
        forall|i: int| 0 <= i < d.len() ==> '0' <= #[trigger] d[i] <= '9',
    ensures
        ascii_lowercase(trimmed(prefix + d)) == prefix + d,
{
    let s = prefix + d;
    assert forall|i: int| 0 <= i < s.len() implies !is_white_space(#[trigger] s[i]) && !(
    'A' <= s[i] && s[i] <= 'Z') by {
        if i < prefix.len() {
            assert(s[i] == prefix[i]);
        } else {
            assert(s[i] == d[i - prefix.len()]);
        }
    }
    lemma_plain_trim_lower(s);
}

/// A text with no white space and no uppercase ASCII letter is unchanged by
/// trimming and lowercasing.
proof fn lemma_plain_trim_lower(s: Seq<char>)
    requires
        forall|i: int| 0 <= i < s.len() ==> !is_white_space(#[trigger] s[i]) && !('A' <= s[i]
            && s[i] <= 'Z'),
    ensures
        ascii_lowercase(trimmed(s)) == s,
{
    if s.len() > 0 {
        assert(!is_white_space(s[0]));
        assert(!is_white_space(s.last()));
    }
    assert(trim_start(s) == s);
    assert(trim_end(s) == s);
    assert(ascii_lowercase(s) =~= s);
}

} // verus!
