//! Sensei cloze decks: one card per example sentence, with the word blanked
//! out of the sentence, and a bank of answer words.
use vstd::prelude::*;

use rand::seq::SliceRandom;
use rand::SeedableRng;
use rand_chacha::ChaCha8Rng;

use crate::jisho::{ExampleSentence, WordEntry, WordEntryView};
use crate::text::{
    all_digits, chars_of, contains_seq, decimal, digits_value, find_first, first_occurrence,
    lemma_dash_digits_suffix, lemma_decimal_all_digits, lemma_decimal_value, lemma_zero_padded_value,
    occurs_at, push_all, push_char, push_decimal_width3, string_of, zero_padded,
};

verus! {

broadcast use vstd::string::group_string_axioms;

/// Where the deck's bank of answer words comes from.
#[derive(Debug, Clone, Copy, PartialEq, Eq)]
pub enum BankFrom {
    /// The answers of the deck's cards.
    Examples,
    /// The words of all entries.
    All,
}

/// A cloze deck.
#[derive(Debug, Clone, PartialEq, Eq)]
pub struct ClozeDeck {
    pub deck_id: String,
    pub deck_type: String,
    pub cloze_subtype: String,
    pub title: String,
    pub description: String,
    pub bank: Vec<String>,
    pub cards: Vec<ClozeCard>,
}

/// One card: a sentence with a blank, and the words that fill it.
#[derive(Debug, Clone, PartialEq, Eq)]
pub struct ClozeCard {
    pub card_local_id: String,
    pub prompt_jp: String,
    pub expected: Vec<String>,
    pub context_fr: String,
    pub tags: Vec<String>,
}

/// How a deck is built.
#[derive(Debug, Clone)]
pub struct ClozeBuildOptions {
    /// Shuffle the candidates with this seed; keep their order if absent.
    pub seed: Option<u64>,
    /// Keep at most this many candidates.
    pub max_cards: Option<usize>,
    /// Where the bank comes from.
    pub bank_from: BankFrom,
    /// Only entries whose word occurs in their example sentence.
    pub require_word_in_example: bool,
    /// The tag of every card.
    pub tag: String,
}

/// The mathematical value of a [`ClozeCard`].
pub struct ClozeCardView {
    pub card_local_id: Seq<char>,
    pub prompt_jp: Seq<char>,
    pub expected: Seq<Seq<char>>,
    pub context_fr: Seq<char>,
    pub tags: Seq<Seq<char>>,
}

/// The mathematical value of a [`ClozeDeck`].
pub struct ClozeDeckView {
    pub deck_id: Seq<char>,
    pub deck_type: Seq<char>,
    pub cloze_subtype: Seq<char>,
    pub title: Seq<char>,
    pub description: Seq<char>,
    pub bank: Seq<Seq<char>>,
    pub cards: Seq<ClozeCardView>,
}

/// The mathematical value of a [`ClozeBuildOptions`].
pub struct ClozeOptionsView {
    pub seed: Option<u64>,
    pub max_cards: Option<usize>,
    pub bank_from: BankFrom,
    pub require_word_in_example: bool,
    pub tag: Seq<char>,
}

impl View for ClozeCard {
    type V = ClozeCardView;

    open spec fn view(&self) -> ClozeCardView {
        ClozeCardView {
            card_local_id: self.card_local_id@,
            prompt_jp: self.prompt_jp@,
            expected: self.expected.deep_view(),
            context_fr: self.context_fr@,
            tags: self.tags.deep_view(),
        }
    }
}

impl DeepView for ClozeCard {
    type V = ClozeCardView;

    open spec fn deep_view(&self) -> ClozeCardView {
        self@
    }
}

impl View for ClozeDeck {
    type V = ClozeDeckView;

    open spec fn view(&self) -> ClozeDeckView {
        ClozeDeckView {
            deck_id: self.deck_id@,
            deck_type: self.deck_type@,
            cloze_subtype: self.cloze_subtype@,
            title: self.title@,
            description: self.description@,
            bank: self.bank.deep_view(),
            cards: self.cards.deep_view(),
        }
    }
}

impl View for ClozeBuildOptions {
    type V = ClozeOptionsView;

    open spec fn view(&self) -> ClozeOptionsView {
        ClozeOptionsView {
            seed: self.seed,
            max_cards: self.max_cards,
            bank_from: self.bank_from,
            require_word_in_example: self.require_word_in_example,
            tag: self.tag@,
        }
    }
}

/// The full-width low line that stands for the blank.
pub open spec fn blank_mark() -> char {
    '＿'
}

/// The items of `s` without repeats, each where it first occurs.
pub open spec fn unique_in_order(s: Seq<Seq<char>>) -> Seq<Seq<char>>
    decreases s.len(),
{
    if s.len() == 0 {
        seq![]
    } else {
        let before = unique_in_order(s.drop_last());
        if before.contains(s.last()) {
            before
        } else {
            before.push(s.last())
        }
    }
}

/// `haystack` with the first occurrence of `needle` replaced by the blank,
/// if `needle` is non-empty and occurs.
pub open spec fn blanked(haystack: Seq<char>, needle: Seq<char>) -> Option<Seq<char>> {
    if needle.len() == 0 {
        None
    } else {
        match first_occurrence(haystack, needle) {
            Some(i) => Some(
                haystack.subrange(0, i) + seq![blank_mark()] + haystack.subrange(
                    i + needle.len(),
                    haystack.len() as int,
                ),
            ),
            None => None,
        }
    }
}

/// Whether an entry can become a card: it has an example, and (if asked) its
/// word occurs in the example's Japanese line.
pub open spec fn is_candidate(e: WordEntryView, require_word: bool) -> bool {
    match e.example {
        Some(x) => !require_word || contains_seq(x.japanese, e.word),
        None => false,
    }
}

/// The entries that can become cards, in order.
pub open spec fn candidates(es: Seq<WordEntryView>, require_word: bool) -> Seq<WordEntryView>
    decreases es.len(),
{
    if es.len() == 0 {
        seq![]
    } else if is_candidate(es.last(), require_word) {
        candidates(es.drop_last(), require_word).push(es.last())
    } else {
        candidates(es.drop_last(), require_word)
    }
}

/// `0, 1, ..., n - 1`.
pub open spec fn identity_order(n: nat) -> Seq<usize> {
    Seq::new(n, |i: int| i as usize)
}

/// The order `SliceRandom::shuffle` leaves `items` in when it is driven by a
/// `ChaCha8Rng` made by `SeedableRng::seed_from_u64(seed)`.
pub uninterp spec fn seeded_shuffle(seed: u64, items: Seq<usize>) -> Seq<usize>;

/// The order in which the deck takes its `n` candidates: shuffled with the
/// seed if there is one, unchanged otherwise.
pub open spec fn candidate_order(seed: Option<u64>, n: nat) -> Seq<usize> {
    match seed {
        Some(s) => seeded_shuffle(s, identity_order(n)),
        None => identity_order(n),
    }
}

/// With a seed, the order of the candidates holds each of `0..n` once: the
/// seeded shuffle of `0..n` has the same items as `0..n`.
pub open spec fn seeded_order_is_permutation(seed: Option<u64>, n: nat) -> bool {
    seed matches Some(s) ==> seeded_shuffle(s, identity_order(n)).to_multiset()
        == identity_order(n).to_multiset()
}

/// `items` taken in `order`.
pub open spec fn reordered(items: Seq<WordEntryView>, order: Seq<usize>) -> Seq<WordEntryView> {
    Seq::new(order.len(), |i: int| items[order[i] as int])
}

/// `items`, cut to at most `max` if a maximum is given.
pub open spec fn capped(items: Seq<WordEntryView>, max: Option<usize>) -> Seq<WordEntryView> {
    match max {
        Some(m) => if items.len() > m {
            items.take(m as int)
        } else {
            items
        },
        None => items,
    }
}

/// The id of the card made from `word` at position `index` (`{word}-{index+1:03}`).
pub open spec fn card_id(word: Seq<char>, index: nat) -> Seq<char> {
    word + seq!['-'] + zero_padded(decimal(index + 1), 3)
}

/// The card made from the entry at position `index`, if its example has the
/// word to blank.
pub open spec fn card_for(e: WordEntryView, index: nat, tag: Seq<char>) -> Option<ClozeCardView> {
    match e.example {
        Some(x) => match blanked(x.japanese, e.word) {
            Some(prompt) => Some(
                ClozeCardView {
                    card_local_id: card_id(e.word, index),
                    prompt_jp: prompt,
                    expected: seq![e.word],
                    context_fr: e.definition,
                    tags: seq![tag],
                },
            ),
            None => None,
        },
        None => None,
    }
}

/// The cards made from the selected entries, in order.
pub open spec fn cards_for(sel: Seq<WordEntryView>, tag: Seq<char>) -> Seq<ClozeCardView>
    decreases sel.len(),
{
    if sel.len() == 0 {
        seq![]
    } else {
        let before = cards_for(sel.drop_last(), tag);
        match card_for(sel.last(), (sel.len() - 1) as nat, tag) {
            Some(c) => before.push(c),
            None => before,
        }
    }
}

/// The words of the entries, in order.
pub open spec fn entry_words(es: Seq<WordEntryView>) -> Seq<Seq<char>> {
    Seq::new(es.len(), |i: int| es[i].word)
}

/// The first expected word of each card, in order.
pub open spec fn card_answers(cs: Seq<ClozeCardView>) -> Seq<Seq<char>> {
    Seq::new(cs.len(), |i: int| cs[i].expected[0])
}

/// The deck built from `entries` with the candidates taken in `order`.
pub open spec fn deck_in_order(
    deck_id: Seq<char>,
    title: Seq<char>,
    description: Seq<char>,
    entries: Seq<WordEntryView>,
    opts: ClozeOptionsView,
    order: Seq<usize>,
) -> ClozeDeckView {
    let chosen = capped(
        reordered(candidates(entries, opts.require_word_in_example), order),
        opts.max_cards,
    );
    let cards = cards_for(chosen, opts.tag);
    ClozeDeckView {
        deck_id,
        deck_type: seq!['c', 'l', 'o', 'z', 'e'],
        cloze_subtype: seq!['v', 'o', 'c', 'a', 'b'],
        title,
        description,
        bank: match opts.bank_from {
            BankFrom::Examples => unique_in_order(card_answers(cards)),
            BankFrom::All => unique_in_order(entry_words(entries)),
        },
        cards,
    }
}

/// The deck built from `entries` with `opts`.
pub open spec fn vocab_deck(
    deck_id: Seq<char>,
    title: Seq<char>,
    description: Seq<char>,
    entries: Seq<WordEntryView>,
    opts: ClozeOptionsView,
) -> ClozeDeckView {
    deck_in_order(
        deck_id,
        title,
        description,
        entries,
        opts,
        candidate_order(
            opts.seed,
            candidates(entries, opts.require_word_in_example).len(),
        ),
    )
}

/// `SliceRandom::shuffle` of `v`, driven by `ChaCha8Rng::seed_from_u64(seed)`.
/// The claim is that the result is [`seeded_shuffle`] of the seed and the
/// items, and holds the same items as before (a shuffle permutes).
#[verifier::external_body]
fn shuffle_with_seed(v: &mut Vec<usize>, seed: u64)
    ensures
        final(v)@ == seeded_shuffle(seed, old(v)@),
        final(v)@.to_multiset() == old(v)@.to_multiset(),
{
    let mut rng = ChaCha8Rng::seed_from_u64(seed);
    v.shuffle(&mut rng);
}

/// The items without repeats, each where it first occurs.
pub fn unique_preserve_order(items: &Vec<String>) -> (out: Vec<String>)
    ensures
        out.deep_view() == unique_in_order(items.deep_view()),
{
    let ghost all = items.deep_view();
    let mut out: Vec<String> = Vec::new();
    let mut i: usize = 0;
    while i < items.len()
        invariant
            i <= items.len(),
            all == items.deep_view(),
            out.deep_view() == unique_in_order(all.take(i as int)),
        decreases items.len() - i,
    {
        let item = &items[i];
        assert(all.take(i + 1).drop_last() == all.take(i as int));
        assert(all.take(i + 1).last() == item@);
        let ghost seen = out.deep_view();
        let mut found = false;
        let mut j: usize = 0;
        while j < out.len()
            invariant
                j <= out.len(),
                seen == out.deep_view(),
                found == (exists|k: int| 0 <= k < j && seen[k] == item@),
            decreases out.len() - j,
        {
            assert(seen[j as int] == out@[j as int]@);
            if out[j] == *item {
                found = true;
            }
            j = j + 1;
        }
        assert(found == seen.contains(item@));
        if !found {
            let ghost before = out@;
            out.push(item.clone());
            assert(out.deep_view() =~= seen.push(item@)) by {
                assert forall|k: int| 0 <= k < out@.len() implies out.deep_view()[k] == seen.push(
                    item@,
                )[k] by {
                    if k < before.len() {
                        assert(out@[k] == before[k]);
                    }
                }
            }
        }
        i = i + 1;
    }
    assert(all.take(items.len() as int) == all);
    out
}

/// `haystack` with the first occurrence of `needle` replaced by `＿`; none if
/// `needle` is empty or does not occur.
pub fn blank_first_occurrence(haystack: &str, needle: &str) -> (r: Option<String>)
    ensures
        r.deep_view() == blanked(haystack@, needle@),
{
    let n = chars_of(needle);
    if n.len() == 0 {
        return None;
    }
    let h = chars_of(haystack);
    match find_first(&h, &n) {
        None => None,
        Some(idx) => {
            assert(idx + n.len() <= h.len());
            let mut out = string_of(&h, 0, idx);
            push_char(&mut out, '＿');
            let rest = string_of(&h, idx + n.len(), h.len());
            push_all(&mut out, rest.as_str());
            Some(out)
        },
    }
}

/// A field-by-field copy of `e`.
fn copy_entry(e: &WordEntry) -> (r: WordEntry)
    ensures
        r@ == e@,
{
    WordEntry {
        word: e.word.clone(),
        reading: e.reading.clone(),
        definition: e.definition.clone(),
        example: match &e.example {
            Some(x) => Some(
                ExampleSentence {
                    japanese: x.japanese.clone(),
                    reading: x.reading.clone(),
                    english: x.english.clone(),
                },
            ),
            None => None,
        },
    }
}

/// Whether `word` occurs in `text`.
fn occurs_in(text: &String, word: &String) -> (b: bool)
    ensures
        b == contains_seq(text@, word@),
{
    let h = chars_of(text.as_str());
    let n = chars_of(word.as_str());
    find_first(&h, &n).is_some()
}

/// Copies of the entries that can become cards, in order.
pub fn select_candidates(entries: &Vec<WordEntry>, require_word_in_example: bool) -> (r: Vec<
    WordEntry,
>)
    ensures
        r.deep_view() == candidates(entries.deep_view(), require_word_in_example),
{
    let ghost all = entries.deep_view();
    let mut out: Vec<WordEntry> = Vec::new();
    let mut i: usize = 0;
    while i < entries.len()
        invariant
            i <= entries.len(),
            all == entries.deep_view(),
            out.deep_view() == candidates(all.take(i as int), require_word_in_example),
        decreases entries.len() - i,
    {
        let e = &entries[i];
        assert(all.take(i + 1).drop_last() == all.take(i as int));
        assert(all.take(i + 1).last() == e@);
        let keep = match &e.example {
            Some(x) => !require_word_in_example || occurs_in(&x.japanese, &e.word),
            None => false,
        };
        assert(keep == is_candidate(e@, require_word_in_example));
        if keep {
            let ghost before = out.deep_view();
            let ghost before_v = out@;
            let c = copy_entry(e);
            out.push(c);
            assert(out.deep_view() =~= before.push(e@)) by {
                assert forall|k: int| 0 <= k < out@.len() implies out.deep_view()[k] == before.push(
                    e@,
                )[k] by {
                    if k < before_v.len() {
                        assert(out@[k] == before_v[k]);
                    }
                }
            }
        }
        i = i + 1;
    }
    assert(all.take(entries.len() as int) == all);
    out
}

/// The words of the entries, in order.
fn words_of(entries: &Vec<WordEntry>) -> (r: Vec<String>)
    ensures
        r.deep_view() == entry_words(entries.deep_view()),
{
    let mut out: Vec<String> = Vec::new();
    let mut i: usize = 0;
    while i < entries.len()
        invariant
            i <= entries.len(),
            out@.len() == i,
            forall|k: int| 0 <= k < i ==> #[trigger] out@[k]@ == entries@[k].word@,
        decreases entries.len() - i,
    {
        out.push(entries[i].word.clone());
        i = i + 1;
    }
    assert(out.deep_view() =~= entry_words(entries.deep_view())) by {
        assert forall|k: int| 0 <= k < out@.len() implies out.deep_view()[k] == entry_words(
            entries.deep_view(),
        )[k] by {
            assert(out@[k]@ == entries@[k].word@);
        }
    }
    out
}

/// The first expected word of each card, in order.
fn answers_of(cards: &Vec<ClozeCard>) -> (r: Vec<String>)
    requires
        forall|k: int| 0 <= k < cards.len() ==> #[trigger] cards@[k].expected@.len() > 0,
    ensures
        r.deep_view() == card_answers(cards.deep_view()),
{
    let mut out: Vec<String> = Vec::new();
    let mut i: usize = 0;
    while i < cards.len()
        invariant
            i <= cards.len(),
            forall|k: int| 0 <= k < cards.len() ==> #[trigger] cards@[k].expected@.len() > 0,
            out@.len() == i,
            forall|k: int| 0 <= k < i ==> #[trigger] out@[k]@ == cards@[k].expected@[0]@,
        decreases cards.len() - i,
    {
        assert(cards@[i as int].expected@.len() > 0);
        out.push(cards[i].expected[0].clone());
        i = i + 1;
    }
    assert(out.deep_view() =~= card_answers(cards.deep_view())) by {
        assert forall|k: int| 0 <= k < out@.len() implies out.deep_view()[k] == card_answers(
            cards.deep_view(),
        )[k] by {
            assert(out@[k]@ == cards@[k].expected@[0]@);
            assert(cards@[k].expected@.len() > 0);
            assert(cards.deep_view()[k].expected[0] == cards@[k].expected@[0]@);
        }
    }
    out
}

/// The card made from `e` at position `index`, if its example has the word.
fn make_card(e: &WordEntry, index: usize, tag: &String) -> (r: Option<ClozeCard>)
    requires
        index < usize::MAX,
    ensures
        r.deep_view() == card_for(e@, index as nat, tag@),
        r matches Some(c) ==> c.expected@.len() == 1,
{
    let x = match &e.example {
        Some(x) => x,
        None => return None,
    };
    let prompt_jp = match blank_first_occurrence(x.japanese.as_str(), e.word.as_str()) {
        Some(p) => p,
        None => return None,
    };
    let mut card_local_id = e.word.clone();
    push_char(&mut card_local_id, '-');
    push_decimal_width3(&mut card_local_id, (index as u64) + 1);
    assert(card_local_id@ =~= card_id(e.word@, index as nat));
    assert(prompt_jp@ == blanked(x.japanese@, e.word@).unwrap());
    let expected = vec![e.word.clone()];
    let tags = vec![tag.clone()];
    assert(expected.deep_view() =~= seq![e.word@]);
    assert(tags.deep_view() =~= seq![tag@]);
    Some(ClozeCard { card_local_id, prompt_jp, expected, context_fr: e.definition.clone(), tags })
}

/// The deck built from `all_entries` with the candidates taken in `order`
/// (indices into the candidates).
pub fn build_vocab_cloze_deck_in_order(
    deck_id: String,
    title: String,
    description: String,
    all_entries: &Vec<WordEntry>,
    opts: &ClozeBuildOptions,
    order: &Vec<usize>,
) -> (deck: ClozeDeck)
    requires
        forall|i: int|
            0 <= i < order.len() ==> #[trigger] order@[i] < candidates(
                all_entries.deep_view(),
                opts.require_word_in_example,
            ).len(),
    ensures
        deck@ == deck_in_order(
            deck_id@,
            title@,
            description@,
            all_entries.deep_view(),
            opts@,
            order@,
        ),
        deck_is_sound(deck@, all_entries.deep_view(), opts@),
        deck@.cards == cards_for(
            reordered(candidates(all_entries.deep_view(), opts.require_word_in_example), order@).take(
                match opts.max_cards {
                    Some(m) => if m < order.len() {
                        m as int
                    } else {
                        order.len() as int
                    },
                    None => order.len() as int,
                },
            ),
            opts@.tag,
        ),
{
    proof {
        lemma_cap_keeps_first_candidates(
            deck_id@,
            title@,
            description@,
            all_entries.deep_view(),
            opts@,
            order@,
        );
    }
    let ghost ev = all_entries.deep_view();
    let words = words_of(all_entries);
    let cands = select_candidates(all_entries, opts.require_word_in_example);
    let ghost cv = cands.deep_view();

    let mut chosen: Vec<WordEntry> = Vec::new();
    let mut i: usize = 0;
    while i < order.len()
        invariant
            i <= order.len(),
            cv == cands.deep_view(),
            cv == candidates(ev, opts.require_word_in_example),
            forall|j: int| 0 <= j < order.len() ==> #[trigger] order@[j] < cv.len(),
            chosen.deep_view() == reordered(cv, order@).take(i as int),
            chosen@.len() == i,
        decreases order.len() - i,
    {
        assert(order@[i as int] < cv.len());
        let ghost before = chosen@;
        assert(before.len() == i);
        let c = copy_entry(&cands[order[i]]);
        assert(c@ == cv[order@[i as int] as int]);
        chosen.push(c);
        assert(chosen.deep_view() =~= reordered(cv, order@).take(i + 1)) by {
            assert forall|k: int| 0 <= k < chosen@.len() implies chosen.deep_view()[k]
                == reordered(cv, order@).take(i + 1)[k] by {
                if k < before.len() {
                    assert(chosen@[k] == before[k]);
                }
            }
        }
        i = i + 1;
    }
    assert(reordered(cv, order@).take(order.len() as int) == reordered(cv, order@));
    match opts.max_cards {
        Some(max) => {
            if chosen.len() > max {
                let ghost before = chosen@;
                chosen.truncate(max);
                assert(chosen.deep_view() =~= reordered(cv, order@).take(max as int)) by {
                    assert forall|k: int| 0 <= k < chosen@.len() implies chosen.deep_view()[k]
                        == reordered(cv, order@).take(max as int)[k] by {
                        assert(chosen@[k] == before[k]);
                    }
                }
            }
        },
        None => {},
    }
    let ghost chosen_v = chosen.deep_view();
    assert(chosen_v == capped(reordered(cv, order@), opts.max_cards));

    let mut cards: Vec<ClozeCard> = Vec::new();
    let mut idx: usize = 0;
    while idx < chosen.len()
        invariant
            idx <= chosen.len(),
            chosen_v == chosen.deep_view(),
            cards.deep_view() == cards_for(chosen_v.take(idx as int), opts.tag@),
            forall|k: int| 0 <= k < cards.len() ==> #[trigger] cards@[k].expected@.len() > 0,
        decreases chosen.len() - idx,
    {
        assert(chosen_v.take(idx + 1).drop_last() == chosen_v.take(idx as int));
        assert(chosen_v.take(idx + 1).last() == chosen@[idx as int]@);
        match make_card(&chosen[idx], idx, &opts.tag) {
            Some(card) => {
                let ghost before = cards.deep_view();
                let ghost before_v = cards@;
                cards.push(card);
                assert(cards.deep_view() =~= before.push(card@)) by {
                    assert forall|k: int| 0 <= k < cards@.len() implies cards.deep_view()[k]
                        == before.push(card@)[k] by {
                        if k < before_v.len() {
                            assert(cards@[k] == before_v[k]);
                        }
                    }
                }
            },
            None => {},
        }
        idx = idx + 1;
    }
    assert(chosen_v.take(chosen.len() as int) == chosen_v);

    let bank = match opts.bank_from {
        BankFrom::Examples => {
            let answers = answers_of(&cards);
            unique_preserve_order(&answers)
        },
        BankFrom::All => unique_preserve_order(&words),
    };
    let mut deck_type = String::new();
    push_all(&mut deck_type, "cloze");
    let mut cloze_subtype = String::new();
    push_all(&mut cloze_subtype, "vocab");
    proof {
        reveal_strlit("cloze");
        reveal_strlit("vocab");
    }
    assert(deck_type@ == seq!['c', 'l', 'o', 'z', 'e']);
    assert(cloze_subtype@ == seq!['v', 'o', 'c', 'a', 'b']);
    assert(cards.deep_view() == cards_for(chosen_v, opts.tag@));
    assert(chosen_v == capped(reordered(candidates(ev, opts.require_word_in_example), order@), opts.max_cards));
    proof {
        lemma_deck_in_order_sound(deck_id@, title@, description@, ev, opts@, order@);
    }
    ClozeDeck { deck_id, deck_type, cloze_subtype, title, description, bank, cards }
}

/// `0, 1, ..., n - 1`.
fn identity_indices(n: usize) -> (v: Vec<usize>)
    ensures
        v@ == identity_order(n as nat),
{
    let mut v: Vec<usize> = Vec::new();
    let mut i: usize = 0;
    while i < n
        invariant
            i <= n,
            v@ == identity_order(i as nat),
        decreases n - i,
    {
        v.push(i);
        i = i + 1;
        assert(v@ =~= identity_order(i as nat));
    }
    v
}

/// A Sensei vocabulary cloze deck made from `all_entries`.
///
/// The candidates are the entries with an example sentence (and, if
/// `opts.require_word_in_example`, whose word occurs in it), in order, or
/// shuffled with `opts.seed` if one is given, and cut to `opts.max_cards`.
/// Each candidate whose sentence contains its (non-empty) word becomes a
/// card: the sentence with the first occurrence of the word blanked, the word
/// as the answer, the definition as context, and `opts.tag`.  The bank holds
/// the answers of the cards or the words of all entries, without repeats.
pub fn build_vocab_cloze_deck(
    deck_id: String,
    title: String,
    description: String,
    all_entries: Vec<WordEntry>,
    opts: ClozeBuildOptions,
) -> (deck: ClozeDeck)
    ensures
        deck@ == vocab_deck(deck_id@, title@, description@, all_entries.deep_view(), opts@),
        deck_is_sound(deck@, all_entries.deep_view(), opts@),
        seeded_order_is_permutation(
            opts.seed,
            candidates(all_entries.deep_view(), opts.require_word_in_example).len(),
        ),
{
    broadcast use vstd::seq_lib::group_to_multiset_ensures;

    let n = select_candidates(&all_entries, opts.require_word_in_example).len();
    let mut order = identity_indices(n);
    match opts.seed {
        Some(seed) => {
            let ghost before = order@;
            shuffle_with_seed(&mut order, seed);
            assert(seeded_order_is_permutation(opts.seed, n as nat));
            assert forall|i: int| 0 <= i < order.len() implies #[trigger] order@[i] < n by {
                assert(order@.contains(order@[i]));
                assert(order@.to_multiset().count(order@[i]) > 0);
                assert(before.contains(order@[i]));
            }
        },
        None => {},
    }
    build_vocab_cloze_deck_in_order(deck_id, title, description, &all_entries, &opts, &order)
}

// ---------------------------------------------------------------------------
// Properties
// ---------------------------------------------------------------------------

/// `unique_in_order` keeps each item once: it has no repeats, and holds
/// exactly the items of its input.
pub proof fn lemma_unique_in_order(s: Seq<Seq<char>>)
    ensures
        unique_in_order(s).no_duplicates(),
        forall|x: Seq<char>| unique_in_order(s).contains(x) <==> s.contains(x),
    decreases s.len(),
{
    if s.len() > 0 {
        let p = s.drop_last();
        let u = unique_in_order(p);
        lemma_unique_in_order(p);
        assert(p.push(s.last()) == s);
        assert forall|x: Seq<char>| unique_in_order(s).contains(x) <==> s.contains(x) by {
            if s.contains(x) {
                let k = choose|k: int| 0 <= k < s.len() && s[k] == x;
                if k < p.len() {
                    assert(p[k] == x);
                    assert(p.contains(x));
                }
            }
            if p.contains(x) {
                let k = choose|k: int| 0 <= k < p.len() && p[k] == x;
                assert(s[k] == x);
            }
            if !u.contains(s.last()) {
                assert(u.push(s.last())[u.len() as int] == s.last());
                if u.push(s.last()).contains(x) {
                    let k = choose|k: int| 0 <= k < u.len() + 1 && u.push(s.last())[k] == x;
                    if k < u.len() {
                        assert(u[k] == x);
                    }
                }
                if u.contains(x) {
                    let k = choose|k: int| 0 <= k < u.len() && u[k] == x;
                    assert(u.push(s.last())[k] == x);
                }
            }
        }
        if !u.contains(s.last()) {
            let v = u.push(s.last());
            assert forall|i: int, j: int| 0 <= i < v.len() && 0 <= j < v.len() && i != j implies v[i]
                != v[j] by {
                if i < u.len() && j < u.len() {
                    assert(v[i] == u[i] && v[j] == u[j]);
                } else if i < u.len() {
                    assert(v[i] == u[i]);
                } else if j < u.len() {
                    assert(v[j] == u[j]);
                }
            }
        }
    }
}

/// `unique_in_order` keeps the order of first occurrences: the result is
/// `s` at strictly increasing positions, each the first position of that item
/// in `s`.
pub proof fn lemma_unique_in_order_first_occurrences(s: Seq<Seq<char>>) -> (at: Seq<int>)
    ensures
        at.len() == unique_in_order(s).len(),
        forall|i: int| 0 <= i < at.len() ==> 0 <= #[trigger] at[i] < s.len() && s[at[i]]
            == unique_in_order(s)[i],
        forall|i: int, j: int| 0 <= i < j < at.len() ==> #[trigger] at[i] < #[trigger] at[j],
        forall|i: int, c: int| 0 <= i < at.len() && 0 <= c < at[i] ==> #[trigger] s[c]
            != #[trigger] unique_in_order(s)[i],
    decreases s.len(),
{
    if s.len() == 0 {
        Seq::<int>::empty()
    } else {
        let p = s.drop_last();
        let u = unique_in_order(p);
        let prev = lemma_unique_in_order_first_occurrences(p);
        lemma_unique_in_order(p);
        if u.contains(s.last()) {
            assert forall|i: int| 0 <= i < prev.len() implies 0 <= #[trigger] prev[i] < s.len()
                && s[prev[i]] == unique_in_order(s)[i] by {
                assert(s[prev[i]] == p[prev[i]]);
            }
            assert forall|i: int, c: int| 0 <= i < prev.len() && 0 <= c < prev[i] implies #[trigger] s[c]
                != #[trigger] unique_in_order(s)[i] by {
                assert(s[c] == p[c]);
            }
            prev
        } else {
            let last = s.len() - 1;
            let at = prev.push(last);
            let v = unique_in_order(s);
            assert(v == u.push(s.last()));
            assert forall|i: int| 0 <= i < at.len() implies 0 <= #[trigger] at[i] < s.len() && s[at[i]]
                == v[i] by {
                if i < prev.len() {
                    assert(at[i] == prev[i]);
                    assert(s[prev[i]] == p[prev[i]]);
                }
            }
            assert forall|i: int, j: int| 0 <= i < j < at.len() implies #[trigger] at[i] < #[trigger] at[j] by {
                if j < prev.len() {
                    assert(at[i] == prev[i] && at[j] == prev[j]);
                } else {
                    assert(at[i] == prev[i]);
                }
            }
            assert forall|i: int, c: int| 0 <= i < at.len() && 0 <= c < at[i] implies #[trigger] s[c]
                != #[trigger] v[i] by {
                if i < prev.len() {
                    assert(at[i] == prev[i]);
                    assert(s[c] == p[c]);
                } else {
                    assert(s[c] == p[c]);
                    if p[c] == s.last() {
                        assert(p.contains(s.last()));
                    }
                }
            }
            at
        }
    }
}

/// Filling the blank with the word gives the sentence back: the blank
/// replaces the first occurrence of `needle`, and nothing else changes.
pub proof fn lemma_blanked_round_trip(haystack: Seq<char>, needle: Seq<char>) -> (i: int)
    requires
        blanked(haystack, needle) is Some,
    ensures
        occurs_at(haystack, needle, i),
        forall|j: int| 0 <= j < i ==> !occurs_at(haystack, needle, j),
        blanked(haystack, needle) == Some(
            haystack.subrange(0, i) + seq![blank_mark()] + haystack.subrange(
                i + needle.len(),
                haystack.len() as int,
            ),
        ),
        haystack.subrange(0, i) + needle + haystack.subrange(i + needle.len(), haystack.len() as int)
            == haystack,
{
    reveal(first_occurrence);
    let k = choose|k: int| occurs_at(haystack, needle, k);
    crate::text::lemma_first_occurrence_exists(haystack, needle, k);
    let i = first_occurrence(haystack, needle).unwrap();
    assert(haystack.subrange(0, i) + needle + haystack.subrange(
        i + needle.len(),
        haystack.len() as int,
    ) =~= haystack) by {
        assert(haystack.subrange(i, i + needle.len()) == needle);
    }
    i
}

/// The card `c` is made from the entry `e` with `tag`: `e` has an example,
/// the prompt is that example with the first occurrence of the word blanked,
/// the answer is the word, the context the definition, the tag `tag`.
pub open spec fn card_made_from(c: ClozeCardView, e: WordEntryView, tag: Seq<char>) -> bool {
    match e.example {
        Some(x) => {
            &&& blanked(x.japanese, e.word) == Some(c.prompt_jp)
            &&& c.expected == seq![e.word]
            &&& c.context_fr == e.definition
            &&& c.tags == seq![tag]
        },
        None => false,
    }
}

/// The indices in `order` pick candidates of `entries`.
pub open spec fn order_is_valid(entries: Seq<WordEntryView>, require_word: bool, order: Seq<usize>) -> bool {
    forall|i: int| 0 <= i < order.len() ==> #[trigger] order[i] < candidates(entries, require_word).len()
}

/// What every deck built from `entries` with `opts` satisfies: no more cards
/// than the cap, each card made from one of the entries (one that can become
/// a card), and a bank without repeats that holds exactly the answers of the
/// cards or the words of the entries.
pub open spec fn deck_is_sound(d: ClozeDeckView, entries: Seq<WordEntryView>, opts: ClozeOptionsView) -> bool {
    &&& (opts.max_cards matches Some(m) ==> d.cards.len() <= m)
    &&& forall|k: int|
        0 <= k < d.cards.len() ==> #[trigger] card_has_source(
            d.cards[k],
            entries,
            opts.require_word_in_example,
            opts.tag,
        )
    &&& cards_have_distinct_ids(d.cards)
    &&& d.bank.no_duplicates()
    &&& forall|x: Seq<char>|
        #[trigger] d.bank.contains(x) <==> match opts.bank_from {
            BankFrom::Examples => is_card_answer(d.cards, x),
            BankFrom::All => is_entry_word(entries, x),
        }
}

/// No two cards share an id.
pub open spec fn cards_have_distinct_ids(cards: Seq<ClozeCardView>) -> bool {
    forall|i: int, j: int|
        0 <= i < j < cards.len() ==> #[trigger] cards[i].card_local_id != #[trigger] cards[j].card_local_id
}

/// Card ids tell positions apart: ids made at different positions differ,
/// whatever the words.
pub proof fn lemma_card_id_injective(w1: Seq<char>, i1: nat, w2: Seq<char>, i2: nat)
    requires
        card_id(w1, i1) == card_id(w2, i2),
    ensures
        i1 == i2,
{
    let d1 = zero_padded(decimal(i1 + 1), 3);
    let d2 = zero_padded(decimal(i2 + 1), 3);
    lemma_decimal_all_digits(i1 + 1);
    lemma_decimal_all_digits(i2 + 1);
    lemma_zero_padded_value(decimal(i1 + 1), 3);
    lemma_zero_padded_value(decimal(i2 + 1), 3);
    lemma_decimal_value(i1 + 1);
    lemma_decimal_value(i2 + 1);
    lemma_dash_digits_suffix(w1, d1, w2, d2);
}

/// The cards of `cards_for` have distinct ids.
proof fn lemma_cards_for_distinct_ids(sel: Seq<WordEntryView>, tag: Seq<char>)
    ensures
        cards_have_distinct_ids(cards_for(sel, tag)),
    decreases sel.len(),
{
    if sel.len() > 0 {
        let p = sel.drop_last();
        let before = cards_for(p, tag);
        lemma_cards_for_distinct_ids(p, tag);
        lemma_cards_for(p, tag);
        let all = cards_for(sel, tag);
        let last = (sel.len() - 1) as nat;
        assert forall|i: int, j: int| 0 <= i < j < all.len() implies #[trigger] all[i].card_local_id
            != #[trigger] all[j].card_local_id by {
            if j < before.len() {
                assert(all[i] == before[i] && all[j] == before[j]);
            } else {
                assert(all[i] == before[i]);
                let q = choose|q: int|
                    0 <= q < p.len() && #[trigger] card_for(p[q], q as nat, tag) == Some(before[i]);
                assert(before[i].card_local_id == card_id(p[q].word, q as nat));
                assert(all[j].card_local_id == card_id(sel[last as int].word, last));
                if all[i].card_local_id == all[j].card_local_id {
                    lemma_card_id_injective(p[q].word, q as nat, sel[last as int].word, last);
                }
            }
        }
    }
}

/// `c` is made from one of the entries, one that can become a card.
pub open spec fn card_has_source(
    c: ClozeCardView,
    entries: Seq<WordEntryView>,
    require_word: bool,
    tag: Seq<char>,
) -> bool {
    exists|j: int|
        0 <= j < entries.len() && is_candidate(entries[j], require_word) && #[trigger] card_made_from(
            c,
            entries[j],
            tag,
        )
}

/// `x` is the answer of one of the cards.
pub open spec fn is_card_answer(cards: Seq<ClozeCardView>, x: Seq<char>) -> bool {
    exists|k: int| 0 <= k < cards.len() && #[trigger] cards[k].expected[0] == x
}

/// `x` is the word of one of the entries.
pub open spec fn is_entry_word(entries: Seq<WordEntryView>, x: Seq<char>) -> bool {
    exists|j: int| 0 <= j < entries.len() && #[trigger] entries[j].word == x
}

/// Each card comes from one of the selected entries, and there are no more
/// cards than entries.
proof fn lemma_cards_for(sel: Seq<WordEntryView>, tag: Seq<char>)
    ensures
        cards_for(sel, tag).len() <= sel.len(),
        forall|k: int|
            #![trigger cards_for(sel, tag)[k]]
            0 <= k < cards_for(sel, tag).len() ==> exists|j: int|
                0 <= j < sel.len() && #[trigger] card_for(sel[j], j as nat, tag) == Some(
                    cards_for(sel, tag)[k],
                ),
    decreases sel.len(),
{
    if sel.len() > 0 {
        let p = sel.drop_last();
        let before = cards_for(p, tag);
        lemma_cards_for(p, tag);
        assert forall|k: int| #![trigger cards_for(sel, tag)[k]] 0 <= k < cards_for(sel, tag).len() implies exists|j: int|
            0 <= j < sel.len() && #[trigger] card_for(sel[j], j as nat, tag) == Some(
                cards_for(sel, tag)[k],
            ) by {
            if k < before.len() {
                assert(cards_for(sel, tag)[k] == before[k]);
                let j = choose|j: int|
                    0 <= j < p.len() && #[trigger] card_for(p[j], j as nat, tag) == Some(before[k]);
                assert(sel[j] == p[j]);
            } else {
                let j = sel.len() - 1;
                assert(card_for(sel[j], j as nat, tag) == Some(cards_for(sel, tag)[k]));
            }
        }
    }
}

/// A card made by `card_for` is made from its entry.
proof fn lemma_card_for_made_from(e: WordEntryView, index: nat, tag: Seq<char>)
    ensures
        card_for(e, index, tag) matches Some(c) ==> card_made_from(c, e, tag),
{
}

/// Each candidate is an entry that can become a card.
proof fn lemma_candidates_from(es: Seq<WordEntryView>, require_word: bool)
    ensures
        forall|k: int|
            0 <= k < candidates(es, require_word).len() ==> #[trigger] candidate_source(
                es,
                require_word,
                candidates(es, require_word)[k],
            ),
    decreases es.len(),
{
    if es.len() > 0 {
        let p = es.drop_last();
        let before = candidates(p, require_word);
        lemma_candidates_from(p, require_word);
        assert forall|k: int| 0 <= k < candidates(es, require_word).len() implies #[trigger] candidate_source(
            es,
            require_word,
            candidates(es, require_word)[k],
        ) by {
            let c = candidates(es, require_word)[k];
            if k < before.len() {
                assert(c == before[k]);
                assert(candidate_source(p, require_word, before[k]));
                let j = choose|j: int| 0 <= j < p.len() && #[trigger] p[j] == c && is_candidate(p[j], require_word);
                assert(es[j] == p[j]);
            } else {
                assert(is_candidate(es.last(), require_word));
                let j = es.len() - 1;
                assert(es[j] == c);
            }
        }
    }
}

/// `c` is one of the entries `es`, one that can become a card.
pub open spec fn candidate_source(es: Seq<WordEntryView>, require_word: bool, c: WordEntryView) -> bool {
    exists|j: int| 0 <= j < es.len() && #[trigger] es[j] == c && is_candidate(es[j], require_word)
}

/// Every deck built from `entries` with the candidates taken in a valid
/// `order` is sound: capped, made from the entries, with a proper bank.
pub proof fn lemma_deck_in_order_sound(
    deck_id: Seq<char>,
    title: Seq<char>,
    description: Seq<char>,
    entries: Seq<WordEntryView>,
    opts: ClozeOptionsView,
    order: Seq<usize>,
)
    requires
        order_is_valid(entries, opts.require_word_in_example, order),
    ensures
        deck_is_sound(
            deck_in_order(deck_id, title, description, entries, opts, order),
            entries,
            opts,
        ),
{
    let cands = candidates(entries, opts.require_word_in_example);
    let re = reordered(cands, order);
    let chosen = capped(re, opts.max_cards);
    let cards = cards_for(chosen, opts.tag);
    let d = deck_in_order(deck_id, title, description, entries, opts, order);
    lemma_cards_for(chosen, opts.tag);
    lemma_cards_for_distinct_ids(chosen, opts.tag);
    lemma_candidates_from(entries, opts.require_word_in_example);
    assert forall|k: int| 0 <= k < d.cards.len() implies #[trigger] card_has_source(
        d.cards[k],
        entries,
        opts.require_word_in_example,
        opts.tag,
    ) by {
        let q = choose|q: int|
            0 <= q < chosen.len() && #[trigger] card_for(chosen[q], q as nat, opts.tag) == Some(
                cards[k],
            );
        lemma_card_for_made_from(chosen[q], q as nat, opts.tag);
        assert(chosen[q] == re[q]);
        assert(re[q] == cands[order[q] as int]);
        let c = order[q] as int;
        assert(candidate_source(entries, opts.require_word_in_example, cands[c]));
        let j = choose|j: int|
            0 <= j < entries.len() && #[trigger] entries[j] == cands[c] && is_candidate(
                entries[j],
                opts.require_word_in_example,
            );
        assert(card_made_from(d.cards[k], entries[j], opts.tag));
    }
    assert(d.cards == cards);
    assert(chosen.len() <= re.len());
    match opts.max_cards {
        Some(m) => {
            assert(chosen.len() <= m);
            assert(d.cards.len() <= m);
        },
        None => {},
    }
    match opts.bank_from {
        BankFrom::Examples => {
            lemma_unique_in_order(card_answers(cards));
            assert(d.bank == unique_in_order(card_answers(cards)));
            assert forall|x: Seq<char>| #[trigger] d.bank.contains(x) <==> is_card_answer(d.cards, x) by {
                let a = card_answers(cards);
                if a.contains(x) {
                    let k = choose|k: int| 0 <= k < a.len() && a[k] == x;
                    assert(d.cards[k].expected[0] == x);
                }
                if is_card_answer(d.cards, x) {
                    let k = choose|k: int| 0 <= k < d.cards.len() && #[trigger] d.cards[k].expected[0] == x;
                    assert(a[k] == x);
                }
            }
            assert(d.bank.no_duplicates());
            assert(opts.max_cards matches Some(m) ==> d.cards.len() <= m);

        },
        BankFrom::All => {
            lemma_unique_in_order(entry_words(entries));
            assert(d.bank == unique_in_order(entry_words(entries)));
            assert forall|x: Seq<char>| #[trigger] d.bank.contains(x) <==> is_entry_word(entries, x) by {
                let w = entry_words(entries);
                if w.contains(x) {
                    let j = choose|j: int| 0 <= j < w.len() && w[j] == x;
                    assert(entries[j].word == x);
                }
                if is_entry_word(entries, x) {
                    let j = choose|j: int| 0 <= j < entries.len() && #[trigger] entries[j].word == x;
                    assert(w[j] == x);
                }
            }
        },
    }
}

/// Without a seed the candidates keep the order of the entries: the cards
/// are those of the first (up to the cap) candidates, in order.
pub proof fn lemma_unseeded_deck_keeps_order(
    deck_id: Seq<char>,
    title: Seq<char>,
    description: Seq<char>,
    entries: Seq<WordEntryView>,
    opts: ClozeOptionsView,
)
    requires
        opts.seed is None,
        entries.len() <= usize::MAX,
    ensures
        vocab_deck(deck_id, title, description, entries, opts).cards == cards_for(
            capped(candidates(entries, opts.require_word_in_example), opts.max_cards),
            opts.tag,
        ),
{
    let c = candidates(entries, opts.require_word_in_example);
    lemma_candidates_len(entries, opts.require_word_in_example);
    assert forall|i: int| 0 <= i < c.len() implies #[trigger] reordered(c, identity_order(c.len()))[i]
        == c[i] by {
        assert(identity_order(c.len())[i] == i as usize);
    }
    assert(reordered(c, identity_order(c.len())) =~= c);
}

/// The cap keeps the first candidates, in the order taken: the cards are
/// those of the first `min(max_cards, candidates)` candidates of the order,
/// and they begin the cards the same order gives without a cap.
pub proof fn lemma_cap_keeps_first_candidates(
    deck_id: Seq<char>,
    title: Seq<char>,
    description: Seq<char>,
    entries: Seq<WordEntryView>,
    opts: ClozeOptionsView,
    order: Seq<usize>,
)
    ensures
        ({
            let r = reordered(candidates(entries, opts.require_word_in_example), order);
            let k = match opts.max_cards {
                Some(m) => if m < order.len() {
                    m as int
                } else {
                    order.len() as int
                },
                None => order.len() as int,
            };
            let capped_cards = deck_in_order(deck_id, title, description, entries, opts, order).cards;
            let all_cards = deck_in_order(
                deck_id,
                title,
                description,
                entries,
                ClozeOptionsView { max_cards: None, ..opts },
                order,
            ).cards;
            &&& capped_cards == cards_for(r.take(k), opts.tag)
            &&& capped_cards.is_prefix_of(all_cards)
        }),
{
    let r = reordered(candidates(entries, opts.require_word_in_example), order);
    let k = match opts.max_cards {
        Some(m) => if m < order.len() {
            m as int
        } else {
            order.len() as int
        },
        None => order.len() as int,
    };
    assert(r.take(r.len() as int) == r);
    lemma_cards_for_prefix(r, k, opts.tag);
}

/// The cards of a prefix of the selection begin the cards of the whole
/// selection.
pub proof fn lemma_cards_for_prefix(s: Seq<WordEntryView>, k: int, tag: Seq<char>)
    requires
        0 <= k <= s.len(),
    ensures
        cards_for(s.take(k), tag).is_prefix_of(cards_for(s, tag)),
    decreases s.len(),
{
    if k == s.len() {
        assert(s.take(k) == s);
        assert(cards_for(s, tag).subrange(0, cards_for(s, tag).len() as int) == cards_for(s, tag));
    } else {
        let p = s.drop_last();
        assert(s.take(k) == p.take(k));
        lemma_cards_for_prefix(p, k, tag);
        let a = cards_for(s.take(k), tag);
        let b = cards_for(p, tag);
        let c = cards_for(s, tag);
        assert(c.len() >= b.len());
        assert forall|i: int| 0 <= i < a.len() implies a[i] == c[i] by {
            assert(a[i] == b.subrange(0, a.len() as int)[i]);
            assert(c[i] == b[i]);
        }
        assert(a =~= c.subrange(0, a.len() as int));
    }
}

/// Without a seed and with a cap of `m`, the deck's cards are those of the
/// first `m` candidates in entry order (all of them if there are fewer).
pub proof fn lemma_unseeded_cap_keeps_first(
    deck_id: Seq<char>,
    title: Seq<char>,
    description: Seq<char>,
    entries: Seq<WordEntryView>,
    opts: ClozeOptionsView,
    m: usize,
)
    requires
        opts.seed is None,
        opts.max_cards == Some(m),
        entries.len() <= usize::MAX,
    ensures
        ({
            let c = candidates(entries, opts.require_word_in_example);
            vocab_deck(deck_id, title, description, entries, opts).cards == cards_for(
                c.take(if m < c.len() { m as int } else { c.len() as int }),
                opts.tag,
            )
        }),
{
    let c = candidates(entries, opts.require_word_in_example);
    lemma_candidates_len(entries, opts.require_word_in_example);
    assert(reordered(c, identity_order(c.len())) =~= c) by {
        assert forall|i: int| 0 <= i < c.len() implies #[trigger] reordered(c, identity_order(c.len()))[i]
            == c[i] by {
            assert(identity_order(c.len())[i] == i as usize);
        }
    }
    lemma_cap_keeps_first_candidates(
        deck_id,
        title,
        description,
        entries,
        opts,
        identity_order(c.len()),
    );
}

/// There are no more candidates than entries.
proof fn lemma_candidates_len(es: Seq<WordEntryView>, require_word: bool)
    ensures
        candidates(es, require_word).len() <= es.len(),
    decreases es.len(),
{
    if es.len() > 0 {
        lemma_candidates_len(es.drop_last(), require_word);
    }
}

/// The items `g` keeps of `s`, in order.
pub open spec fn keep_some<A, B>(s: Seq<A>, g: spec_fn(A) -> Option<B>) -> Seq<B>
    decreases s.len(),
{
    if s.len() == 0 {
        seq![]
    } else {
        match g(s.last()) {
            Some(b) => keep_some(s.drop_last(), g).push(b),
            None => keep_some(s.drop_last(), g),
        }
    }
}

/// `keep_some` of a concatenation is the concatenation of `keep_some`.
pub proof fn lemma_keep_some_concat<A, B>(a: Seq<A>, b: Seq<A>, g: spec_fn(A) -> Option<B>)
    ensures
        keep_some(a + b, g) == keep_some(a, g) + keep_some(b, g),
    decreases b.len(),
{
    if b.len() == 0 {
        assert(a + b =~= a);
        assert(keep_some(a, g) + keep_some(b, g) =~= keep_some(a, g));
    } else {
        lemma_keep_some_concat(a, b.drop_last(), g);
        assert((a + b).drop_last() =~= a + b.drop_last());
        assert((a + b).last() == b.last());
        match g(b.last()) {
            Some(x) => {
                assert(keep_some(a, g) + keep_some(b.drop_last(), g).push(x) =~= (keep_some(a, g)
                    + keep_some(b.drop_last(), g)).push(x));
            },
            None => {},
        }
    }
}

/// Two sequences with the same items keep the same items under `keep_some`.
pub proof fn lemma_keep_some_permutation<A, B>(a: Seq<A>, b: Seq<A>, g: spec_fn(A) -> Option<B>)
    requires
        a.to_multiset() == b.to_multiset(),
    ensures
        keep_some(a, g).to_multiset() == keep_some(b, g).to_multiset(),
    decreases a.len(),
{
    broadcast use vstd::seq_lib::group_to_multiset_ensures;
    broadcast use vstd::multiset::group_multiset_axioms;

    if a.len() == 0 {
        assert(a.to_multiset().len() == a.len());
        assert(b.to_multiset().len() == b.len());
        assert(b.len() == 0);
        assert(b =~= a);
    } else {
        let e = a.last();
        let a1 = a.drop_last();
        assert(a1.push(e) =~= a);
        assert(a1 + seq![e] =~= a);
        assert(a.contains(e)) by {
            assert(a[a.len() - 1] == e);
        }
        assert(b.to_multiset().count(e) > 0);
        assert(b.contains(e));
        let k = choose|k: int| 0 <= k < b.len() && b[k] == e;
        let b0 = b.subrange(0, k);
        let b2 = b.subrange(k + 1, b.len() as int);
        let one = seq![e];
        let b1 = b.remove(k);
        assert(b1 =~= b0 + b2);
        assert(b =~= b0 + one + b2);
        assert(b1.to_multiset() == b.to_multiset().remove(e));
        assert(a.to_multiset() == a1.to_multiset().insert(e));
        assert(a1.to_multiset() =~= b1.to_multiset());
        lemma_keep_some_permutation(a1, b1, g);
        lemma_keep_some_concat(a1, one, g);
        lemma_keep_some_concat(b0, one, g);
        lemma_keep_some_concat(b0 + one, b2, g);
        lemma_keep_some_concat(b0, b2, g);
        let k0 = keep_some(b0, g);
        let k1 = keep_some(one, g);
        let k2 = keep_some(b2, g);
        vstd::seq_lib::lemma_multiset_commutative(k0 + k1, k2);
        vstd::seq_lib::lemma_multiset_commutative(k0, k1);
        vstd::seq_lib::lemma_multiset_commutative(k0, k2);
        vstd::seq_lib::lemma_multiset_commutative(keep_some(a1, g), k1);
        assert(keep_some(b, g).to_multiset() =~= keep_some(b1, g).to_multiset().add(
            k1.to_multiset(),
        ));
        assert(keep_some(a, g).to_multiset() =~= keep_some(a1, g).to_multiset().add(
            k1.to_multiset(),
        ));
    }
}

/// What a card says, apart from its id: prompt, answers, context, tags.
pub open spec fn card_content(c: ClozeCardView) -> (Seq<char>, Seq<Seq<char>>, Seq<char>, Seq<
    Seq<char>,
>) {
    (c.prompt_jp, c.expected, c.context_fr, c.tags)
}

/// What the cards say, apart from their ids, in order.
pub open spec fn card_contents(cs: Seq<ClozeCardView>) -> Seq<
    (Seq<char>, Seq<Seq<char>>, Seq<char>, Seq<Seq<char>>),
> {
    cs.map_values(|c: ClozeCardView| card_content(c))
}

/// What the card made from `e` says, apart from its id, if `e` makes one.
pub open spec fn entry_card_content(e: WordEntryView, tag: Seq<char>) -> Option<
    (Seq<char>, Seq<Seq<char>>, Seq<char>, Seq<Seq<char>>),
> {
    match card_for(e, 0, tag) {
        Some(c) => Some(card_content(c)),
        None => None,
    }
}

/// The cards of `cards_for` say what their entries make, whatever their
/// positions.
proof fn lemma_cards_for_contents(sel: Seq<WordEntryView>, tag: Seq<char>)
    ensures
        card_contents(cards_for(sel, tag)) == keep_some(
            sel,
            |e: WordEntryView| entry_card_content(e, tag),
        ),
    decreases sel.len(),
{
    if sel.len() > 0 {
        lemma_cards_for_contents(sel.drop_last(), tag);
        let before = cards_for(sel.drop_last(), tag);
        match card_for(sel.last(), (sel.len() - 1) as nat, tag) {
            Some(c) => {
                assert(card_contents(before.push(c)) =~= card_contents(before).push(
                    card_content(c),
                ));
            },
            None => {},
        }
    }
}

/// `reordered` is a `keep_some` that keeps every picked item.
proof fn lemma_reordered_keeps(items: Seq<WordEntryView>, order: Seq<usize>)
    ensures
        reordered(items, order) == keep_some(order, |i: usize| Some(items[i as int])),
    decreases order.len(),
{
    if order.len() > 0 {
        lemma_reordered_keeps(items, order.drop_last());
        assert(reordered(items, order) =~= reordered(items, order.drop_last()).push(
            items[order.last() as int],
        ));
    }
}

/// Seeding only reorders: two decks built from the same entries, without a
/// cap, whose candidate orders each hold every candidate once (as a seed's
/// shuffle does, and as no seed does), have cards saying the same things
/// (apart from their numbered ids) the same number of times, banks that are
/// permutations of each other (equal banks when the bank holds all words),
/// and the same other fields.
pub proof fn lemma_seed_only_reorders(
    deck_id: Seq<char>,
    title: Seq<char>,
    description: Seq<char>,
    entries: Seq<WordEntryView>,
    opts0: ClozeOptionsView,
    opts1: ClozeOptionsView,
)
    requires
        entries.len() <= usize::MAX,
        opts0.max_cards is None,
        opts1.max_cards is None,
        opts0.bank_from == opts1.bank_from,
        opts0.require_word_in_example == opts1.require_word_in_example,
        opts0.tag == opts1.tag,
        seeded_order_is_permutation(
            opts0.seed,
            candidates(entries, opts0.require_word_in_example).len(),
        ),
        seeded_order_is_permutation(
            opts1.seed,
            candidates(entries, opts1.require_word_in_example).len(),
        ),
    ensures
        ({
            let d0 = vocab_deck(deck_id, title, description, entries, opts0);
            let d1 = vocab_deck(deck_id, title, description, entries, opts1);
            &&& card_contents(d0.cards).to_multiset() == card_contents(d1.cards).to_multiset()
            &&& d0.cards.len() == d1.cards.len()
            &&& d0.bank.to_multiset() == d1.bank.to_multiset()
            &&& opts0.bank_from == BankFrom::All ==> d0.bank == d1.bank
            &&& d0.deck_id == d1.deck_id && d0.deck_type == d1.deck_type && d0.cloze_subtype
                == d1.cloze_subtype && d0.title == d1.title && d0.description == d1.description
        }),
{
    broadcast use vstd::seq_lib::group_to_multiset_ensures;

    let c = candidates(entries, opts0.require_word_in_example);
    let n = c.len();
    let tag = opts0.tag;
    lemma_candidates_len(entries, opts0.require_word_in_example);
    let o0 = candidate_order(opts0.seed, n);
    let o1 = candidate_order(opts1.seed, n);
    assert(o0.to_multiset() == identity_order(n).to_multiset());
    assert(o1.to_multiset() == identity_order(n).to_multiset());
    let pick = |i: usize| Some(c[i as int]);
    lemma_reordered_keeps(c, o0);
    lemma_reordered_keeps(c, o1);
    let r0 = reordered(c, o0);
    let r1 = reordered(c, o1);
    lemma_keep_some_permutation(o0, o1, pick);
    assert(r0.to_multiset() == r1.to_multiset());
    assert(capped(r0, opts0.max_cards) == r0);
    assert(capped(r1, opts1.max_cards) == r1);
    let cards0 = cards_for(r0, tag);
    let cards1 = cards_for(r1, tag);
    let h = |e: WordEntryView| entry_card_content(e, tag);
    lemma_cards_for_contents(r0, tag);
    lemma_cards_for_contents(r1, tag);
    lemma_keep_some_permutation(r0, r1, h);
    let t0 = card_contents(cards0);
    let t1 = card_contents(cards1);
    assert(t0.to_multiset() == t1.to_multiset());
    assert(t0.to_multiset().len() == t0.len());
    assert(t1.to_multiset().len() == t1.len());
    assert(t0.len() == t1.len());
    let d0 = vocab_deck(deck_id, title, description, entries, opts0);
    let d1 = vocab_deck(deck_id, title, description, entries, opts1);
    assert(d0.cards == cards0);
    assert(d1.cards == cards1);
    match opts0.bank_from {
        BankFrom::Examples => {
            lemma_unique_in_order(card_answers(cards0));
            lemma_unique_in_order(card_answers(cards1));
            assert forall|x: Seq<char>| d0.bank.contains(x) <==> d1.bank.contains(x) by {
                lemma_answer_moves(cards0, cards1, x);
                lemma_answer_moves(cards1, cards0, x);
            }
            lemma_same_items_without_repeats(d0.bank, d1.bank);
        },
        BankFrom::All => {},
    }
}

/// Two sequences without repeats that hold the same items are permutations
/// of each other.
proof fn lemma_same_items_without_repeats(a: Seq<Seq<char>>, b: Seq<Seq<char>>)
    requires
        a.no_duplicates(),
        b.no_duplicates(),
        forall|x: Seq<char>| a.contains(x) <==> b.contains(x),
    ensures
        a.to_multiset() == b.to_multiset(),
{
    broadcast use vstd::seq_lib::group_to_multiset_ensures;

    a.lemma_multiset_has_no_duplicates();
    b.lemma_multiset_has_no_duplicates();
    assert forall|x: Seq<char>| a.to_multiset().count(x) == b.to_multiset().count(x) by {
        if a.contains(x) {
            assert(b.contains(x));
            assert(a.to_multiset().contains(x));
            assert(b.to_multiset().contains(x));
        } else {
            assert(!b.contains(x));
        }
    }
    assert(a.to_multiset() =~= b.to_multiset());
}

/// An answer of one set of cards is an answer of any set of cards that says
/// the same things.
proof fn lemma_answer_moves(from: Seq<ClozeCardView>, to: Seq<ClozeCardView>, x: Seq<char>)
    requires
        card_contents(from).to_multiset() == card_contents(to).to_multiset(),
    ensures
        card_answers(from).contains(x) ==> card_answers(to).contains(x),
{
    broadcast use vstd::seq_lib::group_to_multiset_ensures;

    if card_answers(from).contains(x) {
        let k = choose|k: int| 0 <= k < card_answers(from).len() && card_answers(from)[k] == x;
        let t = card_contents(from)[k];
        assert(card_contents(from).contains(t));
        assert(card_contents(to).to_multiset().count(t) > 0);
        assert(card_contents(to).contains(t));
        let j = choose|j: int| 0 <= j < card_contents(to).len() && card_contents(to)[j] == t;
        assert(card_answers(to)[j] == to[j].expected[0]);
        assert(card_answers(to)[j] == x);
    }
}


/// An entry makes a card exactly when it has an example that contains its
/// (non-empty) word.
proof fn lemma_entry_makes_card(e: WordEntryView, tag: Seq<char>)
    ensures
        entry_card_content(e, tag) is Some <==> (is_candidate(e, true) && e.word.len() > 0),
{
    reveal(first_occurrence);
    match e.example {
        Some(x) => {
            if contains_seq(x.japanese, e.word) {
                assert(first_occurrence(x.japanese, e.word) is Some);
            }
        },
        None => {},
    }
}

/// Among the entries with an example, those that make a card are the
/// candidates that need their word in the example, when no word is empty.
proof fn lemma_card_makers(es: Seq<WordEntryView>, tag: Seq<char>)
    requires
        forall|i: int| 0 <= i < es.len() ==> (#[trigger] es[i]).word.len() > 0,
    ensures
        keep_some(candidates(es, false), |e: WordEntryView| entry_card_content(e, tag)).len()
            == candidates(es, true).len(),
    decreases es.len(),
{
    let h = |e: WordEntryView| entry_card_content(e, tag);
    if es.len() > 0 {
        let p = es.drop_last();
        assert forall|i: int| 0 <= i < p.len() implies (#[trigger] p[i]).word.len() > 0 by {
            assert(p[i] == es[i]);
        }
        lemma_card_makers(p, tag);
        assert(es.last() == es[es.len() - 1]);
        lemma_entry_makes_card(es.last(), tag);
        if is_candidate(es.last(), false) {
            assert(candidates(es, false) == candidates(p, false).push(es.last()));
            assert(candidates(es, false).drop_last() == candidates(p, false));
        }
    }
}

/// When every candidate makes a card, there are as many cards as selected
/// entries.
proof fn lemma_all_make_cards(sel: Seq<WordEntryView>, tag: Seq<char>)
    requires
        forall|i: int| 0 <= i < sel.len() ==> #[trigger] entry_card_content(sel[i], tag) is Some,
    ensures
        keep_some(sel, |e: WordEntryView| entry_card_content(e, tag)).len() == sel.len(),
    decreases sel.len(),
{
    if sel.len() > 0 {
        let p = sel.drop_last();
        assert forall|i: int| 0 <= i < p.len() implies #[trigger] entry_card_content(p[i], tag) is Some by {
            assert(p[i] == sel[i]);
        }
        lemma_all_make_cards(p, tag);
        assert(entry_card_content(sel[sel.len() - 1], tag) is Some);
    }
}

/// Every candidate that needs its word in the example, with a non-empty word,
/// makes a card.
proof fn lemma_required_candidates_make_cards(es: Seq<WordEntryView>, tag: Seq<char>)
    requires
        forall|i: int| 0 <= i < es.len() ==> (#[trigger] es[i]).word.len() > 0,
    ensures
        forall|k: int|
            0 <= k < candidates(es, true).len() ==> #[trigger] entry_card_content(
                candidates(es, true)[k],
                tag,
            ) is Some,
{
    lemma_candidates_from(es, true);
    assert forall|k: int| 0 <= k < candidates(es, true).len() implies #[trigger] entry_card_content(
        candidates(es, true)[k],
        tag,
    ) is Some by {
        let e = candidates(es, true)[k];
        assert(candidate_source(es, true, e));
        let j = choose|j: int| 0 <= j < es.len() && #[trigger] es[j] == e && is_candidate(es[j], true);
        lemma_entry_makes_card(e, tag);
    }
}

/// The number of cards: with no empty word, and either the word required in
/// the example or no cap, every entry whose example contains its word gives
/// one card, up to the cap, whatever the seed.
pub proof fn lemma_deck_card_count(
    deck_id: Seq<char>,
    title: Seq<char>,
    description: Seq<char>,
    entries: Seq<WordEntryView>,
    opts: ClozeOptionsView,
)
    requires
        entries.len() <= usize::MAX,
        forall|i: int| 0 <= i < entries.len() ==> (#[trigger] entries[i]).word.len() > 0,
        opts.require_word_in_example || opts.max_cards is None,
        seeded_order_is_permutation(
            opts.seed,
            candidates(entries, opts.require_word_in_example).len(),
        ),
    ensures
        vocab_deck(deck_id, title, description, entries, opts).cards.len() == match opts.max_cards {
            Some(m) => if candidates(entries, true).len() > m {
                m as int
            } else {
                candidates(entries, true).len() as int
            },
            None => candidates(entries, true).len() as int,
        },
{
    broadcast use vstd::seq_lib::group_to_multiset_ensures;

    let req = opts.require_word_in_example;
    let c = candidates(entries, req);
    let n = c.len();
    let tag = opts.tag;
    let h = |e: WordEntryView| entry_card_content(e, tag);
    lemma_candidates_len(entries, req);
    let o = candidate_order(opts.seed, n);
    assert(o.to_multiset() == identity_order(n).to_multiset());
    assert(o.to_multiset().len() == o.len());
    assert(identity_order(n).to_multiset().len() == n);
    assert(o.len() == n);
    let r = reordered(c, o);
    let sel = capped(r, opts.max_cards);
    let cards = cards_for(sel, tag);
    lemma_cards_for_contents(sel, tag);
    assert(card_contents(cards).len() == cards.len());
    if req {
        lemma_required_candidates_make_cards(entries, tag);
        assert forall|i: int| 0 <= i < sel.len() implies #[trigger] entry_card_content(sel[i], tag) is Some by {
            assert(sel[i] == r[i]);
            assert(r[i] == c[o[i] as int]);
            assert(o.contains(o[i]));
            assert(o.to_multiset().count(o[i]) > 0);
            assert(identity_order(n).contains(o[i]));
            let j = choose|j: int| 0 <= j < identity_order(n).len() && identity_order(n)[j] == o[i];
            assert(entry_card_content(c[o[i] as int], tag) is Some);
        }
        lemma_all_make_cards(sel, tag);
    } else {
        let pick = |i: usize| Some(c[i as int]);
        lemma_reordered_keeps(c, o);
        lemma_reordered_keeps(c, identity_order(n));
        assert(reordered(c, identity_order(n)) =~= c) by {
            assert forall|i: int| 0 <= i < n implies #[trigger] reordered(c, identity_order(n))[i]
                == c[i] by {
                assert(identity_order(n)[i] == i as usize);
            }
        }
        lemma_keep_some_permutation(o, identity_order(n), pick);
        assert(r.to_multiset() == c.to_multiset());
        lemma_keep_some_permutation(r, c, h);
        assert(keep_some(r, h).to_multiset().len() == keep_some(r, h).len());
        assert(keep_some(c, h).to_multiset().len() == keep_some(c, h).len());
        lemma_card_makers(entries, tag);
    }
}

} // verus!
