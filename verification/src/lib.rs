//! Jisho JLPT word lists: the search URL of each page, the word entries a
//! result page lists (word, reading, definition, example sentence), the
//! decisions of a crawl over consecutive pages, and Sensei cloze decks built
//! from the entries.
use vstd::prelude::*;

pub mod crawl;
pub mod dom;
pub mod jisho;
pub mod sensei_cloze;
pub mod text;

verus! {
}
