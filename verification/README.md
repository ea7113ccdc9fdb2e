# jisho_scraper

A library, verified with Verus, that reads jisho.org JLPT word lists, and a
small command-line program around it.

- `src/text.rs`: the character-level model (Unicode white space, trimming,
  collapsing, ASCII lowercasing, decimal numbers, substring search).
- `src/dom.rs`: the bridge to `scraper`. A selected element is handed over as
  the open/close edges of a walk of its subtree, and what another selector
  matches inside it as one flag per edge; reading descendants, children and
  text off these sequences is verified.
- `src/jisho.rs`: the search URL of a page, and the word entries of a result
  page (`parse_words_from_html`), specified element by element.
- `src/crawl.rs`: which page to fetch next, when to stop, when to pause, and
  what to keep, as a state machine driven by the program.
- `src/sensei_cloze.rs`: cloze decks (`build_vocab_cloze_deck`), with the
  properties every deck has (cap, provenance of each card, distinct card ids,
  bank without repeats).
- `app/main.rs`: arguments, HTTP requests, pauses and JSON output.

For example:

```bash
jisho-scraper --level n5 --target 50 --format cloze-deck --deck-id n5-vocab-1
```
