//! Which result pages to fetch, and what to keep of them.
//!
//! The program fetches pages one after another; this module makes every
//! decision in between: which page comes next, whether to stop, whether to
//! pause before the next request, and which entries to keep.  The caller
//! performs the fetch and the pause and reports each page's entries back.
use vstd::prelude::*;

use crate::jisho::{WordEntry, WordEntryView};

verus! {

/// What a crawl collects.
#[derive(Debug, Clone, Copy, PartialEq, Eq)]
pub enum CrawlGoal {
    /// Every entry of a fixed number of pages.
    Pages,
    /// Entries that have an example sentence, until there are this many.
    Target(usize),
}

/// What the caller should do next.
#[derive(Debug, Clone, Copy, PartialEq, Eq)]
pub enum CrawlAction {
    /// Fetch this page and report its entries with `record_page`.
    Fetch(u32),
    /// The next page would be fetched, but its number does not fit in a
    /// `u32`.
    PageOverflow,
    /// Stop fetching; take the result with `finish`.
    Done,
}

/// The state of a crawl over consecutive result pages.
#[derive(Debug)]
pub struct PageCrawl {
    goal: CrawlGoal,
    page_start: u32,
    limit: u32,
    delay_ms: u64,
    fetched: u32,
    stopped: bool,
    collected: Vec<WordEntry>,
}

/// Whether an entry has an example sentence.
pub open spec fn has_example(e: WordEntryView) -> bool {
    e.example is Some
}

/// The entries of `es` that have an example sentence, in order.
pub open spec fn with_examples(es: Seq<WordEntryView>) -> Seq<WordEntryView>
    decreases es.len(),
{
    if es.len() == 0 {
        seq![]
    } else if has_example(es.last()) {
        with_examples(es.drop_last()).push(es.last())
    } else {
        with_examples(es.drop_last())
    }
}

/// What `with_examples` keeps has an example sentence.
pub proof fn lemma_with_examples_have_examples(es: Seq<WordEntryView>)
    ensures
        forall|i: int|
            0 <= i < with_examples(es).len() ==> #[trigger] has_example(with_examples(es)[i]),
    decreases es.len(),
{
    if es.len() > 0 {
        let prev = with_examples(es.drop_last());
        lemma_with_examples_have_examples(es.drop_last());
        assert forall|i: int| 0 <= i < with_examples(es).len() implies #[trigger] has_example(
            with_examples(es)[i],
        ) by {
            if i < prev.len() {
                assert(with_examples(es)[i] == prev[i]);
            }
        }
    }
}

/// Keeping the entries with an example is filtering on the example alone:
/// every entry whose example is present is kept, in order, whatever its text,
/// and no other.
pub proof fn lemma_with_examples_keeps_every_example(es: Seq<WordEntryView>)
    ensures
        with_examples(es) == es.filter(|e: WordEntryView| e.example is Some),
    decreases es.len(),
{
    reveal(Seq::filter);
    if es.len() > 0 {
        lemma_with_examples_keeps_every_example(es.drop_last());
    }
}

impl PageCrawl {
    /// What the crawl collects.
    pub closed spec fn goal(&self) -> CrawlGoal {
        self.goal
    }

    /// The first page.
    pub closed spec fn page_start(&self) -> u32 {
        self.page_start
    }

    /// The most pages the crawl fetches.
    pub closed spec fn limit(&self) -> u32 {
        self.limit
    }

    /// The pause between two requests.
    pub closed spec fn delay_ms(&self) -> u64 {
        self.delay_ms
    }

    /// How many pages have been reported so far.
    pub closed spec fn fetched(&self) -> u32 {
        self.fetched
    }

    /// Whether an empty page ended the crawl.
    pub closed spec fn stopped(&self) -> bool {
        self.stopped
    }

    /// The entries kept so far.
    pub closed spec fn collected(&self) -> Seq<WordEntryView> {
        self.collected.deep_view()
    }

    /// The state is consistent: no more pages than the limit were reported,
    /// and a target crawl keeps only entries with an example sentence.
    pub open spec fn wf(&self) -> bool {
        &&& self.fetched() <= self.limit()
        &&& (self.goal() matches CrawlGoal::Target(_) ==> forall|i: int|
            0 <= i < self.collected().len() ==> #[trigger] has_example(self.collected()[i]))
    }

    /// The action the state calls for.
    pub open spec fn action_spec(&self) -> CrawlAction {
        if self.stopped() || self.fetched() >= self.limit() || (match self.goal() {
            CrawlGoal::Target(t) => self.collected().len() >= t,
            CrawlGoal::Pages => false,
        }) {
            CrawlAction::Done
        } else if self.page_start() + self.fetched() > u32::MAX {
            CrawlAction::PageOverflow
        } else {
            CrawlAction::Fetch((self.page_start() + self.fetched()) as u32)
        }
    }

    /// A crawl of `pages` pages from `page_start` that keeps every entry.
    pub fn for_pages(page_start: u32, pages: u32, delay_ms: u64) -> (c: PageCrawl)
        ensures
            c.wf(),
            c.goal() == CrawlGoal::Pages,
            c.page_start() == page_start,
            c.limit() == pages,
            c.delay_ms() == delay_ms,
            c.fetched() == 0,
            !c.stopped(),
            c.collected() == Seq::<WordEntryView>::empty(),
    {
        let c = PageCrawl {
            goal: CrawlGoal::Pages,
            page_start,
            limit: pages,
            delay_ms,
            fetched: 0,
            stopped: false,
            collected: Vec::new(),
        };
        assert(c.collected.deep_view() =~= Seq::<WordEntryView>::empty());
        c
    }

    /// A crawl from `page_start` of at most `max_pages` pages that keeps the
    /// entries with an example sentence until it has `target` of them, or a
    /// page has no entries.
    pub fn until_target(page_start: u32, max_pages: u32, target: usize, delay_ms: u64) -> (c:
        PageCrawl)
        ensures
            c.wf(),
            c.goal() == CrawlGoal::Target(target),
            c.page_start() == page_start,
            c.limit() == max_pages,
            c.delay_ms() == delay_ms,
            c.fetched() == 0,
            !c.stopped(),
            c.collected() == Seq::<WordEntryView>::empty(),
    {
        let c = PageCrawl {
            goal: CrawlGoal::Target(target),
            page_start,
            limit: max_pages,
            delay_ms,
            fetched: 0,
            stopped: false,
            collected: Vec::new(),
        };
        assert(c.collected.deep_view() =~= Seq::<WordEntryView>::empty());
        c
    }

    /// What to do next: fetch the next page, or stop.
    pub fn next_action(&self) -> (a: CrawlAction)
        requires
            self.wf(),
        ensures
            a == self.action_spec(),
            a matches CrawlAction::Fetch(p) ==> self.page_start() <= p < self.page_start()
                + self.limit(),
            self.goal() matches CrawlGoal::Target(t) ==> (a is Done <==> (self.stopped()
                || self.fetched() >= self.limit() || self.collected().len() >= t)),
            self.goal() is Pages ==> (a is Done <==> (self.stopped() || self.fetched()
                >= self.limit())),
            !(a is Done) ==> (a == if self.page_start() + self.fetched() <= u32::MAX {
                CrawlAction::Fetch((self.page_start() + self.fetched()) as u32)
            } else {
                CrawlAction::PageOverflow
            }),
    {
        proof {
            lemma_crawl_stops_only_when_done(*self);
        }
        let reached = match self.goal {
            CrawlGoal::Target(t) => self.collected.len() >= t,
            CrawlGoal::Pages => false,
        };
        if self.stopped || self.fetched >= self.limit || reached {
            CrawlAction::Done
        } else {
            match self.page_start.checked_add(self.fetched) {
                Some(page) => CrawlAction::Fetch(page),
                None => CrawlAction::PageOverflow,
            }
        }
    }

    /// Records the entries of the page that `next_action` asked for.
    /// Returns the pause to make before the next request, if any: one is
    /// made after every page but the last allowed one, unless the delay is
    /// zero or an empty page ended a target crawl.
    pub fn record_page(&mut self, entries: Vec<WordEntry>) -> (pause: Option<u64>)
        requires
            old(self).wf(),
            old(self).action_spec() is Fetch,
        ensures
            final(self).wf(),
            final(self).goal() == old(self).goal(),
            final(self).page_start() == old(self).page_start(),
            final(self).limit() == old(self).limit(),
            final(self).delay_ms() == old(self).delay_ms(),
            final(self).fetched() == old(self).fetched() + 1,
            old(self).goal() == CrawlGoal::Pages ==> {
                &&& final(self).collected() == old(self).collected() + entries.deep_view()
                &&& !final(self).stopped()
            },
            old(self).goal() is Target ==> {
                &&& final(self).stopped() == (entries.len() == 0)
                &&& final(self).collected() == old(self).collected() + with_examples(
                    entries.deep_view(),
                )
                &&& final(self).collected() == old(self).collected() + entries.deep_view().filter(
                    |e: WordEntryView| e.example is Some,
                )
            },
            pause == (if (old(self).goal() is Target && entries.len() == 0) || old(self).fetched()
                + 1 >= old(self).limit() || old(self).delay_ms() == 0 {
                None
            } else {
                Some(old(self).delay_ms())
            }),
    {
        proof {
            lemma_with_examples_keeps_every_example(entries.deep_view());
        }
        let i = self.fetched;
        self.fetched = i + 1;
        match self.goal {
            CrawlGoal::Pages => {
                append_entries(&mut self.collected, entries, false);
            },
            CrawlGoal::Target(_) => {
                if entries.len() == 0 {
                    self.stopped = true;
                    assert(with_examples(entries.deep_view()) =~= Seq::<WordEntryView>::empty());
                    assert(self.collected.deep_view() =~= self.collected.deep_view()
                        + Seq::<WordEntryView>::empty());
                    return None;
                }
                let ghost before = self.collected.deep_view();
                let ghost added = with_examples(entries.deep_view());
                append_entries(&mut self.collected, entries, true);
                proof {
                    lemma_with_examples_have_examples(entries.deep_view());
                    assert forall|k: int| 0 <= k < self.collected().len() implies #[trigger] has_example(
                        self.collected()[k],
                    ) by {
                        if k < before.len() {
                            assert(self.collected()[k] == before[k]);
                        } else {
                            assert(self.collected()[k] == added[k - before.len()]);
                        }
                    }
                }
            },
        }
        if i + 1 < self.limit && self.delay_ms > 0 {
            Some(self.delay_ms)
        } else {
            None
        }
    }

    /// The entries the crawl keeps: a target crawl keeps at most `target`.
    pub fn finish(self) -> (r: Vec<WordEntry>)
        requires
            self.wf(),
        ensures
            r.deep_view() == (match self.goal() {
                CrawlGoal::Target(t) => if self.collected().len() > t {
                    self.collected().take(t as int)
                } else {
                    self.collected()
                },
                CrawlGoal::Pages => self.collected(),
            }),
            self.goal() matches CrawlGoal::Target(t) ==> r.len() <= t && forall|i: int|
                0 <= i < r.len() ==> #[trigger] has_example(r.deep_view()[i]),
    {
        let mut r = self.collected;
        match self.goal {
            CrawlGoal::Target(t) => {
                if r.len() > t {
                    let ghost before = r@;
                    let ghost before_dv = r.deep_view();
                    r.truncate(t);
                    assert(r.deep_view() =~= before_dv.take(t as int)) by {
                        assert forall|k: int| 0 <= k < r@.len() implies r.deep_view()[k]
                            == before_dv.take(t as int)[k] by {
                            assert(r@[k] == before[k]);
                        }
                    }
                }
            },
            CrawlGoal::Pages => {},
        }
        r
    }
}

/// A crawl stops only for a reason: a target crawl is done exactly when an
/// empty page stopped it, the page limit is reached, or it holds at least the
/// target number of entries; a page crawl exactly when the page limit is
/// reached.  Otherwise the next page, `page_start + fetched`, is fetched, if
/// its number fits in a `u32`.
pub proof fn lemma_crawl_stops_only_when_done(c: PageCrawl)
    ensures
        c.goal() matches CrawlGoal::Target(t) ==> (c.action_spec() is Done <==> (c.stopped()
            || c.fetched() >= c.limit() || c.collected().len() >= t)),
        c.goal() is Pages ==> (c.action_spec() is Done <==> (c.stopped() || c.fetched()
            >= c.limit())),
        !(c.action_spec() is Done) ==> (c.action_spec() == if c.page_start() + c.fetched()
            <= u32::MAX {
            CrawlAction::Fetch((c.page_start() + c.fetched()) as u32)
        } else {
            CrawlAction::PageOverflow
        }),
{
}

/// Moves the entries of `entries` to the end of `into`, only those with an
/// example sentence if `only_examples`.
fn append_entries(into: &mut Vec<WordEntry>, entries: Vec<WordEntry>, only_examples: bool)
    ensures
        final(into).deep_view() == old(into).deep_view() + (if only_examples {
            with_examples(entries.deep_view())
        } else {
            entries.deep_view()
        }),
{
    let ghost start = into.deep_view();
    let ghost all = entries.deep_view();
    let mut rest = entries;
    let mut taken: usize = 0;
    let n = rest.len();
    while rest.len() > 0
        invariant
            n == all.len(),
            taken + rest@.len() == n,
            rest.deep_view() == all.skip(taken as int),
            into.deep_view() == start + (if only_examples {
                with_examples(all.take(taken as int))
            } else {
                all.take(taken as int)
            }),
        decreases rest@.len(),
    {
        let ghost before_rest = rest@;
        let ghost before_rest_dv = rest.deep_view();
        let ghost before_into = into@;
        let ghost before_into_dv = into.deep_view();
        assert(before_rest_dv[0] == all[taken as int]);
        let e = rest.remove(0);
        assert(e@ == all[taken as int]);
        assert(rest.deep_view() =~= all.skip(taken + 1)) by {
            assert forall|k: int| 0 <= k < rest@.len() implies rest.deep_view()[k] == all.skip(
                taken + 1,
            )[k] by {
                assert(rest@[k] == before_rest[k + 1]);
                assert(before_rest_dv[k + 1] == before_rest[k + 1]@);
            }
        }
        assert(all.take(taken + 1).drop_last() == all.take(taken as int));
        assert(all.take(taken + 1).last() == e@);
        let keep = !only_examples || e.example.is_some();
        if keep {
            into.push(e);
            assert(into.deep_view() =~= before_into_dv.push(e@)) by {
                assert forall|k: int| 0 <= k < into@.len() implies into.deep_view()[k]
                    == before_into_dv.push(e@)[k] by {
                    if k < before_into.len() {
                        assert(into@[k] == before_into[k]);
                    }
                }
            }
        }
        taken = taken + 1;
    }
    assert(all.take(n as int) == all);
}

} // verus!
