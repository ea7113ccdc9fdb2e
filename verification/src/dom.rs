//! The parsed HTML as the scraper reads it.
//!
//! `scraper` parses the page and matches CSS selectors; this module hands its
//! results to the rest of the library as plain values.  An element that a
//! selector picked out is given as its traversal: the sequence of open and
//! close edges of a depth-first walk of its subtree, starting with the
//! element's own opening edge and ending with its closing edge.  Which
//! elements of that subtree another selector matches is given as one flag per
//! edge.  Everything the scraper reads afterwards (descendants, children,
//! text) is computed from these sequences by verified code.
use vstd::prelude::*;
use vstd::string::StringSliceAdditionalSpecFns;

use crate::text::push_all;
use ego_tree::iter::Edge;
use scraper::Node;

verus! {

broadcast use vstd::string::group_string_axioms;

#[verifier::external_type_specification]
#[verifier::external_body]
pub struct ExHtml(scraper::Html);

#[verifier::external_type_specification]
#[verifier::external_body]
pub struct ExSelector(scraper::Selector);

#[verifier::external_type_specification]
#[verifier::external_body]
pub struct ExSelectorErrorKind(scraper::error::SelectorErrorKind);

/// What a node of the document is, as far as the scraper cares.
#[derive(Clone, Debug, PartialEq, Eq)]
pub enum DomNode {
    /// A text node and its text.
    Text(String),
    /// An element and its (local) tag name.
    Element(String),
    /// The document root, a doctype, a comment or a processing instruction.
    Other,
}

/// One edge of a depth-first traversal.
#[derive(Clone, Debug, PartialEq, Eq)]
pub enum DomEdge {
    /// The walk enters a node.
    Open(DomNode),
    /// The walk leaves the node most recently entered and not yet left.
    Close,
}

/// The mathematical value of a [`DomNode`].
pub enum DomNodeView {
    Text(Seq<char>),
    Element(Seq<char>),
    Other,
}

/// The mathematical value of a [`DomEdge`].
pub enum DomEdgeView {
    Open(DomNodeView),
    Close,
}

impl View for DomNode {
    type V = DomNodeView;

    open spec fn view(&self) -> DomNodeView {
        match self {
            DomNode::Text(t) => DomNodeView::Text(t@),
            DomNode::Element(n) => DomNodeView::Element(n@),
            DomNode::Other => DomNodeView::Other,
        }
    }
}

impl DeepView for DomNode {
    type V = DomNodeView;

    open spec fn deep_view(&self) -> DomNodeView {
        self@
    }
}

impl View for DomEdge {
    type V = DomEdgeView;

    open spec fn view(&self) -> DomEdgeView {
        match self {
            DomEdge::Open(n) => DomEdgeView::Open(n@),
            DomEdge::Close => DomEdgeView::Close,
        }
    }
}

impl DeepView for DomEdge {
    type V = DomEdgeView;

    open spec fn deep_view(&self) -> DomEdgeView {
        self@
    }
}

/// Whether `scraper` accepts `selector` as a CSS selector group.
pub uninterp spec fn css_selector_parses(selector: Seq<char>) -> bool;

/// The traversals of the elements of the document parsed from `html` that
/// `selector` matches, in the order in which `Html::select` yields them.
pub uninterp spec fn css_select_traversals(html: Seq<char>, selector: Seq<char>) -> Seq<
    Seq<DomEdgeView>,
>;

/// For each element of the document parsed from `html` that `scope` matches
/// (in the order of [`css_select_traversals`]), one flag per edge of its
/// traversal: whether that edge opens an element that `target` matches with
/// the scope element as `:scope`.
pub uninterp spec fn css_scoped_match_flags(html: Seq<char>, scope: Seq<char>, target: Seq<
    char,
>) -> Seq<Seq<bool>>;

/// A parsed HTML document together with the text it was parsed from.
pub struct HtmlDocument {
    source: String,
    html: scraper::Html,
}

impl HtmlDocument {
    /// The text the document was parsed from.
    pub closed spec fn source(&self) -> Seq<char> {
        self.source@
    }

    /// `scraper::Html::parse_document`: parses `source` as a whole HTML
    /// document.  Malformed markup is repaired, so no text is refused; the
    /// parser's buffers hold at most `u32::MAX` bytes, and a longer text
    /// panics there, so the text's UTF-8 length must stay within that.
    #[verifier::external_body]
    pub(crate) fn parse(source: &str) -> (doc: HtmlDocument)
        requires
            source.spec_bytes().len() <= u32::MAX,
        ensures
            doc.source() == source@,
    {
        HtmlDocument { source: source.to_string(), html: scraper::Html::parse_document(source) }
    }
}

/// A parsed CSS selector together with its text.
pub struct CssSelector {
    text: String,
    selector: scraper::Selector,
}

impl CssSelector {
    /// The text the selector was parsed from.
    pub closed spec fn text(&self) -> Seq<char> {
        self.text@
    }

    /// `scraper::Selector::parse`: parses `text` as a CSS selector group.
    /// The claim is that it succeeds exactly on the texts that
    /// [`css_selector_parses`] names, and that a success keeps `text`.
    #[verifier::external_body]
    pub(crate) fn parse(text: &str) -> (r: Result<CssSelector, scraper::error::SelectorErrorKind>)
        ensures
            r is Ok <==> css_selector_parses(text@),
            r matches Ok(c) ==> c.text() == text@,
    {
        scraper::Selector::parse(text).map(|selector| CssSelector { text: text.to_string(), selector })
    }
}

/// `Debug` of `scraper::error::SelectorErrorKind`: a description of why a
/// selector was refused.  Nothing is claimed of the text.
#[verifier::external_body]
pub(crate) fn describe_selector_error(e: &scraper::error::SelectorErrorKind) -> String {
    format!("{e:?}")
}

/// `Html::select` followed by the depth-first traversal (`NodeRef::traverse`)
/// of each selected element.  The claim is that the result, taken edge by
/// edge, is [`css_select_traversals`] of the document's text and the
/// selector's text.
#[verifier::external_body]
pub(crate) fn select_traversals(doc: &HtmlDocument, css: &CssSelector) -> (r: Vec<Vec<DomEdge>>)
    ensures
        r.deep_view() == css_select_traversals(doc.source(), css.text()),
{
    doc.html.select(&css.selector).map(|el| el.traverse().map(|edge| match edge {
        Edge::Open(n) => DomEdge::Open(match n.value() {
            Node::Text(t) => DomNode::Text(t.to_string()),
            Node::Element(e) => DomNode::Element(e.name().to_string()),
            _ => DomNode::Other,
        }),
        Edge::Close(_) => DomEdge::Close,
    }).collect()).collect()
}

/// `Selector::matches_with_scope` of `target`, applied to every edge of the
/// traversal of every element that `Html::select` yields for `scope`, with
/// that element as the scope.  The claim is that the result is
/// [`css_scoped_match_flags`] of the three texts.
#[verifier::external_body]
pub(crate) fn scoped_match_flags(doc: &HtmlDocument, scope: &CssSelector, target: &CssSelector) -> (r: Vec<Vec<bool>>)
    ensures
        r.deep_view() == css_scoped_match_flags(doc.source(), scope.text(), target.text()),
{
    doc.html.select(&scope.selector).map(|el| el.traverse().map(|edge| match edge {
        Edge::Open(n) => scraper::ElementRef::wrap(n)
            .is_some_and(|e| target.selector.matches_with_scope(&e, Some(el))),
        Edge::Close(_) => false,
    }).collect()).collect()
}

// ---------------------------------------------------------------------------
// Reading a traversal
// ---------------------------------------------------------------------------

/// Scanning `e` from index `i` with `depth` nodes entered and not yet left,
/// the index of the first close edge that leaves the node we started inside
/// (or `e.len()` if there is none).
pub open spec fn span_end(e: Seq<DomEdgeView>, i: int, depth: nat) -> int
    decreases e.len() - i,
{
    if i < 0 || i >= e.len() {
        e.len() as int
    } else {
        match e[i] {
            DomEdgeView::Close => if depth == 0 {
                i
            } else {
                span_end(e, i + 1, (depth - 1) as nat)
            },
            DomEdgeView::Open(_) => span_end(e, i + 1, depth + 1),
        }
    }
}

/// The index of the edge that closes the node opened at `p`.
pub open spec fn node_end(e: Seq<DomEdgeView>, p: int) -> int {
    span_end(e, p + 1, 0)
}

/// The first index in `[a, b)` whose flag is set.
pub open spec fn first_flagged(f: Seq<bool>, a: int, b: int) -> Option<int>
    decreases b - a,
{
    if a >= b {
        None
    } else if 0 <= a < f.len() && f[a] {
        Some(a)
    } else {
        first_flagged(f, a + 1, b)
    }
}

/// The first element strictly inside the node opened at `p` whose flag is
/// set (`ElementRef::select(..).next()`).
pub open spec fn first_inside(e: Seq<DomEdgeView>, f: Seq<bool>, p: int) -> Option<int> {
    first_flagged(f, p + 1, node_end(e, p))
}

/// The texts of the text nodes opened in `[a, b)`, concatenated.
pub open spec fn text_between(e: Seq<DomEdgeView>, a: int, b: int) -> Seq<char>
    decreases b - a,
{
    if b <= a || b > e.len() || a < 0 {
        seq![]
    } else {
        let before = text_between(e, a, b - 1);
        match e[b - 1] {
            DomEdgeView::Open(DomNodeView::Text(t)) => before + t,
            _ => before,
        }
    }
}

/// All text below the node opened at `p`, concatenated
/// (`ElementRef::text().collect::<String>()`).
pub open spec fn node_text(e: Seq<DomEdgeView>, p: int) -> Seq<char> {
    text_between(e, p + 1, node_end(e, p))
}

/// `span_end` never goes back and never goes past the end.
pub proof fn lemma_span_end_bounds(e: Seq<DomEdgeView>, i: int, depth: nat)
    requires
        0 <= i,
    ensures
        i <= span_end(e, i, depth) <= e.len() || (i > e.len() && span_end(e, i, depth)
            == e.len()),
    decreases e.len() - i,
{
    if i < e.len() {
        match e[i] {
            DomEdgeView::Close => {
                if depth != 0 {
                    lemma_span_end_bounds(e, i + 1, (depth - 1) as nat);
                }
            },
            DomEdgeView::Open(_) => lemma_span_end_bounds(e, i + 1, depth + 1),
        }
    }
}

/// The node opened at `p` closes after `p`, within the traversal.
pub proof fn lemma_node_end_bounds(e: Seq<DomEdgeView>, p: int)
    requires
        0 <= p < e.len(),
    ensures
        p < node_end(e, p) <= e.len(),
{
    lemma_span_end_bounds(e, p + 1, 0);
}

/// The index of the edge that closes the node opened at `p`.
pub fn find_node_end(e: &Vec<DomEdge>, p: usize) -> (r: usize)
    requires
        p < e.len(),
    ensures
        r == node_end(e.deep_view(), p as int),
        p < r <= e.len(),
{
    let ghost ev = e.deep_view();
    proof {
        lemma_node_end_bounds(ev, p as int);
    }
    let mut i: usize = p + 1;
    let mut depth: usize = 0;
    while i < e.len()
        invariant
            p < i <= e.len(),
            ev == e.deep_view(),
            depth < i,
            span_end(ev, i as int, depth as nat) == node_end(ev, p as int),
        decreases e.len() - i,
    {
        match &e[i] {
            DomEdge::Close => {
                if depth == 0 {
                    return i;
                }
                depth = depth - 1;
            },
            DomEdge::Open(_) => {
                depth = depth + 1;
            },
        }
        i = i + 1;
    }
    i
}

/// The first index in `[a, b)` whose flag is set.
pub fn find_first_flagged(f: &Vec<bool>, a: usize, b: usize) -> (r: Option<usize>)
    ensures
        r matches Some(i) ==> first_flagged(f@, a as int, b as int) == Some(i as int),
        r is None ==> first_flagged(f@, a as int, b as int) is None,
{
    let mut i = a;
    while i < b
        invariant
            a <= i,
            i <= b || a >= b,
            first_flagged(f@, i as int, b as int) == first_flagged(f@, a as int, b as int),
        decreases b - i,
    {
        if i < f.len() && f[i] {
            return Some(i);
        }
        i = i + 1;
    }
    None
}

/// The first element strictly inside the node opened at `p` whose flag is
/// set.
pub fn find_first_inside(e: &Vec<DomEdge>, f: &Vec<bool>, p: usize) -> (r: Option<usize>)
    requires
        p < e.len(),
    ensures
        r matches Some(i) ==> first_inside(e.deep_view(), f@, p as int) == Some(i as int) && p
            < i < e.len(),
        r is None ==> first_inside(e.deep_view(), f@, p as int) is None,
{
    let end = find_node_end(e, p);
    let r = find_first_flagged(f, p + 1, end);
    proof {
        if let Some(i) = r {
            lemma_first_flagged_range(f@, (p + 1) as int, end as int);
        }
    }
    r
}

/// A flagged index lies in the scanned range.
pub proof fn lemma_first_flagged_range(f: Seq<bool>, a: int, b: int)
    ensures
        first_flagged(f, a, b) matches Some(i) ==> a <= i < b,
    decreases b - a,
{
    if a < b && !(0 <= a < f.len() && f[a]) {
        lemma_first_flagged_range(f, a + 1, b);
    }
}

/// All text below the node opened at `p`, concatenated.
pub fn collect_node_text(e: &Vec<DomEdge>, p: usize) -> (s: String)
    requires
        p < e.len(),
    ensures
        s@ == node_text(e.deep_view(), p as int),
{
    let ghost ev = e.deep_view();
    let end = find_node_end(e, p);
    let mut s = String::new();
    let mut i = p + 1;
    while i < end
        invariant
            p < i <= end <= e.len(),
            ev == e.deep_view(),
            end == node_end(ev, p as int),
            s@ == text_between(ev, p + 1, i as int),
        decreases end - i,
    {
        match &e[i] {
            DomEdge::Open(DomNode::Text(t)) => {
                push_all(&mut s, t.as_str());
            },
            _ => {},
        }
        i = i + 1;
    }
    s
}

} // verus!
