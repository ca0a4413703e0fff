//! Parsed HTML documents as a flat list of nodes in document order.
//!
//! A document is held as the nodes under its root `<html>` element, root
//! included, in pre-order, each with its depth in the tree. The subtree of a
//! node is the run of nodes after it that are deeper than it, and its
//! children are the nodes reached from the first of them by hopping from
//! each to the end of its own subtree.
use vstd::prelude::*;

use super::content::text::chars_of;

verus! {

/// The outside parsed-document type.
#[verifier::external_type_specification]
#[verifier::external_body]
pub struct ExHtml(scraper::Html);

/// What a node is.
#[derive(Clone, Copy, Debug, PartialEq, Eq, Structural)]
pub enum NodeKind {
    /// An element, with a name and attributes.
    Element,
    /// A run of text.
    Text,
    /// Anything else: a comment, a doctype, a processing instruction.
    Other,
}

/// One node of a document.
#[derive(Debug)]
pub struct DomNode {
    /// What the node is.
    pub kind: NodeKind,
    /// The number of the node's ancestors.
    pub depth: usize,
    /// The element's local name; empty for other nodes.
    pub name: String,
    /// The element's attributes as (local name, value), in the order the
    /// parser keeps them; empty for other nodes.
    pub attrs: Vec<(String, String)>,
    /// The text of a text node; empty for other nodes.
    pub text: String,
}

/// The plain-value form of a [`DomNode`].
pub struct DomNodeView {
    pub kind: NodeKind,
    pub depth: nat,
    pub name: Seq<char>,
    pub attrs: Seq<(Seq<char>, Seq<char>)>,
    pub text: Seq<char>,
}

impl View for DomNode {
    type V = DomNodeView;

    open spec fn view(&self) -> DomNodeView {
        DomNodeView {
            kind: self.kind,
            depth: self.depth as nat,
            name: self.name@,
            attrs: self.attrs@.map_values(|a: (String, String)| (a.0@, a.1@)),
            text: self.text@,
        }
    }
}

/// The plain-value form of a list of nodes.
pub open spec fn nodes_view(nodes: Seq<DomNode>) -> Seq<DomNodeView> {
    nodes.map_values(|n: DomNode| n@)
}

impl DomNode {
    /// An element node.
    pub fn element(depth: usize, name: String, attrs: Vec<(String, String)>) -> (n: Self)
        ensures
            n.kind == NodeKind::Element,
            n.depth == depth,
            n.name@ == name@,
            n.attrs@ == attrs@,
            n.text@ == Seq::<char>::empty(),
    {
        DomNode { kind: NodeKind::Element, depth, name, attrs, text: String::new() }
    }

    /// A text node.
    pub fn text_node(depth: usize, text: String) -> (n: Self)
        ensures
            n.kind == NodeKind::Text,
            n.depth == depth,
            n.name@ == Seq::<char>::empty(),
            n.attrs@ == Seq::<(String, String)>::empty(),
            n.text@ == text@,
    {
        DomNode { kind: NodeKind::Text, depth, name: String::new(), attrs: Vec::new(), text }
    }

    /// Any other node.
    pub fn other(depth: usize) -> (n: Self)
        ensures
            n.kind == NodeKind::Other,
            n.depth == depth,
            n.name@ == Seq::<char>::empty(),
            n.attrs@ == Seq::<(String, String)>::empty(),
            n.text@ == Seq::<char>::empty(),
    {
        DomNode {
            kind: NodeKind::Other,
            depth,
            name: String::new(),
            attrs: Vec::new(),
            text: String::new(),
        }
    }
}

/// The nodes under the root element of the document that `scraper` parses
/// from `page`, in pre-order, root first.
pub uninterp spec fn document_nodes(page: Seq<char>) -> Seq<DomNodeView>;

/// The pre-order position, among [`document_nodes`], of the first element
/// that `scraper::Html::select` yields for `selector` on the document parsed
/// from `page`; `None` when the selector does not parse.
pub uninterp spec fn first_selected(page: Seq<char>, selector: Seq<char>) -> Option<Option<nat>>;

/// For each of [`document_nodes`], whether it is an element that `selector`
/// matches with the node at `scope` as the `:scope` element; `None` when the
/// selector does not parse.
pub uninterp spec fn selected_within(page: Seq<char>, scope: nat, selector: Seq<char>) -> Option<
    Seq<bool>,
>;

/// Parses `page` with `scraper::Html::parse_document`. Nothing is claimed of
/// the result, which only the other trusted items of this module read.
#[verifier::external_body]
fn parse_html(page: &str) -> scraper::Html {
    scraper::Html::parse_document(page)
}

/// An HTML document parsed from a page.
pub struct HtmlDocument {
    html: scraper::Html,
    page: String,
}

impl HtmlDocument {
    /// The page the document was parsed from.
    pub closed spec fn page(&self) -> Seq<char> {
        self.page@
    }

    /// Parses `page`.
    pub fn parse(page: &str) -> (d: Self)
        ensures
            d.page() == page@,
    {
        HtmlDocument { html: parse_html(page), page: String::from_str(page) }
    }

    /// The document's nodes under its root element, in pre-order
    /// (`descendants` of `root_element`, each converted with its ancestor
    /// count). Claims that they are the named nodes of the page, which holds
    /// because a document is only ever built by [`HtmlDocument::parse`].
    #[verifier::external_body]
    pub(crate) fn nodes(&self) -> (r: Vec<DomNode>)
        ensures
            nodes_view(r@) == document_nodes(self.page()),
    {
        self.html.root_element().descendants().map(|n| match n.value() {
            scraper::Node::Element(e) => DomNode::element(
                n.ancestors().count(),
                e.name().to_string(),
                e.attrs().map(|(k, v)| (k.to_string(), v.to_string())).collect(),
            ),
            scraper::Node::Text(t) => DomNode::text_node(n.ancestors().count(), t.to_string()),
            _ => DomNode::other(n.ancestors().count()),
        }).collect()
    }

    /// The first element that `scraper::Html::select` yields for `selector`,
    /// as a position among [`HtmlDocument::nodes`]; `None` when the selector
    /// does not parse. Claims that the answer is the named one for the page.
    #[verifier::external_body]
    pub(crate) fn select_first(&self, selector: &str) -> (r: Option<Option<usize>>)
        ensures
            r matches Some(Some(p)) ==> first_selected(self.page(), selector@) == Some(Some(p as nat)),
            r matches Some(None) ==> first_selected(self.page(), selector@) == Some(None::<nat>),
            r is None ==> first_selected(self.page(), selector@) is None,
    {
        match scraper::Selector::parse(selector) {
            Ok(sel) => Some(self.html.select(&sel).next().and_then(|e| self.html.root_element().descendants().position(|n| n.id() == e.id()))),
            Err(_) => None,
        }
    }

    /// For each node, whether `selector` matches it with the element at
    /// position `scope` as the `:scope` element (the test that
    /// `ElementRef::select` applies); `None` when the selector does not
    /// parse. Claims that the answer is the named one for the page.
    #[verifier::external_body]
    pub(crate) fn select_within(&self, scope: usize, selector: &str) -> (r: Option<Vec<bool>>)
        ensures
            r matches Some(f) ==> selected_within(self.page(), scope as nat, selector@) == Some(f@),
            r is None ==> selected_within(self.page(), scope as nat, selector@) is None,
    {
        let sel = scraper::Selector::parse(selector).ok()?;
        let nodes: Vec<_> = self.html.root_element().descendants().collect();
        let scope_el = nodes.get(scope).and_then(|n| scraper::ElementRef::wrap(*n));
        Some(nodes.iter().map(|n| match (scraper::ElementRef::wrap(*n), scope_el) {
            (Some(e), Some(s)) => sel.matches_with_scope(&e, Some(s)),
            _ => false,
        }).collect())
    }
}

/// The end of the subtree that starts at a node of depth `d`, looking from
/// `j` on: the first position at or after `j` with a depth of at most `d`,
/// or the length.
pub open spec fn end_from(nodes: Seq<DomNodeView>, d: nat, j: int) -> int
    decreases nodes.len() - j,
{
    if j < 0 || j >= nodes.len() || nodes[j].depth <= d {
        j
    } else {
        end_from(nodes, d, j + 1)
    }
}

/// The position just past the subtree of the node at `i`.
pub open spec fn subtree_end(nodes: Seq<DomNodeView>, i: int) -> int {
    end_from(nodes, nodes[i].depth, i + 1)
}

/// A subtree ends after its root and no later than the list.
pub proof fn lemma_end_from_bounds(nodes: Seq<DomNodeView>, d: nat, j: int)
    requires
        0 <= j <= nodes.len(),
    ensures
        j <= end_from(nodes, d, j) <= nodes.len(),
        forall|k: int| j <= k < end_from(nodes, d, j) ==> nodes[k].depth > d,
        end_from(nodes, d, j) < nodes.len() ==> nodes[end_from(nodes, d, j)].depth <= d,
    decreases nodes.len() - j,
{
    if j < nodes.len() && nodes[j].depth > d {
        lemma_end_from_bounds(nodes, d, j + 1);
    }
}

/// A subtree search stops no later than a position whose depth is at most
/// the bound.
pub proof fn lemma_end_from_le(nodes: Seq<DomNodeView>, d: nat, j: int, m: int)
    requires
        0 <= j <= m <= nodes.len(),
        m == nodes.len() || nodes[m].depth <= d,
    ensures
        end_from(nodes, d, j) <= m,
    decreases m - j,
{
    if j < m && nodes[j].depth > d {
        lemma_end_from_le(nodes, d, j + 1, m);
    }
}

/// The subtree of a node inside the subtree of another ends within it.
pub proof fn lemma_nested_end(nodes: Seq<DomNodeView>, i: int, j: int)
    requires
        0 <= i < j < subtree_end(nodes, i),
        subtree_end(nodes, i) <= nodes.len(),
    ensures
        j < subtree_end(nodes, j) <= subtree_end(nodes, i),
{
    lemma_end_from_bounds(nodes, nodes[i].depth, i + 1);
    lemma_end_from_bounds(nodes, nodes[j].depth, j + 1);
    lemma_end_from_le(nodes, nodes[j].depth, j + 1, subtree_end(nodes, i));
}

/// Whether the node at `i` has any child node, text included.
pub open spec fn has_children(nodes: Seq<DomNodeView>, i: int) -> bool {
    i + 1 < nodes.len() && nodes[i + 1].depth > nodes[i].depth
}

/// The end of the subtree of the node at `i`.
pub fn subtree_end_of(nodes: &Vec<DomNode>, i: usize) -> (e: usize)
    requires
        i < nodes.len(),
    ensures
        e == subtree_end(nodes_view(nodes@), i as int),
        i < e <= nodes.len(),
{
    let ghost v = nodes_view(nodes@);
    let d = nodes[i].depth;
    let mut j = i + 1;
    proof {
        lemma_end_from_bounds(v, d as nat, j as int);
    }
    while j < nodes.len() && nodes[j].depth > d
        invariant
            i < j <= nodes.len(),
            v == nodes_view(nodes@),
            d == v[i as int].depth,
            end_from(v, d as nat, i + 1) == end_from(v, d as nat, j as int),
        decreases nodes.len() - j,
    {
        j = j + 1;
    }
    j
}

/// Whether the node at `i` has any child node.
pub fn node_has_children(nodes: &Vec<DomNode>, i: usize) -> (b: bool)
    requires
        i < nodes.len(),
    ensures
        b == has_children(nodes_view(nodes@), i as int),
{
    i + 1 < nodes.len() && nodes[i + 1].depth > nodes[i].depth
}

/// Whether two strings hold the same characters.
pub fn str_equal(a: &str, b: &str) -> (r: bool)
    ensures
        r == (a@ == b@),
{
    let x = chars_of(a);
    let y = chars_of(b);
    if x.len() != y.len() {
        return false;
    }
    let mut k: usize = 0;
    while k < x.len()
        invariant
            x.len() == y.len(),
            x@ == a@,
            y@ == b@,
            k <= x.len(),
            forall|j: int| 0 <= j < k ==> x@[j] == y@[j],
        decreases x.len() - k,
    {
        if x[k] != y[k] {
            assert(x@[k as int] != y@[k as int]);
            return false;
        }
        k = k + 1;
    }
    assert(x@ =~= y@);
    true
}

} // verus!
