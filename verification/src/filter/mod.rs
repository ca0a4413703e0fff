//! HTML normalisation and text extraction.
//!
//! A filter rewrites a page as the sequence of its elements' opening tags,
//! as the filter chooses to write them, with each element that has any
//! child node followed by its rendered child elements and a closing tag.
//! Text, comments and other nodes are dropped.
pub mod content;
pub mod dom;
pub mod extract_main;
pub mod filter_attributes;

use vstd::prelude::*;

use self::dom::{
    DomNode, DomNodeView, HtmlDocument, document_nodes, has_children, lemma_end_from_bounds,
    lemma_nested_end,
    node_has_children, nodes_view, subtree_end, subtree_end_of,
};

verus! {

/// `</name>`.
pub open spec fn closing_tag(name: Seq<char>) -> Seq<char> {
    seq!['<', '/'] + name + seq!['>']
}

/// The rendering of the node at `i`: its opening text and, where it has
/// any child node, its rendered child elements and its closing tag.
pub open spec fn render_node<F: StripElement>(f: &F, nodes: Seq<DomNodeView>, i: int) -> Seq<char>
    decreases nodes.len() - i, 0int,
{
    if i < 0 || i >= nodes.len() {
        Seq::empty()
    } else if has_children(nodes, i) {
        proof {
            lemma_end_from_bounds(nodes, nodes[i].depth, i + 1);
        }
        f.strip_spec(nodes, i) + render_children(f, nodes, i + 1, subtree_end(nodes, i))
            + closing_tag(nodes[i].name)
    } else {
        f.strip_spec(nodes, i)
    }
}

/// The rendering of the elements among the nodes from `j` to `stop` that
/// are reached by hopping from each node to the end of its subtree.
pub open spec fn render_children<F: StripElement>(
    f: &F,
    nodes: Seq<DomNodeView>,
    j: int,
    stop: int,
) -> Seq<char>
    decreases nodes.len() - j, 1int,
{
    if j < 0 || j >= stop || j >= nodes.len() {
        Seq::empty()
    } else {
        proof {
            lemma_end_from_bounds(nodes, nodes[j].depth, j + 1);
        }
        (if nodes[j].kind == dom::NodeKind::Element {
            render_node(f, nodes, j)
        } else {
            Seq::empty()
        }) + render_children(f, nodes, subtree_end(nodes, j), stop)
    }
}

/// The rendering of a whole document: that of its root element.
pub open spec fn render_document<F: StripElement>(f: &F, nodes: Seq<DomNodeView>) -> Seq<char> {
    render_node(f, nodes, 0)
}

/// What a filter makes of a page.
pub open spec fn process_spec<F: StripElement>(f: &F, page: Seq<char>) -> Seq<char> {
    render_document(f, document_nodes(page))
}

/// How a filter writes the opening text of each element.
pub trait StripElement: Sized {
    /// The opening text this filter writes for the element at `i`.
    spec fn strip_spec(&self, nodes: Seq<DomNodeView>, i: int) -> Seq<char>;

    /// The opening text for the element at `i`.
    fn strip_element(&self, nodes: &Vec<DomNode>, i: usize) -> (s: String)
        requires
            i < nodes.len(),
        ensures
            s@ == self.strip_spec(nodes_view(nodes@), i as int),
    ;
}

/// A rewriting of a page's element structure.
pub trait HtmlFilter: StripElement {
    /// Appends the rendering of the element at `i` to `result`.
    fn traverse_element(&self, nodes: &Vec<DomNode>, i: usize, result: &mut String)
        requires
            i < nodes.len(),
        ensures
            final(result)@ == old(result)@ + render_node(self, nodes_view(nodes@), i as int),
    ;

    /// The filter's rewriting of `page`.
    fn process_document(&self, page: &str) -> (r: String)
        ensures
            r@ == process_spec(self, page@),
    ;
}

impl<F: StripElement> HtmlFilter for F {
    fn traverse_element(&self, nodes: &Vec<DomNode>, i: usize, result: &mut String) {
        traverse(self, nodes, i, result)
    }

    fn process_document(&self, page: &str) -> (r: String) {
        let document = HtmlDocument::parse(page);
        let nodes = document.nodes();
        let mut result = String::new();
        if nodes.len() > 0 {
            traverse(self, &nodes, 0, &mut result);
        }
        result
    }
}

/// Appends the rendering under `f` of the element at `i` to `result`.
pub fn traverse<F: StripElement>(f: &F, nodes: &Vec<DomNode>, i: usize, result: &mut String)
    requires
        i < nodes.len(),
    ensures
        final(result)@ == old(result)@ + render_node(f, nodes_view(nodes@), i as int),
    decreases nodes.len() - i,
{
    let ghost v = nodes_view(nodes@);
    let begin = f.strip_element(nodes, i);
    result.append(begin.as_str());
    if node_has_children(nodes, i) {
        let end = subtree_end_of(nodes, i);
        let ghost mid = result@;
        let mut j = i + 1;
        while j < end
            invariant
                i < j <= end,
                end <= nodes.len(),
                v == nodes_view(nodes@),
                end == subtree_end(v, i as int),
                mid + render_children(f, v, i + 1, end as int) == result@
                    + render_children(f, v, j as int, end as int),
            decreases end - j,
        {
            let next = subtree_end_of(nodes, j);
            proof {
                lemma_nested_end(v, i as int, j as int);
            }
            let ghost before = result@;
            if nodes[j].kind == dom::NodeKind::Element {
                traverse(f, nodes, j, result);
            }
            assert(before + render_children(f, v, j as int, end as int) =~= result@
                + render_children(f, v, next as int, end as int));
            j = next;
        }
        let mut close = String::from_str("</");
        close.append(nodes[i].name.as_str());
        close.append(">");
        proof {
            reveal_strlit("</");
            reveal_strlit(">");
        }
        let ghost before_close = result@;
        result.append(close.as_str());
        assert(result@ =~= mid + render_children(f, v, i + 1, end as int) + closing_tag(
            v[i as int].name,
        ));
    }
}

/// Filters applied one after another, each to what the one before wrote.
pub struct FilterPipeline<F: HtmlFilter> {
    filters: Vec<F>,
}

/// The result of applying `fs` in order to `html`.
pub open spec fn pipeline_spec<F: HtmlFilter>(fs: Seq<F>, html: Seq<char>) -> Seq<char>
    decreases fs.len(),
{
    if fs.len() == 0 {
        html
    } else {
        process_spec(&fs.last(), pipeline_spec(fs.drop_last(), html))
    }
}

impl<F: HtmlFilter> FilterPipeline<F> {
    /// The filters, in the order they apply.
    pub closed spec fn stages(&self) -> Seq<F> {
        self.filters@
    }

    /// A pipeline with no filters.
    pub fn new() -> (p: Self)
        ensures
            p.stages() == Seq::<F>::empty(),
    {
        FilterPipeline { filters: Vec::new() }
    }

    /// This pipeline followed by `filter`.
    pub fn then(self, filter: F) -> (p: Self)
        ensures
            p.stages() == self.stages().push(filter),
    {
        let mut filters = self.filters;
        filters.push(filter);
        FilterPipeline { filters }
    }

    /// Applies the filters in order to `html`.
    pub fn apply(&self, html: &str) -> (r: String)
        ensures
            r@ == pipeline_spec(self.stages(), html@),
    {
        let mut acc = String::from_str(html);
        let mut k: usize = 0;
        while k < self.filters.len()
            invariant
                k <= self.filters.len(),
                acc@ == pipeline_spec(self.filters@.subrange(0, k as int), html@),
            decreases self.filters.len() - k,
        {
            let next = self.filters[k].process_document(acc.as_str());
            proof {
                let fs = self.filters@.subrange(0, k + 1);
                assert(fs.drop_last() =~= self.filters@.subrange(0, k as int));
                assert(fs.last() == self.filters@[k as int]);
            }
            acc = next;
            k = k + 1;
        }
        assert(self.filters@.subrange(0, k as int) =~= self.filters@);
        acc
    }
}

/// A node that is not an element adds nothing to a rendering: the children
/// from `j` on render as those after its subtree do.
pub proof fn lemma_non_element_adds_nothing<F: StripElement>(f: &F, nodes: Seq<DomNodeView>, j: int, stop: int)
    requires
        0 <= j < stop,
        j < nodes.len(),
        nodes[j].kind != dom::NodeKind::Element,
    ensures
        render_children(f, nodes, j, stop) == render_children(f, nodes, subtree_end(nodes, j), stop),
{
    assert(render_children(f, nodes, j, stop) =~= Seq::<char>::empty() + render_children(
        f,
        nodes,
        subtree_end(nodes, j),
        stop,
    ));
}

/// An element contributes its own rendering: the children from `j` on
/// render as the element at `j` followed by those after its subtree.
pub proof fn lemma_element_renders_itself<F: StripElement>(f: &F, nodes: Seq<DomNodeView>, j: int, stop: int)
    requires
        0 <= j < stop,
        j < nodes.len(),
        nodes[j].kind == dom::NodeKind::Element,
    ensures
        render_children(f, nodes, j, stop) == render_node(f, nodes, j) + render_children(
            f,
            nodes,
            subtree_end(nodes, j),
            stop,
        ),
{
}

/// Where no node from `j` up to `stop` is an element, they render as
/// nothing: comments, text and other nodes write no tag.
pub proof fn lemma_no_elements_render_nothing<F: StripElement>(f: &F, nodes: Seq<DomNodeView>, j: int, stop: int)
    requires
        0 <= j,
        forall|k: int| j <= k < stop && k < nodes.len() ==> #[trigger] nodes[k].kind != dom::NodeKind::Element,
    ensures
        render_children(f, nodes, j, stop) == Seq::<char>::empty(),
    decreases nodes.len() - j,
{
    if j < stop && j < nodes.len() {
        lemma_end_from_bounds(nodes, nodes[j].depth, j + 1);
        assert(nodes[j].kind != dom::NodeKind::Element);
        lemma_no_elements_render_nothing(f, nodes, subtree_end(nodes, j), stop);
        assert(render_children(f, nodes, j, stop) =~= Seq::<char>::empty() + Seq::<char>::empty());
    }
}

/// An element with no element below it renders as its opening text, and
/// its closing tag where it has any child node: the comments and text
/// under it write nothing.
pub proof fn lemma_childless_element_renders_alone<F: StripElement>(f: &F, nodes: Seq<DomNodeView>, i: int)
    requires
        0 <= i < nodes.len(),
        forall|k: int| i < k < subtree_end(nodes, i) ==> #[trigger] nodes[k].kind != dom::NodeKind::Element,
    ensures
        render_node(f, nodes, i) == if has_children(nodes, i) {
            f.strip_spec(nodes, i) + closing_tag(nodes[i].name)
        } else {
            f.strip_spec(nodes, i)
        },
{
    lemma_end_from_bounds(nodes, nodes[i].depth, i + 1);
    lemma_no_elements_render_nothing(f, nodes, i + 1, subtree_end(nodes, i));
    if has_children(nodes, i) {
        assert(f.strip_spec(nodes, i) + Seq::<char>::empty() + closing_tag(nodes[i].name) =~= f.strip_spec(
            nodes,
            i,
        ) + closing_tag(nodes[i].name));
    }
}

/// A pipeline with no filters gives back its input.
pub proof fn lemma_pipeline_empty<F: HtmlFilter>(html: Seq<char>)
    ensures
        pipeline_spec(Seq::<F>::empty(), html) == html,
{
}

/// Adding a filter to a pipeline applies it to what the pipeline wrote.
pub proof fn lemma_pipeline_then<F: HtmlFilter>(fs: Seq<F>, f: F, html: Seq<char>)
    ensures
        pipeline_spec(fs.push(f), html) == process_spec(&f, pipeline_spec(fs, html)),
{
    assert(fs.push(f).drop_last() =~= fs);
}

/// A pipeline of one filter applies that filter.
pub proof fn lemma_pipeline_single<F: HtmlFilter>(f: F, html: Seq<char>)
    ensures
        pipeline_spec(seq![f], html) == process_spec(&f, html),
{
    assert(seq![f].drop_last() =~= Seq::<F>::empty());
    assert(pipeline_spec(Seq::<F>::empty(), html) == html);
    assert(seq![f].last() == f);
    assert(pipeline_spec(seq![f], html) == process_spec(&seq![f].last(), pipeline_spec(seq![f].drop_last(), html)));
}

/// Pipelines compose: running `first` and then `second` is running the
/// filters of both, in order.
pub proof fn lemma_pipeline_compose<F: HtmlFilter>(first: Seq<F>, second: Seq<F>, html: Seq<char>)
    ensures
        pipeline_spec(first + second, html) == pipeline_spec(second, pipeline_spec(first, html)),
    decreases second.len(),
{
    if second.len() == 0 {
        assert(first + second =~= first);
    } else {
        lemma_pipeline_compose(first, second.drop_last(), html);
        assert((first + second).drop_last() =~= first + second.drop_last());
        assert((first + second).last() == second.last());
    }
}

} // verus!
