//! A filter that keeps tags and a chosen set of attributes.
use vstd::prelude::*;

use super::dom::{
    DomNode, DomNodeView, document_nodes, has_children, lemma_end_from_bounds, node_has_children,
    nodes_view, str_equal, subtree_end,
};
use super::{StripElement, process_spec, render_children, render_node};

verus! {

/// ` key="value"`.
pub open spec fn attribute_text(a: (Seq<char>, Seq<char>)) -> Seq<char> {
    seq![' '] + a.0 + seq!['=', '"'] + a.1 + seq!['"']
}

/// The attributes among `attrs[k..]` whose names are in `keep`, written out
/// in order.
pub open spec fn kept_attributes(
    attrs: Seq<(Seq<char>, Seq<char>)>,
    keep: Seq<Seq<char>>,
    k: int,
) -> Seq<char>
    decreases attrs.len() - k,
{
    if k < 0 || k >= attrs.len() {
        Seq::empty()
    } else {
        (if keep.contains(attrs[k].0) {
            attribute_text(attrs[k])
        } else {
            Seq::empty()
        }) + kept_attributes(attrs, keep, k + 1)
    }
}

/// `<name attrs>`, or `<name attrs />` for an element with no child node.
pub open spec fn opening_tag(name: Seq<char>, attrs: Seq<char>, has_children: bool) -> Seq<char> {
    seq!['<'] + name + attrs + (if has_children {
        Seq::empty()
    } else {
        seq![' ', '/']
    }) + seq!['>']
}

/// Appends ` key="value"` to `out`.
pub fn append_attribute(out: &mut String, key: &str, value: &str)
    ensures
        final(out)@ == old(out)@ + attribute_text((key@, value@)),
{
    out.append(" ");
    out.append(key);
    out.append("=\"");
    out.append(value);
    out.append("\"");
    proof {
        reveal_strlit(" ");
        reveal_strlit("=\"");
        reveal_strlit("\"");
    }
    assert(final(out)@ =~= old(out)@ + attribute_text((key@, value@)));
}

/// Writes `<name attrs>` or `<name attrs />`.
pub fn write_opening_tag(name: &str, attrs: &str, has_children: bool) -> (r: String)
    ensures
        r@ == opening_tag(name@, attrs@, has_children),
{
    let mut r = String::from_str("<");
    r.append(name);
    r.append(attrs);
    if !has_children {
        r.append(" /");
    }
    r.append(">");
    proof {
        reveal_strlit("<");
        reveal_strlit(" /");
        reveal_strlit(">");
    }
    assert(r@ =~= opening_tag(name@, attrs@, has_children));
    r
}

/// Keeps each element's name and only the attributes named in its list.
pub struct FilterHtmlAttributes {
    attributes: Vec<String>,
}

impl FilterHtmlAttributes {
    /// The names of the attributes kept.
    pub closed spec fn kept(&self) -> Seq<Seq<char>> {
        self.attributes@.map_values(|s: String| s@)
    }

    /// A filter keeping the attributes named in `attributes`.
    pub fn new(attributes: Vec<String>) -> (f: Self)
        ensures
            f.kept() == attributes@.map_values(|s: String| s@),
    {
        FilterHtmlAttributes { attributes }
    }

    /// Whether `name` is among the kept attributes.
    fn keeps(&self, name: &str) -> (b: bool)
        ensures
            b == self.kept().contains(name@),
    {
        let mut k: usize = 0;
        while k < self.attributes.len()
            invariant
                k <= self.attributes.len(),
                forall|j: int| 0 <= j < k ==> self.attributes@[j]@ != name@,
            decreases self.attributes.len() - k,
        {
            if str_equal(self.attributes[k].as_str(), name) {
                assert(self.kept()[k as int] == name@);
                return true;
            }
            k = k + 1;
        }
        assert forall|j: int| 0 <= j < self.kept().len() implies self.kept()[j] != name@ by {
            assert(self.kept()[j] == self.attributes@[j]@);
        }
        false
    }
}

impl Default for FilterHtmlAttributes {
    /// Keeps `id` and `class`.
    fn default() -> (f: Self)
        ensures
            f.kept() == default_kept(),
    {
        let attributes = vec![String::from_str("id"), String::from_str("class")];
        proof {
            reveal_strlit("id");
            reveal_strlit("class");
        }
        let f = FilterHtmlAttributes { attributes };
        assert(f.kept() =~~= seq![seq!['i', 'd'], seq!['c', 'l', 'a', 's', 's']]);
        f
    }
}

impl StripElement for FilterHtmlAttributes {
    open spec fn strip_spec(&self, nodes: Seq<DomNodeView>, i: int) -> Seq<char> {
        opening_tag(
            nodes[i].name,
            kept_attributes(nodes[i].attrs, self.kept(), 0),
            has_children(nodes, i),
        )
    }

    fn strip_element(&self, nodes: &Vec<DomNode>, i: usize) -> (s: String) {
        let ghost v = nodes_view(nodes@);
        let node = &nodes[i];
        let mut attributes = String::new();
        let mut k: usize = 0;
        while k < node.attrs.len()
            invariant
                k <= node.attrs.len(),
                v == nodes_view(nodes@),
                node == nodes@[i as int],
                i < nodes.len(),
                kept_attributes(v[i as int].attrs, self.kept(), 0) == attributes@
                    + kept_attributes(v[i as int].attrs, self.kept(), k as int),
            decreases node.attrs.len() - k,
        {
            let ghost before = attributes@;
            let (name, value) = (&node.attrs[k].0, &node.attrs[k].1);
            if self.keeps(name.as_str()) {
                append_attribute(&mut attributes, name.as_str(), value.as_str());
            }
            assert(before + kept_attributes(v[i as int].attrs, self.kept(), k as int) =~= attributes@
                + kept_attributes(v[i as int].attrs, self.kept(), k + 1));
            k = k + 1;
        }
        assert(attributes@ + kept_attributes(v[i as int].attrs, self.kept(), k as int) =~= attributes@);
        write_opening_tag(node.name.as_str(), attributes.as_str(), node_has_children(nodes, i))
    }
}

/// The names `id` and `class`.
pub open spec fn default_kept() -> Seq<Seq<char>> {
    seq![seq!['i', 'd'], seq!['c', 'l', 'a', 's', 's']]
}

/// What a filter writes depends only on the attributes it keeps: two
/// filters keeping the same names render every node alike.
pub proof fn lemma_render_by_kept(
    f1: FilterHtmlAttributes,
    f2: FilterHtmlAttributes,
    nodes: Seq<DomNodeView>,
    i: int,
)
    requires
        f1.kept() == f2.kept(),
    ensures
        render_node(&f1, nodes, i) == render_node(&f2, nodes, i),
    decreases nodes.len() - i, 0int,
{
    if 0 <= i < nodes.len() && has_children(nodes, i) {
        lemma_end_from_bounds(nodes, nodes[i].depth, i + 1);
        lemma_children_by_kept(f1, f2, nodes, i + 1, subtree_end(nodes, i));
    }
}

/// As [`lemma_render_by_kept`], for a run of children.
pub proof fn lemma_children_by_kept(
    f1: FilterHtmlAttributes,
    f2: FilterHtmlAttributes,
    nodes: Seq<DomNodeView>,
    j: int,
    stop: int,
)
    requires
        f1.kept() == f2.kept(),
    ensures
        render_children(&f1, nodes, j, stop) == render_children(&f2, nodes, j, stop),
    decreases nodes.len() - j, 1int,
{
    if 0 <= j < stop && j < nodes.len() {
        lemma_end_from_bounds(nodes, nodes[j].depth, j + 1);
        lemma_render_by_kept(f1, f2, nodes, j);
        lemma_children_by_kept(f1, f2, nodes, subtree_end(nodes, j), stop);
    }
}

/// Two filters keeping the same attributes write the same for every page.
pub proof fn lemma_process_by_kept(f1: FilterHtmlAttributes, f2: FilterHtmlAttributes, page: Seq<char>)
    requires
        f1.kept() == f2.kept(),
    ensures
        process_spec(&f1, page) == process_spec(&f2, page),
{
    lemma_render_by_kept(f1, f2, document_nodes(page), 0);
}

} // verus!
