//! The structure of a page's `<main>` element.
use vstd::prelude::*;

use super::dom::{
    DomNode, DomNodeView, HtmlDocument, document_nodes, first_selected, has_children,
    node_has_children, nodes_view,
};
use super::filter_attributes::{
    append_attribute, attribute_text, opening_tag, write_opening_tag,
};
use super::{HtmlFilter, StripElement, render_node};

verus! {

/// All attributes among `attrs[k..]`, written out in order.
pub open spec fn all_attributes(attrs: Seq<(Seq<char>, Seq<char>)>, k: int) -> Seq<char>
    decreases attrs.len() - k,
{
    if k < 0 || k >= attrs.len() {
        Seq::empty()
    } else {
        attribute_text(attrs[k]) + all_attributes(attrs, k + 1)
    }
}

/// Writes each element with its name and all its attributes.
pub struct AllAttributes;

impl StripElement for AllAttributes {
    open spec fn strip_spec(&self, nodes: Seq<DomNodeView>, i: int) -> Seq<char> {
        opening_tag(nodes[i].name, all_attributes(nodes[i].attrs, 0), has_children(nodes, i))
    }

    fn strip_element(&self, nodes: &Vec<DomNode>, i: usize) -> (s: String) {
        let ghost v = nodes_view(nodes@);
        let node = &nodes[i];
        let mut attributes = String::new();
        let mut k: usize = 0;
        while k < node.attrs.len()
            invariant
                k <= node.attrs.len(),
                v == nodes_view(nodes@),
                node == nodes@[i as int],
                i < nodes.len(),
                all_attributes(v[i as int].attrs, 0) == attributes@ + all_attributes(
                    v[i as int].attrs,
                    k as int,
                ),
            decreases node.attrs.len() - k,
        {
            let ghost before = attributes@;
            append_attribute(&mut attributes, node.attrs[k].0.as_str(), node.attrs[k].1.as_str());
            assert(before + all_attributes(v[i as int].attrs, k as int) =~= attributes@
                + all_attributes(v[i as int].attrs, k + 1));
            k = k + 1;
        }
        assert(attributes@ + all_attributes(v[i as int].attrs, k as int) =~= attributes@);
        write_opening_tag(node.name.as_str(), attributes.as_str(), node_has_children(nodes, i))
    }
}

/// The rendering, with all attributes, of the first `<main>` element of the
/// page, or nothing where there is none.
pub open spec fn extract_main_spec(page: Seq<char>) -> Seq<char> {
    match first_selected(page, seq!['m', 'a', 'i', 'n']) {
        Some(Some(p)) => render_node(&AllAttributes, document_nodes(page), p as int),
        _ => Seq::empty(),
    }
}

/// The first `<main>` element of `html`, written with its tags and all
/// attributes.
pub fn extract_main(html: String) -> (r: String)
    ensures
        r@ == extract_main_spec(html@),
{
    let document = HtmlDocument::parse(html.as_str());
    let nodes = document.nodes();
    let key = "main";
    let found = document.select_first(key);
    proof {
        reveal_strlit("main");
        assert(key@ =~= seq!['m', 'a', 'i', 'n']);
    }
    let mut result = String::new();
    assert(nodes_view(nodes@) == document_nodes(html@));
    match found {
        Some(Some(p)) => {
            if p < nodes.len() {
                let filter = AllAttributes;
                filter.traverse_element(&nodes, p, &mut result);
                assert(filter == AllAttributes);
            }
        },
        _ => {},
    }
    result
}

} // verus!
