//! What article extraction guarantees: whose text a paragraph gathers,
//! which container it reads, and which sections it leaves out.
use vstd::prelude::*;

use super::common::{container_from, end_of, keeps_paragraph, node_text, text_pieces};
use super::text::{join_with, words};
use super::common::clean_text_spec;
use crate::filter::dom::{DomNodeView, NodeKind, first_selected, lemma_end_from_bounds, selected_within};

verus! {

/// `w` occurs in `s` as a contiguous block.
pub open spec fn contains_block(s: Seq<char>, w: Seq<char>) -> bool {
    exists|a: int| 0 <= a && a + w.len() <= s.len() && #[trigger] s.subrange(a, a + w.len()) == w
}

/// The text of every text node from `from` up to `to` is among the pieces
/// gathered over that range.
proof fn lemma_pieces_hold_text(nodes: Seq<DomNodeView>, from: int, to: int, t: int)
    requires
        from <= t < to <= nodes.len(),
        nodes[t].kind == NodeKind::Text,
    ensures
        exists|q: int|
            0 <= q < text_pieces(nodes, from, to).len() && #[trigger] text_pieces(nodes, from, to)[q]
                == nodes[t].text,
    decreases to - from,
{
    let prev = text_pieces(nodes, from, to - 1);
    if t < to - 1 {
        lemma_pieces_hold_text(nodes, from, to - 1, t);
        let q = choose|q: int| 0 <= q < prev.len() && #[trigger] prev[q] == nodes[t].text;
        assert(text_pieces(nodes, from, to)[q] == prev[q]);
    } else {
        assert(text_pieces(nodes, from, to) == prev + seq![nodes[t].text]);
        assert(text_pieces(nodes, from, to)[prev.len() as int] == nodes[t].text);
    }
}

/// Each item of `ws` occurs in `ws` joined by `sep` as a contiguous block.
proof fn lemma_join_holds_item(ws: Seq<Seq<char>>, sep: Seq<char>, q: int)
    requires
        0 <= q < ws.len(),
    ensures
        contains_block(join_with(ws, sep), ws[q]),
    decreases ws.len(),
{
    let j = join_with(ws, sep);
    if ws.len() == 1 {
        assert(j.subrange(0int, 0int + ws[0].len()) =~= ws[0]);
        assert(0 <= 0int && 0 + ws[0].len() <= j.len() && j.subrange(0int, 0int + ws[0].len()) == ws[0]);
    } else if q == 0 {
        assert(j == ws[0] + sep + join_with(ws.drop_first(), sep));
        assert(j.subrange(0int, 0int + ws[0].len()) =~= ws[0]);
        assert(0 <= 0int && 0 + ws[0].len() <= j.len() && j.subrange(0int, 0int + ws[0].len()) == ws[0]);
    } else {
        let rest = ws.drop_first();
        lemma_join_holds_item(rest, sep, q - 1);
        let jr = join_with(rest, sep);
        let a = choose|a: int| 0 <= a && a + rest[q - 1].len() <= jr.len() && #[trigger] jr.subrange(
            a,
            a + rest[q - 1].len(),
        ) == rest[q - 1];
        let off = ws[0].len() + sep.len();
        assert(j == ws[0] + sep + jr);
        assert(ws[q] == rest[q - 1]);
        assert(j.subrange(off + a, off + a + ws[q].len()) =~= jr.subrange(a, a + rest[q - 1].len()));
        assert(0 <= off + a && off + a + ws[q].len() <= j.len() && j.subrange(off + a, off + a + ws[q].len())
            == ws[q]);
    }
}

/// A candidate's raw text holds the text of every text node anywhere in
/// its subtree, however deeply nested (in a link, say), each as a block.
pub proof fn lemma_node_text_holds_descendants(nodes: Seq<DomNodeView>, j: int, t: int)
    requires
        0 <= j < t < end_of(nodes, j),
        nodes[t].kind == NodeKind::Text,
    ensures
        contains_block(node_text(nodes, j), nodes[t].text),
{
    lemma_end_from_bounds(nodes, nodes[j].depth, j + 1);
    let end = end_of(nodes, j);
    lemma_pieces_hold_text(nodes, j + 1, end, t);
    let ps = text_pieces(nodes, j + 1, end);
    let q = choose|q: int| 0 <= q < ps.len() && #[trigger] ps[q] == nodes[t].text;
    lemma_join_holds_item(ps, seq![' '], q);
}

/// The container is the first element that the earliest selector that
/// selects anything selects: where the `i`th selector selects `p` first
/// and none before it selects anything, the container is `p`.
pub proof fn lemma_container_is_earliest_match(page: Seq<char>, sels: Seq<Seq<char>>, i: int, p: nat)
    requires
        0 <= i < sels.len(),
        first_selected(page, sels[i]) == Some(Some(p)),
        forall|k: int| 0 <= k < i ==> !(#[trigger] first_selected(page, sels[k]) matches Some(Some(_))),
    ensures
        container_from(page, sels, 0) == Some(p),
{
    lemma_container_from_skips(page, sels, 0, i, p);
}

/// Selectors before the `i`th that select nothing are passed over.
proof fn lemma_container_from_skips(page: Seq<char>, sels: Seq<Seq<char>>, k: int, i: int, p: nat)
    requires
        0 <= k <= i < sels.len(),
        first_selected(page, sels[i]) == Some(Some(p)),
        forall|m: int| 0 <= m < i ==> !(#[trigger] first_selected(page, sels[m]) matches Some(Some(_))),
    ensures
        container_from(page, sels, k) == Some(p),
    decreases i - k,
{
    if k < i {
        assert(!(first_selected(page, sels[k]) matches Some(Some(_))));
        lemma_container_from_skips(page, sels, k + 1, i, p);
    }
}

/// A candidate inside an element that an excluded selector matches, at any
/// depth under the container, is never kept as a paragraph.
pub proof fn lemma_excluded_sections_dropped(
    page: Seq<char>,
    nodes: Seq<DomNodeView>,
    excluded: Seq<Seq<char>>,
    c: int,
    candidate: Seq<char>,
    k: int,
    e: int,
    j: int,
)
    requires
        0 <= k < excluded.len(),
        c < e < end_of(nodes, c),
        flag_at_selected(page, c, excluded[k], e),
        e < j < end_of(nodes, e),
        flag_at_selected(page, e, candidate, j),
    ensures
        !keeps_paragraph(page, nodes, excluded, c, candidate, j),
{
    assert(super::common::excluded_by(page, nodes, excluded, c, candidate, k, e, j));
}

/// Whether the selector, applied with the element at `scope` as its scope,
/// matches the node at `j`.
pub open spec fn flag_at_selected(page: Seq<char>, scope: int, selector: Seq<char>, j: int) -> bool {
    match selected_within(page, scope as nat, selector) {
        Some(f) => 0 <= j < f.len() && f[j],
        None => false,
    }
}

/// Where the text of the text node at `t` starts in the raw text of a
/// candidate whose descendants start at `from`: after the text of every
/// earlier text node from `from` on, each followed by one space.
pub open spec fn text_offset(nodes: Seq<DomNodeView>, from: int, t: int) -> int
    decreases t - from,
{
    if t <= from {
        0
    } else {
        text_offset(nodes, from, t - 1) + if nodes[t - 1].kind == NodeKind::Text {
            nodes[t - 1].text.len() + 1
        } else {
            0
        }
    }
}

/// The length of `ws` joined by single spaces, plus one: each item and one
/// space for it.
spec fn spaced_len(ws: Seq<Seq<char>>) -> int
    decreases ws.len(),
{
    if ws.len() == 0 {
        0
    } else {
        spaced_len(ws.drop_last()) + ws.last().len() + 1
    }
}

/// Gathering from `from` to `to` is gathering to `t` and then from `t`.
proof fn lemma_pieces_split(nodes: Seq<DomNodeView>, from: int, t: int, to: int)
    requires
        from <= t <= to <= nodes.len(),
    ensures
        text_pieces(nodes, from, to) == text_pieces(nodes, from, t) + text_pieces(nodes, t, to),
    decreases to - t,
{
    if t == to {
        assert(text_pieces(nodes, t, to) =~= Seq::<Seq<char>>::empty());
        assert(text_pieces(nodes, from, t) + Seq::<Seq<char>>::empty() =~= text_pieces(nodes, from, t));
    } else {
        lemma_pieces_split(nodes, from, t, to - 1);
        assert(text_pieces(nodes, from, to) =~= text_pieces(nodes, from, t) + text_pieces(nodes, t, to));
    }
}

/// The offset of a text node is the spaced length of the pieces before it.
proof fn lemma_offset_is_spaced_len(nodes: Seq<DomNodeView>, from: int, t: int)
    requires
        from <= t <= nodes.len(),
    ensures
        text_offset(nodes, from, t) == spaced_len(text_pieces(nodes, from, t)),
    decreases t - from,
{
    if t > from {
        lemma_offset_is_spaced_len(nodes, from, t - 1);
        let prev = text_pieces(nodes, from, t - 1);
        if nodes[t - 1].kind == NodeKind::Text {
            let ps = text_pieces(nodes, from, t);
            assert(ps == prev.push(nodes[t - 1].text));
            assert(ps.drop_last() =~= prev);
        } else {
            assert(text_pieces(nodes, from, t) =~= prev);
        }
    }
}

/// Joining items by single spaces is one shorter than their spaced length.
proof fn lemma_join_len(ws: Seq<Seq<char>>)
    ensures
        ws.len() > 0 ==> join_with(ws, seq![' ']).len() == spaced_len(ws) - 1,
        ws.len() == 0 ==> join_with(ws, seq![' ']).len() == 0,
    decreases ws.len(),
{
    if ws.len() > 0 {
        let p = ws.drop_last();
        lemma_join_len(p);
        assert(p.push(ws.last()) =~= ws);
        super::common::lemma_join_push(p, ws.last(), seq![' ']);
        assert(spaced_len(ws) == spaced_len(p) + ws.last().len() + 1);
        if p.len() == 0 {
            assert(join_with(ws, seq![' ']) == ws.last());
        } else {
            assert(join_with(ws, seq![' ']) == join_with(p, seq![' ']) + seq![' '] + ws.last());
        }
    }
}

/// In `a` followed by `w` and then `b`, joined by single spaces, `w` starts
/// at the spaced length of `a`.
proof fn lemma_join_item_at(a: Seq<Seq<char>>, w: Seq<char>, b: Seq<Seq<char>>)
    ensures
        ({
            let j = join_with(a + seq![w] + b, seq![' ']);
            let off = spaced_len(a);
            &&& 0 <= off
            &&& off + w.len() <= j.len()
            &&& j.subrange(off, off + w.len()) == w
        }),
    decreases b.len(),
{
    lemma_spaced_len_nonneg(a);
    if b.len() == 0 {
        assert(a + seq![w] + b =~= a.push(w));
        super::common::lemma_join_push(a, w, seq![' ']);
        lemma_join_len(a);
        let j = join_with(a.push(w), seq![' ']);
        if a.len() == 0 {
            assert(j.subrange(0, w.len() as int) =~= w);
        } else {
            assert(j.subrange(spaced_len(a), spaced_len(a) + w.len()) =~= w);
        }
    } else {
        let bp = b.drop_last();
        lemma_join_item_at(a, w, bp);
        let x = a + seq![w] + bp;
        assert(a + seq![w] + b =~= x.push(b.last()));
        super::common::lemma_join_push(x, b.last(), seq![' ']);
        let jx = join_with(x, seq![' ']);
        let j = join_with(x.push(b.last()), seq![' ']);
        assert(x.len() > 0);
        assert(j == jx + seq![' '] + b.last());
        assert(j.subrange(spaced_len(a), spaced_len(a) + w.len()) =~= jx.subrange(
            spaced_len(a),
            spaced_len(a) + w.len(),
        ));
    }
}

/// Spaced lengths are never negative.
proof fn lemma_spaced_len_nonneg(ws: Seq<Seq<char>>)
    ensures
        spaced_len(ws) >= 0,
    decreases ws.len(),
{
    if ws.len() > 0 {
        lemma_spaced_len_nonneg(ws.drop_last());
    }
}

/// The raw text of a candidate holds the text of each text node in its
/// subtree, in document order, each at its offset: after the texts of the
/// earlier text nodes of the subtree, each followed by one space.
pub proof fn lemma_node_text_layout(nodes: Seq<DomNodeView>, j: int, t: int)
    requires
        0 <= j < t < end_of(nodes, j),
        nodes[t].kind == NodeKind::Text,
    ensures
        ({
            let off = text_offset(nodes, j + 1, t);
            &&& 0 <= off
            &&& off + nodes[t].text.len() <= node_text(nodes, j).len()
            &&& node_text(nodes, j).subrange(off, off + nodes[t].text.len()) == nodes[t].text
        }),
{
    lemma_end_from_bounds(nodes, nodes[j].depth, j + 1);
    let end = end_of(nodes, j);
    lemma_pieces_split(nodes, j + 1, t, end);
    lemma_pieces_split(nodes, t, t + 1, end);
    let a = text_pieces(nodes, j + 1, t);
    let b = text_pieces(nodes, t + 1, end);
    assert(text_pieces(nodes, t, t + 1) =~= seq![nodes[t].text]) by {
        assert(text_pieces(nodes, t, t) =~= Seq::<Seq<char>>::empty());
    }
    assert(text_pieces(nodes, j + 1, end) =~= a + seq![nodes[t].text] + b);
    lemma_join_item_at(a, nodes[t].text, b);
    lemma_offset_is_spaced_len(nodes, j + 1, t);
}

/// The raw text of a candidate is exactly as long as the texts of the text
/// nodes of its subtree with one space between each two: nothing else is
/// gathered.
pub proof fn lemma_node_text_len(nodes: Seq<DomNodeView>, j: int)
    requires
        0 <= j < nodes.len(),
    ensures
        node_text(nodes, j).len() == if text_offset(nodes, j + 1, end_of(nodes, j)) == 0 {
            0
        } else {
            text_offset(nodes, j + 1, end_of(nodes, j)) - 1
        },
{
    lemma_end_from_bounds(nodes, nodes[j].depth, j + 1);
    let end = end_of(nodes, j);
    let ps = text_pieces(nodes, j + 1, end);
    lemma_offset_is_spaced_len(nodes, j + 1, end);
    lemma_join_len(ps);
    if ps.len() > 0 {
        lemma_spaced_len_nonneg(ps.drop_last());
    }
}

/// A candidate that the candidate selector selects within the container,
/// that lies inside no section an excluded selector matches there, and
/// whose cleaned text has at least eight words, is kept as a paragraph.
pub proof fn lemma_unexcluded_candidates_kept(
    page: Seq<char>,
    nodes: Seq<DomNodeView>,
    excluded: Seq<Seq<char>>,
    c: int,
    candidate: Seq<char>,
    j: int,
)
    requires
        flag_at_selected(page, c, candidate, j),
        forall|k: int, e: int|
            #![trigger flag_at_selected(page, c, excluded[k], e), flag_at_selected(page, e, candidate, j)]
            0 <= k < excluded.len() && c < e < end_of(nodes, c) && flag_at_selected(page, c, excluded[k], e)
                && e < j < end_of(nodes, e) ==> !flag_at_selected(page, e, candidate, j),
        words(clean_text_spec(node_text(nodes, j))).len() >= 8,
    ensures
        keeps_paragraph(page, nodes, excluded, c, candidate, j),
{
    if super::common::is_excluded(page, nodes, excluded, c, candidate, j) {
        let (k, e) = choose|k: int, e: int|
            #[trigger] super::common::excluded_by(page, nodes, excluded, c, candidate, k, e, j);
        assert(flag_at_selected(page, c, excluded[k], e));
        assert(flag_at_selected(page, e, candidate, j));
    }
}

} // verus!
