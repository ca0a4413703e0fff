//! Extraction of article paragraphs and the text clean-up applied to them.
use vstd::prelude::*;

use crate::filter::dom::{
    DomNode, DomNodeView, HtmlDocument, NodeKind, document_nodes, first_selected, lemma_end_from_bounds,
    lemma_nested_end, nodes_view, selected_within, subtree_end, subtree_end_of,
};
use super::text::{
    chars_of, collapse_spaces, collapse_whitespace, count_words, join_with, words, normalize_quotes, normalize_spacing, quote_pass,
    replace_all, replace_chars, spacing_pass, string_from_chars, strip_bracket_spans, strip_brackets,
};

verus! {

/// The punctuation tidy-up: no space before `, . : ; ! ? )`, none after a
/// quote mark, and none before a double quote.
pub open spec fn tidy_punctuation(s: Seq<char>) -> Seq<char> {
    let s = replace_all(s, seq![' ', ','], seq![',']);
    let s = replace_all(s, seq![' ', '.'], seq!['.']);
    let s = replace_all(s, seq![' ', ':'], seq![':']);
    let s = replace_all(s, seq![' ', ';'], seq![';']);
    let s = replace_all(s, seq![' ', '!'], seq!['!']);
    let s = replace_all(s, seq![' ', '?'], seq!['?']);
    let s = replace_all(s, seq![' ', ')'], seq![')']);
    let s = replace_all(s, seq!['"', ' '], seq!['"']);
    let s = replace_all(s, seq!['\'', ' '], seq!['\'']);
    replace_all(s, seq![' ', '"'], seq!['"'])
}

/// Contractions and possessives rejoined: `'s 're n't 've 'll 'd 'm` lose
/// the space before them.
pub open spec fn join_contractions(s: Seq<char>) -> Seq<char> {
    let s = replace_all(s, seq![' ', '\'', 's'], seq!['\'', 's']);
    let s = replace_all(s, seq![' ', '\'', 'r', 'e'], seq!['\'', 'r', 'e']);
    let s = replace_all(s, seq![' ', 'n', '\'', 't'], seq!['n', '\'', 't']);
    let s = replace_all(s, seq![' ', '\'', 'v', 'e'], seq!['\'', 'v', 'e']);
    let s = replace_all(s, seq![' ', '\'', 'l', 'l'], seq!['\'', 'l', 'l']);
    let s = replace_all(s, seq![' ', '\'', 'd'], seq!['\'', 'd']);
    replace_all(s, seq![' ', '\'', 'm'], seq!['\'', 'm'])
}

/// The cleaned text: newlines become spaces, bracketed citations become a
/// space, whitespace collapses to single spaces, punctuation is tidied,
/// quotes and spacing are normalised and contractions rejoined, in that
/// order.
pub open spec fn clean_text_spec(raw: Seq<char>) -> Seq<char> {
    let s = replace_all(raw, seq!['\n'], seq![' ']);
    let s = strip_brackets(s);
    let s = collapse_whitespace(s);
    let s = tidy_punctuation(s);
    let s = normalize_quotes(s);
    let s = normalize_spacing(s);
    join_contractions(s)
}

/// Replaces every occurrence of `pat` in `s` with `rep`.
fn replaced(s: Vec<char>, pat: Vec<char>, rep: Vec<char>) -> (r: Vec<char>)
    requires
        pat.len() > 0,
    ensures
        r@ == replace_all(s@, pat@, rep@),
{
    replace_chars(&s, &pat, &rep)
}

/// Cleans the characters of a paragraph; see [`clean_text_spec`].
pub fn clean_chars(raw: &Vec<char>) -> (r: Vec<char>)
    ensures
        r@ == clean_text_spec(raw@),
{
    let (p, r) = (vec!['\n'], vec![' ']);
    assert(p@ =~= seq!['\n'] && r@ =~= seq![' ']);
    let s = replaced(raw.clone(), p, r);
    let s = strip_bracket_spans(&s);
    let s = collapse_spaces(&s);
    let (p, r) = (vec![' ', ','], vec![',']);
    assert(p@ =~= seq![' ', ','] && r@ =~= seq![',']);
    let s = replaced(s, p, r);
    let (p, r) = (vec![' ', '.'], vec!['.']);
    assert(p@ =~= seq![' ', '.'] && r@ =~= seq!['.']);
    let s = replaced(s, p, r);
    let (p, r) = (vec![' ', ':'], vec![':']);
    assert(p@ =~= seq![' ', ':'] && r@ =~= seq![':']);
    let s = replaced(s, p, r);
    let (p, r) = (vec![' ', ';'], vec![';']);
    assert(p@ =~= seq![' ', ';'] && r@ =~= seq![';']);
    let s = replaced(s, p, r);
    let (p, r) = (vec![' ', '!'], vec!['!']);
    assert(p@ =~= seq![' ', '!'] && r@ =~= seq!['!']);
    let s = replaced(s, p, r);
    let (p, r) = (vec![' ', '?'], vec!['?']);
    assert(p@ =~= seq![' ', '?'] && r@ =~= seq!['?']);
    let s = replaced(s, p, r);
    let (p, r) = (vec![' ', ')'], vec![')']);
    assert(p@ =~= seq![' ', ')'] && r@ =~= seq![')']);
    let s = replaced(s, p, r);
    let (p, r) = (vec!['"', ' '], vec!['"']);
    assert(p@ =~= seq!['"', ' '] && r@ =~= seq!['"']);
    let s = replaced(s, p, r);
    let (p, r) = (vec!['\'', ' '], vec!['\'']);
    assert(p@ =~= seq!['\'', ' '] && r@ =~= seq!['\'']);
    let s = replaced(s, p, r);
    let (p, r) = (vec![' ', '"'], vec!['"']);
    assert(p@ =~= seq![' ', '"'] && r@ =~= seq!['"']);
    let s = replaced(s, p, r);
    let s = quote_pass(&s);
    let s = spacing_pass(&s);
    let (p, r) = (vec![' ', '\'', 's'], vec!['\'', 's']);
    assert(p@ =~= seq![' ', '\'', 's'] && r@ =~= seq!['\'', 's']);
    let s = replaced(s, p, r);
    let (p, r) = (vec![' ', '\'', 'r', 'e'], vec!['\'', 'r', 'e']);
    assert(p@ =~= seq![' ', '\'', 'r', 'e'] && r@ =~= seq!['\'', 'r', 'e']);
    let s = replaced(s, p, r);
    let (p, r) = (vec![' ', 'n', '\'', 't'], vec!['n', '\'', 't']);
    assert(p@ =~= seq![' ', 'n', '\'', 't'] && r@ =~= seq!['n', '\'', 't']);
    let s = replaced(s, p, r);
    let (p, r) = (vec![' ', '\'', 'v', 'e'], vec!['\'', 'v', 'e']);
    assert(p@ =~= seq![' ', '\'', 'v', 'e'] && r@ =~= seq!['\'', 'v', 'e']);
    let s = replaced(s, p, r);
    let (p, r) = (vec![' ', '\'', 'l', 'l'], vec!['\'', 'l', 'l']);
    assert(p@ =~= seq![' ', '\'', 'l', 'l'] && r@ =~= seq!['\'', 'l', 'l']);
    let s = replaced(s, p, r);
    let (p, r) = (vec![' ', '\'', 'd'], vec!['\'', 'd']);
    assert(p@ =~= seq![' ', '\'', 'd'] && r@ =~= seq!['\'', 'd']);
    let s = replaced(s, p, r);
    let (p, r) = (vec![' ', '\'', 'm'], vec!['\'', 'm']);
    assert(p@ =~= seq![' ', '\'', 'm'] && r@ =~= seq!['\'', 'm']);
    let s = replaced(s, p, r);
    s
}

/// Cleans a paragraph of article text; see [`clean_text_spec`].
pub fn clean_text(raw: &str) -> (r: String)
    ensures
        r@ == clean_text_spec(raw@),
{
    let chars = chars_of(raw);
    let cleaned = clean_chars(&chars);
    string_from_chars(cleaned.as_slice())
}

} // verus!

verus! {

/// Whether `flags` is present and marks position `j`.
pub open spec fn flag_at(flags: Option<Seq<bool>>, j: int) -> bool {
    match flags {
        Some(f) => 0 <= j < f.len() && f[j],
        None => false,
    }
}

/// Whether optional flags mark position `j`.
fn flag_set(flags: &Option<Vec<bool>>, j: usize) -> (b: bool)
    ensures
        b == flag_at(
            match flags {
                Some(f) => Some(f@),
                None => None,
            },
            j as int,
        ),
{
    match flags {
        Some(f) => j < f.len() && f[j],
        None => false,
    }
}

/// The end of the subtree at `i`, or `i` itself where `i` is not a node.
pub open spec fn end_of(nodes: Seq<DomNodeView>, i: int) -> int {
    if 0 <= i < nodes.len() {
        subtree_end(nodes, i)
    } else {
        i
    }
}

/// The position of the first element that `scraper::Html::select` yields
/// (it walks the parser's node arena) for the first of `sels[k..]` that
/// matches any.
pub open spec fn container_from(page: Seq<char>, sels: Seq<Seq<char>>, k: int) -> Option<nat>
    decreases sels.len() - k,
{
    if k < 0 || k >= sels.len() {
        None
    } else {
        match first_selected(page, sels[k]) {
            Some(Some(p)) => Some(p),
            _ => container_from(page, sels, k + 1),
        }
    }
}

/// The texts of the text nodes at positions `from..to`, in order.
pub open spec fn text_pieces(nodes: Seq<DomNodeView>, from: int, to: int) -> Seq<Seq<char>>
    decreases to - from,
{
    if to <= from || to > nodes.len() {
        Seq::empty()
    } else {
        text_pieces(nodes, from, to - 1) + if nodes[to - 1].kind == NodeKind::Text {
            seq![nodes[to - 1].text]
        } else {
            Seq::empty()
        }
    }
}

/// The text under the node at `j`: its text nodes joined by spaces, as
/// `ElementRef::text` collected and joined with `" "` gives it.
pub open spec fn node_text(nodes: Seq<DomNodeView>, j: int) -> Seq<char> {
    join_with(text_pieces(nodes, j + 1, end_of(nodes, j)), seq![' '])
}

/// Whether the candidate at `j` lies inside an element `e` that the `k`th
/// of `excluded` matches within the container `c`, and the candidate
/// selector matches it within `e`.
pub open spec fn excluded_by(
    page: Seq<char>,
    nodes: Seq<DomNodeView>,
    excluded: Seq<Seq<char>>,
    c: int,
    candidate: Seq<char>,
    k: int,
    e: int,
    j: int,
) -> bool {
    &&& 0 <= k < excluded.len()
    &&& c < e < end_of(nodes, c)
    &&& flag_at(selected_within(page, c as nat, excluded[k]), e)
    &&& e < j < end_of(nodes, e)
    &&& flag_at(selected_within(page, e as nat, candidate), j)
}

/// Whether the candidate at `j` is inside an excluded section.
pub open spec fn is_excluded(
    page: Seq<char>,
    nodes: Seq<DomNodeView>,
    excluded: Seq<Seq<char>>,
    c: int,
    candidate: Seq<char>,
    j: int,
) -> bool {
    exists|k: int, e: int| #[trigger] excluded_by(page, nodes, excluded, c, candidate, k, e, j)
}

/// Whether the node at `j` gives a paragraph: the candidate selector
/// matches it within the container, it is not in an excluded section, and
/// its cleaned text has at least eight words.
pub open spec fn keeps_paragraph(
    page: Seq<char>,
    nodes: Seq<DomNodeView>,
    excluded: Seq<Seq<char>>,
    c: int,
    candidate: Seq<char>,
    j: int,
) -> bool {
    &&& flag_at(selected_within(page, c as nat, candidate), j)
    &&& !is_excluded(page, nodes, excluded, c, candidate, j)
    &&& words(clean_text_spec(node_text(nodes, j))).len() >= 8
}

/// The cleaned paragraphs among the nodes from just after the container
/// `c` up to position `k`.
pub open spec fn paragraphs_upto(
    page: Seq<char>,
    nodes: Seq<DomNodeView>,
    excluded: Seq<Seq<char>>,
    c: int,
    candidate: Seq<char>,
    k: int,
) -> Seq<Seq<char>>
    decreases k - c,
{
    if k <= c + 1 {
        Seq::empty()
    } else {
        paragraphs_upto(page, nodes, excluded, c, candidate, k - 1) + if keeps_paragraph(
            page,
            nodes,
            excluded,
            c,
            candidate,
            k - 1,
        ) {
            seq![clean_text_spec(node_text(nodes, k - 1))]
        } else {
            Seq::empty()
        }
    }
}

/// The article text of `page`: the container is the first element matched
/// by the first of `containers` that matches any; each element under it
/// that `candidate` matches and that is not inside a section matched by one
/// of `excluded` gives its text, cleaned, where that has at least eight
/// words; the paragraphs are joined by blank lines. `None` where no
/// container is found, the candidate selector does not parse, or no
/// paragraph remains.
pub open spec fn content_spec(
    page: Seq<char>,
    containers: Seq<Seq<char>>,
    excluded: Seq<Seq<char>>,
    candidate: Seq<char>,
) -> Option<Seq<char>> {
    let nodes = document_nodes(page);
    match container_from(page, containers, 0) {
        None => None,
        Some(c) => if selected_within(page, c, candidate) is None {
            None
        } else {
            let ps = paragraphs_upto(page, nodes, excluded, c as int, candidate, end_of(nodes, c as int));
            if ps.len() == 0 {
                None
            } else {
                Some(join_with(ps, seq!['\n', '\n']))
            }
        },
    }
}

/// The selectors of sections whose paragraphs are left out: references,
/// tables, info boxes, navigation, tables of contents, footers and asides.
pub open spec fn excluded_selectors_spec() -> Seq<Seq<char>> {
    seq![
        "div#references"@,
        "table"@,
        ".infobox"@,
        "nav"@,
        ".toc"@,
        "footer"@,
        "aside"@,
    ]
}

/// The selectors of excluded sections; see [`excluded_selectors_spec`].
pub fn excluded_selectors() -> (v: Vec<&'static str>)
    ensures
        v@.map_values(|s: &str| s@) == excluded_selectors_spec(),
{
    let v = vec!["div#references", "table", ".infobox", "nav", ".toc", "footer", "aside"];
    assert(v@.map_values(|s: &str| s@) =~= excluded_selectors_spec());
    v
}

/// Joining one more item onto a non-empty joined list puts the separator
/// before it.
pub proof fn lemma_join_push(ws: Seq<Seq<char>>, w: Seq<char>, sep: Seq<char>)
    ensures
        join_with(ws.push(w), sep) == if ws.len() == 0 {
            w
        } else {
            join_with(ws, sep) + sep + w
        },
    decreases ws.len(),
{
    let ws2 = ws.push(w);
    if ws.len() == 0 {
        assert(ws2.len() == 1);
    } else if ws.len() == 1 {
        assert(ws2.drop_first() =~= seq![w]);
        assert(join_with(ws2.drop_first(), sep) == w);
    } else {
        assert(ws2.drop_first() =~= ws.drop_first().push(w));
        lemma_join_push(ws.drop_first(), w, sep);
        assert(join_with(ws2, sep) =~= join_with(ws, sep) + sep + w);
    }
}

/// Appends the characters of `w` to `out`.
fn push_all(out: &mut Vec<char>, w: &Vec<char>)
    ensures
        final(out)@ == old(out)@ + w@,
{
    let mut k: usize = 0;
    let ghost start = out@;
    while k < w.len()
        invariant
            k <= w.len(),
            out@ == start + w@.subrange(0, k as int),
        decreases w.len() - k,
    {
        out.push(w[k]);
        k = k + 1;
        assert(out@ =~= start + w@.subrange(0, k as int));
    }
    assert(w@.subrange(0, k as int) =~= w@);
}

/// The text under the node at `j`, its text nodes joined by spaces.
fn collect_text(nodes: &Vec<DomNode>, j: usize) -> (t: Vec<char>)
    requires
        j < nodes.len(),
    ensures
        t@ == node_text(nodes_view(nodes@), j as int),
{
    let ghost v = nodes_view(nodes@);
    let end = subtree_end_of(nodes, j);
    let mut out: Vec<char> = Vec::new();
    let mut any = false;
    let mut k = j + 1;
    while k < end
        invariant
            j < k <= end,
            end <= nodes.len(),
            v == nodes_view(nodes@),
            end == subtree_end(v, j as int),
            out@ == join_with(text_pieces(v, j + 1, k as int), seq![' ']),
            any == (text_pieces(v, j + 1, k as int).len() > 0),
        decreases end - k,
    {
        let ghost before = text_pieces(v, j + 1, k as int);
        if nodes[k].kind == NodeKind::Text {
            let piece = chars_of(nodes[k].text.as_str());
            proof {
                lemma_join_push(before, v[k as int].text, seq![' ']);
                assert(text_pieces(v, j + 1, k + 1) == before.push(v[k as int].text));
            }
            if any {
                out.push(' ');
            }
            push_all(&mut out, &piece);
            any = true;
        } else {
            assert(text_pieces(v, j + 1, k + 1) =~= before);
        }
        k = k + 1;
    }
    out
}

/// Joins paragraphs with blank lines.
fn join_paragraphs(ps: &Vec<Vec<char>>) -> (r: Vec<char>)
    ensures
        r@ == join_with(ps@.map_values(|p: Vec<char>| p@), seq!['\n', '\n']),
{
    let ghost all = ps@.map_values(|p: Vec<char>| p@);
    let mut out: Vec<char> = Vec::new();
    let mut k: usize = 0;
    while k < ps.len()
        invariant
            k <= ps.len(),
            all == ps@.map_values(|p: Vec<char>| p@),
            out@ == join_with(all.subrange(0, k as int), seq!['\n', '\n']),
        decreases ps.len() - k,
    {
        proof {
            lemma_join_push(all.subrange(0, k as int), all[k as int], seq!['\n', '\n']);
            assert(all.subrange(0, k + 1) =~= all.subrange(0, k as int).push(all[k as int]));
        }
        if k > 0 {
            out.push('\n');
            out.push('\n');
        }
        push_all(&mut out, &ps[k]);
        proof {
            if k > 0 {
                assert(out@ =~= join_with(all.subrange(0, k as int), seq!['\n', '\n']) + seq!['\n', '\n'] + all[k as int]);
            }
        }
        k = k + 1;
    }
    assert(all.subrange(0, k as int) =~= all);
    out
}

/// What has been marked after the excluded selectors before `k`, the
/// sections of the `k`th before `e`, and the candidates of section `e`
/// before `jj`.
pub open spec fn marked_so_far(
    page: Seq<char>,
    nodes: Seq<DomNodeView>,
    excluded: Seq<Seq<char>>,
    c: int,
    candidate: Seq<char>,
    k: int,
    e: int,
    jj: int,
    j: int,
) -> bool {
    ||| exists|k2: int, e2: int|
        k2 < k && #[trigger] excluded_by(page, nodes, excluded, c, candidate, k2, e2, j)
    ||| exists|e2: int| e2 < e && #[trigger] excluded_by(page, nodes, excluded, c, candidate, k, e2, j)
    ||| (excluded_by(page, nodes, excluded, c, candidate, k, e, j) && j < jj)
}

/// Marks the candidates that lie inside excluded sections of the container
/// at `c`.
fn mark_excluded(document: &HtmlDocument, nodes: &Vec<DomNode>, c: usize, candidate: &str) -> (x:
    Vec<bool>)
    requires
        c < nodes.len(),
        nodes_view(nodes@) == document_nodes(document.page()),
    ensures
        x.len() == nodes.len(),
        forall|j: int|
            0 <= j < nodes.len() ==> x@[j] == is_excluded(
                document.page(),
                nodes_view(nodes@),
                excluded_selectors_spec(),
                c as int,
                candidate@,
                j,
            ),
{
    let ghost page = document.page();
    let ghost v = nodes_view(nodes@);
    let ghost ex = excluded_selectors_spec();
    let ghost cand = candidate@;
    let exs = excluded_selectors();
    let n = nodes.len();
    let mut x: Vec<bool> = Vec::new();
    while x.len() < n
        invariant
            x.len() <= n,
            forall|j: int| 0 <= j < x.len() ==> !x@[j],
        decreases n - x.len(),
    {
        x.push(false);
    }
    let end_c = subtree_end_of(nodes, c);
    let mut k: usize = 0;
    while k < exs.len()
        invariant
            k <= exs.len(),
            exs@.map_values(|s: &str| s@) == ex,
            x.len() == n,
            n == nodes.len(),
            v == nodes_view(nodes@),
            v == document_nodes(page),
            page == document.page(),
            cand == candidate@,
            c < end_c <= n,
            end_c == subtree_end(v, c as int),
            forall|j: int|
                0 <= j < n ==> x@[j] == marked_so_far(page, v, ex, c as int, cand, k as int, c + 1, c + 1, j),
        decreases exs.len() - k,
    {
        assert(ex[k as int] == exs@[k as int]@);
        let flags_k = document.select_within(c, exs[k]);
        let mut e = c + 1;
        assert forall|j: int| 0 <= j < n implies x@[j] == marked_so_far(page, v, ex, c as int, cand, k as int, e as int, e as int, j) by {
            if marked_so_far(page, v, ex, c as int, cand, k as int, c + 1, c + 1, j) {
            }
        }
        while e < end_c
            invariant
                k < exs.len(),
                exs@.map_values(|s: &str| s@) == ex,
                x.len() == n,
                n == nodes.len(),
                v == nodes_view(nodes@),
                v == document_nodes(page),
                page == document.page(),
                cand == candidate@,
                c < e <= end_c,
                end_c <= n,
                end_c == subtree_end(v, c as int),
                flags_k matches Some(f) ==> selected_within(page, c as nat, ex[k as int]) == Some(f@),
                flags_k is None ==> selected_within(page, c as nat, ex[k as int]) is None,
                forall|j: int|
                    0 <= j < n ==> x@[j] == marked_so_far(page, v, ex, c as int, cand, k as int, e as int, e as int, j),
            decreases end_c - e,
        {
            let end_e = subtree_end_of(nodes, e);
            proof {
                lemma_nested_end(v, c as int, e as int);
            }
            if flag_set(&flags_k, e) {
                let flags_e = document.select_within(e, candidate);
                let mut j = e + 1;
                while j < end_e
                    invariant
                        k < exs.len(),
                        exs@.map_values(|s: &str| s@) == ex,
                        x.len() == n,
                        n == nodes.len(),
                        v == nodes_view(nodes@),
                        v == document_nodes(page),
                        page == document.page(),
                        cand == candidate@,
                        c < e < end_c,
                        e < j <= end_e,
                        end_e <= end_c,
                        end_c <= n,
                        end_c == subtree_end(v, c as int),
                        end_e == subtree_end(v, e as int),
                        flag_at(selected_within(page, c as nat, ex[k as int]), e as int),
                        flags_e matches Some(f) ==> selected_within(page, e as nat, cand) == Some(f@),
                        flags_e is None ==> selected_within(page, e as nat, cand) is None,
                        forall|jx: int|
                            0 <= jx < n ==> x@[jx] == marked_so_far(page, v, ex, c as int, cand, k as int, e as int, j as int, jx),
                    decreases end_e - j,
                {
                    if flag_set(&flags_e, j) {
                        x.set(j, true);
                    }
                    assert forall|jx: int| 0 <= jx < n implies x@[jx] == marked_so_far(page, v, ex, c as int, cand, k as int, e as int, j + 1, jx) by {
                        if jx == j {
                            if flag_at(selected_within(page, e as nat, cand), jx) {
                                assert(excluded_by(page, v, ex, c as int, cand, k as int, e as int, jx));
                            }
                        }
                    }
                    j = j + 1;
                }
            }
            assert forall|jx: int| 0 <= jx < n implies x@[jx] == marked_so_far(page, v, ex, c as int, cand, k as int, e + 1, e + 1, jx) by {
                if excluded_by(page, v, ex, c as int, cand, k as int, e as int, jx) {
                    assert(jx < end_e);
                }
                if marked_so_far(page, v, ex, c as int, cand, k as int, e + 1, e + 1, jx) {
                    if exists|e2: int| e2 < e + 1 && #[trigger] excluded_by(page, v, ex, c as int, cand, k as int, e2, jx) {
                        let e2 = choose|e2: int| e2 < e + 1 && #[trigger] excluded_by(page, v, ex, c as int, cand, k as int, e2, jx);
                        if e2 == e {
                            assert(x@[jx]);
                        }
                    }
                }
            }
            e = e + 1;
        }
        assert forall|j: int| 0 <= j < n implies x@[j] == marked_so_far(page, v, ex, c as int, cand, k + 1, c + 1, c + 1, j) by {
            if marked_so_far(page, v, ex, c as int, cand, k as int, e as int, e as int, j) {
                if exists|e2: int| e2 < e && #[trigger] excluded_by(page, v, ex, c as int, cand, k as int, e2, j) {
                    let e2 = choose|e2: int| e2 < e && #[trigger] excluded_by(page, v, ex, c as int, cand, k as int, e2, j);
                    assert(excluded_by(page, v, ex, c as int, cand, k as int, e2, j));
                }
            }
            if exists|k2: int, e2: int| k2 < k + 1 && #[trigger] excluded_by(page, v, ex, c as int, cand, k2, e2, j) {
                let (k2, e2) = choose|k2: int, e2: int| k2 < k + 1 && #[trigger] excluded_by(page, v, ex, c as int, cand, k2, e2, j);
                if k2 == k as int {
                    assert(e2 < end_c);
                }
            }
        }
        k = k + 1;
    }
    assert forall|j: int| 0 <= j < n implies x@[j] == is_excluded(page, v, ex, c as int, cand, j) by {
        if is_excluded(page, v, ex, c as int, cand, j) {
            let (k2, e2) = choose|k2: int, e2: int| #[trigger] excluded_by(page, v, ex, c as int, cand, k2, e2, j);
            assert(k2 < k);
        }
    }
    x
}

/// The position of the first element matched by the first of `selectors`
/// that matches any.
fn find_container(document: &HtmlDocument, selectors: &[&str]) -> (r: Option<usize>)
    ensures
        r matches Some(p) ==> container_from(
            document.page(),
            selectors@.map_values(|s: &str| s@),
            0,
        ) == Some(p as nat),
        r is None ==> container_from(document.page(), selectors@.map_values(|s: &str| s@), 0)
            is None,
{
    let ghost sels = selectors@.map_values(|s: &str| s@);
    let mut k: usize = 0;
    while k < selectors.len()
        invariant
            k <= selectors.len(),
            sels == selectors@.map_values(|s: &str| s@),
            container_from(document.page(), sels, 0) == container_from(
                document.page(),
                sels,
                k as int,
            ),
        decreases selectors.len() - k,
    {
        assert(sels[k as int] == selectors@[k as int]@);
        match document.select_first(selectors[k]) {
            Some(Some(p)) => {
                return Some(p);
            },
            _ => {},
        }
        k = k + 1;
    }
    None
}

/// The article text of `page`; see [`content_spec`], with
/// [`excluded_selectors_spec`] as the excluded sections.
pub fn get_content_with(page: &str, container_selectors: &[&str], candidate_selector: &str) -> (r:
    Option<String>)
    ensures
        ({
            let spec = content_spec(
                page@,
                container_selectors@.map_values(|s: &str| s@),
                excluded_selectors_spec(),
                candidate_selector@,
            );
            match r {
                Some(s) => spec == Some(s@),
                None => spec is None,
            }
        }),
{
    let document = HtmlDocument::parse(page);
    let nodes = document.nodes();
    let ghost v = nodes_view(nodes@);
    let ghost ex = excluded_selectors_spec();
    let ghost cand = candidate_selector@;
    let c = match find_container(&document, container_selectors) {
        Some(c) => c,
        None => return None,
    };
    let candidates = document.select_within(c, candidate_selector);
    if candidates.is_none() {
        return None;
    }
    if c >= nodes.len() {
        assert(paragraphs_upto(page@, v, ex, c as int, cand, c as int) =~= Seq::<Seq<char>>::empty());
        return None;
    }
    let excluded = mark_excluded(&document, &nodes, c, candidate_selector);
    let end_c = subtree_end_of(&nodes, c);
    let mut paragraphs: Vec<Vec<char>> = Vec::new();
    let mut j = c + 1;
    while j < end_c
        invariant
            c < j <= end_c,
            end_c <= nodes.len(),
            end_c == subtree_end(v, c as int),
            v == nodes_view(nodes@),
            v == document_nodes(page@),
            ex == excluded_selectors_spec(),
            cand == candidate_selector@,
            excluded.len() == nodes.len(),
            forall|jx: int|
                0 <= jx < nodes.len() ==> excluded@[jx] == is_excluded(page@, v, ex, c as int, cand, jx),
            candidates matches Some(f) ==> selected_within(page@, c as nat, cand) == Some(f@),
            candidates is None ==> selected_within(page@, c as nat, cand) is None,
            paragraphs@.map_values(|p: Vec<char>| p@) == paragraphs_upto(page@, v, ex, c as int, cand, j as int),
        decreases end_c - j,
    {
        let ghost before = paragraphs@;
        if flag_set(&candidates, j) && !excluded[j] {
            let raw = collect_text(&nodes, j);
            let text = clean_chars(&raw);
            if count_words(&text) >= 8 {
                paragraphs.push(text);
            }
        }
        assert(paragraphs@.map_values(|p: Vec<char>| p@) =~= paragraphs_upto(page@, v, ex, c as int, cand, j + 1));
        j = j + 1;
    }
    if paragraphs.len() == 0 {
        return None;
    }
    let joined = join_paragraphs(&paragraphs);
    Some(string_from_chars(joined.as_slice()))
}

} // verus!
