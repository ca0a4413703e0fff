//! What the text clean-up guarantees about its result: how whitespace
//! stands in it, and that no bracketed span survives.
use vstd::prelude::*;

use super::common::{
    clean_text_spec, container_from, content_spec, end_of, join_contractions, keeps_paragraph, node_text, paragraphs_upto,
    tidy_punctuation,
};
use crate::filter::dom::{DomNodeView, document_nodes, first_selected, selected_within};
use super::text::{
    collapse_whitespace, first_from, is_opener, lemma_first_from_bounds, strip_brackets, strip_brackets_from, is_white_space, join_with, last_non_ws, lemma_skip_ws_bounds,
    lemma_word_end_bounds, normalize_quotes, normalize_spacing, occurs_at, quotes_from, replace_all,
    replace_from, skip_ws, spacing_from, word_end, words, words_from,
};

verus! {

/// Whether `s` holds whitespace at both `i` and `i + 1`.
pub open spec fn ws_pair(s: Seq<char>, i: int) -> bool {
    is_white_space(s[i]) && is_white_space(s[i + 1])
}

/// Every whitespace character of `s` is a plain space, and no two are
/// adjacent.
pub open spec fn single_spaced(s: Seq<char>) -> bool {
    &&& forall|i: int| 0 <= i < s.len() && is_white_space(#[trigger] s[i]) ==> s[i] == ' '
    &&& forall|i: int| 0 <= i < s.len() - 1 ==> !#[trigger] ws_pair(s, i)
}

/// `s` neither starts nor ends with whitespace.
pub open spec fn trimmed(s: Seq<char>) -> bool {
    s.len() > 0 ==> !is_white_space(s[0]) && !is_white_space(s.last())
}

/// The words of `s` from `i` on are non-empty and neither start nor end
/// with whitespace.
proof fn lemma_words_shape(s: Seq<char>, i: int)
    requires
        0 <= i,
    ensures
        forall|k: int|
            0 <= k < words_from(s, i).len() ==> #[trigger] words_from(s, i)[k].len() > 0
                && !is_white_space(words_from(s, i)[k][0]) && !is_white_space(
                words_from(s, i)[k].last(),
            ),
    decreases s.len() - i,
{
    if i < s.len() {
        if is_white_space(s[i]) {
            lemma_words_shape(s, i + 1);
            assert(words_from(s, i) == words_from(s, i + 1));
        } else {
            lemma_word_end_bounds(s, i + 1);
            let e = word_end(s, i + 1);
            lemma_words_shape(s, e);
            let w = s.subrange(i, e);
            assert(w[0] == s[i]);
            assert(w.last() == s[e - 1]);
            if e - 1 > i {
                assert(!is_white_space(s[e - 1]));
            }
            assert(w.len() > 0 && !is_white_space(w[0]) && !is_white_space(w.last()));
            let ws = words_from(s, i);
            assert(ws == seq![w] + words_from(s, e));
            assert forall|k: int| 0 <= k < ws.len() implies #[trigger] ws[k].len() > 0 && !is_white_space(
                ws[k][0],
            ) && !is_white_space(ws[k].last()) by {
                if k > 0 {
                    assert(ws[k] == words_from(s, e)[k - 1]);
                }
            }
        }
    }
}

/// Words that neither start nor end with whitespace, joined by spaces,
/// neither start nor end with whitespace.
proof fn lemma_join_trimmed(ws: Seq<Seq<char>>)
    requires
        forall|k: int|
            0 <= k < ws.len() ==> #[trigger] ws[k].len() > 0 && !is_white_space(ws[k][0])
                && !is_white_space(ws[k].last()),
    ensures
        ws.len() > 0 ==> join_with(ws, seq![' ']).len() > 0 && join_with(ws, seq![' '])[0] == ws[0][0]
            && join_with(ws, seq![' ']).last() == ws.last().last(),
        trimmed(join_with(ws, seq![' '])),
    decreases ws.len(),
{
    if ws.len() >= 2 {
        let rest = ws.drop_first();
        assert forall|k: int| 0 <= k < rest.len() implies #[trigger] rest[k].len() > 0 && !is_white_space(
            rest[k][0],
        ) && !is_white_space(rest[k].last()) by {
            assert(rest[k] == ws[k + 1]);
        }
        lemma_join_trimmed(rest);
        let jr = join_with(rest, seq![' ']);
        let j = ws[0] + seq![' '] + jr;
        assert(j[0] == ws[0][0]);
        assert(j.last() == jr.last());
        assert(rest.last() == ws.last());
    } else if ws.len() == 1 {
        assert(ws[0].len() > 0);
    }
}

/// The collapsed text neither starts nor ends with whitespace.
proof fn lemma_collapse_trimmed(s: Seq<char>)
    ensures
        trimmed(collapse_whitespace(s)),
{
    lemma_words_shape(s, 0);
    lemma_join_trimmed(words(s));
}

/// Replacing from `i` on keeps the last character of `s` where a match
/// cannot end in whitespace that `s` does not end with, or ends as its
/// replacement does.
proof fn lemma_replace_last(s: Seq<char>, pat: Seq<char>, rep: Seq<char>, i: int)
    requires
        0 <= i < s.len(),
        pat.len() > 0,
        rep.len() > 0,
        is_white_space(pat.last()) || rep.last() == pat.last(),
        !is_white_space(s.last()),
    ensures
        replace_from(s, pat, rep, i).len() > 0,
        replace_from(s, pat, rep, i).last() == s.last(),
    decreases s.len() - i,
{
    if occurs_at(s, pat, i) {
        let j = i + pat.len();
        assert(s.subrange(i, j)[pat.len() - 1] == pat.last());
        if j < s.len() {
            lemma_replace_last(s, pat, rep, j);
        } else {
            assert(replace_from(s, pat, rep, j) =~= Seq::<char>::empty());
            assert(rep + Seq::<char>::empty() =~= rep);
        }
    } else {
        if i + 1 < s.len() {
            lemma_replace_last(s, pat, rep, i + 1);
        } else {
            assert(replace_from(s, pat, rep, i + 1) =~= Seq::<char>::empty());
            assert(seq![s[i]] + Seq::<char>::empty() =~= seq![s[i]]);
        }
    }
}

/// A replacement whose pattern starts with whitespace or with the first
/// character of its replacement, and ends with whitespace or with the
/// last character of its replacement, keeps a trimmed text trimmed.
proof fn lemma_replace_trimmed(s: Seq<char>, pat: Seq<char>, rep: Seq<char>)
    requires
        trimmed(s),
        pat.len() > 0,
        rep.len() > 0,
        is_white_space(pat[0]) || rep[0] == pat[0],
        is_white_space(pat.last()) || rep.last() == pat.last(),
    ensures
        trimmed(replace_all(s, pat, rep)),
{
    if s.len() == 0 {
        assert(replace_all(s, pat, rep) =~= Seq::<char>::empty());
    } else {
        lemma_replace_last(s, pat, rep, 0);
        if occurs_at(s, pat, 0) {
            assert(s.subrange(0, pat.len() as int)[0] == s[0]);
        }
    }
}

/// The punctuation tidy-up keeps a trimmed text trimmed.
proof fn lemma_tidy_trimmed(s: Seq<char>)
    requires
        trimmed(s),
    ensures
        trimmed(tidy_punctuation(s)),
{
    let p1 = replace_all(s, seq![' ', ','], seq![',']);
    lemma_replace_trimmed(s, seq![' ', ','], seq![',']);
    let p2 = replace_all(p1, seq![' ', '.'], seq!['.']);
    lemma_replace_trimmed(p1, seq![' ', '.'], seq!['.']);
    let p3 = replace_all(p2, seq![' ', ':'], seq![':']);
    lemma_replace_trimmed(p2, seq![' ', ':'], seq![':']);
    let p4 = replace_all(p3, seq![' ', ';'], seq![';']);
    lemma_replace_trimmed(p3, seq![' ', ';'], seq![';']);
    let p5 = replace_all(p4, seq![' ', '!'], seq!['!']);
    lemma_replace_trimmed(p4, seq![' ', '!'], seq!['!']);
    let p6 = replace_all(p5, seq![' ', '?'], seq!['?']);
    lemma_replace_trimmed(p5, seq![' ', '?'], seq!['?']);
    let p7 = replace_all(p6, seq![' ', ')'], seq![')']);
    lemma_replace_trimmed(p6, seq![' ', ')'], seq![')']);
    let p8 = replace_all(p7, seq!['"', ' '], seq!['"']);
    lemma_replace_trimmed(p7, seq!['"', ' '], seq!['"']);
    let p9 = replace_all(p8, seq!['\'', ' '], seq!['\'']);
    lemma_replace_trimmed(p8, seq!['\'', ' '], seq!['\'']);
    lemma_replace_trimmed(p9, seq![' ', '"'], seq!['"']);
}

/// The quote pass from `i` on, over a trimmed text, gives a trimmed result
/// that starts as `out` does, given that `out` starts with no whitespace,
/// is non-empty past the start, and ends with whitespace only while
/// characters remain.
proof fn lemma_quotes_trimmed(s: Seq<char>, i: int, out: Seq<char>, dq: bool, sq: bool)
    requires
        trimmed(s),
        0 <= i,
        out.len() > 0 ==> !is_white_space(out[0]),
        i > 0 ==> out.len() > 0,
        out.len() > 0 && is_white_space(out.last()) ==> i < s.len(),
    ensures
        trimmed(quotes_from(s, i, out, dq, sq)),
        out.len() > 0 ==> quotes_from(s, i, out, dq, sq).len() > 0 && quotes_from(s, i, out, dq, sq)[0]
            == out[0],
    decreases s.len() - i,
{
    if i < s.len() {
        let c = s[i];
        lemma_skip_ws_bounds(s, i + 1);
        if c == '"' || c == '\'' {
            let open = if c == '"' { dq } else { sq };
            let o = out.push(c);
            assert(o[0] == if out.len() > 0 { out[0] } else { c });
            if !open {
                lemma_quotes_trimmed(
                    s,
                    skip_ws(s, i + 1),
                    o,
                    if c == '"' { true } else { dq },
                    if c == '"' { sq } else { true },
                );
            } else {
                let spaced = i + 1 < s.len() && !is_white_space(s[i + 1]) && !super::text::is_tight_after_quote(
                    s[i + 1],
                );
                let o2 = if spaced { o.push(' ') } else { o };
                assert(o2[0] == o[0]);
                lemma_quotes_trimmed(
                    s,
                    i + 1,
                    o2,
                    if c == '"' { false } else { dq },
                    if c == '"' { sq } else { false },
                );
            }
        } else {
            let o = out.push(c);
            assert(o[0] == if out.len() > 0 { out[0] } else { c });
            if is_white_space(c) {
                assert(i != s.len() - 1);
            }
            lemma_quotes_trimmed(s, i + 1, o, dq, sq);
        }
    }
}

/// Pushing `c` keeps a text single-spaced where `c` is a non-whitespace
/// character, or a space after a non-whitespace character.
proof fn lemma_push_single_spaced(out: Seq<char>, c: char)
    requires
        single_spaced(out),
        is_white_space(c) ==> c == ' ' && (out.len() == 0 || !is_white_space(out.last())),
    ensures
        single_spaced(out.push(c)),
{
    let o = out.push(c);
    assert forall|i: int| 0 <= i < o.len() && is_white_space(#[trigger] o[i]) implies o[i] == ' ' by {
        if i < out.len() {
            assert(o[i] == out[i]);
        }
    }
    assert forall|i: int| 0 <= i < o.len() - 1 implies !#[trigger] ws_pair(o, i) by {
        assert(o[i] == out[i]);
        if i + 1 < out.len() {
            assert(o[i + 1] == out[i + 1]);
            assert(!ws_pair(out, i));
        }
    }
}

/// The spacing pass from `i` on, over a trimmed text, gives a single-spaced
/// trimmed result that starts as `out` does, under the same conditions on
/// `out` as the quote pass.
proof fn lemma_spacing_shape(s: Seq<char>, i: int, out: Seq<char>, dq: bool, sq: bool)
    requires
        trimmed(s),
        0 <= i,
        single_spaced(out),
        out.len() > 0 ==> !is_white_space(out[0]),
        i > 0 ==> out.len() > 0,
        out.len() > 0 && is_white_space(out.last()) ==> i < s.len(),
    ensures
        single_spaced(spacing_from(s, i, out, dq, sq)),
        trimmed(spacing_from(s, i, out, dq, sq)),
        out.len() > 0 ==> spacing_from(s, i, out, dq, sq).len() > 0 && spacing_from(s, i, out, dq, sq)[0]
            == out[0],
    decreases s.len() - i,
{
    if i < s.len() {
        let c = s[i];
        lemma_skip_ws_bounds(s, i + 1);
        if is_opener(c) {
            let o = out.push(c);
            lemma_push_single_spaced(out, c);
            assert(o[0] == if out.len() > 0 { out[0] } else { c });
            lemma_spacing_shape(s, skip_ws(s, i + 1), o, dq, sq);
        } else if is_white_space(c) {
            assert(i != 0 && i != s.len() - 1);
            if i + 1 < s.len() && (s[i + 1] == '"' || s[i + 1] == '\'') {
                match last_non_ws(out) {
                    Some(l) => if is_opener(l) {
                        lemma_spacing_shape(s, i + 1, out, dq, sq);
                    } else {
                        if out.len() > 0 && !is_white_space(out.last()) {
                            lemma_push_single_spaced(out, ' ');
                            assert(out.push(' ')[0] == out[0]);
                            lemma_spacing_shape(s, i + 1, out.push(' '), dq, sq);
                        } else {
                            lemma_spacing_shape(s, i + 1, out, dq, sq);
                        }
                    },
                    None => {
                        lemma_spacing_shape(s, i + 1, out, dq, sq);
                    },
                }
            } else if super::text::ends_with_ws(out) {
                lemma_spacing_shape(s, i + 1, out, dq, sq);
            } else {
                lemma_push_single_spaced(out, ' ');
                assert(out.push(' ')[0] == out[0]);
                lemma_spacing_shape(s, i + 1, out.push(' '), dq, sq);
            }
        } else if c == '\'' && i + 1 < s.len() && super::text::unicode_alphanumeric(s[i + 1]) {
            let o = out.push(c);
            lemma_push_single_spaced(out, c);
            assert(o[0] == if out.len() > 0 { out[0] } else { c });
            lemma_spacing_shape(s, i + 1, o, dq, sq);
        } else if c == '"' || c == '\'' {
            let open = if c == '"' { dq } else { sq };
            if !open {
                let o = if super::text::ends_with_plain(out) { out.push(' ') } else { out };
                if super::text::ends_with_plain(out) {
                    lemma_push_single_spaced(out, ' ');
                    assert(o[0] == out[0]);
                }
                lemma_push_single_spaced(o, c);
                assert(o.push(c)[0] == if o.len() > 0 { o[0] } else { c });
                lemma_spacing_shape(
                    s,
                    skip_ws(s, i + 1),
                    o.push(c),
                    if c == '"' { true } else { dq },
                    if c == '"' { sq } else { true },
                );
            } else {
                let j = skip_ws(s, i + 1);
                let spaced = j < s.len() && !is_white_space(s[j]) && !super::text::is_tight_after_quote_wide(
                    s[j],
                );
                let o = out.push(c);
                lemma_push_single_spaced(out, c);
                assert(o[0] == if out.len() > 0 { out[0] } else { c });
                if spaced {
                    lemma_push_single_spaced(o, ' ');
                    assert(o.push(' ')[0] == o[0]);
                    lemma_spacing_shape(
                        s,
                        j,
                        o.push(' '),
                        if c == '"' { false } else { dq },
                        if c == '"' { sq } else { false },
                    );
                } else {
                    lemma_spacing_shape(
                        s,
                        j,
                        o,
                        if c == '"' { false } else { dq },
                        if c == '"' { sq } else { false },
                    );
                }
            }
        } else {
            let o = out.push(c);
            lemma_push_single_spaced(out, c);
            assert(o[0] == if out.len() > 0 { out[0] } else { c });
            lemma_spacing_shape(s, i + 1, o, dq, sq);
        }
    }
}

/// Two single-spaced texts joined stay single-spaced unless both sides of
/// the joint are whitespace.
proof fn lemma_concat_single_spaced(a: Seq<char>, b: Seq<char>)
    requires
        single_spaced(a),
        single_spaced(b),
        a.len() > 0 && b.len() > 0 ==> !(is_white_space(a.last()) && is_white_space(b[0])),
    ensures
        single_spaced(a + b),
{
    let c = a + b;
    assert forall|i: int| 0 <= i < c.len() && is_white_space(#[trigger] c[i]) implies c[i] == ' ' by {
        if i < a.len() {
            assert(c[i] == a[i]);
        } else {
            assert(c[i] == b[i - a.len()]);
        }
    }
    assert forall|i: int| 0 <= i < c.len() - 1 implies !#[trigger] ws_pair(c, i) by {
        if i + 1 < a.len() {
            assert(c[i] == a[i] && c[i + 1] == a[i + 1]);
            assert(!ws_pair(a, i));
        } else if i + 1 == a.len() {
            assert(c[i] == a.last() && c[i + 1] == b[0]);
        } else {
            assert(c[i] == b[i - a.len()] && c[i + 1] == b[i - a.len() + 1]);
            assert(!ws_pair(b, i - a.len()));
        }
    }
}

/// Dropping the space before `rep`, which holds no whitespace, keeps a
/// single-spaced text single-spaced; from `i` on, the result starts with
/// `rep` where the pattern matches there and with `s[i]` otherwise.
proof fn lemma_drop_space_single_spaced(s: Seq<char>, rep: Seq<char>, i: int)
    requires
        single_spaced(s),
        rep.len() > 0,
        forall|k: int| 0 <= k < rep.len() ==> !is_white_space(#[trigger] rep[k]),
        0 <= i <= s.len(),
    ensures
        single_spaced(replace_from(s, seq![' '] + rep, rep, i)),
        i < s.len() ==> replace_from(s, seq![' '] + rep, rep, i).len() > 0 && replace_from(
            s,
            seq![' '] + rep,
            rep,
            i,
        )[0] == if occurs_at(s, seq![' '] + rep, i) {
            rep[0]
        } else {
            s[i]
        },
    decreases s.len() - i,
{
    let pat = seq![' '] + rep;
    if i == s.len() {
        assert(replace_from(s, pat, rep, i) =~= Seq::<char>::empty());
    } else if occurs_at(s, pat, i) {
        let j = i + pat.len();
        lemma_drop_space_single_spaced(s, rep, j);
        assert forall|k: int| 0 <= k < rep.len() && is_white_space(#[trigger] rep[k]) implies rep[k]
            == ' ' by {}
        assert forall|k: int| 0 <= k < rep.len() - 1 implies !#[trigger] ws_pair(rep, k) by {
            assert(!is_white_space(rep[k]));
        }
        lemma_concat_single_spaced(rep, replace_from(s, pat, rep, j));
        assert((rep + replace_from(s, pat, rep, j))[0] == rep[0]);
    } else {
        lemma_drop_space_single_spaced(s, rep, i + 1);
        let r = replace_from(s, pat, rep, i + 1);
        let h = seq![s[i]];
        assert(single_spaced(h)) by {
            assert forall|k: int| 0 <= k < h.len() - 1 implies !#[trigger] ws_pair(h, k) by {}
        }
        if i + 1 < s.len() && is_white_space(s[i]) {
            assert(!ws_pair(s, i));
            if occurs_at(s, pat, i + 1) {
                assert(!is_white_space(rep[0]));
            }
        }
        lemma_concat_single_spaced(h, r);
        assert((h + r)[0] == s[i]);
    }
}

/// Rejoining one kind of contraction keeps a single-spaced trimmed text so.
proof fn lemma_rejoin_shape(s: Seq<char>, rep: Seq<char>)
    requires
        single_spaced(s),
        trimmed(s),
        rep.len() > 0,
        forall|k: int| 0 <= k < rep.len() ==> !is_white_space(#[trigger] rep[k]),
    ensures
        single_spaced(replace_all(s, seq![' '] + rep, rep)),
        trimmed(replace_all(s, seq![' '] + rep, rep)),
{
    let pat = seq![' '] + rep;
    lemma_drop_space_single_spaced(s, rep, 0);
    assert(pat[0] == ' ');
    assert(pat.last() == rep.last());
    lemma_replace_trimmed(s, pat, rep);
}

/// Rejoining contractions keeps a single-spaced trimmed text so.
proof fn lemma_contractions_shape(s: Seq<char>)
    requires
        single_spaced(s),
        trimmed(s),
    ensures
        single_spaced(join_contractions(s)),
        trimmed(join_contractions(s)),
{
    let r1 = seq!['\'', 's'];
    let r2 = seq!['\'', 'r', 'e'];
    let r3 = seq!['n', '\'', 't'];
    let r4 = seq!['\'', 'v', 'e'];
    let r5 = seq!['\'', 'l', 'l'];
    let r6 = seq!['\'', 'd'];
    let r7 = seq!['\'', 'm'];
    assert(seq![' ', '\'', 's'] =~= seq![' '] + r1);
    assert(seq![' ', '\'', 'r', 'e'] =~= seq![' '] + r2);
    assert(seq![' ', 'n', '\'', 't'] =~= seq![' '] + r3);
    assert(seq![' ', '\'', 'v', 'e'] =~= seq![' '] + r4);
    assert(seq![' ', '\'', 'l', 'l'] =~= seq![' '] + r5);
    assert(seq![' ', '\'', 'd'] =~= seq![' '] + r6);
    assert(seq![' ', '\'', 'm'] =~= seq![' '] + r7);
    assert forall|k: int| 0 <= k < r2.len() implies !is_white_space(#[trigger] r2[k]) by {}
    let p1 = replace_all(s, seq![' '] + r1, r1);
    lemma_rejoin_shape(s, r1);
    let p2 = replace_all(p1, seq![' '] + r2, r2);
    lemma_rejoin_shape(p1, r2);
    let p3 = replace_all(p2, seq![' '] + r3, r3);
    lemma_rejoin_shape(p2, r3);
    let p4 = replace_all(p3, seq![' '] + r4, r4);
    lemma_rejoin_shape(p3, r4);
    let p5 = replace_all(p4, seq![' '] + r5, r5);
    lemma_rejoin_shape(p4, r5);
    let p6 = replace_all(p5, seq![' '] + r6, r6);
    lemma_rejoin_shape(p5, r6);
    lemma_rejoin_shape(p6, r7);
}

/// The cleaned text holds no whitespace but single spaces, never two in a
/// row, and none at either end.
pub proof fn lemma_clean_text_spacing(raw: Seq<char>)
    ensures
        single_spaced(clean_text_spec(raw)),
        trimmed(clean_text_spec(raw)),
{
    let s = replace_all(raw, seq!['\n'], seq![' ']);
    let s = super::text::strip_brackets(s);
    let c = collapse_whitespace(s);
    lemma_collapse_trimmed(s);
    let t = tidy_punctuation(c);
    lemma_tidy_trimmed(c);
    let q = normalize_quotes(t);
    lemma_quotes_trimmed(t, 0, Seq::empty(), false, false);
    let e = Seq::<char>::empty();
    assert(single_spaced(e)) by {
        assert forall|k: int| 0 <= k < e.len() - 1 implies !#[trigger] ws_pair(e, k) by {}
    }
    lemma_spacing_shape(q, 0, e, false, false);
    let n = normalize_spacing(q);
    lemma_contractions_shape(n);
}

/// No `[` in `s` is followed, anywhere later, by a `]`.
pub open spec fn bracket_free(s: Seq<char>) -> bool {
    forall|i: int, j: int|
        #![trigger s[i], s[j]]
        0 <= i < j < s.len() && s[i] == '[' ==> s[j] != ']'
}

/// Whether `c` occurs in `s` at or after `i`.
pub open spec fn occurs_from(s: Seq<char>, i: int, c: char) -> bool {
    exists|k: int| i <= k < s.len() && #[trigger] s[k] == c
}

/// Two bracket-free texts joined stay so unless a `[` of the first meets a
/// `]` of the second.
proof fn lemma_concat_free(a: Seq<char>, b: Seq<char>)
    requires
        bracket_free(a),
        bracket_free(b),
        occurs_from(a, 0, '[') ==> !occurs_from(b, 0, ']'),
    ensures
        bracket_free(a + b),
{
    let c = a + b;
    assert forall|i: int, j: int|
        #![trigger c[i], c[j]]
        0 <= i < j < c.len() && c[i] == '[' implies c[j] != ']' by {
        if j < a.len() {
            assert(c[i] == a[i] && c[j] == a[j]);
        } else if i >= a.len() {
            assert(c[i] == b[i - a.len()] && c[j] == b[j - a.len()]);
        } else {
            assert(c[i] == a[i] && c[j] == b[j - a.len()]);
            if c[j] == ']' {
                assert(a[i] == '[');
                assert(b[j - a.len()] == ']');
            }
        }
    }
}

/// Where `]` occurs in `a + b`, it occurs in `a` or in `b`.
proof fn lemma_occurs_concat(a: Seq<char>, b: Seq<char>, c: char)
    ensures
        occurs_from(a + b, 0, c) ==> occurs_from(a, 0, c) || occurs_from(b, 0, c),
        occurs_from(b, 0, c) ==> occurs_from(a + b, 0, c),
        occurs_from(a, 0, c) ==> occurs_from(a + b, 0, c),
{
    let s = a + b;
    if occurs_from(s, 0, c) {
        let k = choose|k: int| 0 <= k < s.len() && #[trigger] s[k] == c;
        if k < a.len() {
            assert(a[k] == c);
        } else {
            assert(b[k - a.len()] == c);
        }
    }
    if occurs_from(b, 0, c) {
        let k = choose|k: int| 0 <= k < b.len() && #[trigger] b[k] == c;
        assert(s[k + a.len()] == c);
    }
    if occurs_from(a, 0, c) {
        let k = choose|k: int| 0 <= k < a.len() && #[trigger] a[k] == c;
        assert(s[k] == c);
    }
}

/// A text of one character is bracket-free.
proof fn lemma_single_free(c: char)
    ensures
        bracket_free(seq![c]),
        occurs_from(seq![c], 0, '[') ==> c == '[',
        occurs_from(seq![c], 0, ']') ==> c == ']',
{
}

/// Bracket stripping from `i` on leaves no `[` followed by `]`.
proof fn lemma_strip_free(s: Seq<char>, i: int)
    requires
        0 <= i,
    ensures
        bracket_free(strip_brackets_from(s, i)),
    decreases s.len() - i,
{
    if i < s.len() {
        if s[i] == '[' {
            lemma_first_from_bounds(s, ']', i + 1);
            let j = first_from(s, ']', i + 1);
            if j < 0 {
                let r = s.subrange(i, s.len() as int);
                assert forall|a: int, b: int|
                    #![trigger r[a], r[b]]
                    0 <= a < b < r.len() && r[a] == '[' implies r[b] != ']' by {
                    assert(r[b] == s[i + b]);
                }
            } else {
                lemma_strip_free(s, j + 1);
                lemma_single_free(' ');
                lemma_concat_free(seq![' '], strip_brackets_from(s, j + 1));
            }
        } else {
            lemma_strip_free(s, i + 1);
            lemma_single_free(s[i]);
            lemma_concat_free(seq![s[i]], strip_brackets_from(s, i + 1));
        }
    } else {
        assert(strip_brackets_from(s, i) =~= Seq::<char>::empty());
    }
}

/// The words of a bracket-free text from `i` on, joined by spaces, are
/// bracket-free, and hold a `]` only where the text does from `i` on.
proof fn lemma_words_free(s: Seq<char>, i: int)
    requires
        bracket_free(s),
        0 <= i,
    ensures
        bracket_free(join_with(words_from(s, i), seq![' '])),
        occurs_from(join_with(words_from(s, i), seq![' ']), 0, ']') ==> occurs_from(s, i, ']'),
    decreases s.len() - i,
{
    if i < s.len() {
        if is_white_space(s[i]) {
            lemma_words_free(s, i + 1);
            assert(words_from(s, i) == words_from(s, i + 1));
            if occurs_from(s, i + 1, ']') {
                let k = choose|k: int| i + 1 <= k < s.len() && #[trigger] s[k] == ']';
                assert(s[k] == ']');
            }
        } else {
            lemma_word_end_bounds(s, i + 1);
            let e = word_end(s, i + 1);
            lemma_words_free(s, e);
            let w = s.subrange(i, e);
            let rest = words_from(s, e);
            let ws = words_from(s, i);
            assert(ws == seq![w] + rest);
            assert(ws[0] == w);
            assert(ws.drop_first() =~= rest);
            assert(bracket_free(w)) by {
                assert forall|a: int, b: int|
                    #![trigger w[a], w[b]]
                    0 <= a < b < w.len() && w[a] == '[' implies w[b] != ']' by {
                    assert(w[a] == s[i + a] && w[b] == s[i + b]);
                }
            }
            if occurs_from(w, 0, ']') {
                let k = choose|k: int| 0 <= k < w.len() && #[trigger] w[k] == ']';
                assert(s[i + k] == ']');
            }
            if rest.len() == 0 {
                assert(join_with(ws, seq![' ']) == w);
            } else {
                let jr = join_with(rest, seq![' ']);
                assert(join_with(ws, seq![' ']) == w + seq![' '] + jr);
                lemma_single_free(' ');
                lemma_occurs_concat(w, seq![' '], '[');
                lemma_occurs_concat(w, seq![' '], ']');
                if occurs_from(w, 0, '[') {
                    let a = choose|a: int| 0 <= a < w.len() && #[trigger] w[a] == '[';
                    assert(s[i + a] == '[');
                    if occurs_from(s, e, ']') {
                        let b = choose|b: int| e <= b < s.len() && #[trigger] s[b] == ']';
                        assert(s[b] == ']');
                    }
                }
                lemma_concat_free(w, seq![' ']);
                lemma_concat_free(w + seq![' '], jr);
                lemma_occurs_concat(w + seq![' '], jr, ']');
                if occurs_from(jr, 0, ']') {
                    let b = choose|b: int| e <= b < s.len() && #[trigger] s[b] == ']';
                    assert(s[b] == ']');
                }
            }
        }
    } else {
        assert(words_from(s, i) =~= Seq::<Seq<char>>::empty());
    }
}

/// Replacing with text that holds neither bracket keeps a bracket-free
/// text so; from `i` on, the result holds a `]` only where the text does.
proof fn lemma_replace_free(s: Seq<char>, pat: Seq<char>, rep: Seq<char>, i: int)
    requires
        bracket_free(s),
        pat.len() > 0,
        !occurs_from(rep, 0, '['),
        !occurs_from(rep, 0, ']'),
        0 <= i <= s.len(),
    ensures
        bracket_free(replace_from(s, pat, rep, i)),
        occurs_from(replace_from(s, pat, rep, i), 0, ']') ==> occurs_from(s, i, ']'),
    decreases s.len() - i,
{
    if i == s.len() {
        assert(replace_from(s, pat, rep, i) =~= Seq::<char>::empty());
    } else if occurs_at(s, pat, i) {
        let j = i + pat.len();
        lemma_replace_free(s, pat, rep, j);
        let r = replace_from(s, pat, rep, j);
        assert(bracket_free(rep));
        lemma_concat_free(rep, r);
        lemma_occurs_concat(rep, r, ']');
        if occurs_from(r, 0, ']') {
            let b = choose|b: int| j <= b < s.len() && #[trigger] s[b] == ']';
            assert(s[b] == ']');
        }
    } else {
        lemma_replace_free(s, pat, rep, i + 1);
        let r = replace_from(s, pat, rep, i + 1);
        lemma_single_free(s[i]);
        if s[i] == '[' && occurs_from(r, 0, ']') {
            let b = choose|b: int| i + 1 <= b < s.len() && #[trigger] s[b] == ']';
            assert(s[b] == ']');
        }
        lemma_concat_free(seq![s[i]], r);
        lemma_occurs_concat(seq![s[i]], r, ']');
        if occurs_from(r, 0, ']') {
            let b = choose|b: int| i + 1 <= b < s.len() && #[trigger] s[b] == ']';
            assert(s[b] == ']');
        }
        if s[i] == ']' {
            assert(s[i] == ']');
        }
    }
}

/// Replacing with text that holds neither bracket keeps a bracket-free
/// text so.
proof fn lemma_replace_all_free(s: Seq<char>, pat: Seq<char>, rep: Seq<char>)
    requires
        bracket_free(s),
        pat.len() > 0,
        forall|k: int| 0 <= k < rep.len() ==> #[trigger] rep[k] != '[' && rep[k] != ']',
    ensures
        bracket_free(replace_all(s, pat, rep)),
{
    lemma_replace_free(s, pat, rep, 0);
}

/// Appending `c` keeps `out` bracket-free unless `c` is a `]` after a `[`.
proof fn lemma_push_free(out: Seq<char>, c: char)
    requires
        bracket_free(out),
        c == ']' ==> !occurs_from(out, 0, '['),
    ensures
        bracket_free(out.push(c)),
        occurs_from(out.push(c), 0, '[') ==> occurs_from(out, 0, '[') || c == '[',
{
    lemma_single_free(c);
    assert(out.push(c) =~= out + seq![c]);
    lemma_concat_free(out, seq![c]);
    lemma_occurs_concat(out, seq![c], '[');
}

/// A `]` after index `i` is one after any earlier index.
proof fn lemma_occurs_later(s: Seq<char>, i: int, j: int)
    requires
        i <= j,
    ensures
        occurs_from(s, j, ']') ==> occurs_from(s, i, ']'),
{
    if occurs_from(s, j, ']') {
        let k = choose|k: int| j <= k < s.len() && #[trigger] s[k] == ']';
        assert(s[k] == ']');
    }
}

/// Pushing `s[i]`, and then going on from some later index, keeps the
/// condition that a `[` written so far meets no `]` still to come.
proof fn lemma_advance_free(s: Seq<char>, i: int, out: Seq<char>, i2: int)
    requires
        bracket_free(s),
        0 <= i < s.len(),
        i + 1 <= i2,
        bracket_free(out),
        occurs_from(out, 0, '[') ==> !occurs_from(s, i, ']'),
    ensures
        bracket_free(out.push(s[i])),
        occurs_from(out.push(s[i]), 0, '[') ==> !occurs_from(s, i2, ']'),
{
    lemma_occurs_later(s, i, i2);
    if s[i] == ']' && occurs_from(out, 0, '[') {
        assert(occurs_from(s, i, ']'));
    }
    lemma_push_free(out, s[i]);
    if s[i] == '[' && occurs_from(s, i2, ']') {
        let k = choose|k: int| i2 <= k < s.len() && #[trigger] s[k] == ']';
        assert(s[i] == '[' && s[k] == ']');
    }
}

/// Pushing a space keeps the condition.
proof fn lemma_space_free(out: Seq<char>)
    requires
        bracket_free(out),
    ensures
        bracket_free(out.push(' ')),
        occurs_from(out.push(' '), 0, '[') ==> occurs_from(out, 0, '['),
{
    lemma_push_free(out, ' ');
}

/// The quote pass from `i` on keeps a bracket-free text so.
proof fn lemma_quotes_free(s: Seq<char>, i: int, out: Seq<char>, dq: bool, sq: bool)
    requires
        bracket_free(s),
        0 <= i,
        bracket_free(out),
        occurs_from(out, 0, '[') ==> !occurs_from(s, i, ']'),
    ensures
        bracket_free(quotes_from(s, i, out, dq, sq)),
    decreases s.len() - i,
{
    if i < s.len() {
        let c = s[i];
        lemma_skip_ws_bounds(s, i + 1);
        if c == '"' || c == '\'' {
            let open = if c == '"' { dq } else { sq };
            if !open {
                let i2 = skip_ws(s, i + 1);
                lemma_advance_free(s, i, out, i2);
                lemma_quotes_free(
                    s,
                    i2,
                    out.push(c),
                    if c == '"' { true } else { dq },
                    if c == '"' { sq } else { true },
                );
            } else {
                lemma_advance_free(s, i, out, i + 1);
                let spaced = i + 1 < s.len() && !is_white_space(s[i + 1]) && !super::text::is_tight_after_quote(
                    s[i + 1],
                );
                lemma_space_free(out.push(c));
                lemma_quotes_free(
                    s,
                    i + 1,
                    if spaced { out.push(c).push(' ') } else { out.push(c) },
                    if c == '"' { false } else { dq },
                    if c == '"' { sq } else { false },
                );
            }
        } else {
            lemma_advance_free(s, i, out, i + 1);
            lemma_quotes_free(s, i + 1, out.push(c), dq, sq);
        }
    }
}

/// The spacing pass from `i` on keeps a bracket-free text so.
proof fn lemma_spacing_free(s: Seq<char>, i: int, out: Seq<char>, dq: bool, sq: bool)
    requires
        bracket_free(s),
        0 <= i,
        bracket_free(out),
        occurs_from(out, 0, '[') ==> !occurs_from(s, i, ']'),
    ensures
        bracket_free(spacing_from(s, i, out, dq, sq)),
    decreases s.len() - i,
{
    if i < s.len() {
        let c = s[i];
        lemma_skip_ws_bounds(s, i + 1);
        lemma_occurs_later(s, i, i + 1);
        lemma_space_free(out);
        if is_opener(c) {
            let i2 = skip_ws(s, i + 1);
            lemma_advance_free(s, i, out, i2);
            lemma_spacing_free(s, i2, out.push(c), dq, sq);
        } else if is_white_space(c) {
            if i + 1 < s.len() && (s[i + 1] == '"' || s[i + 1] == '\'') {
                match last_non_ws(out) {
                    Some(l) => if is_opener(l) {
                        lemma_spacing_free(s, i + 1, out, dq, sq);
                    } else {
                        if out.len() > 0 && !is_white_space(out.last()) {
                            lemma_spacing_free(s, i + 1, out.push(' '), dq, sq);
                        } else {
                            lemma_spacing_free(s, i + 1, out, dq, sq);
                        }
                    },
                    None => {
                        lemma_spacing_free(s, i + 1, out, dq, sq);
                    },
                }
            } else if super::text::ends_with_ws(out) {
                lemma_spacing_free(s, i + 1, out, dq, sq);
            } else {
                lemma_spacing_free(s, i + 1, out.push(' '), dq, sq);
            }
        } else if c == '\'' && i + 1 < s.len() && super::text::unicode_alphanumeric(s[i + 1]) {
            lemma_advance_free(s, i, out, i + 1);
            lemma_spacing_free(s, i + 1, out.push(c), dq, sq);
        } else if c == '"' || c == '\'' {
            let open = if c == '"' { dq } else { sq };
            let i2 = skip_ws(s, i + 1);
            if !open {
                let o = if super::text::ends_with_plain(out) { out.push(' ') } else { out };
                lemma_occurs_later(s, i, i2);
                lemma_advance_free(s, i, o, i2);
                lemma_spacing_free(
                    s,
                    i2,
                    o.push(c),
                    if c == '"' { true } else { dq },
                    if c == '"' { sq } else { true },
                );
            } else {
                lemma_advance_free(s, i, out, i2);
                lemma_space_free(out.push(c));
                let spaced = i2 < s.len() && !is_white_space(s[i2]) && !super::text::is_tight_after_quote_wide(
                    s[i2],
                );
                lemma_spacing_free(
                    s,
                    i2,
                    if spaced { out.push(c).push(' ') } else { out.push(c) },
                    if c == '"' { false } else { dq },
                    if c == '"' { sq } else { false },
                );
            }
        } else {
            lemma_advance_free(s, i, out, i + 1);
            lemma_spacing_free(s, i + 1, out.push(c), dq, sq);
        }
    }
}

/// The cleaned text holds no `[` followed, anywhere later, by a `]`: no
/// bracketed span survives.
pub proof fn lemma_clean_text_brackets(raw: Seq<char>)
    ensures
        bracket_free(clean_text_spec(raw)),
{
    let s0 = replace_all(raw, seq!['\n'], seq![' ']);
    let s1 = strip_brackets(s0);
    lemma_strip_free(s0, 0);
    let c = collapse_whitespace(s1);
    lemma_words_free(s1, 0);
    let p1 = replace_all(c, seq![' ', ','], seq![',']);
    lemma_replace_all_free(c, seq![' ', ','], seq![',']);
    let p2 = replace_all(p1, seq![' ', '.'], seq!['.']);
    lemma_replace_all_free(p1, seq![' ', '.'], seq!['.']);
    let p3 = replace_all(p2, seq![' ', ':'], seq![':']);
    lemma_replace_all_free(p2, seq![' ', ':'], seq![':']);
    let p4 = replace_all(p3, seq![' ', ';'], seq![';']);
    lemma_replace_all_free(p3, seq![' ', ';'], seq![';']);
    let p5 = replace_all(p4, seq![' ', '!'], seq!['!']);
    lemma_replace_all_free(p4, seq![' ', '!'], seq!['!']);
    let p6 = replace_all(p5, seq![' ', '?'], seq!['?']);
    lemma_replace_all_free(p5, seq![' ', '?'], seq!['?']);
    let p7 = replace_all(p6, seq![' ', ')'], seq![')']);
    lemma_replace_all_free(p6, seq![' ', ')'], seq![')']);
    let p8 = replace_all(p7, seq!['"', ' '], seq!['"']);
    lemma_replace_all_free(p7, seq!['"', ' '], seq!['"']);
    let p9 = replace_all(p8, seq!['\'', ' '], seq!['\'']);
    lemma_replace_all_free(p8, seq!['\'', ' '], seq!['\'']);
    let t = replace_all(p9, seq![' ', '"'], seq!['"']);
    lemma_replace_all_free(p9, seq![' ', '"'], seq!['"']);
    assert(t == tidy_punctuation(c));
    let e = Seq::<char>::empty();
    assert(!occurs_from(e, 0, '['));
    lemma_quotes_free(t, 0, e, false, false);
    let q = normalize_quotes(t);
    lemma_spacing_free(q, 0, e, false, false);
    let n = normalize_spacing(q);
    let j1 = replace_all(n, seq![' ', '\'', 's'], seq!['\'', 's']);
    lemma_replace_all_free(n, seq![' ', '\'', 's'], seq!['\'', 's']);
    let j2 = replace_all(j1, seq![' ', '\'', 'r', 'e'], seq!['\'', 'r', 'e']);
    lemma_replace_all_free(j1, seq![' ', '\'', 'r', 'e'], seq!['\'', 'r', 'e']);
    let j3 = replace_all(j2, seq![' ', 'n', '\'', 't'], seq!['n', '\'', 't']);
    lemma_replace_all_free(j2, seq![' ', 'n', '\'', 't'], seq!['n', '\'', 't']);
    let j4 = replace_all(j3, seq![' ', '\'', 'v', 'e'], seq!['\'', 'v', 'e']);
    lemma_replace_all_free(j3, seq![' ', '\'', 'v', 'e'], seq!['\'', 'v', 'e']);
    let j5 = replace_all(j4, seq![' ', '\'', 'l', 'l'], seq!['\'', 'l', 'l']);
    lemma_replace_all_free(j4, seq![' ', '\'', 'l', 'l'], seq!['\'', 'l', 'l']);
    let j6 = replace_all(j5, seq![' ', '\'', 'd'], seq!['\'', 'd']);
    lemma_replace_all_free(j5, seq![' ', '\'', 'd'], seq!['\'', 'd']);
    lemma_replace_all_free(j6, seq![' ', '\'', 'm'], seq!['\'', 'm']);
}

/// No space in `s` is followed by a character that `z` picks out.
pub open spec fn no_space_before(s: Seq<char>, z: spec_fn(char) -> bool) -> bool {
    forall|i: int| 0 <= i < s.len() - 1 ==> !(#[trigger] s[i] == ' ' && z(s[i + 1]))
}

/// Neither kind of quote mark occurs in `s`.
pub open spec fn quote_free(s: Seq<char>) -> bool {
    !occurs_from(s, 0, '"') && !occurs_from(s, 0, '\'')
}

/// A character other than a space that bracket stripping from `i` on
/// writes occurs in the text from `i` on.
proof fn lemma_strip_keeps_absent(s: Seq<char>, i: int, q: char)
    requires
        0 <= i,
        q != ' ',
        !occurs_from(s, i, q),
    ensures
        !occurs_from(strip_brackets_from(s, i), 0, q),
    decreases s.len() - i,
{
    if i < s.len() {
        if s[i] == '[' {
            lemma_first_from_bounds(s, ']', i + 1);
            let j = first_from(s, ']', i + 1);
            if j < 0 {
                let r = s.subrange(i, s.len() as int);
                if occurs_from(r, 0, q) {
                    let k = choose|k: int| 0 <= k < r.len() && #[trigger] r[k] == q;
                    assert(s[i + k] == q);
                }
            } else {
                lemma_occurs_later_char(s, i, j + 1, q);
                lemma_strip_keeps_absent(s, j + 1, q);
                lemma_occurs_concat(seq![' '], strip_brackets_from(s, j + 1), q);
            }
        } else {
            lemma_occurs_later_char(s, i, i + 1, q);
            lemma_strip_keeps_absent(s, i + 1, q);
            lemma_occurs_concat(seq![s[i]], strip_brackets_from(s, i + 1), q);
            assert(s[i] != q);
        }
    } else {
        assert(strip_brackets_from(s, i) =~= Seq::<char>::empty());
    }
}

/// A character found after index `j` is found after any earlier index.
proof fn lemma_occurs_later_char(s: Seq<char>, i: int, j: int, q: char)
    requires
        i <= j,
    ensures
        occurs_from(s, j, q) ==> occurs_from(s, i, q),
{
    if occurs_from(s, j, q) {
        let k = choose|k: int| j <= k < s.len() && #[trigger] s[k] == q;
        assert(s[k] == q);
    }
}

/// The words of `s` from `i` on hold no whitespace, are non-empty, and a
/// character other than a space in them joined occurs in `s` from `i` on.
proof fn lemma_words_plain(s: Seq<char>, i: int, q: char)
    requires
        0 <= i,
        q != ' ',
    ensures
        forall|k: int, m: int|
            #![trigger words_from(s, i)[k][m]]
            0 <= k < words_from(s, i).len() && 0 <= m < words_from(s, i)[k].len() ==> !is_white_space(
                words_from(s, i)[k][m],
            ),
        forall|k: int| 0 <= k < words_from(s, i).len() ==> #[trigger] words_from(s, i)[k].len() > 0,
        !occurs_from(s, i, q) ==> !occurs_from(join_with(words_from(s, i), seq![' ']), 0, q),
    decreases s.len() - i,
{
    if i < s.len() {
        if is_white_space(s[i]) {
            lemma_words_plain(s, i + 1, q);
            assert(words_from(s, i) == words_from(s, i + 1));
            lemma_occurs_later_char(s, i, i + 1, q);
        } else {
            lemma_word_end_bounds(s, i + 1);
            let e = word_end(s, i + 1);
            lemma_words_plain(s, e, q);
            let w = s.subrange(i, e);
            let rest = words_from(s, e);
            let ws = words_from(s, i);
            assert(ws == seq![w] + rest);
            assert(ws[0] == w);
            assert(ws.drop_first() =~= rest);
            assert forall|k: int, m: int|
                #![trigger ws[k][m]]
                0 <= k < ws.len() && 0 <= m < ws[k].len() implies !is_white_space(ws[k][m]) by {
                if k == 0 {
                    assert(ws[0][m] == s[i + m]);
                } else {
                    assert(ws[k] == rest[k - 1]);
                }
            }
            assert forall|k: int| 0 <= k < ws.len() implies #[trigger] ws[k].len() > 0 by {
                if k > 0 {
                    assert(ws[k] == rest[k - 1]);
                }
            }
            if !occurs_from(s, i, q) {
                lemma_occurs_later_char(s, i, e, q);
                if occurs_from(w, 0, q) {
                    let k = choose|k: int| 0 <= k < w.len() && #[trigger] w[k] == q;
                    assert(s[i + k] == q);
                }
                if rest.len() > 0 {
                    let jr = join_with(rest, seq![' ']);
                    assert(join_with(ws, seq![' ']) == w + seq![' '] + jr);
                    lemma_occurs_concat(w, seq![' '], q);
                    lemma_occurs_concat(w + seq![' '], jr, q);
                } else {
                    assert(join_with(ws, seq![' ']) == w);
                }
            }
        }
    } else {
        assert(words_from(s, i) =~= Seq::<Seq<char>>::empty());
    }
}

/// Non-empty words without whitespace, joined by spaces, are single-spaced.
proof fn lemma_join_single_spaced(ws: Seq<Seq<char>>)
    requires
        forall|k: int, m: int|
            #![trigger ws[k][m]]
            0 <= k < ws.len() && 0 <= m < ws[k].len() ==> !is_white_space(ws[k][m]),
        forall|k: int| 0 <= k < ws.len() ==> #[trigger] ws[k].len() > 0,
    ensures
        single_spaced(join_with(ws, seq![' '])),
        ws.len() > 0 ==> join_with(ws, seq![' ']).len() > 0 && !is_white_space(
            join_with(ws, seq![' '])[0],
        ),
    decreases ws.len(),
{
    if ws.len() == 0 {
        let e = join_with(ws, seq![' ']);
        assert(e =~= Seq::<char>::empty());
        assert forall|k: int| 0 <= k < e.len() - 1 implies !#[trigger] ws_pair(e, k) by {}
    } else {
        let w = ws[0];
        assert(single_spaced(w)) by {
            assert forall|k: int| 0 <= k < w.len() && is_white_space(#[trigger] w[k]) implies w[k] == ' ' by {
                assert(!is_white_space(ws[0][k]));
            }
            assert forall|k: int| 0 <= k < w.len() - 1 implies !#[trigger] ws_pair(w, k) by {
                assert(!is_white_space(ws[0][k]));
            }
        }
        assert(!is_white_space(ws[0][w.len() - 1]));
        if ws.len() == 1 {
            assert(!is_white_space(ws[0][0]));
        } else {
            let rest = ws.drop_first();
            assert forall|k: int, m: int|
                #![trigger rest[k][m]]
                0 <= k < rest.len() && 0 <= m < rest[k].len() implies !is_white_space(rest[k][m]) by {
                assert(rest[k] == ws[k + 1]);
            }
            assert forall|k: int| 0 <= k < rest.len() implies #[trigger] rest[k].len() > 0 by {
                assert(rest[k] == ws[k + 1]);
            }
            lemma_join_single_spaced(rest);
            let jr = join_with(rest, seq![' ']);
            let sp = seq![' '];
            assert(single_spaced(sp)) by {
                assert forall|k: int| 0 <= k < sp.len() - 1 implies !#[trigger] ws_pair(sp, k) by {}
            }
            lemma_concat_single_spaced(w, sp);
            lemma_concat_single_spaced(w + sp, jr);
            assert((w + sp + jr)[0] == w[0]);
            assert(!is_white_space(ws[0][0]));
        }
    }
}

/// Replacing from `i` on with text lacking `q` leaves `q` absent where the
/// text lacks it from `i` on.
proof fn lemma_replace_keeps_absent(s: Seq<char>, pat: Seq<char>, rep: Seq<char>, i: int, q: char)
    requires
        pat.len() > 0,
        !occurs_from(rep, 0, q),
        !occurs_from(s, i, q),
        0 <= i <= s.len(),
    ensures
        !occurs_from(replace_from(s, pat, rep, i), 0, q),
    decreases s.len() - i,
{
    if i == s.len() {
        assert(replace_from(s, pat, rep, i) =~= Seq::<char>::empty());
    } else if occurs_at(s, pat, i) {
        let j = i + pat.len();
        lemma_occurs_later_char(s, i, j, q);
        lemma_replace_keeps_absent(s, pat, rep, j, q);
        lemma_occurs_concat(rep, replace_from(s, pat, rep, j), q);
    } else {
        lemma_occurs_later_char(s, i, i + 1, q);
        lemma_replace_keeps_absent(s, pat, rep, i + 1, q);
        lemma_occurs_concat(seq![s[i]], replace_from(s, pat, rep, i + 1), q);
        assert(s[i] != q);
    }
}

/// Where `s` lacks `q` and `pat` holds it, replacing changes nothing.
proof fn lemma_replace_identity(s: Seq<char>, pat: Seq<char>, rep: Seq<char>, i: int, p: int, q: char)
    requires
        pat.len() > 0,
        0 <= p < pat.len(),
        pat[p] == q,
        !occurs_from(s, 0, q),
        0 <= i <= s.len(),
    ensures
        replace_from(s, pat, rep, i) == s.subrange(i, s.len() as int),
    decreases s.len() - i,
{
    if i < s.len() {
        if occurs_at(s, pat, i) {
            assert(s.subrange(i, i + pat.len())[p] == q);
            assert(s[i + p] == q);
        }
        lemma_replace_identity(s, pat, rep, i + 1, p, q);
        assert(seq![s[i]] + s.subrange(i + 1, s.len() as int) =~= s.subrange(i, s.len() as int));
    }
}

/// Dropping the space before `y` leaves no space before `y`, and no space
/// before a character that `z` picks out where there was none before.
proof fn lemma_drop_space_tight(s: Seq<char>, y: char, z: spec_fn(char) -> bool, i: int)
    requires
        single_spaced(s),
        !is_white_space(y),
        no_space_before(s, z),
        0 <= i <= s.len(),
    ensures
        no_space_before(replace_from(s, seq![' ', y], seq![y], i), |c: char| z(c) || c == y),
        i < s.len() ==> replace_from(s, seq![' ', y], seq![y], i).len() > 0 && replace_from(
            s,
            seq![' ', y],
            seq![y],
            i,
        )[0] == if occurs_at(s, seq![' ', y], i) {
            y
        } else {
            s[i]
        },
    decreases s.len() - i,
{
    let pat = seq![' ', y];
    let rep = seq![y];
    let z2 = |c: char| z(c) || c == y;
    if i == s.len() {
        assert(replace_from(s, pat, rep, i) =~= Seq::<char>::empty());
    } else if occurs_at(s, pat, i) {
        let j = i + 2;
        lemma_drop_space_tight(s, y, z, j);
        let r = replace_from(s, pat, rep, j);
        let out = rep + r;
        assert forall|k: int| 0 <= k < out.len() - 1 implies !(#[trigger] out[k] == ' ' && z2(out[k + 1])) by {
            if k > 0 {
                assert(out[k] == r[k - 1] && out[k + 1] == r[k]);
            }
        }
        assert(out[0] == y);
    } else {
        lemma_drop_space_tight(s, y, z, i + 1);
        let r = replace_from(s, pat, rep, i + 1);
        let out = seq![s[i]] + r;
        assert forall|k: int| 0 <= k < out.len() - 1 implies !(#[trigger] out[k] == ' ' && z2(out[k + 1])) by {
            if k > 0 {
                assert(out[k] == r[k - 1] && out[k + 1] == r[k]);
            } else if s[i] == ' ' {
                assert(out[1] == r[0]);
                if occurs_at(s, pat, i + 1) {
                    assert(s.subrange(i + 1, i + 3)[0] == s[i + 1]);
                    assert(ws_pair(s, i));
                } else {
                    assert(r[0] == s[i + 1]);
                    if s[i + 1] == y {
                        assert(s.subrange(i, i + 2) =~= pat);
                    }
                }
            }
        }
        assert(out[0] == s[i]);
    }
}

/// The quote pass changes nothing in a text without quote marks.
proof fn lemma_quotes_identity(s: Seq<char>, i: int, out: Seq<char>, dq: bool, sq: bool)
    requires
        quote_free(s),
        0 <= i <= s.len(),
    ensures
        quotes_from(s, i, out, dq, sq) == out + s.subrange(i, s.len() as int),
    decreases s.len() - i,
{
    if i < s.len() {
        if s[i] == '"' || s[i] == '\'' {
            assert(occurs_from(s, 0, s[i]));
        }
        lemma_quotes_identity(s, i + 1, out.push(s[i]), dq, sq);
        assert(out.push(s[i]) + s.subrange(i + 1, s.len() as int) =~= out + s.subrange(i, s.len() as int));
    } else {
        assert(out + s.subrange(i, s.len() as int) =~= out);
    }
}

/// The spacing pass over a single-spaced trimmed text without quote marks,
/// with no space before `, . : ; ! ? )`, puts no space before them.
proof fn lemma_spacing_tight(s: Seq<char>, i: int, out: Seq<char>, dq: bool, sq: bool)
    requires
        quote_free(s),
        single_spaced(s),
        trimmed(s),
        no_space_before(s, |c: char| super::text::is_tight_after_quote(c)),
        0 <= i,
        single_spaced(out),
        no_space_before(out, |c: char| super::text::is_tight_after_quote(c)),
        out.len() > 0 && is_white_space(out.last()) ==> i < s.len() && !is_white_space(s[i])
            && !super::text::is_tight_after_quote(s[i]),
    ensures
        no_space_before(spacing_from(s, i, out, dq, sq), |c: char| super::text::is_tight_after_quote(c)),
    decreases s.len() - i,
{
    let z = |c: char| super::text::is_tight_after_quote(c);
    if i < s.len() {
        let c = s[i];
        lemma_skip_ws_bounds(s, i + 1);
        if c == '"' || c == '\'' {
            assert(occurs_from(s, 0, c));
        }
        if is_opener(c) {
            let o = out.push(c);
            lemma_push_single_spaced(out, c);
            assert forall|k: int| 0 <= k < o.len() - 1 implies !(#[trigger] o[k] == ' ' && z(o[k + 1])) by {
                assert(o[k] == out[k]);
                if k + 1 < out.len() {
                    assert(o[k + 1] == out[k + 1]);
                }
            }
            let i2 = skip_ws(s, i + 1);
            lemma_spacing_tight(s, i2, o, dq, sq);
        } else if is_white_space(c) {
            assert(i != s.len() - 1);
            assert(c == ' ');
            assert(!ws_pair(s, i));
            assert(!(s[i] == ' ' && z(s[i + 1])));
            if super::text::ends_with_ws(out) {
                lemma_spacing_tight(s, i + 1, out, dq, sq);
            } else {
                let o = out.push(' ');
                lemma_push_single_spaced(out, ' ');
                assert forall|k: int| 0 <= k < o.len() - 1 implies !(#[trigger] o[k] == ' ' && z(o[k + 1])) by {
                    assert(o[k] == out[k]);
                    if k + 1 < out.len() {
                        assert(o[k + 1] == out[k + 1]);
                    }
                }
                lemma_spacing_tight(s, i + 1, o, dq, sq);
            }
        } else {
            let o = out.push(c);
            lemma_push_single_spaced(out, c);
            assert forall|k: int| 0 <= k < o.len() - 1 implies !(#[trigger] o[k] == ' ' && z(o[k + 1])) by {
                assert(o[k] == out[k]);
                if k + 1 < out.len() {
                    assert(o[k + 1] == out[k + 1]);
                }
            }
            lemma_spacing_tight(s, i + 1, o, dq, sq);
        }
    }
}

/// No space before what `z1` picks out means none before what `z2` picks
/// out, where `z2` picks out no more.
proof fn lemma_no_space_before_weaken(s: Seq<char>, z1: spec_fn(char) -> bool, z2: spec_fn(char) -> bool)
    requires
        no_space_before(s, z1),
        forall|c: char| #[trigger] z2(c) ==> z1(c),
    ensures
        no_space_before(s, z2),
{
    assert forall|i: int| 0 <= i < s.len() - 1 implies !(#[trigger] s[i] == ' ' && z2(s[i + 1])) by {
        if z2(s[i + 1]) {
            assert(z1(s[i + 1]));
        }
    }
}

/// One step of the punctuation tidy-up on a quote-free, single-spaced,
/// trimmed text: dropping the space before `y` keeps all of that, and adds
/// `y` to the characters that no space precedes.
proof fn lemma_tidy_step(s: Seq<char>, y: char, z: spec_fn(char) -> bool)
    requires
        quote_free(s),
        single_spaced(s),
        trimmed(s),
        no_space_before(s, z),
        !is_white_space(y),
        y != '"' && y != '\'',
    ensures
        quote_free(replace_all(s, seq![' ', y], seq![y])),
        single_spaced(replace_all(s, seq![' ', y], seq![y])),
        trimmed(replace_all(s, seq![' ', y], seq![y])),
        no_space_before(replace_all(s, seq![' ', y], seq![y]), |c: char| z(c) || c == y),
{
    let rep = seq![y];
    assert(seq![' ', y] =~= seq![' '] + rep);
    lemma_drop_space_tight(s, y, z, 0);
    lemma_drop_space_single_spaced(s, rep, 0);
    lemma_replace_trimmed(s, seq![' ', y], rep);
    lemma_replace_keeps_absent(s, seq![' ', y], rep, 0, '"');
    lemma_replace_keeps_absent(s, seq![' ', y], rep, 0, '\'');
}

/// Where the raw text holds no quote mark, neither does the cleaned text,
/// which has no space before `, . : ; ! ? )` and none after an opening
/// bracket.
proof fn lemma_quote_free_clean(raw: Seq<char>)
    requires
        !raw.contains('"'),
        !raw.contains('\''),
    ensures
        no_space_before(clean_text_spec(raw), |c: char| super::text::is_tight_after_quote(c)),
        quote_free(clean_text_spec(raw)),
        no_space_after_opener(clean_text_spec(raw)),
{
    assert(quote_free(raw)) by {
        if occurs_from(raw, 0, '"') {
            let k = choose|k: int| 0 <= k < raw.len() && #[trigger] raw[k] == '"';
            assert(raw.contains(raw[k]));
        }
        if occurs_from(raw, 0, '\'') {
            let k = choose|k: int| 0 <= k < raw.len() && #[trigger] raw[k] == '\'';
            assert(raw.contains(raw[k]));
        }
    }
    let s0 = replace_all(raw, seq!['\n'], seq![' ']);
    lemma_replace_keeps_absent(raw, seq!['\n'], seq![' '], 0, '"');
    lemma_replace_keeps_absent(raw, seq!['\n'], seq![' '], 0, '\'');
    let s1 = strip_brackets(s0);
    lemma_strip_keeps_absent(s0, 0, '"');
    lemma_strip_keeps_absent(s0, 0, '\'');
    let c = collapse_whitespace(s1);
    lemma_words_plain(s1, 0, '"');
    lemma_words_plain(s1, 0, '\'');
    lemma_join_single_spaced(words(s1));
    lemma_collapse_trimmed(s1);
    let z0 = |ch: char| false;
    assert(no_space_before(c, z0));
    let z1 = |ch: char| z0(ch) || ch == ',';
    let p1 = replace_all(c, seq![' ', ','], seq![',']);
    lemma_tidy_step(c, ',', z0);
    let z2 = |ch: char| z1(ch) || ch == '.';
    let p2 = replace_all(p1, seq![' ', '.'], seq!['.']);
    lemma_tidy_step(p1, '.', z1);
    let z3 = |ch: char| z2(ch) || ch == ':';
    let p3 = replace_all(p2, seq![' ', ':'], seq![':']);
    lemma_tidy_step(p2, ':', z2);
    let z4 = |ch: char| z3(ch) || ch == ';';
    let p4 = replace_all(p3, seq![' ', ';'], seq![';']);
    lemma_tidy_step(p3, ';', z3);
    let z5 = |ch: char| z4(ch) || ch == '!';
    let p5 = replace_all(p4, seq![' ', '!'], seq!['!']);
    lemma_tidy_step(p4, '!', z4);
    let z6 = |ch: char| z5(ch) || ch == '?';
    let p6 = replace_all(p5, seq![' ', '?'], seq!['?']);
    lemma_tidy_step(p5, '?', z5);
    let p7 = replace_all(p6, seq![' ', ')'], seq![')']);
    lemma_tidy_step(p6, ')', z6);
    let z = |ch: char| super::text::is_tight_after_quote(ch);
    lemma_no_space_before_weaken(p7, |ch: char| z6(ch) || ch == ')', z);
    lemma_replace_identity(p7, seq!['"', ' '], seq!['"'], 0, 0, '"');
    assert(p7.subrange(0, p7.len() as int) =~= p7);
    let p8 = replace_all(p7, seq!['"', ' '], seq!['"']);
    assert(p8 == p7);
    lemma_replace_identity(p8, seq!['\'', ' '], seq!['\''], 0, 0, '\'');
    let p9 = replace_all(p8, seq!['\'', ' '], seq!['\'']);
    assert(p9 == p7);
    lemma_replace_identity(p9, seq![' ', '"'], seq!['"'], 0, 1, '"');
    let t = replace_all(p9, seq![' ', '"'], seq!['"']);
    assert(t == p7);
    assert(t == tidy_punctuation(c));
    let e = Seq::<char>::empty();
    lemma_quotes_identity(t, 0, e, false, false);
    assert(e + t.subrange(0, t.len() as int) =~= t);
    let q = normalize_quotes(t);
    assert(q == t);
    assert(single_spaced(e)) by {
        assert forall|k: int| 0 <= k < e.len() - 1 implies !#[trigger] ws_pair(e, k) by {}
    }
    lemma_spacing_tight(q, 0, e, false, false);
    let n = normalize_spacing(q);
    assert(n.subrange(0, n.len() as int) =~= n);
    lemma_spacing_keeps_absent(q, 0, e, false, false, '\'');
    lemma_spacing_keeps_absent(q, 0, e, false, false, '"');
    lemma_spacing_opener(q, 0, e, false, false);
    let r1 = seq!['\'', 's'];
    let j1 = replace_all(n, seq![' ', '\'', 's'], r1);
    lemma_replace_identity(n, seq![' ', '\'', 's'], r1, 0, 1, '\'');
    assert(j1 == n);
    let r2 = seq!['\'', 'r', 'e'];
    let j2 = replace_all(j1, seq![' ', '\'', 'r', 'e'], r2);
    lemma_replace_identity(j1, seq![' ', '\'', 'r', 'e'], r2, 0, 1, '\'');
    assert(j2 == n);
    let r3 = seq!['n', '\'', 't'];
    let j3 = replace_all(j2, seq![' ', 'n', '\'', 't'], r3);
    lemma_replace_identity(j2, seq![' ', 'n', '\'', 't'], r3, 0, 2, '\'');
    assert(j3 == n);
    let r4 = seq!['\'', 'v', 'e'];
    let j4 = replace_all(j3, seq![' ', '\'', 'v', 'e'], r4);
    lemma_replace_identity(j3, seq![' ', '\'', 'v', 'e'], r4, 0, 1, '\'');
    assert(j4 == n);
    let r5 = seq!['\'', 'l', 'l'];
    let j5 = replace_all(j4, seq![' ', '\'', 'l', 'l'], r5);
    lemma_replace_identity(j4, seq![' ', '\'', 'l', 'l'], r5, 0, 1, '\'');
    assert(j5 == n);
    let r6 = seq!['\'', 'd'];
    let j6 = replace_all(j5, seq![' ', '\'', 'd'], r6);
    lemma_replace_identity(j5, seq![' ', '\'', 'd'], r6, 0, 1, '\'');
    assert(j6 == n);
    let r7 = seq!['\'', 'm'];
    lemma_replace_identity(j6, seq![' ', '\'', 'm'], r7, 0, 1, '\'');
    assert(join_contractions(n) == n);
}

/// The spacing pass writes a character other than a space only where the
/// text has it from `i` on or `out` already holds it.
proof fn lemma_spacing_keeps_absent(s: Seq<char>, i: int, out: Seq<char>, dq: bool, sq: bool, q: char)
    requires
        q != ' ',
        0 <= i,
        !occurs_from(s, i, q),
        !occurs_from(out, 0, q),
    ensures
        !occurs_from(spacing_from(s, i, out, dq, sq), 0, q),
    decreases s.len() - i,
{
    if i < s.len() {
        let c = s[i];
        lemma_skip_ws_bounds(s, i + 1);
        let i2 = skip_ws(s, i + 1);
        lemma_occurs_later_char(s, i, i + 1, q);
        lemma_occurs_later_char(s, i, i2, q);
        assert(c != q);
        lemma_occurs_concat(out, seq![c], q);
        lemma_occurs_concat(out, seq![' '], q);
        assert(out.push(c) =~= out + seq![c]);
        assert(out.push(' ') =~= out + seq![' ']);
        lemma_occurs_concat(out.push(' '), seq![c], q);
        assert(out.push(' ').push(c) =~= out.push(' ') + seq![c]);
        lemma_occurs_concat(out.push(c), seq![' '], q);
        assert(out.push(c).push(' ') =~= out.push(c) + seq![' ']);
        if is_opener(c) {
            lemma_spacing_keeps_absent(s, i2, out.push(c), dq, sq, q);
        } else if is_white_space(c) {
            lemma_spacing_keeps_absent(s, i + 1, out, dq, sq, q);
            lemma_spacing_keeps_absent(s, i + 1, out.push(' '), dq, sq, q);
        } else if c == '\'' && i + 1 < s.len() && super::text::unicode_alphanumeric(s[i + 1]) {
            lemma_spacing_keeps_absent(s, i + 1, out.push(c), dq, sq, q);
        } else if c == '"' || c == '\'' {
            let open = if c == '"' { dq } else { sq };
            if !open {
                let o = if super::text::ends_with_plain(out) { out.push(' ') } else { out };
                lemma_spacing_keeps_absent(
                    s,
                    i2,
                    o.push(c),
                    if c == '"' { true } else { dq },
                    if c == '"' { sq } else { true },
                    q,
                );
            } else {
                let spaced = i2 < s.len() && !is_white_space(s[i2]) && !super::text::is_tight_after_quote_wide(
                    s[i2],
                );
                lemma_spacing_keeps_absent(
                    s,
                    i2,
                    if spaced { out.push(c).push(' ') } else { out.push(c) },
                    if c == '"' { false } else { dq },
                    if c == '"' { sq } else { false },
                    q,
                );
            }
        } else {
            lemma_spacing_keeps_absent(s, i + 1, out.push(c), dq, sq, q);
        }
    }
}

/// No opening bracket in `s` is followed by whitespace.
pub open spec fn no_space_after_opener(s: Seq<char>) -> bool {
    forall|i: int| 0 <= i < s.len() - 1 && is_opener(#[trigger] s[i]) ==> !is_white_space(s[i + 1])
}

/// The spacing pass over a text without quote marks puts no whitespace
/// right after an opening bracket.
proof fn lemma_spacing_opener(s: Seq<char>, i: int, out: Seq<char>, dq: bool, sq: bool)
    requires
        quote_free(s),
        0 <= i,
        no_space_after_opener(out),
        out.len() > 0 && is_opener(out.last()) && i < s.len() ==> !is_white_space(s[i]),
    ensures
        no_space_after_opener(spacing_from(s, i, out, dq, sq)),
    decreases s.len() - i,
{
    if i < s.len() {
        let c = s[i];
        lemma_skip_ws_bounds(s, i + 1);
        if c == '"' || c == '\'' {
            assert(occurs_from(s, 0, c));
        }
        if is_opener(c) {
            let o = out.push(c);
            assert forall|k: int| 0 <= k < o.len() - 1 && is_opener(#[trigger] o[k]) implies !is_white_space(o[k + 1]) by {
                assert(o[k] == out[k]);
                if k + 1 < out.len() {
                    assert(o[k + 1] == out[k + 1]);
                }
            }
            lemma_spacing_opener(s, skip_ws(s, i + 1), o, dq, sq);
        } else if is_white_space(c) {
            if super::text::ends_with_ws(out) {
                lemma_spacing_opener(s, i + 1, out, dq, sq);
            } else {
                let o = out.push(' ');
                assert forall|k: int| 0 <= k < o.len() - 1 && is_opener(#[trigger] o[k]) implies !is_white_space(o[k + 1]) by {
                    assert(o[k] == out[k]);
                    if k + 1 < out.len() {
                        assert(o[k + 1] == out[k + 1]);
                    }
                }
                lemma_spacing_opener(s, i + 1, o, dq, sq);
            }
        } else {
            let o = out.push(c);
            assert forall|k: int| 0 <= k < o.len() - 1 && is_opener(#[trigger] o[k]) implies !is_white_space(o[k + 1]) by {
                assert(o[k] == out[k]);
                if k + 1 < out.len() {
                    assert(o[k + 1] == out[k + 1]);
                }
            }
            lemma_spacing_opener(s, i + 1, o, dq, sq);
        }
    }
}

/// Where the raw text holds no quote mark, the cleaned text has no space
/// before `, . : ; ! ? )`.
pub proof fn lemma_clean_text_tight(raw: Seq<char>)
    requires
        !raw.contains('"'),
        !raw.contains('\''),
    ensures
        no_space_before(clean_text_spec(raw), |c: char| super::text::is_tight_after_quote(c)),
{
    lemma_quote_free_clean(raw);
}

/// Where `pat` occurs nowhere in `s`, replacing it changes nothing.
proof fn lemma_replace_no_match(s: Seq<char>, pat: Seq<char>, rep: Seq<char>, i: int)
    requires
        pat.len() > 0,
        forall|k: int| 0 <= k < s.len() ==> !#[trigger] occurs_at(s, pat, k),
        0 <= i <= s.len(),
    ensures
        replace_from(s, pat, rep, i) == s.subrange(i, s.len() as int),
    decreases s.len() - i,
{
    if i < s.len() {
        assert(!occurs_at(s, pat, i));
        lemma_replace_no_match(s, pat, rep, i + 1);
        assert(seq![s[i]] + s.subrange(i + 1, s.len() as int) =~= s.subrange(i, s.len() as int));
    }
}

/// Bracket stripping changes nothing in a bracket-free text.
proof fn lemma_strip_identity(s: Seq<char>, i: int)
    requires
        bracket_free(s),
        0 <= i <= s.len(),
    ensures
        strip_brackets_from(s, i) == s.subrange(i, s.len() as int),
    decreases s.len() - i,
{
    if i < s.len() {
        if s[i] == '[' {
            lemma_first_from_bounds(s, ']', i + 1);
            let j = first_from(s, ']', i + 1);
            if j >= 0 {
                assert(s[i] == '[' && s[j] == ']');
            }
        } else {
            lemma_strip_identity(s, i + 1);
            assert(seq![s[i]] + s.subrange(i + 1, s.len() as int) =~= s.subrange(i, s.len() as int));
        }
    }
}

/// The words of a single-spaced trimmed text, from the start of a word on,
/// joined by spaces, give back the text from there on.
proof fn lemma_collapse_identity_from(s: Seq<char>, i: int)
    requires
        single_spaced(s),
        trimmed(s),
        0 <= i < s.len(),
        !is_white_space(s[i]),
    ensures
        join_with(words_from(s, i), seq![' ']) == s.subrange(i, s.len() as int),
    decreases s.len() - i,
{
    lemma_word_end_bounds(s, i + 1);
    let e = word_end(s, i + 1);
    let w = s.subrange(i, e);
    let ws = words_from(s, i);
    assert(ws == seq![w] + words_from(s, e));
    if e == s.len() {
        assert(words_from(s, e) =~= Seq::<Seq<char>>::empty());
        assert(join_with(ws, seq![' ']) == w);
    } else {
        assert(is_white_space(s[e]));
        assert(s[e] == ' ');
        assert(e + 1 < s.len());
        assert(!ws_pair(s, e));
        assert(words_from(s, e) == words_from(s, e + 1));
        lemma_collapse_identity_from(s, e + 1);
        lemma_words_shape(s, e + 1);
        assert(words_from(s, e + 1).len() > 0);
        assert(ws.drop_first() =~= words_from(s, e + 1));
        assert(join_with(ws, seq![' ']) == w + seq![' '] + join_with(words_from(s, e + 1), seq![' ']));
        assert(w + seq![' '] + s.subrange(e + 1, s.len() as int) =~= s.subrange(i, s.len() as int));
    }
}

/// Collapsing whitespace changes nothing in a single-spaced trimmed text.
proof fn lemma_collapse_identity(s: Seq<char>)
    requires
        single_spaced(s),
        trimmed(s),
    ensures
        collapse_whitespace(s) == s,
{
    if s.len() == 0 {
        assert(words(s) =~= Seq::<Seq<char>>::empty());
        assert(collapse_whitespace(s) =~= s);
    } else {
        lemma_collapse_identity_from(s, 0);
        assert(s.subrange(0, s.len() as int) =~= s);
    }
}

/// The spacing pass changes nothing in a quote-free, single-spaced, trimmed
/// text with no whitespace after an opening bracket.
proof fn lemma_spacing_identity(s: Seq<char>, i: int, dq: bool, sq: bool)
    requires
        quote_free(s),
        single_spaced(s),
        trimmed(s),
        no_space_after_opener(s),
        0 <= i <= s.len(),
    ensures
        spacing_from(s, i, s.subrange(0, i), dq, sq) == s,
    decreases s.len() - i,
{
    let out = s.subrange(0, i);
    if i < s.len() {
        let c = s[i];
        lemma_skip_ws_bounds(s, i + 1);
        if c == '"' || c == '\'' {
            assert(occurs_from(s, 0, c));
        }
        assert(out.push(c) =~= s.subrange(0, i + 1));
        if is_opener(c) {
            if i + 1 < s.len() {
                assert(!is_white_space(s[i + 1]));
            }
            assert(skip_ws(s, i + 1) == i + 1);
            lemma_spacing_identity(s, i + 1, dq, sq);
        } else if is_white_space(c) {
            assert(c == ' ');
            assert(i > 0);
            assert(out.last() == s[i - 1]);
            assert(!ws_pair(s, i - 1));
            assert(!super::text::ends_with_ws(out));
            lemma_spacing_identity(s, i + 1, dq, sq);
        } else {
            lemma_spacing_identity(s, i + 1, dq, sq);
        }
    } else {
        assert(out =~= s);
    }
}

/// Where the raw text holds no quote mark, cleaning the cleaned text
/// changes nothing.
pub proof fn lemma_clean_text_idempotent(raw: Seq<char>)
    requires
        !raw.contains('"'),
        !raw.contains('\''),
    ensures
        clean_text_spec(clean_text_spec(raw)) == clean_text_spec(raw),
{
    let y = clean_text_spec(raw);
    lemma_quote_free_clean(raw);
    lemma_clean_text_spacing(raw);
    lemma_clean_text_brackets(raw);
    assert(y.subrange(0, y.len() as int) =~= y);
    if occurs_from(y, 0, '\n') {
        let k = choose|k: int| 0 <= k < y.len() && #[trigger] y[k] == '\n';
        assert(is_white_space(y[k]));
    }
    lemma_replace_identity(y, seq!['\n'], seq![' '], 0, 0, '\n');
    let s0 = replace_all(y, seq!['\n'], seq![' ']);
    assert(s0 == y);
    lemma_strip_identity(y, 0);
    let s1 = strip_brackets(s0);
    assert(s1 == y);
    lemma_collapse_identity(y);
    let c = collapse_whitespace(s1);
    assert(c == y);
    lemma_tight_no_match(y, seq![' ', ',']);
    lemma_tight_no_match(y, seq![' ', '.']);
    lemma_tight_no_match(y, seq![' ', ':']);
    lemma_tight_no_match(y, seq![' ', ';']);
    lemma_tight_no_match(y, seq![' ', '!']);
    lemma_tight_no_match(y, seq![' ', '?']);
    lemma_tight_no_match(y, seq![' ', ')']);
    lemma_replace_no_match(y, seq![' ', ','], seq![','], 0);
    lemma_replace_no_match(y, seq![' ', '.'], seq!['.'], 0);
    lemma_replace_no_match(y, seq![' ', ':'], seq![':'], 0);
    lemma_replace_no_match(y, seq![' ', ';'], seq![';'], 0);
    lemma_replace_no_match(y, seq![' ', '!'], seq!['!'], 0);
    lemma_replace_no_match(y, seq![' ', '?'], seq!['?'], 0);
    lemma_replace_no_match(y, seq![' ', ')'], seq![')'], 0);
    lemma_replace_identity(y, seq!['"', ' '], seq!['"'], 0, 0, '"');
    lemma_replace_identity(y, seq!['\'', ' '], seq!['\''], 0, 0, '\'');
    lemma_replace_identity(y, seq![' ', '"'], seq!['"'], 0, 1, '"');
    assert(tidy_punctuation(y) == y);
    let e = Seq::<char>::empty();
    lemma_quotes_identity(y, 0, e, false, false);
    assert(e + y =~= y);
    assert(normalize_quotes(y) == y);
    assert(y.subrange(0, 0) =~= e);
    lemma_spacing_identity(y, 0, false, false);
    assert(normalize_spacing(y) == y);
    lemma_replace_identity(y, seq![' ', '\'', 's'], seq!['\'', 's'], 0, 1, '\'');
    lemma_replace_identity(y, seq![' ', '\'', 'r', 'e'], seq!['\'', 'r', 'e'], 0, 1, '\'');
    lemma_replace_identity(y, seq![' ', 'n', '\'', 't'], seq!['n', '\'', 't'], 0, 2, '\'');
    lemma_replace_identity(y, seq![' ', '\'', 'v', 'e'], seq!['\'', 'v', 'e'], 0, 1, '\'');
    lemma_replace_identity(y, seq![' ', '\'', 'l', 'l'], seq!['\'', 'l', 'l'], 0, 1, '\'');
    lemma_replace_identity(y, seq![' ', '\'', 'd'], seq!['\'', 'd'], 0, 1, '\'');
    lemma_replace_identity(y, seq![' ', '\'', 'm'], seq!['\'', 'm'], 0, 1, '\'');
    assert(join_contractions(y) == y);
}

/// Where no space comes before `, . : ; ! ? )`, a space followed by one of
/// them occurs nowhere.
proof fn lemma_tight_no_match(y: Seq<char>, pat: Seq<char>)
    requires
        no_space_before(y, |c: char| super::text::is_tight_after_quote(c)),
        pat.len() == 2,
        pat[0] == ' ',
        super::text::is_tight_after_quote(pat[1]),
    ensures
        forall|k: int| 0 <= k < y.len() ==> !#[trigger] occurs_at(y, pat, k),
{
    let z = |c: char| super::text::is_tight_after_quote(c);
    assert forall|k: int| 0 <= k < y.len() implies !#[trigger] occurs_at(y, pat, k) by {
        if occurs_at(y, pat, k) {
            assert(y.subrange(k, k + 2)[0] == y[k] && y.subrange(k, k + 2)[1] == y[k + 1]);
            assert(y[k] == ' ' && z(y[k + 1]));
        }
    }
}

/// Every paragraph that content extraction keeps is single-spaced, holds
/// no newline, neither starts nor ends with whitespace, and has at least
/// eight words; the extracted text is these paragraphs joined by blank
/// lines.
pub proof fn lemma_paragraphs_shape(
    page: Seq<char>,
    nodes: Seq<DomNodeView>,
    excluded: Seq<Seq<char>>,
    c: int,
    candidate: Seq<char>,
    k: int,
)
    ensures
        forall|i: int|
            0 <= i < paragraphs_upto(page, nodes, excluded, c, candidate, k).len() ==> {
                let p = #[trigger] paragraphs_upto(page, nodes, excluded, c, candidate, k)[i];
                &&& single_spaced(p)
                &&& trimmed(p)
                &&& !p.contains('\n')
                &&& words(p).len() >= 8
            },
    decreases k - c,
{
    if k > c + 1 {
        lemma_paragraphs_shape(page, nodes, excluded, c, candidate, k - 1);
        let prev = paragraphs_upto(page, nodes, excluded, c, candidate, k - 1);
        let ps = paragraphs_upto(page, nodes, excluded, c, candidate, k);
        let t = clean_text_spec(node_text(nodes, k - 1));
        lemma_clean_text_spacing(node_text(nodes, k - 1));
        assert forall|i: int| 0 <= i < ps.len() implies {
            let p = #[trigger] ps[i];
            &&& single_spaced(p)
            &&& trimmed(p)
            &&& !p.contains('\n')
            &&& words(p).len() >= 8
        } by {
            if i < prev.len() {
                assert(ps[i] == prev[i]);
            } else {
                assert(keeps_paragraph(page, nodes, excluded, c, candidate, k - 1));
                assert(ps[i] == t);
            }
            let p = ps[i];
            if p.contains('\n') {
                let j = choose|j: int| 0 <= j < p.len() && p[j] == '\n';
                assert(is_white_space(p[j]));
            }
        }
    }
}

/// Where no selector from the `k`th on selects an element, no container is
/// found.
proof fn lemma_no_container(page: Seq<char>, sels: Seq<Seq<char>>, k: int)
    requires
        0 <= k,
        forall|i: int| 0 <= i < sels.len() ==> !(#[trigger] first_selected(page, sels[i]) matches Some(Some(_))),
    ensures
        container_from(page, sels, k) is None,
    decreases sels.len() - k,
{
    if k < sels.len() {
        assert(!(first_selected(page, sels[k]) matches Some(Some(_))));
        lemma_no_container(page, sels, k + 1);
    }
}

/// The article text is `None` where no container selector selects an
/// element, and where the candidate selector gives no answer for any
/// scope, as happens when it does not parse; where there is text, it is
/// the kept paragraphs joined by blank lines, each single-spaced, trimmed,
/// free of newlines and at least eight words long.
pub proof fn lemma_content_shape(
    page: Seq<char>,
    containers: Seq<Seq<char>>,
    excluded: Seq<Seq<char>>,
    candidate: Seq<char>,
)
    ensures
        (forall|i: int|
            0 <= i < containers.len() ==> !(#[trigger] first_selected(page, containers[i]) matches Some(
                Some(_),
            ))) ==> content_spec(page, containers, excluded, candidate) is None,
        (forall|c: nat| #[trigger] selected_within(page, c, candidate) is None) ==> content_spec(
            page,
            containers,
            excluded,
            candidate,
        ) is None,
        content_spec(page, containers, excluded, candidate) matches Some(s) ==> exists|ps: Seq<Seq<char>>|
            {
                &&& ps.len() > 0
                &&& s == join_with(ps, seq!['\n', '\n'])
                &&& forall|i: int|
                    0 <= i < ps.len() ==> {
                        let p = #[trigger] ps[i];
                        &&& single_spaced(p)
                        &&& trimmed(p)
                        &&& !p.contains('\n')
                        &&& words(p).len() >= 8
                    }
            },
{
    if forall|i: int|
        0 <= i < containers.len() ==> !(#[trigger] first_selected(page, containers[i]) matches Some(Some(_))) {
        lemma_no_container(page, containers, 0);
    }
    match container_from(page, containers, 0) {
        None => {},
        Some(c) => {
            let nodes = document_nodes(page);
            let ps = paragraphs_upto(page, nodes, excluded, c as int, candidate, end_of(nodes, c as int));
            lemma_paragraphs_shape(page, nodes, excluded, c as int, candidate, end_of(nodes, c as int));
            if selected_within(page, c, candidate) is Some && ps.len() > 0 {
                assert(content_spec(page, containers, excluded, candidate) == Some(join_with(ps, seq!['\n', '\n'])));
            }
        },
    }
}

/// Appending `c` keeps "no space before `, . : ; ! ? )`" unless `c` is one
/// of them after a space.
proof fn lemma_push_tight(out: Seq<char>, c: char)
    requires
        no_space_before(out, |x: char| super::text::is_tight_after_quote(x)),
        out.len() > 0 && out.last() == ' ' ==> !super::text::is_tight_after_quote(c),
    ensures
        no_space_before(out.push(c), |x: char| super::text::is_tight_after_quote(x)),
{
    let z = |x: char| super::text::is_tight_after_quote(x);
    let o = out.push(c);
    assert forall|k: int| 0 <= k < o.len() - 1 implies !(#[trigger] o[k] == ' ' && z(o[k + 1])) by {
        assert(o[k] == out[k]);
        if k + 1 < out.len() {
            assert(o[k + 1] == out[k + 1]);
        } else {
            assert(o[k + 1] == c);
        }
    }
}

/// Dropping the space after `q`, which is neither whitespace nor closing
/// punctuation, keeps a single-spaced text so and adds no space before
/// what `z` picks out; from `i` on, the result starts with `q` where the
/// pattern matches there and with `s[i]` otherwise.
proof fn lemma_drop_space_after(s: Seq<char>, q: char, z: spec_fn(char) -> bool, i: int)
    requires
        single_spaced(s),
        no_space_before(s, z),
        !is_white_space(q),
        !z(q),
        0 <= i <= s.len(),
    ensures
        single_spaced(replace_from(s, seq![q, ' '], seq![q], i)),
        no_space_before(replace_from(s, seq![q, ' '], seq![q], i), z),
        i < s.len() ==> replace_from(s, seq![q, ' '], seq![q], i).len() > 0 && replace_from(
            s,
            seq![q, ' '],
            seq![q],
            i,
        )[0] == if occurs_at(s, seq![q, ' '], i) {
            q
        } else {
            s[i]
        },
    decreases s.len() - i,
{
    let pat = seq![q, ' '];
    let rep = seq![q];
    if i == s.len() {
        let e = replace_from(s, pat, rep, i);
        assert(e =~= Seq::<char>::empty());
        assert forall|k: int| 0 <= k < e.len() - 1 implies !#[trigger] ws_pair(e, k) by {}
    } else if occurs_at(s, pat, i) {
        let j = i + 2;
        lemma_drop_space_after(s, q, z, j);
        let r = replace_from(s, pat, rep, j);
        assert(single_spaced(rep)) by {
            assert forall|k: int| 0 <= k < rep.len() - 1 implies !#[trigger] ws_pair(rep, k) by {}
        }
        lemma_concat_single_spaced(rep, r);
        let out = rep + r;
        assert forall|k: int| 0 <= k < out.len() - 1 implies !(#[trigger] out[k] == ' ' && z(out[k + 1])) by {
            if k > 0 {
                assert(out[k] == r[k - 1] && out[k + 1] == r[k]);
            }
        }
        assert(out[0] == q);
    } else {
        lemma_drop_space_after(s, q, z, i + 1);
        let r = replace_from(s, pat, rep, i + 1);
        let h = seq![s[i]];
        assert(single_spaced(h)) by {
            assert forall|k: int| 0 <= k < h.len() - 1 implies !#[trigger] ws_pair(h, k) by {}
        }
        if i + 1 < s.len() && is_white_space(s[i]) {
            assert(!ws_pair(s, i));
        }
        lemma_concat_single_spaced(h, r);
        let out = h + r;
        assert forall|k: int| 0 <= k < out.len() - 1 implies !(#[trigger] out[k] == ' ' && z(out[k + 1])) by {
            if k > 0 {
                assert(out[k] == r[k - 1] && out[k + 1] == r[k]);
            } else if s[i] == ' ' {
                assert(out[1] == r[0]);
                if !occurs_at(s, pat, i + 1) {
                    assert(r[0] == s[i + 1]);
                }
            }
        }
        assert(out[0] == s[i]);
    }
}

/// One space-dropping tidy step before closing punctuation `y`, on a
/// single-spaced trimmed text, keeps it so and adds `y` to the characters
/// no space precedes.
proof fn lemma_tidy_step_general(s: Seq<char>, y: char, z: spec_fn(char) -> bool)
    requires
        single_spaced(s),
        trimmed(s),
        no_space_before(s, z),
        !is_white_space(y),
    ensures
        single_spaced(replace_all(s, seq![' ', y], seq![y])),
        trimmed(replace_all(s, seq![' ', y], seq![y])),
        no_space_before(replace_all(s, seq![' ', y], seq![y]), |c: char| z(c) || c == y),
{
    let rep = seq![y];
    assert(seq![' ', y] =~= seq![' '] + rep);
    lemma_drop_space_tight(s, y, z, 0);
    lemma_drop_space_single_spaced(s, rep, 0);
    lemma_replace_trimmed(s, seq![' ', y], rep);
}

/// After the punctuation tidy-up of a single-spaced trimmed text, no space
/// comes before `, . : ; ! ? )`, and the text stays single-spaced and
/// trimmed.
proof fn lemma_tidy_tight(c: Seq<char>)
    requires
        single_spaced(c),
        trimmed(c),
    ensures
        single_spaced(tidy_punctuation(c)),
        trimmed(tidy_punctuation(c)),
        no_space_before(tidy_punctuation(c), |ch: char| super::text::is_tight_after_quote(ch)),
{
    let z0 = |ch: char| false;
    assert(no_space_before(c, z0));
    let z1 = |ch: char| z0(ch) || ch == ',';
    let p1 = replace_all(c, seq![' ', ','], seq![',']);
    lemma_tidy_step_general(c, ',', z0);
    let z2 = |ch: char| z1(ch) || ch == '.';
    let p2 = replace_all(p1, seq![' ', '.'], seq!['.']);
    lemma_tidy_step_general(p1, '.', z1);
    let z3 = |ch: char| z2(ch) || ch == ':';
    let p3 = replace_all(p2, seq![' ', ':'], seq![':']);
    lemma_tidy_step_general(p2, ':', z2);
    let z4 = |ch: char| z3(ch) || ch == ';';
    let p4 = replace_all(p3, seq![' ', ';'], seq![';']);
    lemma_tidy_step_general(p3, ';', z3);
    let z5 = |ch: char| z4(ch) || ch == '!';
    let p5 = replace_all(p4, seq![' ', '!'], seq!['!']);
    lemma_tidy_step_general(p4, '!', z4);
    let z6 = |ch: char| z5(ch) || ch == '?';
    let p6 = replace_all(p5, seq![' ', '?'], seq!['?']);
    lemma_tidy_step_general(p5, '?', z5);
    let p7 = replace_all(p6, seq![' ', ')'], seq![')']);
    lemma_tidy_step_general(p6, ')', z6);
    let z = |ch: char| super::text::is_tight_after_quote(ch);
    lemma_no_space_before_weaken(p7, |ch: char| z6(ch) || ch == ')', z);
    let p8 = replace_all(p7, seq!['"', ' '], seq!['"']);
    lemma_drop_space_after(p7, '"', z, 0);
    lemma_replace_trimmed(p7, seq!['"', ' '], seq!['"']);
    let p9 = replace_all(p8, seq!['\'', ' '], seq!['\'']);
    lemma_drop_space_after(p8, '\'', z, 0);
    lemma_replace_trimmed(p8, seq!['\'', ' '], seq!['\'']);
    lemma_tidy_step_general(p9, '"', z);
    lemma_no_space_before_weaken(replace_all(p9, seq![' ', '"'], seq!['"']), |ch: char| z(ch) || ch == '"', z);
    assert(tidy_punctuation(c) == replace_all(p9, seq![' ', '"'], seq!['"']));
}

/// The quote pass over a single-spaced text with no space before
/// `, . : ; ! ? )` keeps both.
proof fn lemma_quotes_tight(s: Seq<char>, i: int, out: Seq<char>, dq: bool, sq: bool)
    requires
        single_spaced(s),
        no_space_before(s, |x: char| super::text::is_tight_after_quote(x)),
        0 <= i,
        single_spaced(out),
        no_space_before(out, |x: char| super::text::is_tight_after_quote(x)),
        out.len() > 0 && is_white_space(out.last()) ==> i >= s.len() || (!is_white_space(s[i])
            && !super::text::is_tight_after_quote(s[i])),
    ensures
        single_spaced(quotes_from(s, i, out, dq, sq)),
        no_space_before(quotes_from(s, i, out, dq, sq), |x: char| super::text::is_tight_after_quote(x)),
    decreases s.len() - i,
{
    if i < s.len() {
        let c = s[i];
        lemma_skip_ws_bounds(s, i + 1);
        if out.len() > 0 && is_white_space(out.last()) {
            assert(out.last() == ' ');
        }
        lemma_push_single_spaced(out, c);
        lemma_push_tight(out, c);
        let o = out.push(c);
        if c == '"' || c == '\'' {
            let open = if c == '"' { dq } else { sq };
            if !open {
                lemma_quotes_tight(
                    s,
                    skip_ws(s, i + 1),
                    o,
                    if c == '"' { true } else { dq },
                    if c == '"' { sq } else { true },
                );
            } else {
                let spaced = i + 1 < s.len() && !is_white_space(s[i + 1]) && !super::text::is_tight_after_quote(
                    s[i + 1],
                );
                if spaced {
                    lemma_push_single_spaced(o, ' ');
                    lemma_push_tight(o, ' ');
                }
                lemma_quotes_tight(
                    s,
                    i + 1,
                    if spaced { o.push(' ') } else { o },
                    if c == '"' { false } else { dq },
                    if c == '"' { sq } else { false },
                );
            }
        } else {
            if is_white_space(c) && i + 1 < s.len() {
                assert(!ws_pair(s, i));
                assert(c == ' ');
            }
            lemma_quotes_tight(s, i + 1, o, dq, sq);
        }
    }
}

/// The spacing pass over a single-spaced text with no space before
/// `, . : ; ! ? )` puts no space before them: in particular a closing quote
/// followed, after any whitespace, by such punctuation is written right
/// against it.
proof fn lemma_spacing_tight_quotes(s: Seq<char>, i: int, out: Seq<char>, dq: bool, sq: bool)
    requires
        single_spaced(s),
        no_space_before(s, |x: char| super::text::is_tight_after_quote(x)),
        0 <= i,
        no_space_before(out, |x: char| super::text::is_tight_after_quote(x)),
        out.len() > 0 && out.last() == ' ' ==> i >= s.len() || (!is_white_space(s[i])
            && !super::text::is_tight_after_quote(s[i])),
    ensures
        no_space_before(spacing_from(s, i, out, dq, sq), |x: char| super::text::is_tight_after_quote(x)),
    decreases s.len() - i,
{
    if i < s.len() {
        let c = s[i];
        lemma_skip_ws_bounds(s, i + 1);
        if is_opener(c) {
            lemma_push_tight(out, c);
            lemma_spacing_tight_quotes(s, skip_ws(s, i + 1), out.push(c), dq, sq);
        } else if is_white_space(c) {
            if i + 1 < s.len() {
                assert(!ws_pair(s, i));
                assert(c == ' ');
            }
            lemma_push_tight(out, ' ');
            if i + 1 < s.len() && (s[i + 1] == '"' || s[i + 1] == '\'') {
                match last_non_ws(out) {
                    Some(l) => if is_opener(l) {
                        lemma_spacing_tight_quotes(s, i + 1, out, dq, sq);
                    } else {
                        if out.len() > 0 && !is_white_space(out.last()) {
                            lemma_spacing_tight_quotes(s, i + 1, out.push(' '), dq, sq);
                        } else {
                            lemma_spacing_tight_quotes(s, i + 1, out, dq, sq);
                        }
                    },
                    None => {
                        lemma_spacing_tight_quotes(s, i + 1, out, dq, sq);
                    },
                }
            } else if super::text::ends_with_ws(out) {
                lemma_spacing_tight_quotes(s, i + 1, out, dq, sq);
            } else {
                lemma_spacing_tight_quotes(s, i + 1, out.push(' '), dq, sq);
            }
        } else if c == '\'' && i + 1 < s.len() && super::text::unicode_alphanumeric(s[i + 1]) {
            lemma_push_tight(out, c);
            lemma_spacing_tight_quotes(s, i + 1, out.push(c), dq, sq);
        } else if c == '"' || c == '\'' {
            let open = if c == '"' { dq } else { sq };
            let j = skip_ws(s, i + 1);
            if !open {
                let o = if super::text::ends_with_plain(out) { out.push(' ') } else { out };
                if super::text::ends_with_plain(out) {
                    lemma_push_tight(out, ' ');
                }
                lemma_push_tight(o, c);
                lemma_spacing_tight_quotes(
                    s,
                    j,
                    o.push(c),
                    if c == '"' { true } else { dq },
                    if c == '"' { sq } else { true },
                );
            } else {
                let spaced = j < s.len() && !is_white_space(s[j]) && !super::text::is_tight_after_quote_wide(
                    s[j],
                );
                lemma_push_tight(out, c);
                lemma_push_tight(out.push(c), ' ');
                lemma_spacing_tight_quotes(
                    s,
                    j,
                    if spaced { out.push(c).push(' ') } else { out.push(c) },
                    if c == '"' { false } else { dq },
                    if c == '"' { sq } else { false },
                );
            }
        } else {
            lemma_push_tight(out, c);
            lemma_spacing_tight_quotes(s, i + 1, out.push(c), dq, sq);
        }
    }
}

/// Rejoining one kind of contraction, whose first character is not closing
/// punctuation, adds no space before `, . : ; ! ? )`.
proof fn lemma_rejoin_tight(s: Seq<char>, rep: Seq<char>, i: int)
    requires
        single_spaced(s),
        no_space_before(s, |x: char| super::text::is_tight_after_quote(x)),
        rep.len() > 0,
        forall|k: int| 0 <= k < rep.len() ==> !is_white_space(#[trigger] rep[k]),
        !super::text::is_tight_after_quote(rep[0]),
        0 <= i <= s.len(),
    ensures
        no_space_before(replace_from(s, seq![' '] + rep, rep, i), |x: char| super::text::is_tight_after_quote(x)),
    decreases s.len() - i,
{
    let z = |x: char| super::text::is_tight_after_quote(x);
    let pat = seq![' '] + rep;
    if i == s.len() {
        assert(replace_from(s, pat, rep, i) =~= Seq::<char>::empty());
    } else if occurs_at(s, pat, i) {
        let j = i + pat.len();
        lemma_rejoin_tight(s, rep, j);
        let r = replace_from(s, pat, rep, j);
        let out = rep + r;
        assert forall|k: int| 0 <= k < out.len() - 1 implies !(#[trigger] out[k] == ' ' && z(out[k + 1])) by {
            if k < rep.len() {
                assert(out[k] == rep[k]);
                assert(!is_white_space(rep[k]));
            } else {
                assert(out[k] == r[k - rep.len()] && out[k + 1] == r[k - rep.len() + 1]);
            }
        }
    } else {
        lemma_rejoin_tight(s, rep, i + 1);
        lemma_drop_space_single_spaced(s, rep, i + 1);
        let r = replace_from(s, pat, rep, i + 1);
        let out = seq![s[i]] + r;
        assert forall|k: int| 0 <= k < out.len() - 1 implies !(#[trigger] out[k] == ' ' && z(out[k + 1])) by {
            if k > 0 {
                assert(out[k] == r[k - 1] && out[k + 1] == r[k]);
            } else if s[i] == ' ' {
                assert(out[1] == r[0]);
            }
        }
    }
}

/// Rejoining contractions adds no space before `, . : ; ! ? )`.
proof fn lemma_contractions_tight(s: Seq<char>)
    requires
        single_spaced(s),
        trimmed(s),
        no_space_before(s, |x: char| super::text::is_tight_after_quote(x)),
    ensures
        no_space_before(join_contractions(s), |x: char| super::text::is_tight_after_quote(x)),
{
    let r1 = seq!['\'', 's'];
    let r2 = seq!['\'', 'r', 'e'];
    let r3 = seq!['n', '\'', 't'];
    let r4 = seq!['\'', 'v', 'e'];
    let r5 = seq!['\'', 'l', 'l'];
    let r6 = seq!['\'', 'd'];
    let r7 = seq!['\'', 'm'];
    assert(seq![' ', '\'', 's'] =~= seq![' '] + r1);
    assert(seq![' ', '\'', 'r', 'e'] =~= seq![' '] + r2);
    assert(seq![' ', 'n', '\'', 't'] =~= seq![' '] + r3);
    assert(seq![' ', '\'', 'v', 'e'] =~= seq![' '] + r4);
    assert(seq![' ', '\'', 'l', 'l'] =~= seq![' '] + r5);
    assert(seq![' ', '\'', 'd'] =~= seq![' '] + r6);
    assert(seq![' ', '\'', 'm'] =~= seq![' '] + r7);
    assert forall|k: int| 0 <= k < r2.len() implies !is_white_space(#[trigger] r2[k]) by {}
    let p1 = replace_all(s, seq![' '] + r1, r1);
    lemma_rejoin_tight(s, r1, 0);
    lemma_rejoin_shape(s, r1);
    let p2 = replace_all(p1, seq![' '] + r2, r2);
    lemma_rejoin_tight(p1, r2, 0);
    lemma_rejoin_shape(p1, r2);
    let p3 = replace_all(p2, seq![' '] + r3, r3);
    lemma_rejoin_tight(p2, r3, 0);
    lemma_rejoin_shape(p2, r3);
    let p4 = replace_all(p3, seq![' '] + r4, r4);
    lemma_rejoin_tight(p3, r4, 0);
    lemma_rejoin_shape(p3, r4);
    let p5 = replace_all(p4, seq![' '] + r5, r5);
    lemma_rejoin_tight(p4, r5, 0);
    lemma_rejoin_shape(p4, r5);
    let p6 = replace_all(p5, seq![' '] + r6, r6);
    lemma_rejoin_tight(p5, r6, 0);
    lemma_rejoin_shape(p5, r6);
    lemma_rejoin_tight(p6, r7, 0);
}

/// For every raw text, quote marks included, the cleaned text has no space
/// right before `, . : ; ! ? )`: a closing quote followed by such
/// punctuation is never separated from it.
pub proof fn lemma_clean_text_no_space_before_punctuation(raw: Seq<char>)
    ensures
        no_space_before(clean_text_spec(raw), |x: char| super::text::is_tight_after_quote(x)),
{
    let z = |x: char| super::text::is_tight_after_quote(x);
    let s0 = replace_all(raw, seq!['\n'], seq![' ']);
    let s1 = super::text::strip_brackets(s0);
    let c = collapse_whitespace(s1);
    lemma_words_plain(s1, 0, 'x');
    lemma_join_single_spaced(words(s1));
    lemma_collapse_trimmed(s1);
    let t = tidy_punctuation(c);
    lemma_tidy_tight(c);
    let e = Seq::<char>::empty();
    assert(single_spaced(e)) by {
        assert forall|k: int| 0 <= k < e.len() - 1 implies !#[trigger] ws_pair(e, k) by {}
    }
    assert(no_space_before(e, z));
    let q = normalize_quotes(t);
    lemma_quotes_tight(t, 0, e, false, false);
    lemma_quotes_trimmed(t, 0, e, false, false);
    let n = normalize_spacing(q);
    lemma_spacing_tight_quotes(q, 0, e, false, false);
    lemma_spacing_shape(q, 0, e, false, false);
    lemma_contractions_tight(n);
}

} // verus!
