//! Character classes and text rewriting over sequences of characters.
use vstd::prelude::*;

verus! {

/// Characters with the Unicode `White_Space` property, the class that
/// `char::is_whitespace` and `str::split_whitespace` use.
pub open spec fn is_white_space(c: char) -> bool {
    let u = c as u32;
    ||| 0x09 <= u <= 0x0D
    ||| u == 0x20
    ||| u == 0x85
    ||| u == 0xA0
    ||| u == 0x1680
    ||| 0x2000 <= u <= 0x200A
    ||| u == 0x2028
    ||| u == 0x2029
    ||| u == 0x202F
    ||| u == 0x205F
    ||| u == 0x3000
}

/// Whether `c` has the Unicode `White_Space` property.
pub fn is_whitespace_char(c: char) -> (b: bool)
    ensures
        b == is_white_space(c),
{
    let u = c as u32;
    (0x09 <= u && u <= 0x0D) || u == 0x20 || u == 0x85 || u == 0xA0 || u == 0x1680 || (0x2000
        <= u && u <= 0x200A) || u == 0x2028 || u == 0x2029 || u == 0x202F || u == 0x205F || u
        == 0x3000
}

/// The characters of `s`, in order.
pub fn chars_of(s: &str) -> (v: Vec<char>)
    ensures
        v@ == s@,
{
    let mut v: Vec<char> = Vec::new();
    for c in it: s.chars()
        invariant
            v@ == it.seq().take(it.index() as int),
    {
        v.push(c);
    }
    v
}

/// Collects characters into a string (std's `FromIterator<&char>` for
/// `String`). Claims that the string holds exactly these characters.
#[verifier::external_body]
pub(crate) fn string_from_chars(v: &[char]) -> (s: String)
    ensures
        s@ == v@,
{
    v.iter().collect()
}

/// Whether `pat` occurs in `s` starting at index `i`.
pub open spec fn occurs_at(s: Seq<char>, pat: Seq<char>, i: int) -> bool {
    0 <= i && i + pat.len() <= s.len() && s.subrange(i, i + pat.len()) == pat
}

/// `s` from index `i` on, with each leftmost non-overlapping occurrence of
/// the non-empty `pat` replaced by `rep`.
pub open spec fn replace_from(s: Seq<char>, pat: Seq<char>, rep: Seq<char>, i: int) -> Seq<char>
    decreases s.len() - i,
{
    if i < 0 || i >= s.len() || pat.len() == 0 {
        if 0 <= i <= s.len() { s.subrange(i, s.len() as int) } else { Seq::empty() }
    } else if occurs_at(s, pat, i) {
        rep + replace_from(s, pat, rep, i + pat.len())
    } else {
        seq![s[i]] + replace_from(s, pat, rep, i + 1)
    }
}

/// `s` with every occurrence of `pat` replaced by `rep`, as `str::replace`
/// does: left to right, occurrences not overlapping.
pub open spec fn replace_all(s: Seq<char>, pat: Seq<char>, rep: Seq<char>) -> Seq<char> {
    replace_from(s, pat, rep, 0)
}

/// Whether `pat` occurs in `s` at `i`.
fn matches_at(s: &Vec<char>, i: usize, pat: &Vec<char>) -> (b: bool)
    requires
        i <= s.len(),
    ensures
        b == occurs_at(s@, pat@, i as int),
{
    if pat.len() > s.len() - i {
        return false;
    }
    let mut k: usize = 0;
    while k < pat.len()
        invariant
            i + pat.len() <= s.len(),
            k <= pat.len(),
            forall|j: int| 0 <= j < k ==> s@[i + j] == pat@[j],
        decreases pat.len() - k,
    {
        if s[i + k] != pat[k] {
            assert(s@.subrange(i as int, i + pat.len())[k as int] != pat@[k as int]);
            return false;
        }
        k = k + 1;
    }
    assert(s@.subrange(i as int, i + pat.len()) =~= pat@);
    true
}

/// Replaces every occurrence of the non-empty `pat` in `s` with `rep`.
pub fn replace_chars(s: &Vec<char>, pat: &Vec<char>, rep: &Vec<char>) -> (r: Vec<char>)
    requires
        pat.len() > 0,
    ensures
        r@ == replace_all(s@, pat@, rep@),
{
    let mut out: Vec<char> = Vec::new();
    let mut i: usize = 0;
    while i < s.len()
        invariant
            i <= s.len(),
            pat.len() > 0,
            replace_all(s@, pat@, rep@) == out@ + replace_from(s@, pat@, rep@, i as int),
        decreases s.len() - i,
    {
        if matches_at(s, i, pat) {
            let mut k: usize = 0;
            let ghost before = out@;
            while k < rep.len()
                invariant
                    k <= rep.len(),
                    out@ == before + rep@.subrange(0, k as int),
                decreases rep.len() - k,
            {
                out.push(rep[k]);
                k = k + 1;
                assert(out@ =~= before + rep@.subrange(0, k as int));
            }
            assert(rep@.subrange(0, rep.len() as int) =~= rep@);
            assert(before + (rep@ + replace_from(s@, pat@, rep@, i + pat.len())) =~= out@
                + replace_from(s@, pat@, rep@, i + pat.len()));
            i = i + pat.len();
        } else {
            let ghost before = out@;
            out.push(s[i]);
            assert(before + (seq![s@[i as int]] + replace_from(s@, pat@, rep@, i + 1)) =~= out@
                + replace_from(s@, pat@, rep@, i + 1));
            i = i + 1;
        }
    }
    assert(replace_from(s@, pat@, rep@, i as int) =~= Seq::<char>::empty());
    assert(out@ + Seq::<char>::empty() =~= out@);
    out
}

/// The first index at or after `i` where `s` holds `c`, or -1.
pub open spec fn first_from(s: Seq<char>, c: char, i: int) -> int
    decreases s.len() - i,
{
    if i < 0 || i >= s.len() {
        -1
    } else if s[i] == c {
        i
    } else {
        first_from(s, c, i + 1)
    }
}

/// A found index lies at or after the start.
pub proof fn lemma_first_from_bounds(s: Seq<char>, c: char, i: int)
    requires
        0 <= i,
    ensures
        first_from(s, c, i) == -1 || (i <= first_from(s, c, i) < s.len() && s[first_from(
            s,
            c,
            i,
        )] == c),
        first_from(s, c, i) == -1 ==> forall|j: int| i <= j < s.len() ==> s[j] != c,
    decreases s.len() - i,
{
    if 0 <= i < s.len() && s[i] != c {
        lemma_first_from_bounds(s, c, i + 1);
    }
}

/// `s` from index `i` on, with each bracketed span `[...]` (from a `[` to
/// the first `]` after it) replaced by one space; a `[` with no `]` after it
/// and everything following it are kept as they are.
pub open spec fn strip_brackets_from(s: Seq<char>, i: int) -> Seq<char>
    decreases s.len() - i,
{
    if i < 0 || i >= s.len() {
        Seq::empty()
    } else if s[i] == '[' {
        let j = first_from(s, ']', i + 1);
        if j < 0 {
            s.subrange(i, s.len() as int)
        } else {
            proof {
                lemma_first_from_bounds(s, ']', i + 1);
            }
            seq![' '] + strip_brackets_from(s, j + 1)
        }
    } else {
        seq![s[i]] + strip_brackets_from(s, i + 1)
    }
}

/// `s` with bracketed spans replaced by a space.
pub open spec fn strip_brackets(s: Seq<char>) -> Seq<char> {
    strip_brackets_from(s, 0)
}

/// The first index at or after `i` where `s` holds `c`, or `s.len()`.
fn find_from(s: &Vec<char>, c: char, i: usize) -> (j: usize)
    requires
        i <= s.len(),
    ensures
        j == if first_from(s@, c, i as int) < 0 { s.len() as int } else { first_from(s@, c, i as int) },
{
    let mut j = i;
    while j < s.len()
        invariant
            i <= j <= s.len(),
            first_from(s@, c, i as int) == first_from(s@, c, j as int),
        decreases s.len() - j,
    {
        if s[j] == c {
            return j;
        }
        j = j + 1;
    }
    j
}

/// Replaces each bracketed span of `s` with a space.
pub fn strip_bracket_spans(s: &Vec<char>) -> (r: Vec<char>)
    ensures
        r@ == strip_brackets(s@),
{
    let mut out: Vec<char> = Vec::new();
    let mut i: usize = 0;
    while i < s.len()
        invariant
            i <= s.len(),
            strip_brackets(s@) == out@ + strip_brackets_from(s@, i as int),
        decreases s.len() - i,
    {
        let ghost before = out@;
        if s[i] == '[' {
            let j = find_from(s, ']', i + 1);
            proof {
                lemma_first_from_bounds(s@, ']', i + 1);
            }
            if j == s.len() {
                while i < s.len()
                    invariant
                        i <= s.len(),
                        strip_brackets(s@) == out@ + s@.subrange(i as int, s.len() as int),
                    decreases s.len() - i,
                {
                    let ghost b2 = out@;
                    out.push(s[i]);
                    assert(b2 + s@.subrange(i as int, s.len() as int) =~= out@ + s@.subrange(
                        i + 1,
                        s.len() as int,
                    ));
                    i = i + 1;
                }
                assert(out@ + s@.subrange(i as int, s.len() as int) =~= out@);
                return out;
            }
            out.push(' ');
            assert(before + (seq![' '] + strip_brackets_from(s@, j + 1)) =~= out@
                + strip_brackets_from(s@, j + 1));
            i = j + 1;
        } else {
            out.push(s[i]);
            assert(before + (seq![s@[i as int]] + strip_brackets_from(s@, i + 1)) =~= out@
                + strip_brackets_from(s@, i + 1));
            i = i + 1;
        }
    }
    assert(out@ + strip_brackets_from(s@, i as int) =~= out@);
    out
}

/// The index where the word starting at `i` ends: the first whitespace at
/// or after `i`, or `s.len()`.
pub open spec fn word_end(s: Seq<char>, i: int) -> int
    decreases s.len() - i,
{
    if i < 0 || i >= s.len() || is_white_space(s[i]) {
        i
    } else {
        word_end(s, i + 1)
    }
}

/// A word ends at or after where it starts, and within the text.
pub proof fn lemma_word_end_bounds(s: Seq<char>, i: int)
    requires
        0 <= i <= s.len(),
    ensures
        i <= word_end(s, i) <= s.len(),
        forall|j: int| i <= j < word_end(s, i) ==> !is_white_space(s[j]),
        word_end(s, i) < s.len() ==> is_white_space(s[word_end(s, i)]),
    decreases s.len() - i,
{
    if i < s.len() && !is_white_space(s[i]) {
        lemma_word_end_bounds(s, i + 1);
    }
}

/// The whitespace-separated words of `s` from index `i` on, as
/// `str::split_whitespace` yields them.
pub open spec fn words_from(s: Seq<char>, i: int) -> Seq<Seq<char>>
    decreases s.len() - i,
{
    if i < 0 || i >= s.len() {
        Seq::empty()
    } else if is_white_space(s[i]) {
        words_from(s, i + 1)
    } else {
        proof {
            lemma_word_end_bounds(s, i + 1);
        }
        let e = word_end(s, i + 1);
        seq![s.subrange(i, e)] + words_from(s, e)
    }
}

/// The whitespace-separated words of `s`.
pub open spec fn words(s: Seq<char>) -> Seq<Seq<char>> {
    words_from(s, 0)
}

/// `ws` joined with `sep` between consecutive items, as `join` does.
pub open spec fn join_with(ws: Seq<Seq<char>>, sep: Seq<char>) -> Seq<char>
    decreases ws.len(),
{
    if ws.len() == 0 {
        Seq::empty()
    } else if ws.len() == 1 {
        ws[0]
    } else {
        ws[0] + sep + join_with(ws.drop_first(), sep)
    }
}

/// `acc` followed by `ws` joined with `sep`, with `sep` between `acc` and
/// the first item where both are non-empty.
pub open spec fn join_after(acc: Seq<char>, ws: Seq<Seq<char>>, sep: Seq<char>) -> Seq<char> {
    if ws.len() == 0 {
        acc
    } else if acc.len() == 0 {
        join_with(ws, sep)
    } else {
        acc + sep + join_with(ws, sep)
    }
}

/// The words of `s` joined by single spaces: runs of whitespace collapse to
/// one space and leading and trailing whitespace go.
pub open spec fn collapse_whitespace(s: Seq<char>) -> Seq<char> {
    join_with(words(s), seq![' '])
}

/// Joining stays joining when one more word is appended to the accumulated
/// text.
proof fn lemma_join_after_step(acc: Seq<char>, w: Seq<char>, ws: Seq<Seq<char>>, sep: Seq<char>)
    requires
        w.len() > 0,
    ensures
        join_after(acc, seq![w] + ws, sep) == join_after(
            if acc.len() == 0 { w } else { acc + sep + w },
            ws,
            sep,
        ),
{
    let ws2 = seq![w] + ws;
    assert(ws2[0] == w);
    assert(ws2.drop_first() =~= ws);
    if ws.len() == 0 {
        assert(ws2.len() == 1);
    } else {
        if acc.len() == 0 {
        } else {
            assert(acc + sep + (w + sep + join_with(ws, sep)) =~= acc + sep + w + sep + join_with(
                ws,
                sep,
            ));
        }
    }
}

/// Collapses runs of whitespace in `s` to single spaces and trims both ends.
pub fn collapse_spaces(s: &Vec<char>) -> (r: Vec<char>)
    ensures
        r@ == collapse_whitespace(s@),
{
    let mut out: Vec<char> = Vec::new();
    let mut i: usize = 0;
    while i < s.len()
        invariant
            i <= s.len(),
            collapse_whitespace(s@) == join_after(out@, words_from(s@, i as int), seq![' ']),
            out@.len() == 0 || words(s@).len() > 0,
        decreases s.len() - i,
    {
        if is_whitespace_char(s[i]) {
            i = i + 1;
        } else {
            proof {
                lemma_word_end_bounds(s@, i + 1);
            }
            let mut e = i + 1;
            while e < s.len() && !is_whitespace_char(s[e])
                invariant
                    i < e <= s.len(),
                    word_end(s@, i + 1) == word_end(s@, e as int),
                decreases s.len() - e,
            {
                e = e + 1;
            }
            let ghost w = s@.subrange(i as int, e as int);
            let ghost before = out@;
            proof {
                lemma_join_after_step(before, w, words_from(s@, e as int), seq![' ']);
            }
            if out.len() > 0 {
                out.push(' ');
            }
            let mut k = i;
            let ghost mid = out@;
            while k < e
                invariant
                    i <= k <= e,
                    e <= s.len(),
                    out@ == mid + s@.subrange(i as int, k as int),
                decreases e - k,
            {
                out.push(s[k]);
                k = k + 1;
                assert(out@ =~= mid + s@.subrange(i as int, k as int));
            }
            assert(out@ =~= if before.len() == 0 { w } else { before + seq![' '] + w });
            i = e;
        }
    }
    out
}

/// The number of whitespace-separated words in `s`.
pub fn count_words(s: &Vec<char>) -> (n: usize)
    ensures
        n == words(s@).len(),
{
    let mut n: usize = 0;
    let mut i: usize = 0;
    proof {
        lemma_words_len_bound(s@, 0);
    }
    while i < s.len()
        invariant
            i <= s.len(),
            words(s@).len() == n + words_from(s@, i as int).len(),
            words_from(s@, i as int).len() <= s.len() - i,
            words(s@).len() <= s.len(),
        decreases s.len() - i,
    {
        if is_whitespace_char(s[i]) {
            proof {
                lemma_words_len_bound(s@, i + 1);
            }
            i = i + 1;
        } else {
            proof {
                lemma_word_end_bounds(s@, i + 1);
                lemma_words_len_bound(s@, word_end(s@, i + 1));
            }
            let mut e = i + 1;
            while e < s.len() && !is_whitespace_char(s[e])
                invariant
                    i < e <= s.len(),
                    word_end(s@, i + 1) == word_end(s@, e as int),
                decreases s.len() - e,
            {
                e = e + 1;
            }
            n = n + 1;
            i = e;
        }
    }
    n
}

/// There are no more words than characters.
proof fn lemma_words_len_bound(s: Seq<char>, i: int)
    requires
        0 <= i <= s.len(),
    ensures
        words_from(s, i).len() <= s.len() - i,
    decreases s.len() - i,
{
    if i < s.len() {
        if is_white_space(s[i]) {
            lemma_words_len_bound(s, i + 1);
        } else {
            lemma_word_end_bounds(s, i + 1);
            lemma_words_len_bound(s, word_end(s, i + 1));
        }
    }
}

/// Whether `char::is_alphanumeric` holds of `c`: the Unicode `Alphabetic`
/// or `Numeric` property.
pub uninterp spec fn unicode_alphanumeric(c: char) -> bool;

/// std's `char::is_alphanumeric`. Claims only that the answer is the named
/// property of `c`.
#[verifier::external_body]
pub(crate) fn is_alphanumeric_char(c: char) -> (b: bool)
    ensures
        b == unicode_alphanumeric(c),
{
    c.is_alphanumeric()
}

/// An opening bracket: `(`, `[` or `{`.
pub open spec fn is_opener(c: char) -> bool {
    c == '(' || c == '[' || c == '{'
}

/// Punctuation after which a closing quote needs no space: `, . : ; ! ? )`.
pub open spec fn is_tight_after_quote(c: char) -> bool {
    c == ',' || c == '.' || c == ':' || c == ';' || c == '!' || c == '?' || c == ')'
}

/// As [`is_tight_after_quote`], and also `]` and `}`.
pub open spec fn is_tight_after_quote_wide(c: char) -> bool {
    is_tight_after_quote(c) || c == ']' || c == '}'
}

/// The first index at or after `i` that does not hold whitespace, or
/// `s.len()` (or `i` itself where `i` is past the end).
pub open spec fn skip_ws(s: Seq<char>, i: int) -> int
    decreases s.len() - i,
{
    if 0 <= i < s.len() && is_white_space(s[i]) {
        skip_ws(s, i + 1)
    } else {
        i
    }
}

/// Skipping whitespace moves forward only.
pub proof fn lemma_skip_ws_bounds(s: Seq<char>, i: int)
    ensures
        i <= skip_ws(s, i),
        i <= s.len() ==> skip_ws(s, i) <= s.len(),
        0 <= skip_ws(s, i) < s.len() ==> !is_white_space(s[skip_ws(s, i)]),
    decreases s.len() - i,
{
    if 0 <= i < s.len() && is_white_space(s[i]) {
        lemma_skip_ws_bounds(s, i + 1);
    }
}

/// Skips whitespace in `s` from `i`.
fn skip_whitespace(s: &Vec<char>, i: usize) -> (j: usize)
    requires
        i <= s.len(),
    ensures
        j == skip_ws(s@, i as int),
        i <= j <= s.len(),
{
    let mut j = i;
    while j < s.len() && is_whitespace_char(s[j])
        invariant
            i <= j <= s.len(),
            skip_ws(s@, i as int) == skip_ws(s@, j as int),
        decreases s.len() - j,
    {
        j = j + 1;
    }
    j
}

/// The quote pass from index `i` on, with `out` written so far and `dq`,
/// `sq` telling whether a double or a single quote is open. An opening
/// quote drops the whitespace after it; a closing quote gets a space after
/// it unless the next character is whitespace or tight punctuation.
pub open spec fn quotes_from(s: Seq<char>, i: int, out: Seq<char>, dq: bool, sq: bool) -> Seq<char>
    decreases s.len() - i,
{
    if i < 0 || i >= s.len() {
        out
    } else {
        let c = s[i];
        proof {
            lemma_skip_ws_bounds(s, i + 1);
        }
        if c == '"' || c == '\'' {
            let open = if c == '"' { dq } else { sq };
            if !open {
                quotes_from(
                    s,
                    skip_ws(s, i + 1),
                    out.push(c),
                    if c == '"' { true } else { dq },
                    if c == '"' { sq } else { true },
                )
            } else {
                let spaced = i + 1 < s.len() && !is_white_space(s[i + 1]) && !is_tight_after_quote(
                    s[i + 1],
                );
                quotes_from(
                    s,
                    i + 1,
                    if spaced { out.push(c).push(' ') } else { out.push(c) },
                    if c == '"' { false } else { dq },
                    if c == '"' { sq } else { false },
                )
            }
        } else {
            quotes_from(s, i + 1, out.push(c), dq, sq)
        }
    }
}

/// The quote pass over `s`.
pub open spec fn normalize_quotes(s: Seq<char>) -> Seq<char> {
    quotes_from(s, 0, Seq::empty(), false, false)
}

fn is_tight_char(c: char) -> (b: bool)
    ensures
        b == is_tight_after_quote(c),
{
    c == ',' || c == '.' || c == ':' || c == ';' || c == '!' || c == '?' || c == ')'
}

fn is_tight_wide_char(c: char) -> (b: bool)
    ensures
        b == is_tight_after_quote_wide(c),
{
    is_tight_char(c) || c == ']' || c == '}'
}

fn is_opener_char(c: char) -> (b: bool)
    ensures
        b == is_opener(c),
{
    c == '(' || c == '[' || c == '{'
}

/// Removes the space after opening quotes and puts one after closing quotes.
pub fn quote_pass(s: &Vec<char>) -> (r: Vec<char>)
    ensures
        r@ == normalize_quotes(s@),
{
    let mut out: Vec<char> = Vec::new();
    let mut i: usize = 0;
    let mut dq = false;
    let mut sq = false;
    while i < s.len()
        invariant
            i <= s.len(),
            normalize_quotes(s@) == quotes_from(s@, i as int, out@, dq, sq),
        decreases s.len() - i,
    {
        let c = s[i];
        if c == '"' || c == '\'' {
            let open = if c == '"' { dq } else { sq };
            out.push(c);
            if !open {
                if c == '"' {
                    dq = true;
                } else {
                    sq = true;
                }
                i = skip_whitespace(s, i + 1);
            } else {
                if c == '"' {
                    dq = false;
                } else {
                    sq = false;
                }
                if i + 1 < s.len() {
                    let nx = s[i + 1];
                    if !is_whitespace_char(nx) && !is_tight_char(nx) {
                        out.push(' ');
                    }
                }
                i = i + 1;
            }
        } else {
            out.push(c);
            i = i + 1;
        }
    }
    out
}

/// The last character of `out` that is not whitespace, if any.
pub open spec fn last_non_ws(out: Seq<char>) -> Option<char>
    decreases out.len(),
{
    if out.len() == 0 {
        None
    } else if !is_white_space(out.last()) {
        Some(out.last())
    } else {
        last_non_ws(out.drop_last())
    }
}

/// Whether `out` ends with whitespace.
pub open spec fn ends_with_ws(out: Seq<char>) -> bool {
    out.len() > 0 && is_white_space(out.last())
}

/// Whether `out` ends with a character other than whitespace and an
/// opening bracket.
pub open spec fn ends_with_plain(out: Seq<char>) -> bool {
    out.len() > 0 && !is_white_space(out.last()) && !is_opener(out.last())
}

/// The spacing pass from index `i` on, with `out` written so far and `dq`,
/// `sq` telling whether a double or a single quote is open: no space after
/// an opening bracket, whitespace runs collapsed to one space, a space
/// before an opening quote and after a closing one, none inside the quotes,
/// and an apostrophe followed by a letter or digit kept as it is.
pub open spec fn spacing_from(s: Seq<char>, i: int, out: Seq<char>, dq: bool, sq: bool) -> Seq<
    char,
>
    decreases s.len() - i,
{
    if i < 0 || i >= s.len() {
        out
    } else {
        let c = s[i];
        proof {
            lemma_skip_ws_bounds(s, i + 1);
        }
        if is_opener(c) {
            spacing_from(s, skip_ws(s, i + 1), out.push(c), dq, sq)
        } else if is_white_space(c) {
            if i + 1 < s.len() && (s[i + 1] == '"' || s[i + 1] == '\'') {
                match last_non_ws(out) {
                    Some(l) => if is_opener(l) {
                        spacing_from(s, i + 1, out, dq, sq)
                    } else {
                        spacing_from(
                            s,
                            i + 1,
                            if out.len() > 0 && !is_white_space(out.last()) {
                                out.push(' ')
                            } else {
                                out
                            },
                            dq,
                            sq,
                        )
                    },
                    None => spacing_from(s, i + 1, out, dq, sq),
                }
            } else if ends_with_ws(out) {
                spacing_from(s, i + 1, out, dq, sq)
            } else {
                spacing_from(s, i + 1, out.push(' '), dq, sq)
            }
        } else if c == '\'' && i + 1 < s.len() && unicode_alphanumeric(s[i + 1]) {
            spacing_from(s, i + 1, out.push(c), dq, sq)
        } else if c == '"' || c == '\'' {
            let open = if c == '"' { dq } else { sq };
            if !open {
                let o = if ends_with_plain(out) { out.push(' ') } else { out };
                spacing_from(
                    s,
                    skip_ws(s, i + 1),
                    o.push(c),
                    if c == '"' { true } else { dq },
                    if c == '"' { sq } else { true },
                )
            } else {
                let j = skip_ws(s, i + 1);
                let spaced = j < s.len() && !is_white_space(s[j]) && !is_tight_after_quote_wide(s[j]);
                spacing_from(
                    s,
                    j,
                    if spaced { out.push(c).push(' ') } else { out.push(c) },
                    if c == '"' { false } else { dq },
                    if c == '"' { sq } else { false },
                )
            }
        } else {
            spacing_from(s, i + 1, out.push(c), dq, sq)
        }
    }
}

/// The spacing pass over `s`.
pub open spec fn normalize_spacing(s: Seq<char>) -> Seq<char> {
    spacing_from(s, 0, Seq::empty(), false, false)
}

/// The last character of `out` that is not whitespace.
fn find_last_non_ws(out: &Vec<char>) -> (r: Option<char>)
    ensures
        r == last_non_ws(out@),
{
    let mut k = out.len();
    assert(out@.subrange(0, k as int) =~= out@);
    while k > 0 && is_whitespace_char(out[k - 1])
        invariant
            k <= out.len(),
            last_non_ws(out@) == last_non_ws(out@.subrange(0, k as int)),
        decreases k,
    {
        assert(out@.subrange(0, k as int).drop_last() =~= out@.subrange(0, k - 1));
        k = k - 1;
    }
    if k == 0 {
        assert(out@.subrange(0, 0) =~= Seq::<char>::empty());
        None
    } else {
        Some(out[k - 1])
    }
}

/// Normalises spacing around brackets, whitespace and quotes.
pub fn spacing_pass(s: &Vec<char>) -> (r: Vec<char>)
    ensures
        r@ == normalize_spacing(s@),
{
    let mut out: Vec<char> = Vec::new();
    let mut i: usize = 0;
    let mut dq = false;
    let mut sq = false;
    while i < s.len()
        invariant
            i <= s.len(),
            normalize_spacing(s@) == spacing_from(s@, i as int, out@, dq, sq),
        decreases s.len() - i,
    {
        let c = s[i];
        if is_opener_char(c) {
            out.push(c);
            i = skip_whitespace(s, i + 1);
        } else if is_whitespace_char(c) {
            if i + 1 < s.len() && (s[i + 1] == '"' || s[i + 1] == '\'') {
                match find_last_non_ws(&out) {
                    Some(l) => {
                        if !is_opener_char(l) {
                            if out.len() > 0 && !is_whitespace_char(out[out.len() - 1]) {
                                out.push(' ');
                            }
                        }
                    },
                    None => {},
                }
                i = i + 1;
            } else if out.len() > 0 && is_whitespace_char(out[out.len() - 1]) {
                i = i + 1;
            } else {
                out.push(' ');
                i = i + 1;
            }
        } else if c == '\'' && i + 1 < s.len() && is_alphanumeric_char(s[i + 1]) {
            out.push(c);
            i = i + 1;
        } else if c == '"' || c == '\'' {
            let open = if c == '"' { dq } else { sq };
            if !open {
                if out.len() > 0 && !is_whitespace_char(out[out.len() - 1]) && !is_opener_char(
                    out[out.len() - 1],
                ) {
                    out.push(' ');
                }
                out.push(c);
                if c == '"' {
                    dq = true;
                } else {
                    sq = true;
                }
                i = skip_whitespace(s, i + 1);
            } else {
                out.push(c);
                if c == '"' {
                    dq = false;
                } else {
                    sq = false;
                }
                let j = skip_whitespace(s, i + 1);
                if j < s.len() {
                    let nx = s[j];
                    if !is_whitespace_char(nx) && !is_tight_wide_char(nx) {
                        out.push(' ');
                    }
                }
                i = j;
            }
        } else {
            out.push(c);
            i = i + 1;
        }
    }
    out
}

} // verus!
