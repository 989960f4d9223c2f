//! The mathematical model of the search engine: substring matching, simple
//! lower-casing, line splitting, global replacement and decimal rendering,
//! all over sequences of characters.

use vstd::prelude::*;

verus! {

/// `pat` occurs in `text` starting at position `i`.
pub open spec fn match_at(text: Seq<char>, pat: Seq<char>, i: int) -> bool {
    &&& 0 <= i
    &&& i + pat.len() <= text.len()
    &&& text.subrange(i, i + pat.len() as int) == pat
}

/// `text` contains `pat` as a contiguous subsequence.
pub open spec fn contains_seq(text: Seq<char>, pat: Seq<char>) -> bool {
    exists|i: int| match_at(text, pat, i)
}

/// Position of the leftmost occurrence of `pat` in `text` at or after
/// position `i`, if there is one.
pub open spec fn first_match_from(text: Seq<char>, pat: Seq<char>, i: int) -> Option<int>
    decreases text.len() - i,
{
    if i + pat.len() > text.len() {
        None
    } else if pat.len() == 0 {
        Some(i)
    } else if text.subrange(i, i + pat.len() as int) == pat {
        Some(i)
    } else {
        first_match_from(text, pat, i + 1)
    }
}

/// Position of the leftmost occurrence of `pat` in `text`, if there is one.
pub open spec fn first_match(text: Seq<char>, pat: Seq<char>) -> Option<int> {
    first_match_from(text, pat, 0)
}

/// Simple-mapping lower-casing of one character: the ASCII uppercase letters
/// move to their lowercase counterparts, every other character is unchanged.
pub open spec fn lower_char(c: char) -> char {
    if 65 <= c as u32 && c as u32 <= 90 {
        (((c as u32) + 32) as u8) as char
    } else {
        c
    }
}

/// Pointwise lower-casing of a sequence of characters.
pub open spec fn lower_seq(s: Seq<char>) -> Seq<char> {
    s.map_values(|c: char| lower_char(c))
}

/// `s` lower-cased when `fold` is set, `s` itself otherwise.
pub open spec fn fold_case(s: Seq<char>, fold: bool) -> Seq<char> {
    if fold {
        lower_seq(s)
    } else {
        s
    }
}

/// Position of the first line break in `s`, or `s.len()` if there is none.
pub open spec fn first_newline(s: Seq<char>) -> int
    decreases s.len(),
{
    if s.len() == 0 {
        0
    } else if s[0] == '\n' {
        0
    } else {
        1 + first_newline(s.drop_first())
    }
}

/// `s` as a sequence of lines: the segments between line breaks, in order,
/// with a final line break optional (a trailing one opens no empty line).
pub open spec fn split_lines(s: Seq<char>) -> Seq<Seq<char>>
    decreases s.len(),
{
    if s.len() == 0 {
        Seq::empty()
    } else {
        let i = first_newline(s);
        if 0 <= i < s.len() {
            seq![s.subrange(0, i)] + split_lines(s.subrange(i + 1, s.len() as int))
        } else {
            seq![s]
        }
    }
}

/// The line is kept by the case-sensitive filter: it contains the query.
pub open spec fn line_pred(q: Seq<char>) -> spec_fn(Seq<char>) -> bool {
    |l: Seq<char>| contains_seq(l, q)
}

/// The line is kept by the case-insensitive filter: lower-casing both the
/// line and the query yields containment.
pub open spec fn ci_line_pred(q: Seq<char>) -> spec_fn(Seq<char>) -> bool {
    |l: Seq<char>| contains_seq(lower_seq(l), lower_seq(q))
}

/// `s` wrapped in the highlight markers.
pub open spec fn wrap_markers(s: Seq<char>) -> Seq<char> {
    seq!['<', '<', '<'] + s + seq!['>', '>', '>']
}

/// Every occurrence of `pat` in `s` replaced by `rep`, leftmost first and
/// without overlap; an empty `pat` occurs before every character and at the
/// end, so `rep` is interleaved everywhere.
pub open spec fn replace_all(s: Seq<char>, pat: Seq<char>, rep: Seq<char>) -> Seq<char>
    decreases s.len(),
{
    if pat.len() == 0 {
        if s.len() == 0 {
            rep
        } else {
            rep + seq![s[0]] + replace_all(s.drop_first(), pat, rep)
        }
    } else if s.len() < pat.len() {
        s
    } else if s.subrange(0, pat.len() as int) == pat {
        rep + replace_all(s.skip(pat.len() as int), pat, rep)
    } else {
        seq![s[0]] + replace_all(s.drop_first(), pat, rep)
    }
}

/// The line as the marking search renders it: every occurrence of the query
/// replaced by the query wrapped in markers.
pub open spec fn mark_fn(q: Seq<char>) -> spec_fn(Seq<char>) -> Seq<char> {
    |l: Seq<char>| replace_all(l, q, wrap_markers(q))
}

/// What the case-sensitive search returns: the lines that contain the query,
/// in their original order.
pub open spec fn search_spec(q: Seq<char>, c: Seq<char>) -> Seq<Seq<char>> {
    split_lines(c).filter(line_pred(q))
}

/// What the case-insensitive search returns: the original text of the lines
/// whose lower-cased form contains the lower-cased query, in order.
pub open spec fn search_ci_spec(q: Seq<char>, c: Seq<char>) -> Seq<Seq<char>> {
    split_lines(c).filter(ci_line_pred(q))
}

/// What the marking search returns: the matching lines, each with every
/// occurrence of the query replaced by the query in markers.
pub open spec fn search_mark_spec(q: Seq<char>, c: Seq<char>) -> Seq<Seq<char>> {
    search_spec(q, c).map_values(mark_fn(q))
}

/// The decimal digit characters.
pub open spec fn digit_char(d: nat) -> char {
    if d == 0 {
        '0'
    } else if d == 1 {
        '1'
    } else if d == 2 {
        '2'
    } else if d == 3 {
        '3'
    } else if d == 4 {
        '4'
    } else if d == 5 {
        '5'
    } else if d == 6 {
        '6'
    } else if d == 7 {
        '7'
    } else if d == 8 {
        '8'
    } else {
        '9'
    }
}

/// `n` rendered in decimal, most significant digit first, no leading zeros
/// (except for `n == 0` itself).
pub open spec fn dec_digits(n: nat) -> Seq<char>
    decreases n,
{
    if n < 10 {
        seq![digit_char(n)]
    } else {
        dec_digits(n / 10) + seq![digit_char(n % 10)]
    }
}

/// Line `line` with its zero-based index `i` prefixed as `"<i>:"`.
pub open spec fn annotate(i: nat, line: Seq<char>) -> Seq<char> {
    dec_digits(i) + seq![':'] + line
}

/// `ann` with the span of length `plen` starting at `s` wrapped in markers.
pub open spec fn highlight_at(ann: Seq<char>, s: int, plen: int) -> Seq<char> {
    ann.subrange(0, s) + wrap_markers(ann.subrange(s, s + plen)) + ann.subrange(
        s + plen,
        ann.len() as int,
    )
}

/// What the comprehensive search makes of one line: the annotated line with
/// the first matched span highlighted, or nothing when the query (folded when
/// `ci` is set) does not occur in the folded annotated line.
pub open spec fn comp_entry(q: Seq<char>, ci: bool, i: nat, line: Seq<char>) -> Option<Seq<char>> {
    let ann = annotate(i, line);
    match first_match(fold_case(ann, ci), fold_case(q, ci)) {
        Some(s) => Some(highlight_at(ann, s, q.len() as int)),
        None => None,
    }
}

/// The comprehensive search over a run of lines whose first line has index
/// `i0`: one entry per matching line, in line order.
pub open spec fn comp_lines(q: Seq<char>, ci: bool, lines: Seq<Seq<char>>, i0: nat) -> Seq<
    Seq<char>,
>
    decreases lines.len(),
{
    if lines.len() == 0 {
        Seq::empty()
    } else {
        let rest = comp_lines(q, ci, lines.drop_first(), i0 + 1);
        match comp_entry(q, ci, i0, lines[0]) {
            Some(e) => seq![e] + rest,
            None => rest,
        }
    }
}

/// What the comprehensive search returns for a whole text.
pub open spec fn search_comprehensive_spec(q: Seq<char>, c: Seq<char>, ci: bool) -> Seq<Seq<char>> {
    comp_lines(q, ci, split_lines(c), 0)
}

/// `first_newline` points at the first line break: everything before it is
/// another character, and it is a line break unless the sequence has none.
pub proof fn lemma_first_newline(s: Seq<char>)
    ensures
        0 <= first_newline(s) <= s.len(),
        forall|k: int| 0 <= k < first_newline(s) ==> s[k] != '\n',
        first_newline(s) < s.len() ==> s[first_newline(s)] == '\n',
    decreases s.len(),
{
    if s.len() == 0 {
    } else if s[0] == '\n' {
    } else {
        lemma_first_newline(s.drop_first());
        assert forall|k: int| 0 <= k < first_newline(s) implies s[k] != '\n' by {
            if k >= 1 {
                assert(s.drop_first()[k - 1] != '\n');
            }
        }
    }
}

/// A found position is the leftmost occurrence at or after `i`; where none is
/// found, there is no occurrence at or after `i` at all.
proof fn lemma_first_match_from(text: Seq<char>, pat: Seq<char>, i: int)
    requires
        0 <= i,
    ensures
        match first_match_from(text, pat, i) {
            Some(m) => i <= m && match_at(text, pat, m) && (forall|j: int|
                i <= j < m ==> !match_at(text, pat, j)),
            None => forall|j: int| i <= j ==> !match_at(text, pat, j),
        },
    decreases text.len() - i,
{
    if i + pat.len() > text.len() {
    } else if pat.len() == 0 {
        assert(text.subrange(i, i) =~= pat);
    } else if text.subrange(i, i + pat.len() as int) == pat {
    } else {
        lemma_first_match_from(text, pat, i + 1);
    }
}

/// The leftmost occurrence is an occurrence, and nothing to its left is one;
/// where there is no leftmost occurrence there is no occurrence at all.
pub proof fn lemma_first_match(text: Seq<char>, pat: Seq<char>)
    ensures
        match first_match(text, pat) {
            Some(m) => 0 <= m && match_at(text, pat, m) && (forall|j: int|
                0 <= j < m ==> !match_at(text, pat, j)),
            None => forall|j: int| !match_at(text, pat, j),
        },
{
    lemma_first_match_from(text, pat, 0);
}

} // verus!
