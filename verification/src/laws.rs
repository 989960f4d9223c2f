//! The laws the search engine obeys, stated over the model and proved once
//! and for all.

use vstd::prelude::*;

use crate::text::annotate;
use crate::text::ci_line_pred;
use crate::text::comp_entry;
use crate::text::comp_lines;
use crate::text::contains_seq;
use crate::text::dec_digits;
use crate::text::digit_char;
use crate::text::first_match;
use crate::text::fold_case;
use crate::text::highlight_at;
use crate::text::lemma_first_match;
use crate::text::line_pred;
use crate::text::lower_char;
use crate::text::lower_seq;
use crate::text::match_at;
use crate::text::replace_all;
use crate::text::search_ci_spec;
use crate::text::search_comprehensive_spec;
use crate::text::search_mark_spec;
use crate::text::search_spec;
use crate::text::split_lines;
use crate::text::wrap_markers;

verus! {

/// A filter keeps exactly the elements its predicate admits.
proof fn lemma_filter_subset<A>(s: Seq<A>, pred: spec_fn(A) -> bool)
    ensures
        forall|x: A| #[trigger] s.filter(pred).contains(x) ==> s.contains(x),
    decreases s.len(),
{
    reveal(Seq::filter);
    if s.len() == 0 {
    } else {
        lemma_filter_subset(s.drop_last(), pred);
        assert forall|x: A| #[trigger] s.filter(pred).contains(x) implies s.contains(x) by {
            if s.drop_last().filter(pred).contains(x) {
                let i = choose|i: int|
                    0 <= i < s.drop_last().len() && s.drop_last()[i] == x;
                assert(s[i] == x);
            } else {
                assert(x == s.last());
            }
        }
    }
}

/// A filter whose predicate admits every element changes nothing.
proof fn lemma_filter_all<A>(s: Seq<A>, pred: spec_fn(A) -> bool)
    requires
        forall|i: int| 0 <= i < s.len() ==> pred(#[trigger] s[i]),
    ensures
        s.filter(pred) == s,
    decreases s.len(),
{
    reveal(Seq::filter);
    if s.len() == 0 {
        assert(s.filter(pred) =~= s);
    } else {
        assert(forall|i: int|
            0 <= i < s.drop_last().len() ==> pred(#[trigger] s.drop_last()[i]));
        lemma_filter_all(s.drop_last(), pred);
        assert(pred(s.last()));
        assert(s.filter(pred) =~= s);
    }
}

/// The plain search returns exactly the lines that contain the query: every
/// returned line contains it, and every line of the content that contains it
/// is returned.
pub proof fn lemma_search_exact(q: Seq<char>, c: Seq<char>)
    ensures
        forall|i: int|
            0 <= i < search_spec(q, c).len() ==> contains_seq(
                #[trigger] search_spec(q, c)[i],
                q,
            ),
        forall|x: Seq<char>| #[trigger] search_spec(q, c).contains(x) ==> split_lines(c).contains(
            x,
        ),
        forall|j: int|
            0 <= j < split_lines(c).len() && contains_seq(#[trigger] split_lines(c)[j], q)
                ==> search_spec(q, c).contains(split_lines(c)[j]),
{
    let lv = split_lines(c);
    let pred = line_pred(q);
    lemma_filter_subset(lv, pred);
    assert forall|i: int| 0 <= i < search_spec(q, c).len() implies contains_seq(
        #[trigger] search_spec(q, c)[i],
        q,
    ) by {
        lv.lemma_filter_pred(pred, i);
    }
    assert forall|j: int|
        0 <= j < lv.len() && contains_seq(#[trigger] lv[j], q) implies search_spec(
        q,
        c,
    ).contains(lv[j]) by {
        lv.lemma_filter_contains(pred, j);
    }
}

/// The case-insensitive search returns exactly the lines whose lower-cased
/// text contains the lower-cased query, and it returns them as they stand in
/// the content, original casing included.
pub proof fn lemma_search_case_insensitive_exact(q: Seq<char>, c: Seq<char>)
    ensures
        forall|i: int|
            0 <= i < search_ci_spec(q, c).len() ==> contains_seq(
                lower_seq(#[trigger] search_ci_spec(q, c)[i]),
                lower_seq(q),
            ),
        forall|x: Seq<char>| #[trigger] search_ci_spec(q, c).contains(x) ==> split_lines(
            c,
        ).contains(x),
        forall|j: int|
            0 <= j < split_lines(c).len() && contains_seq(
                lower_seq(#[trigger] split_lines(c)[j]),
                lower_seq(q),
            ) ==> search_ci_spec(q, c).contains(split_lines(c)[j]),
{
    let lv = split_lines(c);
    let pred = ci_line_pred(q);
    lemma_filter_subset(lv, pred);
    assert forall|i: int| 0 <= i < search_ci_spec(q, c).len() implies contains_seq(
        lower_seq(#[trigger] search_ci_spec(q, c)[i]),
        lower_seq(q),
    ) by {
        lv.lemma_filter_pred(pred, i);
    }
    assert forall|j: int|
        0 <= j < lv.len() && contains_seq(lower_seq(#[trigger] lv[j]), lower_seq(q))
        implies search_ci_spec(q, c).contains(lv[j]) by {
        lv.lemma_filter_contains(pred, j);
    }
}

/// The marking search returns one entry per line the plain search returns, in
/// the same order, each the plain line with every occurrence of the query
/// replaced by the query wrapped in markers.
pub proof fn lemma_mark_matches_search(q: Seq<char>, c: Seq<char>)
    ensures
        search_mark_spec(q, c).len() == search_spec(q, c).len(),
        forall|i: int|
            0 <= i < search_spec(q, c).len() ==> search_mark_spec(q, c)[i] == replace_all(
                #[trigger] search_spec(q, c)[i],
                q,
                wrap_markers(q),
            ),
{
}

/// Searching is deterministic: any two results of the same search on the same
/// query and contents are equal, so re-running a search yields identical
/// output.
pub proof fn lemma_search_deterministic(
    q: Seq<char>,
    c: Seq<char>,
    ci: bool,
    r1: Seq<Seq<char>>,
    r2: Seq<Seq<char>>,
)
    ensures
        r1 == search_spec(q, c) && r2 == search_spec(q, c) ==> r1 == r2,
        r1 == search_ci_spec(q, c) && r2 == search_ci_spec(q, c) ==> r1 == r2,
        r1 == search_mark_spec(q, c) && r2 == search_mark_spec(q, c) ==> r1 == r2,
        r1 == search_comprehensive_spec(q, c, ci) && r2 == search_comprehensive_spec(q, c, ci)
            ==> r1 == r2,
{
}

/// An empty query matches every line: the plain and the case-insensitive
/// filters return the whole content, line by line.
pub proof fn lemma_empty_query_matches_every_line(q: Seq<char>, c: Seq<char>)
    requires
        q.len() == 0,
    ensures
        search_spec(q, c) == split_lines(c),
        search_ci_spec(q, c) == split_lines(c),
{
    let lv = split_lines(c);
    assert forall|i: int| 0 <= i < lv.len() implies line_pred(q)(#[trigger] lv[i]) by {
        assert(lv[i].subrange(0, 0) =~= q);
        assert(match_at(lv[i], q, 0));
    }
    assert forall|i: int| 0 <= i < lv.len() implies ci_line_pred(q)(#[trigger] lv[i]) by {
        assert(lower_seq(lv[i]).subrange(0, 0) =~= lower_seq(q));
        assert(match_at(lower_seq(lv[i]), lower_seq(q), 0));
    }
    lemma_filter_all(lv, line_pred(q));
    lemma_filter_all(lv, ci_line_pred(q));
}

/// Whether `c` is a character that can occur in the `"<i>:"` prefix of an
/// annotated line: a decimal digit or the colon.
pub open spec fn index_prefix_char(c: char) -> bool {
    c == ':' || exists|d: nat| d < 10 && c == digit_char(d)
}

/// The original line index of each entry the comprehensive search emits, in
/// emission order.
pub open spec fn comp_indices(q: Seq<char>, ci: bool, lines: Seq<Seq<char>>, i0: nat) -> Seq<int>
    decreases lines.len(),
{
    if lines.len() == 0 {
        Seq::empty()
    } else {
        let rest = comp_indices(q, ci, lines.drop_first(), i0 + 1);
        if comp_entry(q, ci, i0, lines[0]) is Some {
            seq![i0 as int] + rest
        } else {
            rest
        }
    }
}

/// Every character of a decimal rendering is a digit, and the rendering is
/// never empty.
proof fn lemma_dec_digits_prefix_chars(n: nat)
    ensures
        dec_digits(n).len() >= 1,
        forall|k: int|
            0 <= k < dec_digits(n).len() ==> index_prefix_char(#[trigger] dec_digits(n)[k]),
    decreases n,
{
    if n < 10 {
        assert(index_prefix_char(digit_char(n)));
    } else {
        lemma_dec_digits_prefix_chars(n / 10);
        assert(index_prefix_char(digit_char(n % 10)));
        assert forall|k: int| 0 <= k < dec_digits(n).len() implies index_prefix_char(
            #[trigger] dec_digits(n)[k],
        ) by {
            if k < dec_digits(n / 10).len() {
                assert(dec_digits(n)[k] == dec_digits(n / 10)[k]);
            } else {
                assert(dec_digits(n)[k] == digit_char(n % 10));
            }
        }
    }
}

/// Digits and the colon are not uppercase letters, so lower-casing leaves
/// them alone.
proof fn lemma_fold_prefix_char(c: char)
    requires
        index_prefix_char(c),
    ensures
        lower_char(c) == c,
{
    if c != ':' {
        let d = choose|d: nat| d < 10 && c == digit_char(d);
        assert(c == digit_char(d));
    }
}

/// Where the query's first character (case-folded as the search folds it)
/// can stand nowhere in an index prefix, a comprehensive entry's match starts
/// after the prefix, so the entry begins with the annotated index and colon
/// untouched.
proof fn lemma_comp_entry_prefix(q: Seq<char>, ci: bool, i: nat, line: Seq<char>)
    requires
        q.len() > 0,
        !index_prefix_char(fold_case(q, ci)[0]),
        comp_entry(q, ci, i, line) is Some,
    ensures
        ({
            let e = comp_entry(q, ci, i, line)->Some_0;
            let p = dec_digits(i).len() + 1;
            e.len() >= p && e.subrange(0, p as int) == dec_digits(i) + seq![':']
        }),
{
    let ann = annotate(i, line);
    let fa = fold_case(ann, ci);
    let fq = fold_case(q, ci);
    let p = dec_digits(i).len() + 1;
    lemma_first_match(fa, fq);
    let s = first_match(fa, fq)->Some_0;
    assert(match_at(fa, fq, s));
    assert(fa.len() == ann.len());
    assert(fq.len() == q.len());
    lemma_dec_digits_prefix_chars(i);
    if s < p {
        assert(fa.subrange(s, s + fq.len() as int)[0] == fa[s]);
        assert(fq[0] == fa[s]);
        if s < dec_digits(i).len() {
            assert(ann[s] == dec_digits(i)[s]);
        } else {
            assert(ann[s] == ':');
        }
        assert(index_prefix_char(ann[s]));
        lemma_fold_prefix_char(ann[s]);
        if ci {
            assert(fa[s] == lower_char(ann[s]));
        }
        assert(index_prefix_char(fq[0]));
        if ci {
            assert(fq[0] == lower_char(q[0]));
        }
        assert(false);
    }
    let e = comp_entry(q, ci, i, line)->Some_0;
    assert(e == highlight_at(ann, s, q.len() as int));
    assert forall|k: int| 0 <= k < p implies e[k] == (dec_digits(i) + seq![':'])[k] by {
        assert(e[k] == ann.subrange(0, s)[k]);
        assert(ann[k] == (dec_digits(i) + seq![':'])[k]);
    }
    assert(e.subrange(0, p as int) =~= dec_digits(i) + seq![':']);
}

/// Over any run of lines the comprehensive entries carry one line index each,
/// at or after the first index, strictly increasing, and each entry begins
/// with its own index rendered in decimal and a colon — provided the query's
/// folded first character is no digit and no colon.
pub proof fn lemma_comp_lines_index_stable(q: Seq<char>, ci: bool, lines: Seq<Seq<char>>, i0: nat)
    requires
        q.len() > 0,
        !index_prefix_char(fold_case(q, ci)[0]),
    ensures
        comp_lines(q, ci, lines, i0).len() == comp_indices(q, ci, lines, i0).len(),
        forall|k: int|
            0 <= k < comp_indices(q, ci, lines, i0).len() ==> i0 <= #[trigger] comp_indices(
                q,
                ci,
                lines,
                i0,
            )[k],
        forall|k1: int, k2: int|
            #![trigger comp_indices(q, ci, lines, i0)[k1], comp_indices(q, ci, lines, i0)[k2]]
            0 <= k1 < k2 < comp_indices(q, ci, lines, i0).len() ==> comp_indices(
                q,
                ci,
                lines,
                i0,
            )[k1] < comp_indices(q, ci, lines, i0)[k2],
        forall|k: int|
            0 <= k < comp_lines(q, ci, lines, i0).len() ==> ({
                let e = #[trigger] comp_lines(q, ci, lines, i0)[k];
                let m = comp_indices(q, ci, lines, i0)[k] as nat;
                let p = dec_digits(m).len() + 1;
                e.len() >= p && e.subrange(0, p as int) == dec_digits(m) + seq![':']
            }),
    decreases lines.len(),
{
    if lines.len() == 0 {
    } else {
        lemma_comp_lines_index_stable(q, ci, lines.drop_first(), i0 + 1);
        let entries = comp_lines(q, ci, lines, i0);
        let indices = comp_indices(q, ci, lines, i0);
        let rest_e = comp_lines(q, ci, lines.drop_first(), i0 + 1);
        let rest_i = comp_indices(q, ci, lines.drop_first(), i0 + 1);
        if comp_entry(q, ci, i0, lines[0]) is Some {
            lemma_comp_entry_prefix(q, ci, i0, lines[0]);
            assert(entries == seq![comp_entry(q, ci, i0, lines[0])->Some_0] + rest_e);
            assert(indices == seq![i0 as int] + rest_i);
            assert forall|k: int| 0 <= k < entries.len() implies ({
                let e = #[trigger] entries[k];
                let m = indices[k] as nat;
                let p = dec_digits(m).len() + 1;
                e.len() >= p && e.subrange(0, p as int) == dec_digits(m) + seq![':']
            }) by {
                if k >= 1 {
                    assert(entries[k] == rest_e[k - 1]);
                    assert(indices[k] == rest_i[k - 1]);
                }
            }
        }
    }
}

/// The comprehensive search is index-stable: each result entry begins with
/// the decimal zero-based index of the content line it came from, a colon
/// following, and those indices increase strictly across the result — for any
/// query whose folded first character is neither a digit nor a colon (a query
/// that can match inside the index prefix itself is exempt).
pub proof fn lemma_comprehensive_index_stable(q: Seq<char>, c: Seq<char>, ci: bool)
    requires
        q.len() > 0,
        !index_prefix_char(fold_case(q, ci)[0]),
    ensures
        search_comprehensive_spec(q, c, ci).len() == comp_indices(q, ci, split_lines(c), 0).len(),
        forall|k: int|
            0 <= k < comp_indices(q, ci, split_lines(c), 0).len() ==> 0 <= #[trigger] comp_indices(
                q,
                ci,
                split_lines(c),
                0,
            )[k],
        forall|k1: int, k2: int|
            #![trigger comp_indices(q, ci, split_lines(c), 0)[k1], comp_indices(q, ci, split_lines(c), 0)[k2]]
            0 <= k1 < k2 < comp_indices(q, ci, split_lines(c), 0).len() ==> comp_indices(
                q,
                ci,
                split_lines(c),
                0,
            )[k1] < comp_indices(q, ci, split_lines(c), 0)[k2],
        forall|k: int|
            0 <= k < search_comprehensive_spec(q, c, ci).len() ==> ({
                let e = #[trigger] search_comprehensive_spec(q, c, ci)[k];
                let m = comp_indices(q, ci, split_lines(c), 0)[k] as nat;
                let p = dec_digits(m).len() + 1;
                e.len() >= p && e.subrange(0, p as int) == dec_digits(m) + seq![':']
            }),
{
    lemma_comp_lines_index_stable(q, ci, split_lines(c), 0);
}

/// With an empty query the comprehensive search keeps every line and wraps an
/// empty span at the very start of each annotated line.
proof fn lemma_empty_query_comp_lines(q: Seq<char>, ci: bool, lines: Seq<Seq<char>>, i0: nat)
    requires
        q.len() == 0,
    ensures
        comp_lines(q, ci, lines, i0).len() == lines.len(),
        forall|k: int|
            0 <= k < lines.len() ==> comp_lines(q, ci, lines, i0)[k] == wrap_markers(
                Seq::empty(),
            ) + annotate((i0 + k) as nat, #[trigger] lines[k]),
    decreases lines.len(),
{
    if lines.len() == 0 {
    } else {
        lemma_empty_query_comp_lines(q, ci, lines.drop_first(), i0 + 1);
        let ann = annotate(i0, lines[0]);
        let fa = fold_case(ann, ci);
        let fq = fold_case(q, ci);
        assert(fq.len() == 0);
        assert(first_match(fa, fq) == Some(0int));
        let e = comp_entry(q, ci, i0, lines[0])->Some_0;
        assert(e =~= wrap_markers(Seq::empty()) + ann);
        assert forall|k: int| 0 <= k < lines.len() implies comp_lines(q, ci, lines, i0)[k]
            == wrap_markers(Seq::empty()) + annotate((i0 + k) as nat, #[trigger] lines[k]) by {
            if k >= 1 {
                assert(lines.drop_first()[k - 1] == lines[k]);
                assert(comp_lines(q, ci, lines, i0)[k] == comp_lines(
                    q,
                    ci,
                    lines.drop_first(),
                    i0 + 1,
                )[k - 1]);
            }
        }
    }
}

/// With an empty query the comprehensive search emits every line of the
/// content, each as the markers around an empty span followed by the
/// annotated line.
pub proof fn lemma_empty_query_comprehensive(q: Seq<char>, c: Seq<char>, ci: bool)
    requires
        q.len() == 0,
    ensures
        search_comprehensive_spec(q, c, ci).len() == split_lines(c).len(),
        forall|k: int|
            0 <= k < split_lines(c).len() ==> search_comprehensive_spec(q, c, ci)[k]
                == wrap_markers(Seq::empty()) + annotate(k as nat, #[trigger] split_lines(c)[k]),
{
    lemma_empty_query_comp_lines(q, ci, split_lines(c), 0);
}

} // verus!
