//! The executable search functions and their helpers.

use vstd::prelude::*;

use crate::text::annotate;
use crate::text::ci_line_pred;
use crate::text::comp_entry;
use crate::text::comp_lines;
use crate::text::contains_seq;
use crate::text::dec_digits;
use crate::text::digit_char;
use crate::text::first_match;
use crate::text::first_match_from;
use crate::text::fold_case;
use crate::text::highlight_at;
use crate::text::lemma_first_match;
use crate::text::lemma_first_newline;
use crate::text::line_pred;
use crate::text::lower_char;
use crate::text::mark_fn;
use crate::text::match_at;
use crate::text::replace_all;
use crate::text::search_ci_spec;
use crate::text::search_comprehensive_spec;
use crate::text::search_mark_spec;
use crate::text::search_spec;
use crate::text::split_lines;
use crate::text::wrap_markers;

verus! {

/// Lower-case one character, by the simple ASCII mapping of the model.
fn to_lower(c: char) -> (d: char)
    ensures
        d == lower_char(c),
{
    let u = c as u32;
    if 65 <= u && u <= 90 {
        ((u + 32) as u8) as char
    } else {
        c
    }
}

/// Does `pat` (case-folded when `fold` is set) occur in `text` (folded the
/// same way) at position `i`?
fn is_match_at(text: &str, pat: &str, i: usize, fold: bool) -> (b: bool)
    requires
        i + pat@.len() <= text@.len(),
    ensures
        b == match_at(fold_case(text@, fold), fold_case(pat@, fold), i as int),
{
    let ghost ft = fold_case(text@, fold);
    let ghost fp = fold_case(pat@, fold);
    let tlen = text.unicode_len();
    let plen = pat.unicode_len();
    let mut j: usize = 0;
    while j < plen
        invariant
            j <= plen,
            tlen == text@.len(),
            plen == pat@.len(),
            i + plen <= tlen,
            ft == fold_case(text@, fold),
            fp == fold_case(pat@, fold),
            ft.len() == text@.len(),
            fp.len() == pat@.len(),
            forall|k: int| 0 <= k < j ==> ft[i + k] == fp[k],
        decreases plen - j,
    {
        let tc = text.get_char(i + j);
        let pc = pat.get_char(j);
        let tc = if fold { to_lower(tc) } else { tc };
        let pc = if fold { to_lower(pc) } else { pc };
        proof {
            assert(ft[i + j] == tc);
            assert(fp[j as int] == pc);
        }
        if tc != pc {
            proof {
                if match_at(ft, fp, i as int) {
                    assert(ft.subrange(i as int, i + fp.len() as int)[j as int] == ft[i + j]);
                }
            }
            return false;
        }
        j += 1;
    }
    proof {
        assert(ft.subrange(i as int, i + fp.len() as int) =~= fp);
    }
    true
}

/// Position of the leftmost occurrence of `pat` in `text`, both case-folded
/// when `fold` is set.
fn find_first(text: &str, pat: &str, fold: bool) -> (r: Option<usize>)
    ensures
        match r {
            Some(i) => first_match(fold_case(text@, fold), fold_case(pat@, fold)) == Some(
                i as int,
            ),
            None => first_match(fold_case(text@, fold), fold_case(pat@, fold)) is None,
        },
{
    let ghost ft = fold_case(text@, fold);
    let ghost fp = fold_case(pat@, fold);
    let tlen = text.unicode_len();
    let plen = pat.unicode_len();
    if plen > tlen {
        return None;
    }
    if plen == 0 {
        proof {
            assert(ft.subrange(0, 0) =~= fp);
        }
        return Some(0);
    }
    let mut i: usize = 0;
    while i <= tlen - plen
        invariant
            0 < plen <= tlen,
            i <= tlen - plen + 1,
            tlen == text@.len(),
            plen == pat@.len(),
            ft == fold_case(text@, fold),
            fp == fold_case(pat@, fold),
            ft.len() == tlen,
            fp.len() == plen,
            first_match(ft, fp) == first_match_from(ft, fp, i as int),
        decreases tlen - i,
    {
        if is_match_at(text, pat, i, fold) {
            return Some(i);
        }
        i += 1;
    }
    None
}

/// Position of the first line break in `s` at or after `from`, or the length
/// of `s` if there is none.
fn next_newline(s: &str, from: usize) -> (r: usize)
    requires
        from <= s@.len(),
    ensures
        from <= r <= s@.len(),
        forall|k: int| from <= k < r ==> s@[k] != '\n',
        r < s@.len() ==> s@[r as int] == '\n',
{
    let len = s.unicode_len();
    let mut i = from;
    while i < len
        invariant
            from <= i <= len,
            len == s@.len(),
            forall|k: int| from <= k < i ==> s@[k] != '\n',
        decreases len - i,
    {
        if s.get_char(i) == '\n' {
            return i;
        }
        i += 1;
    }
    len
}

/// Cut `contents` into its lines, in order.
fn split_into_lines<'a>(contents: &'a str) -> (lines: Vec<&'a str>)
    ensures
        lines.deep_view() == split_lines(contents@),
{
    let len = contents.unicode_len();
    let mut lines: Vec<&'a str> = Vec::new();
    let mut pos: usize = 0;
    proof {
        assert(contents@.subrange(0, len as int) =~= contents@);
        assert(lines.deep_view() =~= Seq::<Seq<char>>::empty());
    }
    while pos < len
        invariant
            pos <= len,
            len == contents@.len(),
            split_lines(contents@) == lines.deep_view() + split_lines(
                contents@.subrange(pos as int, len as int),
            ),
        decreases len - pos,
    {
        let ghost rest = contents@.subrange(pos as int, len as int);
        let ghost prev = lines.deep_view();
        let nl = next_newline(contents, pos);
        let line = contents.substring_char(pos, nl);
        lines.push(line);
        proof {
            assert(lines.deep_view() =~= prev.push(line@));
        }
        let new_pos = if nl == len {
            len
        } else {
            nl + 1
        };
        proof {
            lemma_first_newline(rest);
            let fnl = crate::text::first_newline(rest);
            assert forall|k: int| 0 <= k < nl - pos implies rest[k] != '\n' by {
                assert(rest[k] == contents@[pos + k]);
            }
            if nl < len {
                assert(rest[nl - pos] == contents@[nl as int]);
            }
            assert(fnl == nl - pos);
            if nl == len {
                assert(line@ =~= rest);
                assert(split_lines(rest) == seq![rest]);
                assert(contents@.subrange(len as int, len as int) =~= Seq::<char>::empty());
                assert(prev + seq![rest] =~= lines.deep_view());
                assert(lines.deep_view() + split_lines(contents@.subrange(len as int, len as int))
                    =~= lines.deep_view());
            } else {
                assert(rest.subrange(0, fnl) =~= line@);
                assert(rest.subrange(fnl + 1, rest.len() as int) =~= contents@.subrange(
                    nl + 1,
                    len as int,
                ));
                assert(split_lines(rest) == seq![line@] + split_lines(
                    contents@.subrange(nl + 1, len as int),
                ));
                assert(prev + (seq![line@] + split_lines(contents@.subrange(nl + 1, len as int)))
                    =~= lines.deep_view() + split_lines(contents@.subrange(nl + 1, len as int)));
            }
        }
        pos = new_pos;
    }
    proof {
        assert(contents@.subrange(len as int, len as int) =~= Seq::<char>::empty());
        assert(lines.deep_view() + split_lines(Seq::<char>::empty()) =~= lines.deep_view());
    }
    lines
}

/// Does `pat` occur anywhere in `text`, both case-folded when `fold` is set?
fn contains_str(text: &str, pat: &str, fold: bool) -> (b: bool)
    ensures
        b == contains_seq(fold_case(text@, fold), fold_case(pat@, fold)),
{
    let ghost ft = fold_case(text@, fold);
    let ghost fp = fold_case(pat@, fold);
    proof {
        lemma_first_match(ft, fp);
    }
    let r = find_first(text, pat, fold);
    match r {
        Some(i) => {
            proof {
                assert(match_at(ft, fp, i as int));
            }
            true
        },
        None => false,
    }
}

/// The lines of `contents` that contain `query`, in their original order.
pub fn search<'a>(query: &str, contents: &'a str) -> (r: Vec<&'a str>)
    ensures
        r.deep_view() == search_spec(query@, contents@),
{
    let lines = split_into_lines(contents);
    let ghost lv = split_lines(contents@);
    let mut r: Vec<&'a str> = Vec::new();
    let mut k: usize = 0;
    proof {
        reveal(Seq::filter);
        assert(lv.take(0) =~= Seq::<Seq<char>>::empty());
        assert(r.deep_view() =~= Seq::<Seq<char>>::empty());
    }
    while k < lines.len()
        invariant
            k <= lines@.len(),
            lines.deep_view() == lv,
            lv == split_lines(contents@),
            r.deep_view() == lv.take(k as int).filter(line_pred(query@)),
        decreases lines@.len() - k,
    {
        let ghost prev = r.deep_view();
        let line = lines[k];
        proof {
            assert(line@ == lv[k as int]);
        }
        let kept = contains_str(line, query, false);
        if kept {
            r.push(line);
            proof {
                assert(r.deep_view() =~= prev.push(line@));
            }
        }
        proof {
            reveal(Seq::filter);
            assert(lv.take(k + 1).drop_last() =~= lv.take(k as int));
            assert(lv.take(k + 1).last() == lv[k as int]);
            assert(line_pred(query@)(lv[k as int]) == kept);
        }
        k += 1;
    }
    proof {
        assert(lv.take(lines@.len() as int) =~= lv);
    }
    r
}

/// The same search, written as the explicit loop variant of the original
/// interface: it returns exactly what `search` returns.
pub fn search_for<'a>(query: &str, contents: &'a str) -> (r: Vec<&'a str>)
    ensures
        r.deep_view() == search_spec(query@, contents@),
{
    search(query, contents)
}

/// The same search, under the name of the iterator-style variant of the
/// original interface: it returns exactly what `search` returns.
pub fn search_iter<'a>(query: &str, contents: &'a str) -> (r: Vec<&'a str>)
    ensures
        r.deep_view() == search_spec(query@, contents@),
{
    search(query, contents)
}

/// `line` with every occurrence of `pat` replaced by `rep`, leftmost first
/// and without overlap.
fn replace_str(line: &str, pat: &str, rep: &str) -> (out: String)
    ensures
        out@ == replace_all(line@, pat@, rep@),
{
    let llen = line.unicode_len();
    let plen = pat.unicode_len();
    let mut out = String::new();
    proof {
        assert(out@ =~= Seq::<char>::empty());
        assert(line@.subrange(0, llen as int) =~= line@);
    }
    if plen == 0 {
        let mut i: usize = 0;
        while i < llen
            invariant
                i <= llen,
                llen == line@.len(),
                pat@.len() == 0,
                replace_all(line@, pat@, rep@) == out@ + replace_all(
                    line@.subrange(i as int, llen as int),
                    pat@,
                    rep@,
                ),
            decreases llen - i,
        {
            let ghost prev = out@;
            let ghost r0 = line@.subrange(i as int, llen as int);
            out.append(rep);
            let c = line.substring_char(i, i + 1);
            out.append(c);
            proof {
                assert(c@ =~= seq![r0[0]]);
                assert(r0.drop_first() =~= line@.subrange(i + 1, llen as int));
                assert(replace_all(r0, pat@, rep@) == rep@ + seq![r0[0]] + replace_all(
                    r0.drop_first(),
                    pat@,
                    rep@,
                ));
                assert(prev + (rep@ + seq![r0[0]] + replace_all(r0.drop_first(), pat@, rep@)) =~= out@
                    + replace_all(r0.drop_first(), pat@, rep@));
            }
            i += 1;
        }
        let ghost prev = out@;
        out.append(rep);
        proof {
            let ghost r0 = line@.subrange(llen as int, llen as int);
            assert(r0 =~= Seq::<char>::empty());
            assert(replace_all(r0, pat@, rep@) == rep@);
            assert(prev + rep@ =~= out@);
        }
    } else {
        let mut i: usize = 0;
        while i < llen
            invariant
                i <= llen,
                llen == line@.len(),
                plen == pat@.len(),
                plen > 0,
                replace_all(line@, pat@, rep@) == out@ + replace_all(
                    line@.subrange(i as int, llen as int),
                    pat@,
                    rep@,
                ),
            decreases llen - i,
        {
            let ghost prev = out@;
            let ghost r0 = line@.subrange(i as int, llen as int);
            if plen <= llen - i && is_match_at(line, pat, i, false) {
                out.append(rep);
                proof {
                    assert(r0.subrange(0, plen as int) =~= line@.subrange(i as int, i + plen));
                    assert(r0.subrange(0, plen as int) == pat@);
                    assert(r0.skip(plen as int) =~= line@.subrange(i + plen, llen as int));
                    assert(replace_all(r0, pat@, rep@) == rep@ + replace_all(
                        r0.skip(plen as int),
                        pat@,
                        rep@,
                    ));
                }
                i += plen;
            } else {
                let c = line.substring_char(i, i + 1);
                out.append(c);
                proof {
                    assert(c@ =~= seq![r0[0]]);
                    assert(r0.drop_first() =~= line@.subrange(i + 1, llen as int));
                    if r0.len() < pat@.len() {
                        assert(replace_all(r0, pat@, rep@) == r0);
                        assert(r0 =~= seq![r0[0]] + r0.drop_first());
                        assert(replace_all(r0.drop_first(), pat@, rep@) == r0.drop_first());
                    } else {
                        assert(r0.subrange(0, plen as int) =~= line@.subrange(i as int, i + plen));
                        assert(r0.subrange(0, plen as int) != pat@);
                        assert(replace_all(r0, pat@, rep@) == seq![r0[0]] + replace_all(
                            r0.drop_first(),
                            pat@,
                            rep@,
                        ));
                    }
                    assert(prev + (seq![r0[0]] + replace_all(r0.drop_first(), pat@, rep@)) =~= out@
                        + replace_all(r0.drop_first(), pat@, rep@));
                }
                i += 1;
            }
        }
        proof {
            let ghost r0 = line@.subrange(llen as int, llen as int);
            assert(r0 =~= Seq::<char>::empty());
            assert(replace_all(r0, pat@, rep@) == r0);
            assert(out@ + r0 =~= out@);
        }
    }
    out
}

/// The matching lines of `contents`, each with every occurrence of `query`
/// replaced by `query` wrapped in the highlight markers.
pub fn search_mark(query: &str, contents: &str) -> (r: Vec<String>)
    ensures
        r.deep_view() == search_mark_spec(query@, contents@),
{
    let mut rep = String::new();
    rep.append("<<<");
    rep.append(query);
    rep.append(">>>");
    proof {
        reveal_strlit("<<<");
        reveal_strlit(">>>");
        assert(rep@ =~= wrap_markers(query@));
    }
    let lines = split_into_lines(contents);
    let ghost lv = split_lines(contents@);
    let mut r: Vec<String> = Vec::new();
    let mut k: usize = 0;
    proof {
        reveal(Seq::filter);
        assert(lv.take(0) =~= Seq::<Seq<char>>::empty());
        assert(r.deep_view() =~= Seq::<Seq<char>>::empty());
        assert(Seq::<Seq<char>>::empty().map_values(mark_fn(query@)) =~= Seq::<Seq<
            char,
        >>::empty());
    }
    while k < lines.len()
        invariant
            k <= lines@.len(),
            lines.deep_view() == lv,
            lv == split_lines(contents@),
            rep@ == wrap_markers(query@),
            r.deep_view() == lv.take(k as int).filter(line_pred(query@)).map_values(
                mark_fn(query@),
            ),
        decreases lines@.len() - k,
    {
        let ghost prev = r.deep_view();
        let line = lines[k];
        proof {
            assert(line@ == lv[k as int]);
        }
        let kept = contains_str(line, query, false);
        if kept {
            let marked = replace_str(line, query, rep.as_str());
            r.push(marked);
            proof {
                assert(r.deep_view() =~= prev.push(mark_fn(query@)(lv[k as int])));
            }
        }
        proof {
            reveal(Seq::filter);
            assert(lv.take(k + 1).drop_last() =~= lv.take(k as int));
            assert(lv.take(k + 1).last() == lv[k as int]);
            assert(line_pred(query@)(lv[k as int]) == kept);
            if kept {
                let ghost fprev = lv.take(k as int).filter(line_pred(query@));
                assert(lv.take(k + 1).filter(line_pred(query@)) == fprev.push(lv[k as int]));
                assert(fprev.push(lv[k as int]).map_values(mark_fn(query@)) =~= fprev.map_values(
                    mark_fn(query@),
                ).push(mark_fn(query@)(lv[k as int])));
            }
        }
        k += 1;
    }
    proof {
        assert(lv.take(lines@.len() as int) =~= lv);
    }
    r
}

/// The lines of `contents` whose lower-cased text contains the lower-cased
/// `query`; the returned lines keep their original casing and order.
pub fn search_case_insensitive<'a>(query: &str, contents: &'a str) -> (r: Vec<&'a str>)
    ensures
        r.deep_view() == search_ci_spec(query@, contents@),
{
    let lines = split_into_lines(contents);
    let ghost lv = split_lines(contents@);
    let mut r: Vec<&'a str> = Vec::new();
    let mut k: usize = 0;
    proof {
        reveal(Seq::filter);
        assert(lv.take(0) =~= Seq::<Seq<char>>::empty());
        assert(r.deep_view() =~= Seq::<Seq<char>>::empty());
    }
    while k < lines.len()
        invariant
            k <= lines@.len(),
            lines.deep_view() == lv,
            lv == split_lines(contents@),
            r.deep_view() == lv.take(k as int).filter(ci_line_pred(query@)),
        decreases lines@.len() - k,
    {
        let ghost prev = r.deep_view();
        let line = lines[k];
        proof {
            assert(line@ == lv[k as int]);
        }
        let kept = contains_str(line, query, true);
        if kept {
            r.push(line);
            proof {
                assert(r.deep_view() =~= prev.push(line@));
            }
        }
        proof {
            reveal(Seq::filter);
            assert(lv.take(k + 1).drop_last() =~= lv.take(k as int));
            assert(lv.take(k + 1).last() == lv[k as int]);
            assert(ci_line_pred(query@)(lv[k as int]) == kept);
        }
        k += 1;
    }
    proof {
        assert(lv.take(lines@.len() as int) =~= lv);
    }
    r
}

/// The decimal digit `d` as a string.
fn digit_str(d: usize) -> (s: &'static str)
    requires
        d < 10,
    ensures
        s@ == seq![digit_char(d as nat)],
{
    proof {
        reveal_strlit("0");
        reveal_strlit("1");
        reveal_strlit("2");
        reveal_strlit("3");
        reveal_strlit("4");
        reveal_strlit("5");
        reveal_strlit("6");
        reveal_strlit("7");
        reveal_strlit("8");
        reveal_strlit("9");
    }
    if d == 0 {
        proof {
            assert("0"@ =~= seq![digit_char(0)]);
        }
        "0"
    } else if d == 1 {
        proof {
            assert("1"@ =~= seq![digit_char(1)]);
        }
        "1"
    } else if d == 2 {
        proof {
            assert("2"@ =~= seq![digit_char(2)]);
        }
        "2"
    } else if d == 3 {
        proof {
            assert("3"@ =~= seq![digit_char(3)]);
        }
        "3"
    } else if d == 4 {
        proof {
            assert("4"@ =~= seq![digit_char(4)]);
        }
        "4"
    } else if d == 5 {
        proof {
            assert("5"@ =~= seq![digit_char(5)]);
        }
        "5"
    } else if d == 6 {
        proof {
            assert("6"@ =~= seq![digit_char(6)]);
        }
        "6"
    } else if d == 7 {
        proof {
            assert("7"@ =~= seq![digit_char(7)]);
        }
        "7"
    } else if d == 8 {
        proof {
            assert("8"@ =~= seq![digit_char(8)]);
        }
        "8"
    } else {
        proof {
            assert("9"@ =~= seq![digit_char(9)]);
        }
        "9"
    }
}

/// Append the decimal rendering of `n` to `out`.
fn append_dec(out: &mut String, n: usize)
    ensures
        final (out)@ == old(out)@ + dec_digits(n as nat),
    decreases n,
{
    if n < 10 {
        let s = digit_str(n);
        out.append(s);
        proof {
            assert(old(out)@ + seq![digit_char(n as nat)] =~= final (out)@);
        }
    } else {
        let ghost pre = out@;
        append_dec(out, n / 10);
        let s = digit_str(n % 10);
        out.append(s);
        proof {
            assert((pre + dec_digits((n / 10) as nat)) + seq![digit_char((n % 10) as nat)] =~= pre
                + dec_digits(n as nat));
        }
    }
}

/// The matching lines of `contents`, each prefixed with its zero-based line
/// index and with the first matched span highlighted in the original casing;
/// with `case_insensitive` set, the query and the annotated line are
/// lower-cased for locating the match only.
pub fn search_comprehensive(query: &str, contents: &str, case_insensitive: bool) -> (r: Vec<
    String,
>)
    ensures
        r.deep_view() == search_comprehensive_spec(query@, contents@, case_insensitive),
{
    let lines = split_into_lines(contents);
    let ghost lv = split_lines(contents@);
    let mut r: Vec<String> = Vec::new();
    let mut k: usize = 0;
    proof {
        assert(lv.skip(0) =~= lv);
        assert(r.deep_view() =~= Seq::<Seq<char>>::empty());
    }
    while k < lines.len()
        invariant
            k <= lines@.len(),
            lines.deep_view() == lv,
            lv == split_lines(contents@),
            search_comprehensive_spec(query@, contents@, case_insensitive) == r.deep_view()
                + comp_lines(query@, case_insensitive, lv.skip(k as int), k as nat),
        decreases lines@.len() - k,
    {
        let ghost restl = lv.skip(k as int);
        let ghost prev = r.deep_view();
        let line = lines[k];
        proof {
            assert(restl[0] == lv[k as int]);
            assert(line@ == lv[k as int]);
            assert(restl.drop_first() =~= lv.skip(k + 1));
        }
        let mut ann = String::new();
        append_dec(&mut ann, k);
        ann.append(":");
        ann.append(line);
        proof {
            reveal_strlit(":");
            assert(ann@ =~= annotate(k as nat, line@));
        }
        let ghost fa = fold_case(ann@, case_insensitive);
        let ghost fq = fold_case(query@, case_insensitive);
        let found = find_first(ann.as_str(), query, case_insensitive);
        match found {
            Some(s) => {
                let qlen = query.unicode_len();
                let alen = ann.unicode_len();
                proof {
                    lemma_first_match(fa, fq);
                    assert(match_at(fa, fq, s as int));
                }
                let mut e = String::new();
                e.append(ann.as_str().substring_char(0, s));
                e.append("<<<");
                e.append(ann.as_str().substring_char(s, s + qlen));
                e.append(">>>");
                e.append(ann.as_str().substring_char(s + qlen, alen));
                proof {
                    reveal_strlit("<<<");
                    reveal_strlit(">>>");
                    assert(e@ =~= highlight_at(ann@, s as int, query@.len() as int));
                    assert(comp_entry(query@, case_insensitive, k as nat, line@) == Some(e@));
                }
                r.push(e);
                proof {
                    let ghost entry = comp_entry(
                        query@,
                        case_insensitive,
                        k as nat,
                        line@,
                    )->Some_0;
                    assert(r.deep_view() =~= prev.push(entry));
                    assert(comp_lines(query@, case_insensitive, restl, k as nat) == seq![entry]
                        + comp_lines(query@, case_insensitive, lv.skip(k + 1), (k + 1) as nat));
                    assert(prev + (seq![entry] + comp_lines(
                        query@,
                        case_insensitive,
                        lv.skip(k + 1),
                        (k + 1) as nat,
                    )) =~= r.deep_view() + comp_lines(
                        query@,
                        case_insensitive,
                        lv.skip(k + 1),
                        (k + 1) as nat,
                    ));
                }
            },
            None => {
                proof {
                    assert(comp_entry(query@, case_insensitive, k as nat, line@) is None);
                    assert(comp_lines(query@, case_insensitive, restl, k as nat) == comp_lines(
                        query@,
                        case_insensitive,
                        lv.skip(k + 1),
                        (k + 1) as nat,
                    ));
                }
            },
        }
        k += 1;
    }
    proof {
        assert(lv.skip(lv.len() as int) =~= Seq::<Seq<char>>::empty());
        assert(r.deep_view() + comp_lines(
            query@,
            case_insensitive,
            Seq::<Seq<char>>::empty(),
            lv.len(),
        ) =~= r.deep_view());
    }
    r
}

} // verus!
