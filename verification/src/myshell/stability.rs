//! Stability of the tokenizer under re-parsing: joining the tokens of a
//! line with single spaces and tokenizing again gives the same tokens.
//! The law is proved for lines assembled from well-formed tokens — each
//! with balanced quotes and subshells, inner spaces protected by the
//! token's own spans, and trimmed edges; the final token may be empty,
//! every earlier token must be nonempty — and, at the tokenizer's own
//! output, for whole lines free of quote characters and `$`.

use crate::myshell::preprocessing::{
    line_balanced, line_regions, line_tokens, protected, quote_spans, split_scan, split_tokens,
    subshell_spans,
};
use crate::string_utils::{occurrences, subshell_scan, subshell_step};
use crate::text::{drop_leading_spaces, drop_trailing_spaces, trim_spec};
use vstd::prelude::*;

verus! {

/// A token that introduces no protected span and no split point: it holds
/// no space, no quote character and no `$`.
pub open spec fn plain_token(t: Seq<char>) -> bool {
    forall|k: int|
        0 <= k < t.len() ==> #[trigger] t[k] != ' ' && t[k] != '\'' && t[k] != '"' && t[k] != '$'
}

/// The tokens joined back into one line with single spaces between them.
pub open spec fn join_tokens(toks: Seq<Seq<char>>) -> Seq<char>
    decreases toks.len(),
{
    if toks.len() == 0 {
        Seq::empty()
    } else if toks.len() == 1 {
        toks[0]
    } else {
        join_tokens(toks.drop_last()) + seq![' '] + toks.last()
    }
}

proof fn lemma_trim_plain(t: Seq<char>)
    requires
        plain_token(t),
    ensures
        trim_spec(t) == t,
{
    if t.len() > 0 {
        assert(t[0] != ' ');
    }
    assert(drop_leading_spaces(t) == t);
    if t.len() > 0 {
        assert(t[t.len() - 1] != ' ');
    }
    assert(drop_trailing_spaces(t) == t);
}

proof fn lemma_scan_prev_range(s: Seq<char>, rg: Seq<(int, int)>, i: int)
    requires
        0 <= i,
    ensures
        0 <= split_scan(s, rg, i).1 <= i,
    decreases i,
{
    if i > 0 {
        lemma_scan_prev_range(s, rg, i - 1);
    }
}

proof fn lemma_scan_prefix(s1: Seq<char>, s2: Seq<char>, rg: Seq<(int, int)>, i: int)
    requires
        0 <= i <= s1.len(),
        i <= s2.len(),
        s1.take(i) == s2.take(i),
    ensures
        split_scan(s1, rg, i) == split_scan(s2, rg, i),
    decreases i,
{
    if i > 0 {
        let ci = i - 1;
        assert(s1.take(ci) =~= s2.take(ci)) by {
            assert forall|k: int| 0 <= k < ci implies s1.take(ci)[k] == s2.take(ci)[k] by {
                assert(s1.take(ci)[k] == s1[k]);
                assert(s2.take(ci)[k] == s2[k]);
                assert(s1.take(i)[k] == s1[k]);
                assert(s2.take(i)[k] == s2[k]);
            }
        }
        lemma_scan_prefix(s1, s2, rg, ci);
        assert(s1[ci] == s1.take(i)[ci]);
        assert(s2[ci] == s2.take(i)[ci]);
        lemma_scan_prev_range(s1, rg, ci);
        let prev = split_scan(s1, rg, ci).1;
        assert(s1.subrange(prev, ci) =~= s2.subrange(prev, ci)) by {
            assert forall|k: int|
                0 <= k < ci - prev implies s1.subrange(prev, ci)[k] == s2.subrange(
                prev,
                ci,
            )[k] by {
                assert(s1.subrange(prev, ci)[k] == s1[prev + k]);
                assert(s1.take(i)[prev + k] == s1[prev + k]);
                assert(s2.subrange(prev, ci)[k] == s2[prev + k]);
                assert(s2.take(i)[prev + k] == s2[prev + k]);
            }
        }
    }
}

proof fn lemma_no_char_no_occurrences(s: Seq<char>, c: char)
    requires
        forall|k: int| 0 <= k < s.len() ==> #[trigger] s[k] != c,
    ensures
        occurrences(s, c) == Seq::<int>::empty(),
    decreases s.len(),
{
    if s.len() > 0 {
        assert(forall|k: int|
            0 <= k < s.drop_last().len() ==> #[trigger] s.drop_last()[k] == s[k]);
        lemma_no_char_no_occurrences(s.drop_last(), c);
        assert(s.last() != c);
    }
}

proof fn lemma_subshell_scan_plain(s: Seq<char>, i: int)
    requires
        forall|k: int| 0 <= k < s.len() ==> #[trigger] s[k] != '$',
        i <= s.len(),
    ensures
        subshell_scan(s, i) == (0int, 0int, Seq::<(int, int)>::empty()),
    decreases i,
{
    if i > 0 {
        lemma_subshell_scan_plain(s, i - 1);
        assert(s[i - 1] != '$');
    }
}

proof fn lemma_line_regions_plain(s: Seq<char>)
    requires
        forall|k: int| 0 <= k < s.len() ==> #[trigger] s[k] != '\'' && s[k] != '"' && s[k] != '$',
    ensures
        line_regions(s) =~= Seq::<(int, int)>::empty(),
        line_balanced(s),
{
    lemma_no_char_no_occurrences(s, '\'');
    lemma_no_char_no_occurrences(s, '"');
    lemma_subshell_scan_plain(s, s.len() as int);
    assert(quote_spans(s, '\'') =~= Seq::<(int, int)>::empty());
    assert(quote_spans(s, '"') =~= Seq::<(int, int)>::empty());
    assert(subshell_spans(s) =~= Seq::<(int, int)>::empty());
}

/// `s` with every position moved `off` to the right.
pub open spec fn shift_ints(s: Seq<int>, off: int) -> Seq<int> {
    Seq::new(s.len(), |k: int| s[k] + off)
}

/// `s` with every span moved `off` to the right.
pub open spec fn shift_spans(s: Seq<(int, int)>, off: int) -> Seq<(int, int)> {
    Seq::new(s.len(), |k: int| (s[k].0 + off, s[k].1 + off))
}

/// Whether every span of `rg` lies inside `[lo, hi)`.
pub open spec fn spans_within(rg: Seq<(int, int)>, lo: int, hi: int) -> bool {
    forall|k: int|
        0 <= k < rg.len() ==> lo <= (#[trigger] rg[k]).0 && rg[k].0 <= rg[k].1 && rg[k].1 < hi
}

proof fn lemma_protected_concat(a: Seq<(int, int)>, b: Seq<(int, int)>, p: int)
    ensures
        protected(a + b, p) == (protected(a, p) || protected(b, p)),
{
    if protected(a + b, p) {
        let k = choose|k: int|
            0 <= k < (a + b).len() && (#[trigger] (a + b)[k]).0 <= p && p <= (a + b)[k].1;
        if k < a.len() {
            assert(a[k] == (a + b)[k]);
            assert(protected(a, p));
        } else {
            assert(b[k - a.len()] == (a + b)[k]);
            assert(protected(b, p));
        }
    }
    if protected(a, p) {
        let k = choose|k: int| 0 <= k < a.len() && (#[trigger] a[k]).0 <= p && p <= a[k].1;
        assert((a + b)[k] == a[k]);
        assert(protected(a + b, p));
    }
    if protected(b, p) {
        let k = choose|k: int| 0 <= k < b.len() && (#[trigger] b[k]).0 <= p && p <= b[k].1;
        assert((a + b)[k + a.len()] == b[k]);
        assert(protected(a + b, p));
    }
}

proof fn lemma_occurrences_concat(a: Seq<char>, b: Seq<char>, c: char)
    ensures
        occurrences(a + b, c) == occurrences(a, c) + shift_ints(
            occurrences(b, c),
            a.len() as int,
        ),
    decreases b.len(),
{
    if b.len() == 0 {
        assert(a + b =~= a);
        assert(occurrences(a, c) + shift_ints(occurrences(b, c), a.len() as int)
            =~= occurrences(a, c));
    } else {
        lemma_occurrences_concat(a, b.drop_last(), c);
        assert((a + b).drop_last() =~= a + b.drop_last());
        assert((a + b).last() == b.last());
        if b.last() == c {
            assert(occurrences(a + b, c) =~= occurrences(a, c) + shift_ints(
                occurrences(b, c),
                a.len() as int,
            )) by {
                assert(occurrences(b, c) == occurrences(b.drop_last(), c).push(b.len() - 1));
                assert((a + b).len() - 1 == a.len() + b.len() - 1);
            }
        } else {
            assert(occurrences(b, c) == occurrences(b.drop_last(), c));
            assert(occurrences(a + b, c) == occurrences(a + b.drop_last(), c));
        }
    }
}

proof fn lemma_occurrences_bounds(s: Seq<char>, c: char)
    ensures
        forall|k: int|
            0 <= k < occurrences(s, c).len() ==> 0 <= #[trigger] occurrences(s, c)[k]
                && occurrences(s, c)[k] < s.len(),
    decreases s.len(),
{
    if s.len() > 0 {
        lemma_occurrences_bounds(s.drop_last(), c);
        let op = occurrences(s.drop_last(), c);
        let os = occurrences(s, c);
        assert forall|k: int| 0 <= k < os.len() implies 0 <= #[trigger] os[k] && os[k]
            < s.len() by {
            if k < op.len() {
                assert(os[k] == op[k]);
                assert(op[k] < s.drop_last().len());
            } else {
                assert(os[k] == s.len() - 1);
            }
        }
    }
}

proof fn lemma_quote_spans_concat(a: Seq<char>, b: Seq<char>, c: char)
    requires
        occurrences(a, c).len() % 2 == 0,
    ensures
        quote_spans(a + b, c) =~= quote_spans(a, c) + shift_spans(
            quote_spans(b, c),
            a.len() as int,
        ),
{
    lemma_occurrences_concat(a, b, c);
    let oa = occurrences(a, c);
    let ob = occurrences(b, c);
    let oj = occurrences(a + b, c);
    assert(oj.len() == oa.len() + ob.len());
    assert forall|k: int|
        0 <= k < (oa.len() + ob.len()) / 2 implies #[trigger] quote_spans(a + b, c)[k]
        == (quote_spans(a, c) + shift_spans(quote_spans(b, c), a.len() as int))[k] by {
        if 2 * k + 1 < oa.len() {
            assert(oj[2 * k] == oa[2 * k]);
            assert(oj[2 * k + 1] == oa[2 * k + 1]);
        } else {
            assert(2 * k >= oa.len());
            assert(oj[2 * k] == ob[2 * k - oa.len()] + a.len());
            assert(oj[2 * k + 1] == ob[2 * k + 1 - oa.len()] + a.len());
            let kk = k - oa.len() / 2;
            assert(2 * kk == 2 * k - oa.len());
            assert(shift_spans(quote_spans(b, c), a.len() as int)[kk] == (
                ob[2 * kk] + a.len(),
                ob[2 * kk + 1] + a.len(),
            ));
        }
    }
}

proof fn lemma_quote_spans_bounds(s: Seq<char>, c: char)
    ensures
        spans_within(quote_spans(s, c), 0, s.len() as int),
{
    lemma_occurrences_bounds(s, c);
    let occ = occurrences(s, c);
    assert forall|k: int|
        0 <= k < quote_spans(s, c).len() implies 0 <= (#[trigger] quote_spans(s, c)[k]).0
        && quote_spans(s, c)[k].0 <= quote_spans(s, c)[k].1 && quote_spans(s, c)[k].1
        < s.len() by {
        assert(quote_spans(s, c)[k] == (occ[2 * k], occ[2 * k + 1]));
        lemma_occurrences_sorted(s, c);
    }
}

proof fn lemma_occurrences_sorted(s: Seq<char>, c: char)
    ensures
        forall|k1: int, k2: int|
            0 <= k1 < k2 < occurrences(s, c).len() ==> #[trigger] occurrences(s, c)[k1]
                < #[trigger] occurrences(s, c)[k2],
    decreases s.len(),
{
    if s.len() > 0 {
        lemma_occurrences_sorted(s.drop_last(), c);
        lemma_occurrences_bounds(s.drop_last(), c);
        let op = occurrences(s.drop_last(), c);
        let os = occurrences(s, c);
        assert forall|k1: int, k2: int|
            0 <= k1 < k2 < os.len() implies #[trigger] os[k1] < #[trigger] os[k2] by {
            if k2 < op.len() {
                assert(os[k1] == op[k1]);
                assert(os[k2] == op[k2]);
            } else {
                assert(os[k2] == s.len() - 1);
                assert(os[k1] == op[k1]);
                assert(op[k1] < s.drop_last().len());
            }
        }
    }
}

proof fn lemma_subshell_scan_bounds(s: Seq<char>, i: int)
    requires
        0 <= i <= s.len(),
    ensures
        ({
            let st = subshell_scan(s, i);
            &&& st.0 >= 0
            &&& spans_within(st.2, 0, i)
            &&& st.0 > 0 ==> 0 <= st.1 && st.1 < i
        }),
    decreases i,
{
    if i > 0 {
        lemma_subshell_scan_bounds(s, i - 1);
        let prev = subshell_scan(s, i - 1);
        let st = subshell_scan(s, i);
        assert forall|k: int|
            0 <= k < st.2.len() implies 0 <= (#[trigger] st.2[k]).0 && st.2[k].0 <= st.2[k].1
            && st.2[k].1 < i by {
            if k < prev.2.len() {
                assert(st.2[k] == prev.2[k]);
            }
        }
    }
}

proof fn lemma_subshell_prefix_ext(a: Seq<char>, b: Seq<char>, i: int)
    requires
        0 <= i <= a.len(),
        a.len() == 0 || b.len() == 0 || a.last() != '$' || b[0] != '(',
    ensures
        subshell_scan(a + b, i) == subshell_scan(a, i),
    decreases i,
{
    if i > 0 {
        lemma_subshell_prefix_ext(a, b, i - 1);
        let ci = i - 1;
        let st = subshell_scan(a, ci);
        assert((a + b)[ci] == a[ci]);
        if ci + 1 < a.len() {
            assert((a + b)[ci + 1] == a[ci + 1]);
        } else {
            // at the seam the wider window cannot see an opening pair
            if b.len() > 0 && ci + 1 < (a + b).len() {
                assert((a + b)[ci + 1] == b[0]);
                assert(!(a[ci] == '$' && (a + b)[ci + 1] == '('));
            }
        }
        assert(subshell_step(a + b, ci, st) == subshell_step(a, ci, st));
    }
}

proof fn lemma_subshell_scan_concat(a: Seq<char>, b: Seq<char>, i: int)
    requires
        0 <= i <= b.len(),
        subshell_scan(a, a.len() as int).0 == 0,
        a.len() == 0 || b.len() == 0 || a.last() != '$' || b[0] != '(',
    ensures
        ({
            let sj = subshell_scan(a + b, a.len() + i);
            let sb = subshell_scan(b, i);
            &&& sj.0 == sb.0
            &&& sj.2 =~= subshell_scan(a, a.len() as int).2 + shift_spans(sb.2, a.len() as int)
            &&& sb.0 > 0 ==> sj.1 == sb.1 + a.len()
        }),
    decreases i,
{
    let sa = subshell_scan(a, a.len() as int);
    if i == 0 {
        lemma_subshell_prefix_ext(a, b, a.len() as int);
        assert(subshell_scan(a + b, a.len() as int) == sa);
        assert(sa.2 + shift_spans(Seq::<(int, int)>::empty(), a.len() as int) =~= sa.2);
    } else {
        lemma_subshell_scan_concat(a, b, i - 1);
        lemma_subshell_scan_bounds(b, i - 1);
        let ci = i - 1;
        let sjp = subshell_scan(a + b, a.len() + ci);
        let sbp = subshell_scan(b, ci);
        assert((a + b)[a.len() + ci] == b[ci]);
        if ci + 1 < b.len() {
            assert((a + b)[a.len() + ci + 1] == b[ci + 1]);
        }
        assert((a.len() + ci + 1 < (a + b).len()) == (ci + 1 < b.len()));
        let opened_j = if a.len() + ci + 1 < (a + b).len() && (a + b)[a.len() + ci] == '$' && (a
            + b)[a.len() + ci + 1] == '(' {
            (sjp.0 + 1, if sjp.0 == 0 { a.len() + ci } else { sjp.1 }, sjp.2)
        } else {
            sjp
        };
        let opened_b = if ci + 1 < b.len() && b[ci] == '$' && b[ci + 1] == '(' {
            (sbp.0 + 1, if sbp.0 == 0 { ci } else { sbp.1 }, sbp.2)
        } else {
            sbp
        };
        assert(opened_j.0 == opened_b.0);
        assert(opened_b.0 > 0 ==> opened_j.1 == opened_b.1 + a.len());
        assert(subshell_scan(a + b, a.len() + i) == subshell_step(a + b, a.len() + ci, sjp));
        assert(subshell_scan(b, i) == subshell_step(b, ci, sbp));
        if opened_b.0 > 0 && b[ci] == ')' {
            if opened_b.0 == 1 {
                assert(subshell_scan(b, i).2 == opened_b.2.push((opened_b.1, ci)));
                assert(subshell_scan(a + b, a.len() + i).2 == opened_j.2.push(
                    (opened_j.1, a.len() + ci),
                ));
                assert(sa.2 + shift_spans(opened_b.2.push((opened_b.1, ci)), a.len() as int)
                    =~= (sa.2 + shift_spans(opened_b.2, a.len() as int)).push(
                    (opened_b.1 + a.len(), ci + a.len()),
                ));
            }
        }
    }
}

proof fn lemma_split_scan_plain_tokens(s: Seq<char>, i: int)
    requires
        0 <= i <= s.len(),
        forall|k: int|
            0 <= k < s.len() ==> #[trigger] s[k] != '\'' && s[k] != '"' && s[k] != '$',
    ensures
        ({
            let st = split_scan(s, Seq::<(int, int)>::empty(), i);
            &&& forall|k: int|
                0 <= k < st.0.len() ==> plain_token(#[trigger] st.0[k]) && st.0[k].len() > 0
            &&& forall|k: int| st.1 <= k < i ==> #[trigger] s[k] != ' '
            &&& 0 <= st.1 <= i
        }),
    decreases i,
{
    let rg = Seq::<(int, int)>::empty();
    if i > 0 {
        lemma_split_scan_plain_tokens(s, i - 1);
        let ci = i - 1;
        let st = split_scan(s, rg, ci);
        assert(!protected(rg, ci));
        if s[ci] == ' ' && st.1 != ci {
            let piece = s.subrange(st.1, ci);
            assert(plain_token(piece)) by {
                assert(forall|k: int|
                    0 <= k < piece.len() ==> #[trigger] piece[k] == s[st.1 + k]);
            }
            lemma_trim_plain(piece);
            let st2 = split_scan(s, rg, i);
            assert(st2.0 == st.0.push(piece));
            assert forall|k: int|
                0 <= k < st2.0.len() implies plain_token(#[trigger] st2.0[k]) && st2.0[k].len()
                > 0 by {
                if k < st.0.len() {
                    assert(st2.0[k] == st.0[k]);
                }
            }
        }
    }
}

/// Re-parsing stability at the tokenizer's own output: for a line without
/// quote characters or `$`, the line is balanced, and joining its tokens
/// with single spaces and tokenizing again gives the same tokens.
pub proof fn lemma_line_round_trip(s: Seq<char>)
    requires
        forall|k: int|
            0 <= k < s.len() ==> #[trigger] s[k] != '\'' && s[k] != '"' && s[k] != '$',
    ensures
        line_balanced(s),
        line_tokens(join_tokens(line_tokens(s))) == line_tokens(s),
{
    lemma_line_regions_plain(s);
    let rg = Seq::<(int, int)>::empty();
    assert(line_regions(s) == rg);
    lemma_split_scan_plain_tokens(s, s.len() as int);
    let st = split_scan(s, rg, s.len() as int);
    let tail = s.skip(st.1);
    assert(plain_token(tail)) by {
        assert(forall|k: int| 0 <= k < tail.len() ==> #[trigger] tail[k] == s[st.1 + k]);
    }
    lemma_trim_plain(tail);
    let toks = line_tokens(s);
    assert(toks == st.0.push(tail));
    assert(toks.len() >= 1);
    assert forall|k: int| 0 <= k < toks.len() implies plain_token(#[trigger] toks[k]) by {
        if k < st.0.len() {
            assert(toks[k] == st.0[k]);
        } else {
            assert(toks[k] == tail);
        }
    }
    assert forall|k: int| 0 <= k < toks.len() - 1 implies (#[trigger] toks[k]).len() > 0 by {
        assert(toks[k] == st.0[k]);
    }
    assert forall|k: int| 0 <= k < toks.len() implies token_wf(#[trigger] toks[k]) by {
        lemma_plain_token_wf(toks[k]);
    }
    lemma_tokens_round_trip_general(toks);
}

/// A token with no space, quote character or `$` is well formed: it has
/// nothing to balance and nothing to protect.
proof fn lemma_plain_token_wf(t: Seq<char>)
    requires
        plain_token(t),
    ensures
        token_wf(t),
{
    lemma_no_char_no_occurrences(t, '\'');
    lemma_no_char_no_occurrences(t, '"');
    lemma_subshell_scan_plain(t, t.len() as int);
}

/// A token as the tokenizer itself produces them: balanced quotes of each
/// kind, balanced subshells, every inner space protected by one of the
/// token's own spans, and no space at either edge (tokens are trimmed).
pub open spec fn token_wf(t: Seq<char>) -> bool {
    &&& occurrences(t, '\'').len() % 2 == 0
    &&& occurrences(t, '"').len() % 2 == 0
    &&& subshell_scan(t, t.len() as int).0 == 0
    &&& forall|k: int|
        0 <= k < t.len() && #[trigger] t[k] == ' ' ==> protected(line_regions(t), k)
    &&& t.len() > 0 ==> t[0] != ' ' && t[t.len() - 1] != ' '
}

proof fn lemma_trim_nonspace_edges(t: Seq<char>)
    requires
        t.len() > 0 ==> t[0] != ' ' && t[t.len() - 1] != ' ',
    ensures
        trim_spec(t) == t,
{
    assert(drop_leading_spaces(t) == t);
    assert(drop_trailing_spaces(t) == t);
}

proof fn lemma_scan_prefix_regions(
    s1: Seq<char>,
    s2: Seq<char>,
    rg1: Seq<(int, int)>,
    rg2: Seq<(int, int)>,
    i: int,
)
    requires
        0 <= i <= s1.len(),
        i <= s2.len(),
        s1.take(i) == s2.take(i),
        forall|p: int| 0 <= p < i ==> protected(rg1, p) == protected(rg2, p),
    ensures
        split_scan(s1, rg1, i) == split_scan(s2, rg2, i),
    decreases i,
{
    if i > 0 {
        let ci = i - 1;
        assert(s1.take(ci) =~= s2.take(ci)) by {
            assert forall|k: int| 0 <= k < ci implies s1.take(ci)[k] == s2.take(ci)[k] by {
                assert(s1.take(ci)[k] == s1[k]);
                assert(s2.take(ci)[k] == s2[k]);
                assert(s1.take(i)[k] == s1[k]);
                assert(s2.take(i)[k] == s2[k]);
            }
        }
        lemma_scan_prefix_regions(s1, s2, rg1, rg2, ci);
        assert(s1[ci] == s1.take(i)[ci]);
        assert(s2[ci] == s2.take(i)[ci]);
        lemma_scan_prev_range(s1, rg1, ci);
        let prev = split_scan(s1, rg1, ci).1;
        assert(s1.subrange(prev, ci) =~= s2.subrange(prev, ci)) by {
            assert forall|k: int|
                0 <= k < ci - prev implies s1.subrange(prev, ci)[k] == s2.subrange(
                prev,
                ci,
            )[k] by {
                assert(s1.subrange(prev, ci)[k] == s1[prev + k]);
                assert(s1.take(i)[prev + k] == s1[prev + k]);
                assert(s2.subrange(prev, ci)[k] == s2[prev + k]);
                assert(s2.take(i)[prev + k] == s2[prev + k]);
            }
        }
    }
}

proof fn lemma_scan_append_char_guarded(s: Seq<char>, rg: Seq<(int, int)>, c: char)
    requires
        c != ' ' || protected(rg, s.len() as int),
    ensures
        split_scan(s.push(c), rg, s.len() + 1 as int) == split_scan(s, rg, s.len() as int),
{
    let n = s.len() as int;
    assert(s.push(c).take(n) =~= s.take(n));
    assert(s.take(n) =~= s);
    lemma_scan_prefix(s.push(c), s, rg, n);
    assert(s.push(c)[n] == c);
}

proof fn lemma_scan_append_seq_guarded(s: Seq<char>, rg: Seq<(int, int)>, t: Seq<char>)
    requires
        forall|k: int| 0 <= k < t.len() && #[trigger] t[k] == ' ' ==> protected(rg, s.len() + k),
    ensures
        split_scan(s + t, rg, (s + t).len() as int) == split_scan(s, rg, s.len() as int),
    decreases t.len(),
{
    if t.len() == 0 {
        assert(s + t =~= s);
    } else {
        let t1 = t.drop_last();
        assert(forall|k: int| 0 <= k < t1.len() ==> #[trigger] t1[k] == t[k]);
        lemma_scan_append_seq_guarded(s, rg, t1);
        lemma_scan_append_char_guarded(s + t1, rg, t.last());
        assert((s + t1).push(t.last()) =~= s + t);
    }
}

proof fn lemma_protected_shift(rg: Seq<(int, int)>, off: int, p: int)
    ensures
        protected(shift_spans(rg, off), off + p) == protected(rg, p),
{
    if protected(rg, p) {
        let k = choose|k: int| 0 <= k < rg.len() && (#[trigger] rg[k]).0 <= p && p <= rg[k].1;
        assert(shift_spans(rg, off)[k] == (rg[k].0 + off, rg[k].1 + off));
        assert(protected(shift_spans(rg, off), off + p));
    }
    if protected(shift_spans(rg, off), off + p) {
        let sh = shift_spans(rg, off);
        let k = choose|k: int|
            0 <= k < sh.len() && (#[trigger] sh[k]).0 <= off + p && off + p <= sh[k].1;
        assert(rg[k].0 <= p && p <= rg[k].1);
        assert(protected(rg, p));
    }
}

proof fn lemma_protected_outside(rg: Seq<(int, int)>, lo: int, hi: int, p: int)
    requires
        spans_within(rg, lo, hi),
        p < lo || p >= hi,
    ensures
        !protected(rg, p),
{
    if protected(rg, p) {
        let k = choose|k: int| 0 <= k < rg.len() && (#[trigger] rg[k]).0 <= p && p <= rg[k].1;
        assert(false);
    }
}

proof fn lemma_protected_three(
    q1: Seq<(int, int)>,
    q2: Seq<(int, int)>,
    ss: Seq<(int, int)>,
    p: int,
)
    ensures
        protected(q1 + q2 + ss, p) == (protected(q1, p) || protected(q2, p) || protected(ss, p)),
{
    lemma_protected_concat(q1 + q2, ss, p);
    lemma_protected_concat(q1, q2, p);
}

proof fn lemma_shift_spans_within(rg: Seq<(int, int)>, lo: int, hi: int, off: int)
    requires
        spans_within(rg, lo, hi),
    ensures
        spans_within(shift_spans(rg, off), lo + off, hi + off),
{
    assert forall|k: int|
        0 <= k < shift_spans(rg, off).len() implies lo + off <= (#[trigger] shift_spans(
        rg,
        off,
    )[k]).0 && shift_spans(rg, off)[k].0 <= shift_spans(rg, off)[k].1 && shift_spans(
        rg,
        off,
    )[k].1 < hi + off by {
        assert(shift_spans(rg, off)[k] == (rg[k].0 + off, rg[k].1 + off));
    }
}

/// Appending a separator space and one well-formed token to a balanced
/// line leaves it balanced, keeps every old span and every old position's
/// protection unchanged, leaves the separator unprotected, and protects
/// the new token's protected positions at their shifted places.
#[verifier::rlimit(60)]
proof fn lemma_join_regions_step(jt: Seq<char>, t: Seq<char>)
    requires
        occurrences(jt, '\'').len() % 2 == 0,
        occurrences(jt, '"').len() % 2 == 0,
        subshell_scan(jt, jt.len() as int).0 == 0,
        token_wf(t),
    ensures
        ({
            let j = jt + seq![' '] + t;
            let off = jt.len() + 1 as int;
            &&& occurrences(j, '\'').len() % 2 == 0
            &&& occurrences(j, '"').len() % 2 == 0
            &&& subshell_scan(j, j.len() as int).0 == 0
            &&& spans_within(line_regions(j), 0, j.len() as int)
            &&& forall|p: int|
                0 <= p < jt.len() ==> #[trigger] protected(line_regions(j), p) == protected(
                    line_regions(jt),
                    p,
                )
            &&& !protected(line_regions(j), jt.len() as int)
            &&& forall|o: int|
                0 <= o < t.len() && #[trigger] protected(line_regions(t), o) ==> protected(
                    line_regions(j),
                    off + o,
                )
        }),
{
    let sep = seq![' '];
    let st = sep + t;
    let j = jt + sep + t;
    assert(j =~= jt + st);
    let off = jt.len() + 1 as int;
    assert(forall|k: int| 0 <= k < sep.len() ==> #[trigger] sep[k] != '\'');
    assert(forall|k: int| 0 <= k < sep.len() ==> #[trigger] sep[k] != '"');
    assert(forall|k: int| 0 <= k < sep.len() ==> #[trigger] sep[k] != '$');
    lemma_no_char_no_occurrences(sep, '\'');
    lemma_no_char_no_occurrences(sep, '"');
    lemma_occurrences_concat(sep, t, '\'');
    lemma_occurrences_concat(sep, t, '"');
    lemma_occurrences_concat(jt, st, '\'');
    lemma_occurrences_concat(jt, st, '"');
    lemma_quote_spans_concat(sep, t, '\'');
    lemma_quote_spans_concat(sep, t, '"');
    lemma_quote_spans_concat(jt, st, '\'');
    lemma_quote_spans_concat(jt, st, '"');
    lemma_subshell_scan_plain(sep, 1);
    lemma_subshell_scan_concat(sep, t, t.len() as int);
    lemma_subshell_scan_concat(jt, st, st.len() as int);
    let q1j = quote_spans(j, '\'');
    let q2j = quote_spans(j, '"');
    let ssj = subshell_spans(j);
    let q1o = quote_spans(jt, '\'');
    let q2o = quote_spans(jt, '"');
    let sso = subshell_spans(jt);
    let q1t = quote_spans(t, '\'');
    let q2t = quote_spans(t, '"');
    let sst = subshell_spans(t);
    assert(q1j =~= q1o + shift_spans(q1t, off)) by {
        assert(q1j =~= q1o + shift_spans(shift_spans(q1t, 1), jt.len() as int));
        assert(shift_spans(shift_spans(q1t, 1), jt.len() as int) =~= shift_spans(q1t, off));
    }
    assert(q2j =~= q2o + shift_spans(q2t, off)) by {
        assert(q2j =~= q2o + shift_spans(shift_spans(q2t, 1), jt.len() as int));
        assert(shift_spans(shift_spans(q2t, 1), jt.len() as int) =~= shift_spans(q2t, off));
    }
    assert(ssj =~= sso + shift_spans(sst, off)) by {
        assert(subshell_spans(st) =~= shift_spans(sst, 1));
        assert(ssj =~= sso + shift_spans(shift_spans(sst, 1), jt.len() as int));
        assert(shift_spans(shift_spans(sst, 1), jt.len() as int) =~= shift_spans(sst, off));
    }
    lemma_quote_spans_bounds(jt, '\'');
    lemma_quote_spans_bounds(jt, '"');
    lemma_subshell_scan_bounds(jt, jt.len() as int);
    lemma_quote_spans_bounds(t, '\'');
    lemma_quote_spans_bounds(t, '"');
    lemma_subshell_scan_bounds(t, t.len() as int);
    lemma_shift_spans_within(q1t, 0, t.len() as int, off);
    lemma_shift_spans_within(q2t, 0, t.len() as int, off);
    lemma_shift_spans_within(sst, 0, t.len() as int, off);
    assert(spans_within(line_regions(j), 0, j.len() as int)) by {
        assert forall|k: int|
            0 <= k < line_regions(j).len() implies 0 <= (#[trigger] line_regions(j)[k]).0
            && line_regions(j)[k].0 <= line_regions(j)[k].1 && line_regions(j)[k].1
            < j.len() by {
            if k < q1j.len() {
                assert(line_regions(j)[k] == q1j[k]);
                if k < q1o.len() {
                    assert(q1j[k] == q1o[k]);
                } else {
                    assert(q1j[k] == shift_spans(q1t, off)[k - q1o.len()]);
                }
            } else if k < q1j.len() + q2j.len() {
                let kk = k - q1j.len();
                assert(line_regions(j)[k] == q2j[kk]);
                if kk < q2o.len() {
                    assert(q2j[kk] == q2o[kk]);
                } else {
                    assert(q2j[kk] == shift_spans(q2t, off)[kk - q2o.len()]);
                }
            } else {
                let kk = k - q1j.len() - q2j.len();
                assert(line_regions(j)[k] == ssj[kk]);
                if kk < sso.len() {
                    assert(ssj[kk] == sso[kk]);
                } else {
                    assert(ssj[kk] == shift_spans(sst, off)[kk - sso.len()]);
                }
            }
        }
    }
    assert forall|p: int| 0 <= p < jt.len() implies #[trigger] protected(line_regions(j), p)
        == protected(line_regions(jt), p) by {
        lemma_protected_three(q1j, q2j, ssj, p);
        lemma_protected_three(q1o, q2o, sso, p);
        lemma_protected_concat(q1o, shift_spans(q1t, off), p);
        lemma_protected_concat(q2o, shift_spans(q2t, off), p);
        lemma_protected_concat(sso, shift_spans(sst, off), p);
        lemma_protected_outside(shift_spans(q1t, off), off, t.len() + off, p);
        lemma_protected_outside(shift_spans(q2t, off), off, t.len() + off, p);
        lemma_protected_outside(shift_spans(sst, off), off, t.len() + off, p);
    }
    assert(!protected(line_regions(j), jt.len() as int)) by {
        let p = jt.len() as int;
        lemma_protected_three(q1j, q2j, ssj, p);
        lemma_protected_concat(q1o, shift_spans(q1t, off), p);
        lemma_protected_concat(q2o, shift_spans(q2t, off), p);
        lemma_protected_concat(sso, shift_spans(sst, off), p);
        lemma_protected_outside(q1o, 0, jt.len() as int, p);
        lemma_protected_outside(q2o, 0, jt.len() as int, p);
        lemma_protected_outside(sso, 0, jt.len() as int, p);
        lemma_protected_outside(shift_spans(q1t, off), off, t.len() + off, p);
        lemma_protected_outside(shift_spans(q2t, off), off, t.len() + off, p);
        lemma_protected_outside(shift_spans(sst, off), off, t.len() + off, p);
    }
    assert forall|o: int|
        0 <= o < t.len() && #[trigger] protected(line_regions(t), o) implies protected(
        line_regions(j),
        off + o,
    ) by {
        lemma_protected_three(q1t, q2t, sst, o);
        lemma_protected_shift(q1t, off, o);
        lemma_protected_shift(q2t, off, o);
        lemma_protected_shift(sst, off, o);
        lemma_protected_concat(q1o, shift_spans(q1t, off), off + o);
        lemma_protected_concat(q2o, shift_spans(q2t, off), off + o);
        lemma_protected_concat(sso, shift_spans(sst, off), off + o);
        lemma_protected_three(q1j, q2j, ssj, off + o);
    }
}

/// After scanning the whole joined line built from well-formed tokens, the
/// tokens recovered so far are all but the last, the piece still being read
/// is exactly the last token, the joined line is balanced, and all its
/// protected spans lie inside it.
proof fn lemma_join_scan_general(toks: Seq<Seq<char>>)
    requires
        toks.len() >= 1,
        forall|k: int| 0 <= k < toks.len() ==> token_wf(#[trigger] toks[k]),
        forall|k: int| 0 <= k < toks.len() - 1 ==> (#[trigger] toks[k]).len() > 0,
    ensures
        ({
            let j = join_tokens(toks);
            let rg = line_regions(j);
            let st = split_scan(j, rg, j.len() as int);
            &&& occurrences(j, '\'').len() % 2 == 0
            &&& occurrences(j, '"').len() % 2 == 0
            &&& subshell_scan(j, j.len() as int).0 == 0
            &&& spans_within(rg, 0, j.len() as int)
            &&& st.0 == toks.drop_last()
            &&& st.1 == j.len() - toks.last().len()
            &&& j.skip(st.1) == toks.last()
        }),
    decreases toks.len(),
{
    if toks.len() == 1 {
        let j = join_tokens(toks);
        assert(j == toks[0]);
        assert(token_wf(j));
        let rg = line_regions(j);
        lemma_quote_spans_bounds(j, '\'');
        lemma_quote_spans_bounds(j, '"');
        lemma_subshell_scan_bounds(j, j.len() as int);
        assert(spans_within(rg, 0, j.len() as int)) by {
            assert forall|k: int|
                0 <= k < rg.len() implies 0 <= (#[trigger] rg[k]).0 && rg[k].0 <= rg[k].1
                && rg[k].1 < j.len() by {
                let q1 = quote_spans(j, '\'');
                let q2 = quote_spans(j, '"');
                if k < q1.len() {
                    assert(rg[k] == q1[k]);
                } else if k < q1.len() + q2.len() {
                    assert(rg[k] == q2[k - q1.len()]);
                } else {
                    assert(rg[k] == subshell_spans(j)[k - q1.len() - q2.len()]);
                }
            }
        }
        assert(Seq::<char>::empty() + j =~= j);
        lemma_scan_append_seq_guarded(Seq::<char>::empty(), rg, j);
        assert(split_scan(Seq::<char>::empty(), rg, 0) == (Seq::<Seq<char>>::empty(), 0int));
        assert(split_scan(j, rg, j.len() as int).0 =~= toks.drop_last());
        assert(j.skip(0) =~= toks.last());
    } else {
        let tt = toks.drop_last();
        let t = toks.last();
        assert(forall|k: int| 0 <= k < tt.len() ==> #[trigger] tt[k] == toks[k]);
        lemma_join_scan_general(tt);
        let jt = join_tokens(tt);
        let sep = seq![' '];
        let st = sep + t;
        let j = join_tokens(toks);
        assert(j == jt + sep + t);
        assert(j =~= jt + st);
        assert(st[0] == ' ');
        assert(token_wf(t));
        lemma_join_regions_step(jt, t);
        let off = jt.len() + 1 as int;
        let rgj = line_regions(j);
        let rgo = line_regions(jt);
        let rgt = line_regions(t);
        assert forall|o: int|
            0 <= o < t.len() && #[trigger] t[o] == ' ' implies protected(rgj, off + o) by {
            assert(protected(rgt, o));
        }
        // replay the scan: the old prefix behaves as before
        let stp = split_scan(jt, rgo, jt.len() as int);
        assert(jt.take(jt.len() as int) =~= jt);
        assert(j.take(jt.len() as int) =~= jt) by {
            assert forall|k: int| 0 <= k < jt.len() implies j.take(jt.len() as int)[k]
                == jt[k] by {
                assert(j[k] == jt[k]);
            }
        }
        lemma_scan_prefix_regions(j, jt, rgj, rgo, jt.len() as int);
        // the separator splits off the previous last token
        assert(j[jt.len() as int] == ' ');
        assert(stp.1 != jt.len() as int) by {
            assert(tt.last().len() > 0);
        }
        let piece = j.subrange(stp.1, jt.len() as int);
        assert(piece =~= jt.skip(stp.1));
        lemma_trim_nonspace_edges(jt.skip(stp.1));
        assert(split_scan(j, rgj, jt.len() + 1 as int).0 =~= tt.drop_last().push(tt.last()));
        assert(tt.drop_last().push(tt.last()) =~= tt);
        assert(split_scan(j, rgj, jt.len() + 1 as int).1 == jt.len() + 1);
        // the last token's characters extend the final piece without a split
        let s1 = jt + sep;
        assert(s1 + t =~= j);
        assert(s1.take(jt.len() + 1 as int) =~= s1);
        assert(j.take(jt.len() + 1 as int) =~= s1) by {
            assert forall|k: int| 0 <= k < jt.len() + 1 implies j.take(jt.len() + 1 as int)[k]
                == s1[k] by {
                assert(j[k] == (jt + st)[k]);
            }
        }
        lemma_scan_prefix_regions(j, s1, rgj, rgj, jt.len() + 1 as int);
        assert forall|k: int|
            0 <= k < t.len() && #[trigger] t[k] == ' ' implies protected(rgj, s1.len() + k) by {
            assert(protected(rgt, k));
        }
        lemma_scan_append_seq_guarded(s1, rgj, t);
        assert(split_scan(j, rgj, j.len() as int).0 == tt);
        assert(split_scan(j, rgj, j.len() as int).1 == jt.len() + 1);
        assert(j.len() - t.len() == jt.len() + 1);
        assert(j.skip(jt.len() + 1 as int) =~= t);
    }
}

/// Re-parsing stability of the tokenizer over quoted and subshell content:
/// for a line assembled from well-formed tokens — each with balanced
/// quotes and subshells, inner spaces protected by the token's own spans,
/// trimmed edges, and every token before the last nonempty — the joined
/// line is balanced and tokenizing it yields exactly those tokens.
pub proof fn lemma_tokens_round_trip_general(toks: Seq<Seq<char>>)
    requires
        toks.len() >= 1,
        forall|k: int| 0 <= k < toks.len() ==> token_wf(#[trigger] toks[k]),
        forall|k: int| 0 <= k < toks.len() - 1 ==> (#[trigger] toks[k]).len() > 0,
    ensures
        line_balanced(join_tokens(toks)),
        line_tokens(join_tokens(toks)) == toks,
{
    lemma_join_scan_general(toks);
    let j = join_tokens(toks);
    let rg = line_regions(j);
    let st = split_scan(j, rg, j.len() as int);
    assert(token_wf(toks.last()));
    lemma_trim_nonspace_edges(j.skip(st.1));
    assert(split_tokens(j, rg) =~= toks.drop_last().push(toks.last()));
    assert(toks.drop_last().push(toks.last()) =~= toks);
}

} // verus!
