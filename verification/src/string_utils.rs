//! Span detection over a raw input line: the paired occurrences of a quote
//! character, and the outermost `$(...)` subshell spans.  Both report a
//! parse error instead of producing spans when the line is unbalanced.

use vstd::prelude::*;
use vstd::string::StrSliceExecFns;

verus! {

/// The positions at which `c` occurs in `s`, in ascending order.
pub open spec fn occurrences(s: Seq<char>, c: char) -> Seq<int>
    decreases s.len(),
{
    if s.len() == 0 {
        Seq::empty()
    } else {
        let prev = occurrences(s.drop_last(), c);
        if s.last() == c {
            prev.push(s.len() - 1)
        } else {
            prev
        }
    }
}

proof fn lemma_occurrences_take_step(s: Seq<char>, c: char, i: int)
    requires
        0 <= i < s.len(),
    ensures
        s[i] == c ==> occurrences(s.take(i + 1), c) == occurrences(s.take(i), c).push(i),
        s[i] != c ==> occurrences(s.take(i + 1), c) == occurrences(s.take(i), c),
{
    assert(s.take(i + 1).drop_last() =~= s.take(i));
    assert(s.take(i + 1).last() == s[i]);
}

/// Pairs consecutive occurrences of the single character `symb` into
/// `(start, end)` spans; an odd number of occurrences (an unterminated
/// quote) is a parse error.
pub fn find_all_start_end_symb<'a>(string: &str, symb: &str) -> (r: Result<
    Vec<(usize, usize)>,
    &'a str,
>)
    requires
        symb@.len() == 1,
    ensures
        ({
            let occ = occurrences(string@, symb@[0]);
            &&& (r is Ok) == (occ.len() % 2 == 0)
            &&& r is Ok ==> {
                let v = r->Ok_0@;
                &&& v.len() * 2 == occ.len()
                &&& forall|k: int|
                    0 <= k < v.len() ==> #[trigger] v[k].0 == occ[2 * k] && v[k].1 == occ[2 * k
                        + 1]
            }
            &&& r is Err ==> r->Err_0@ == "myshell: parse error"@
        }),
{
    let c = symb.get_char(0);
    let n = string.unicode_len();
    let mut result: Vec<(usize, usize)> = Vec::new();
    let mut pend: Option<usize> = None;
    let mut ci: usize = 0;
    proof {
        assert(string@.take(0) =~= Seq::<char>::empty());
    }
    while ci < n
        invariant
            n == string@.len(),
            ci <= n,
            c == symb@[0],
            ({
                let occ = occurrences(string@.take(ci as int), c);
                &&& pend is None ==> result@.len() * 2 == occ.len()
                &&& pend is Some ==> result@.len() * 2 + 1 == occ.len() && pend->0 == occ[occ.len()
                    - 1]
                &&& forall|k: int|
                    0 <= k < result@.len() ==> #[trigger] result@[k].0 == occ[2 * k]
                        && result@[k].1 == occ[2 * k + 1]
            }),
        decreases n - ci,
    {
        proof {
            lemma_occurrences_take_step(string@, c, ci as int);
        }
        if string.get_char(ci) == c {
            match pend {
                None => {
                    pend = Some(ci);
                },
                Some(p) => {
                    let ghost old_res = result@;
                    let ghost occ_old = occurrences(string@.take(ci as int), c);
                    result.push((p, ci));
                    pend = None;
                    proof {
                        let occ_new = occurrences(string@.take(ci + 1 as int), c);
                        assert(occ_new == occ_old.push(ci as int));
                        assert forall|k: int| 0 <= k < result@.len() implies #[trigger] result@[k].0
                            == occ_new[2 * k] && result@[k].1 == occ_new[2 * k + 1] by {
                            if k < old_res.len() {
                                assert(result@[k] == old_res[k]);
                                assert(old_res[k].0 == occ_old[2 * k]);
                                assert(old_res[k].1 == occ_old[2 * k + 1]);
                            } else {
                                assert(result@[k] == (p, ci));
                                assert(2 * k + 1 == occ_new.len() - 1);
                                assert(occ_new[2 * k] == occ_old[occ_old.len() - 1]);
                            }
                        }
                    }
                },
            }
        }
        proof {
            let occ2 = occurrences(string@.take(ci + 1 as int), c);
            assert(pend is None ==> result@.len() * 2 == occ2.len());
            assert(pend is Some ==> result@.len() * 2 + 1 == occ2.len());
            assert(pend is Some ==> pend->0 == occ2[occ2.len() - 1]);
            assert(forall|k: int|
                0 <= k < result@.len() ==> #[trigger] result@[k].0 == occ2[2 * k] && result@[k].1
                    == occ2[2 * k + 1]);
        }
        ci = ci + 1;
    }
    proof {
        assert(string@.take(n as int) =~= string@);
    }
    match pend {
        Some(_) => Err("myshell: parse error"),
        None => Ok(result),
    }
}

/// One step of the subshell scanner at position `ci`: an `$(` occurrence
/// opens a nesting level (remembering where the outermost one started) and
/// a `)` with open levels closes one, recording the whole span when the
/// outermost level closes.  The state is (depth, start, recorded spans).
pub open spec fn subshell_step(s: Seq<char>, ci: int, st: (int, int, Seq<(int, int)>)) -> (
    int,
    int,
    Seq<(int, int)>,
) {
    let opened = if ci + 1 < s.len() && s[ci] == '$' && s[ci + 1] == '(' {
        (st.0 + 1, if st.0 == 0 { ci } else { st.1 }, st.2)
    } else {
        st
    };
    if opened.0 > 0 && s[ci] == ')' {
        if opened.0 == 1 {
            (0, opened.1, opened.2.push((opened.1, ci)))
        } else {
            (opened.0 - 1, opened.1, opened.2)
        }
    } else {
        opened
    }
}

/// The scanner state after processing the first `i` positions of `s`.
pub open spec fn subshell_scan(s: Seq<char>, i: int) -> (int, int, Seq<(int, int)>)
    decreases i,
{
    if i <= 0 {
        (0, 0, Seq::empty())
    } else {
        subshell_step(s, i - 1, subshell_scan(s, i - 1))
    }
}

/// The outermost `$(...)` spans of `line`; a line that ends with unclosed
/// subshells is a parse error.
pub fn find_all_subshells<'a>(line: &str) -> (r: Result<Vec<(usize, usize)>, &'a str>)
    ensures
        ({
            let fin = subshell_scan(line@, line@.len() as int);
            &&& (r is Ok) == (fin.0 == 0)
            &&& r is Ok ==> {
                let v = r->Ok_0@;
                &&& v.len() == fin.2.len()
                &&& forall|k: int|
                    0 <= k < v.len() ==> #[trigger] v[k].0 == fin.2[k].0 && v[k].1 == fin.2[k].1
            }
            &&& r is Err ==> r->Err_0@ == "myshell: parse error"@
        }),
{
    let n = line.unicode_len();
    let mut result: Vec<(usize, usize)> = Vec::new();
    let mut depth: usize = 0;
    let mut start: usize = 0;
    let mut ci: usize = 0;
    while ci < n
        invariant
            n == line@.len(),
            ci <= n,
            depth <= ci,
            ({
                let st = subshell_scan(line@, ci as int);
                &&& st.0 == depth
                &&& st.1 == start
                &&& result@.len() == st.2.len()
                &&& forall|k: int|
                    0 <= k < result@.len() ==> #[trigger] result@[k].0 == st.2[k].0
                        && result@[k].1 == st.2[k].1
            }),
        decreases n - ci,
    {
        proof {
            assert(subshell_scan(line@, ci + 1 as int) == subshell_step(
                line@,
                ci as int,
                subshell_scan(line@, ci as int),
            ));
        }
        let ch = line.get_char(ci);
        if ci + 1 < n && ch == '$' && line.get_char(ci + 1) == '(' {
            if depth == 0 {
                start = ci;
            }
            depth = depth + 1;
        }
        if depth > 0 && ch == ')' {
            depth = depth - 1;
            if depth == 0 {
                let ghost old_res = result@;
                let ghost old_spans = subshell_scan(line@, ci as int).2;
                result.push((start, ci));
                proof {
                    let new_spans = subshell_scan(line@, ci + 1 as int).2;
                    assert(new_spans == old_spans.push((start as int, ci as int)));
                    assert forall|k: int| 0 <= k < result@.len() implies #[trigger] result@[k].0
                        == new_spans[k].0 && result@[k].1 == new_spans[k].1 by {
                        if k < old_res.len() {
                            assert(result@[k] == old_res[k]);
                            assert(old_res[k].0 == old_spans[k].0);
                            assert(old_res[k].1 == old_spans[k].1);
                        } else {
                            assert(result@[k] == (start, ci));
                        }
                    }
                }
            }
        }
        proof {
            let st2 = subshell_scan(line@, ci + 1 as int);
            assert(st2.0 == depth);
            assert(st2.1 == start);
            assert(result@.len() == st2.2.len());
            assert(forall|k: int|
                0 <= k < result@.len() ==> #[trigger] result@[k].0 == st2.2[k].0 && result@[k].1
                    == st2.2[k].1);
        }
        ci = ci + 1;
    }
    if depth > 0 {
        return Err("myshell: parse error");
    }
    Ok(result)
}

} // verus!
