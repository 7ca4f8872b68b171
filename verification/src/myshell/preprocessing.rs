//! The preprocessing phases that turn one input line into a resolved
//! `Pipeline`: comment stripping, tokenizing, stage grouping with pipe
//! allocation, subshell-span collection, redirection resolution, variable
//! substitution, and command classification.

use crate::myshell::os::os_pipe;
use crate::myshell::{CommandType, DescTriple, MyShell, Pipeline};
use crate::string_utils::{find_all_start_end_symb, find_all_subshells, occurrences, subshell_scan};
use crate::text::{str_eq, trim_spec, trim_spaces};
use vstd::prelude::*;
use vstd::string::StrSliceExecFns;
use vstd::string::StringExecFns;

verus! {

/// The position of the first unescaped `#` at or after `i`, or `s.len()`
/// when none follows.  A backslash consumes the following character as a
/// unit, so an escaped `#` begins no comment.
pub open spec fn comment_start(s: Seq<char>, i: int) -> int
    decreases s.len() + 1 - i,
{
    if i < 0 || i >= s.len() {
        s.len() as int
    } else if s[i] == '\\' {
        comment_start(s, i + 2)
    } else if s[i] == '#' {
        i
    } else {
        comment_start(s, i + 1)
    }
}

/// The quote spans of `s` for quote character `c`: consecutive occurrences
/// paired up in order.
pub open spec fn quote_spans(s: Seq<char>, c: char) -> Seq<(int, int)> {
    let occ = occurrences(s, c);
    Seq::new((occ.len() / 2) as nat, |k: int| (occ[2 * k], occ[2 * k + 1]))
}

/// The outermost subshell spans of `s`.
pub open spec fn subshell_spans(s: Seq<char>) -> Seq<(int, int)> {
    subshell_scan(s, s.len() as int).2
}

/// Every region of `s` that token splitting must not cut through: single
/// quote spans, double quote spans and subshell spans.
pub open spec fn line_regions(s: Seq<char>) -> Seq<(int, int)> {
    quote_spans(s, '\'') + quote_spans(s, '"') + subshell_spans(s)
}

/// Whether `s` has an even number of each quote character and no unclosed
/// subshell; only then can it be tokenized.
pub open spec fn line_balanced(s: Seq<char>) -> bool {
    &&& occurrences(s, '\'').len() % 2 == 0
    &&& occurrences(s, '"').len() % 2 == 0
    &&& subshell_scan(s, s.len() as int).0 == 0
}

/// Whether position `i` falls inside one of the protected regions.
pub open spec fn protected(regions: Seq<(int, int)>, i: int) -> bool {
    exists|k: int|
        0 <= k < regions.len() && (#[trigger] regions[k]).0 <= i && i <= regions[k].1
}

/// The spans of an exec span list, as mathematical pairs.
pub open spec fn spans_int(v: Seq<(usize, usize)>) -> Seq<(int, int)> {
    Seq::new(v.len(), |k: int| (v[k].0 as int, v[k].1 as int))
}

/// The tokenizer's state after scanning the first `i` positions of `s`: the
/// tokens pushed so far and the start of the piece still being read.  A
/// space outside every protected region ends the current piece; an empty
/// piece between consecutive spaces is dropped.
pub open spec fn split_scan(s: Seq<char>, regions: Seq<(int, int)>, i: int) -> (
    Seq<Seq<char>>,
    int,
)
    decreases i,
{
    if i <= 0 {
        (Seq::empty(), 0)
    } else {
        let (toks, prev) = split_scan(s, regions, i - 1);
        let ci = i - 1;
        if s[ci] == ' ' && !protected(regions, ci) {
            if prev != ci {
                (toks.push(trim_spec(s.subrange(prev, ci))), i)
            } else {
                (toks, i)
            }
        } else {
            (toks, prev)
        }
    }
}

/// The tokens of `s`: the scanned pieces plus the trimmed remainder after
/// the last split point, which is always appended (it is the empty token
/// exactly when the line ends in removable spaces).
pub open spec fn split_tokens(s: Seq<char>, regions: Seq<(int, int)>) -> Seq<Seq<char>> {
    let (toks, prev) = split_scan(s, regions, s.len() as int);
    toks.push(trim_spec(s.skip(prev)))
}

/// Whether position `i` of the line lies inside one of `regions`.
fn is_protected(regions: &Vec<(usize, usize)>, i: usize) -> (r: bool)
    ensures
        r == protected(spans_int(regions@), i as int),
{
    let mut k: usize = 0;
    while k < regions.len()
        invariant
            k <= regions@.len(),
            forall|j: int|
                0 <= j < k ==> !(#[trigger] regions@[j].0 <= i && i <= regions@[j].1),
        decreases regions@.len() - k,
    {
        let (s, e) = (regions[k].0, regions[k].1);
        if s <= i && i <= e {
            proof {
                assert(spans_int(regions@)[k as int].0 <= i as int <= spans_int(
                    regions@,
                )[k as int].1);
            }
            return true;
        }
        k = k + 1;
    }
    proof {
        assert forall|j: int| 0 <= j < regions@.len() implies !(spans_int(regions@)[j].0
            <= i as int && i as int <= spans_int(regions@)[j].1) by {
            assert(!(regions@[j].0 <= i && i <= regions@[j].1));
        }
    }
    false
}

impl MyShell {
    /// Splits the line into word tokens at spaces that lie outside every
    /// quoted or subshell span; unbalanced quotes or subshells are a parse
    /// error.  Each token is trimmed; the remainder after the last split
    /// point always becomes the final token.
    pub fn split_command<'a>(line: &'a str) -> (r: Result<Vec<String>, &'a str>)
        ensures
            (r is Ok) == line_balanced(line@),
            r is Ok ==> r->Ok_0.deep_view() == split_tokens(line@, line_regions(line@)),
            r is Err ==> r->Err_0@ == "myshell: parse error"@,
    {
        proof {
            reveal_strlit("'");
            reveal_strlit("\"");
        }
        let one_quote = match find_all_start_end_symb(line, "'") {
            Ok(v) => v,
            Err(e) => {
                return Err(e);
            },
        };
        let two_quote = match find_all_start_end_symb(line, "\"") {
            Ok(v) => v,
            Err(e) => {
                return Err(e);
            },
        };
        let subshells = match find_all_subshells(line) {
            Ok(v) => v,
            Err(e) => {
                return Err(e);
            },
        };
        let mut non_split_regions = one_quote;
        let mut two_quote = two_quote;
        let mut subshells = subshells;
        non_split_regions.append(&mut two_quote);
        non_split_regions.append(&mut subshells);
        proof {
            assert(spans_int(non_split_regions@) =~= line_regions(line@));
        }
        let ghost rg = line_regions(line@);
        let n = line.unicode_len();
        let mut splitted: Vec<String> = Vec::new();
        let mut prev: usize = 0;
        let mut ci: usize = 0;
        while ci < n
            invariant
                n == line@.len(),
                ci <= n,
                prev <= ci,
                spans_int(non_split_regions@) == rg,
                splitted.deep_view() == split_scan(line@, rg, ci as int).0,
                prev as int == split_scan(line@, rg, ci as int).1,
            decreases n - ci,
        {
            if line.get_char(ci) == ' ' && !is_protected(&non_split_regions, ci) {
                if prev != ci {
                    let ghost old_dv = splitted.deep_view();
                    let piece = line.substring_char(prev, ci);
                    let trimmed = trim_spaces(piece);
                    splitted.push(String::from_str(trimmed));
                    proof {
                        assert(splitted.deep_view() =~~= old_dv.push(
                            trim_spec(line@.subrange(prev as int, ci as int)),
                        ));
                    }
                }
                prev = ci + 1;
            }
            proof {
                assert(splitted.deep_view() =~~= split_scan(line@, rg, ci + 1 as int).0);
                assert(prev as int == split_scan(line@, rg, ci + 1 as int).1);
            }
            ci = ci + 1;
        }
        let piece = line.substring_char(prev, n);
        let trimmed = trim_spaces(piece);
        splitted.push(String::from_str(trimmed));
        proof {
            assert(line@.subrange(prev as int, n as int) =~= line@.skip(prev as int));
            assert(splitted.deep_view() =~~= split_tokens(line@, rg));
        }
        Ok(splitted)
    }
}

/// Whether the `$(`/`)` pairs of one token are balanced.
pub open spec fn subshell_balanced(t: Seq<char>) -> bool {
    subshell_scan(t, t.len() as int).0 == 0
}

/// The subshell entries of one stage, scanned token by token: an entry
/// `(j, spans)` for every token `j` that holds at least one subshell span.
pub open spec fn stage_subshell_entries(stage: Seq<Seq<char>>, j: int) -> Seq<(int, Seq<(int, int)>)>
    decreases j,
{
    if j <= 0 {
        Seq::empty()
    } else {
        let prev = stage_subshell_entries(stage, j - 1);
        let spans = subshell_spans(stage[j - 1]);
        if spans.len() > 0 {
            prev.push((j - 1, spans))
        } else {
            prev
        }
    }
}

/// Whether the exec entry list `v` records exactly the entries `e`.
pub open spec fn entries_match(v: Seq<(usize, Vec<(usize, usize)>)>, e: Seq<(int, Seq<(int, int)>)>) -> bool {
    &&& v.len() == e.len()
    &&& forall|k: int|
        0 <= k < v.len() ==> (#[trigger] v[k]).0 == e[k].0 && spans_int(v[k].1@) == e[k].1
}

impl MyShell {
    /// Records, for every stage and every token, the outermost `$(...)`
    /// spans found inside that token; a token with unbalanced subshells is
    /// a parse error.  Everything else about the pipeline is unchanged.
    pub fn preprocess_subshells(p: Pipeline) -> (r: Result<Pipeline, String>)
        requires
            p.wf(),
        ensures
            ({
                let sd = p.steps.deep_view();
                &&& r is Ok ==> (forall|i: int, j: int|
                    0 <= i < sd.len() && 0 <= j < sd[i].len() ==> subshell_balanced(
                        #[trigger] sd[i][j],
                    ))
                &&& r is Err ==> (exists|i: int, j: int|
                    0 <= i < sd.len() && 0 <= j < sd[i].len() && !subshell_balanced(
                        #[trigger] sd[i][j],
                    ))
                &&& r is Ok ==> ({
                    let q = r->Ok_0;
                    &&& q.wf()
                    &&& q.steps == p.steps
                    &&& q.ioe_descriptors == p.ioe_descriptors
                    &&& q.types == p.types
                    &&& q.subshell_comm@.len() == sd.len()
                    &&& forall|i: int|
                        0 <= i < sd.len() ==> entries_match(
                            #[trigger] q.subshell_comm@[i]@,
                            stage_subshell_entries(sd[i], sd[i].len() as int),
                        )
                })
                &&& r is Err ==> r->Err_0@ == "myshell: parse error"@
            }),
    {
        let ghost sd = p.steps.deep_view();
        let mut comm: Vec<Vec<(usize, Vec<(usize, usize)>)>> = Vec::new();
        let n = p.steps.len();
        let mut i: usize = 0;
        while i < n
            invariant
                n == p.steps@.len(),
                sd == p.steps.deep_view(),
                sd.len() == n,
                i <= n,
                comm@.len() == i,
                forall|k: int|
                    0 <= k < i ==> entries_match(
                        #[trigger] comm@[k]@,
                        stage_subshell_entries(sd[k], sd[k].len() as int),
                    ),
                forall|k: int, j: int|
                    0 <= k < i && 0 <= j < sd[k].len() ==> subshell_balanced(#[trigger] sd[k][j]),
            decreases n - i,
        {
            let stage = &p.steps[i];
            proof {
                assert(sd[i as int] == p.steps@[i as int].deep_view());
            }
            let mut entries: Vec<(usize, Vec<(usize, usize)>)> = Vec::new();
            let m = stage.len();
            let mut j: usize = 0;
            while j < m
                invariant
                    sd == p.steps.deep_view(),
                    m == stage@.len(),
                    stage.deep_view() == sd[i as int],
                    0 <= i < sd.len(),
                    j <= m,
                    sd[i as int].len() == m,
                    entries_match(entries@, stage_subshell_entries(sd[i as int], j as int)),
                    forall|k: int| 0 <= k < j ==> subshell_balanced(#[trigger] sd[i as int][k]),
                decreases m - j,
            {
                proof {
                    assert(sd[i as int][j as int] == stage@[j as int]@);
                }
                match find_all_subshells(stage[j].as_str()) {
                    Ok(spans) => {
                        proof {
                            assert(spans_int(spans@) =~= subshell_spans(sd[i as int][j as int]));
                        }
                        if spans.len() > 0 {
                            let ghost old_e = entries@;
                            entries.push((j, spans));
                            proof {
                                assert forall|k: int|
                                    0 <= k < entries@.len() implies (#[trigger] entries@[k]).0
                                    == stage_subshell_entries(sd[i as int], j + 1 as int)[k].0
                                    && spans_int(entries@[k].1@) == stage_subshell_entries(
                                    sd[i as int],
                                    j + 1 as int,
                                )[k].1 by {
                                    if k < old_e.len() {
                                        assert(entries@[k] == old_e[k]);
                                    }
                                }
                            }
                        }
                    },
                    Err(e) => {
                        proof {
                            assert(!subshell_balanced(sd[i as int][j as int]));
                            assert((i as int) < sd.len() && (j as int) < sd[i as int].len());
                            assert(!(forall|a: int, b: int|
                                0 <= a < sd.len() && 0 <= b < sd[a].len() ==> subshell_balanced(
                                    #[trigger] sd[a][b],
                                )));
                        }
                        return Err(String::from_str(e));
                    },
                }
                j = j + 1;
            }
            proof {
                assert(stage@.len() as int == sd[i as int].len());
            }
            comm.push(entries);
            i = i + 1;
        }
        let mut p = p;
        p.subshell_comm = comm;
        Ok(p)
    }
}

/// The grouping of a token sequence into pipeline stages: every `|` token
/// ends one stage and begins the next, and is itself part of no stage.
pub open spec fn stage_split(toks: Seq<Seq<char>>) -> Seq<Seq<Seq<char>>>
    decreases toks.len(),
{
    if toks.len() == 0 {
        seq![Seq::<Seq<char>>::empty()]
    } else {
        let prev = stage_split(toks.drop_last());
        let t = toks.last();
        if t == "|"@ {
            prev.push(Seq::empty())
        } else {
            prev.update(prev.len() - 1, prev.last().push(t))
        }
    }
}

pub proof fn lemma_stage_split_len(toks: Seq<Seq<char>>)
    ensures
        stage_split(toks).len() >= 1,
    decreases toks.len(),
{
    if toks.len() > 0 {
        lemma_stage_split_len(toks.drop_last());
    }
}

/// Groups tokens into stages at every `|` token.
fn split_stages(commands: &Vec<String>) -> (r: Vec<Vec<String>>)
    ensures
        r.deep_view() == stage_split(commands.deep_view()),
        r@.len() >= 1,
{
    let mut steps: Vec<Vec<String>> = Vec::new();
    steps.push(Vec::new());
    proof {
        assert(commands.deep_view().take(0) =~= Seq::<Seq<char>>::empty());
        assert(steps.deep_view() =~~= stage_split(commands.deep_view().take(0)));
    }
    let mut i: usize = 0;
    while i < commands.len()
        invariant
            i <= commands@.len(),
            commands.deep_view().len() == commands@.len(),
            steps@.len() >= 1,
            steps.deep_view() == stage_split(commands.deep_view().take(i as int)),
        decreases commands@.len() - i,
    {
        proof {
            assert(commands.deep_view().take(i + 1 as int).drop_last() =~= commands.deep_view()
                .take(i as int));
            assert(commands.deep_view().take(i + 1 as int).last() == commands.deep_view()[i as int]);
            assert(commands.deep_view()[i as int] == commands@[i as int]@);
            lemma_stage_split_len(commands.deep_view().take(i as int));
        }
        if str_eq(commands[i].as_str(), "|") {
            steps.push(Vec::new());
            proof {
                assert(steps.deep_view() =~~= stage_split(commands.deep_view().take(i + 1 as int)));
            }
        } else {
            let ghost old_dv = steps.deep_view();
            let mut lastv = steps.pop().unwrap();
            lastv.push(commands[i].clone());
            steps.push(lastv);
            proof {
                assert(steps.deep_view() =~~= old_dv.update(
                    old_dv.len() - 1,
                    old_dv.last().push(commands@[i as int]@),
                ));
                assert(steps.deep_view() =~~= stage_split(commands.deep_view().take(i + 1 as int)));
            }
        }
        i = i + 1;
    }
    proof {
        assert(commands.deep_view().take(commands@.len() as int) =~= commands.deep_view());
    }
    steps
}

/// The descriptor triple stage `k` of `n` receives when the interior pipes
/// are `pf`: stage 0 reads the shell's stdin, the last stage writes the
/// shell's stdout, stage `k` otherwise reads the read end of pipe `k - 1`
/// and writes the write end of pipe `k`, and every stage writes errors to
/// the shell's stderr.
pub open spec fn stage_triple(k: int, n: int, pf: Seq<(i32, i32)>) -> DescTriple {
    DescTriple {
        stdin_fd: if k == 0 {
            0
        } else {
            pf[k - 1].0
        },
        stdout_fd: if k == n - 1 {
            1
        } else {
            pf[k].1
        },
        stderr_fd: 2,
    }
}

/// The wiring invariant of a pipeline's descriptor triples.
pub open spec fn wired(ioe: Seq<DescTriple>, pf: Seq<(i32, i32)>) -> bool {
    &&& ioe.len() == pf.len() + 1
    &&& forall|k: int|
        0 <= k < ioe.len() ==> #[trigger] ioe[k] == stage_triple(k, ioe.len() as int, pf)
}

/// Adjacent stages share one pipe: stage `i` writes the write end of pipe
/// `i`, and stage `i + 1` reads that same pipe's read end.
pub proof fn lemma_pipe_chaining(ioe: Seq<DescTriple>, pf: Seq<(i32, i32)>)
    requires
        wired(ioe, pf),
    ensures
        forall|i: int|
            0 <= i < pf.len() ==> #[trigger] ioe[i].stdout_fd == pf[i].1 && ioe[i + 1].stdin_fd
                == pf[i].0,
        ioe[0].stdin_fd == 0,
        ioe[ioe.len() - 1].stdout_fd == 1,
        forall|i: int| 0 <= i < ioe.len() ==> #[trigger] ioe[i].stderr_fd == 2,
{
    assert forall|i: int|
        0 <= i < pf.len() implies #[trigger] ioe[i].stdout_fd == pf[i].1 && ioe[i + 1].stdin_fd
        == pf[i].0 by {
        assert(ioe[i] == stage_triple(i, ioe.len() as int, pf));
        assert(ioe[i + 1] == stage_triple(i + 1, ioe.len() as int, pf));
    }
    assert(ioe[0] == stage_triple(0, ioe.len() as int, pf));
    assert(ioe[ioe.len() - 1] == stage_triple(ioe.len() - 1, ioe.len() as int, pf));
}

/// Builds the descriptor triples of an `n`-stage pipeline from the `n - 1`
/// interior pipes.
pub fn wire_stages(n: usize, pfds: &Vec<(i32, i32)>) -> (r: Vec<DescTriple>)
    requires
        pfds@.len() + 1 == n,
    ensures
        r@.len() == n,
        wired(r@, pfds@),
{
    let mut out: Vec<DescTriple> = Vec::new();
    let mut i: usize = 0;
    while i < n
        invariant
            pfds@.len() + 1 == n,
            i <= n,
            out@.len() == i,
            forall|k: int| 0 <= k < i ==> #[trigger] out@[k] == stage_triple(k, n as int, pfds@),
        decreases n - i,
    {
        let triple = DescTriple {
            stdin_fd: if i == 0 {
                0
            } else {
                pfds[i - 1].0
            },
            stdout_fd: if i + 1 == n {
                1
            } else {
                pfds[i].1
            },
            stderr_fd: 2,
        };
        out.push(triple);
        i = i + 1;
    }
    out
}

/// The recognized redirection operators, in the order they are searched
/// for: `2>`, `&>`, `>&`, `<`, `>`.
pub open spec fn redirection_keys() -> Seq<Seq<char>> {
    seq!["2>"@, "&>"@, ">&"@, "<"@, ">"@]
}

/// The descriptor slots operator `j` overwrites: `2>` the stderr slot, `&>`
/// and `>&` both output slots, `<` the stdin slot, `>` the stdout slot.
pub open spec fn key_slots(j: int) -> Seq<usize> {
    if j == 0 {
        seq![2usize]
    } else if j == 1 || j == 2 {
        seq![1usize, 2usize]
    } else if j == 3 {
        seq![0usize]
    } else {
        seq![1usize]
    }
}

/// Whether some token of the stage equals `t`.
pub open spec fn contains_token(cmd: Seq<Seq<char>>, t: Seq<char>) -> bool {
    exists|k: int| 0 <= k < cmd.len() && #[trigger] cmd[k] == t
}

/// The first operator index at or after `j` whose token occurs in the
/// stage, or 5 when none does.
pub open spec fn found_key_from(cmd: Seq<Seq<char>>, j: int) -> int
    decreases 5 - j,
{
    if j >= 5 {
        5
    } else if contains_token(cmd, redirection_keys()[j]) {
        j
    } else {
        found_key_from(cmd, j + 1)
    }
}

/// The operator the resolver handles for this stage, or 5 when the stage
/// has no redirection.
pub open spec fn found_key(cmd: Seq<Seq<char>>) -> int {
    found_key_from(cmd, 0)
}

pub proof fn lemma_found_key_range(cmd: Seq<Seq<char>>, j: int)
    requires
        0 <= j <= 5,
    ensures
        j <= found_key_from(cmd, j) <= 5,
        found_key_from(cmd, j) < 5 ==> contains_token(
            cmd,
            redirection_keys()[found_key_from(cmd, j)],
        ),
    decreases 5 - j,
{
    if j < 5 && !contains_token(cmd, redirection_keys()[j]) {
        lemma_found_key_range(cmd, j + 1);
    }
}

/// Whether the stage uses the combined form `> <file> 2>&1`, which is
/// rewritten to a single `&>` redirection.
pub open spec fn combined_redir(cmd: Seq<Seq<char>>) -> bool {
    contains_token(cmd, ">"@) && contains_token(cmd, "2>&1"@)
}

/// Whether the stage has no redirection operator at all.
pub open spec fn redir_none(cmd: Seq<Seq<char>>) -> bool {
    found_key(cmd) == 5
}

/// A combined `2>&1` form whose `2>&1` is not the last token or whose `>`
/// is not third from the end is a syntax error.
pub open spec fn redir_syntax_err(cmd: Seq<Seq<char>>) -> bool {
    &&& found_key(cmd) < 5
    &&& combined_redir(cmd)
    &&& !(cmd.len() >= 3 && cmd.last() == "2>&1"@ && cmd[cmd.len() - 3] == ">"@)
}

/// A stage left with fewer than one token once the operator and its
/// filename are removed is a parse error.
pub open spec fn redir_parse_err(cmd: Seq<Seq<char>>) -> bool {
    &&& found_key(cmd) < 5
    &&& !redir_syntax_err(cmd)
    &&& (if combined_redir(cmd) {
        cmd.len() < 4
    } else {
        cmd.len() < 3
    })
}

/// Whether the stage has a well-formed redirection to carry out.
pub open spec fn redir_ok(cmd: Seq<Seq<char>>) -> bool {
    &&& found_key(cmd) < 5
    &&& !redir_syntax_err(cmd)
    &&& !redir_parse_err(cmd)
}

/// The slots the stage's redirection overwrites.
pub open spec fn redir_slots(cmd: Seq<Seq<char>>) -> Seq<usize> {
    if combined_redir(cmd) {
        seq![1usize, 2usize]
    } else {
        key_slots(found_key(cmd))
    }
}

/// Whether the target file is opened for reading (only plain `<` is).
pub open spec fn redir_read(cmd: Seq<Seq<char>>) -> bool {
    !combined_redir(cmd) && found_key(cmd) == 3
}

/// The redirection's target filename: the last token, or the token before
/// the final `2>&1` in the combined form.
pub open spec fn redir_filename(cmd: Seq<Seq<char>>) -> Seq<char> {
    if combined_redir(cmd) {
        cmd[cmd.len() - 2]
    } else {
        cmd.last()
    }
}

/// The stage's tokens once the operator and its filename (and the `2>&1`
/// marker in the combined form) are removed.
pub open spec fn redir_remaining(cmd: Seq<Seq<char>>) -> Seq<Seq<char>> {
    if combined_redir(cmd) {
        cmd.take(cmd.len() - 3)
    } else {
        cmd.take(cmd.len() - 2)
    }
}

pub proof fn lemma_redir_slots_bounds(cmd: Seq<Seq<char>>)
    ensures
        forall|k: int| 0 <= k < redir_slots(cmd).len() ==> #[trigger] redir_slots(cmd)[k] < 3,
{
}

/// One stage's resolved redirection: which slots to overwrite, whether the
/// file is opened for reading, the target filename, and the stage's tokens
/// with the redirection removed.
#[derive(Debug)]
pub struct RedirPlan {
    pub slots: Vec<usize>,
    pub read: bool,
    pub filename: String,
    pub remaining: Vec<String>,
}

/// The operator token at key index `j`.
fn key_at(j: usize) -> (r: &'static str)
    requires
        j < 5,
    ensures
        r@ == redirection_keys()[j as int],
{
    if j == 0 {
        "2>"
    } else if j == 1 {
        "&>"
    } else if j == 2 {
        ">&"
    } else if j == 3 {
        "<"
    } else {
        ">"
    }
}

/// Whether some token of `cmd` equals `t`.
fn contains_tok(cmd: &Vec<String>, t: &str) -> (r: bool)
    ensures
        r == contains_token(cmd.deep_view(), t@),
{
    let mut k: usize = 0;
    while k < cmd.len()
        invariant
            k <= cmd@.len(),
            forall|a: int| 0 <= a < k ==> #[trigger] cmd.deep_view()[a] != t@,
        decreases cmd@.len() - k,
    {
        if str_eq(cmd[k].as_str(), t) {
            proof {
                assert(cmd.deep_view()[k as int] == t@);
            }
            return true;
        }
        proof {
            assert(cmd.deep_view()[k as int] == cmd@[k as int]@);
        }
        k = k + 1;
    }
    false
}

/// The first `m` tokens of `v`.
fn take_prefix(v: &Vec<String>, m: usize) -> (r: Vec<String>)
    requires
        m <= v@.len(),
    ensures
        r.deep_view() == v.deep_view().take(m as int),
{
    let mut out: Vec<String> = Vec::new();
    let mut k: usize = 0;
    while k < m
        invariant
            m <= v@.len(),
            k <= m,
            out@.len() == k,
            forall|a: int| 0 <= a < k ==> #[trigger] out.deep_view()[a] == v.deep_view()[a],
        decreases m - k,
    {
        let ghost old_dv = out.deep_view();
        out.push(v[k].clone());
        proof {
            assert(out.deep_view() =~~= old_dv.push(v@[k as int]@));
            assert(v.deep_view()[k as int] == v@[k as int]@);
        }
        k = k + 1;
    }
    proof {
        assert(out.deep_view() =~~= v.deep_view().take(m as int));
    }
    out
}

/// The slot list of operator `j`.
fn slots_for(j: usize) -> (r: Vec<usize>)
    requires
        j < 5,
    ensures
        r@ == key_slots(j as int),
{
    let mut slots: Vec<usize> = Vec::new();
    if j == 0 {
        slots.push(2);
        proof {
            assert(slots@ =~= key_slots(0));
        }
    } else if j == 1 || j == 2 {
        slots.push(1);
        slots.push(2);
        proof {
            assert(slots@ =~= key_slots(j as int));
        }
    } else if j == 3 {
        slots.push(0);
        proof {
            assert(slots@ =~= key_slots(3));
        }
    } else {
        slots.push(1);
        proof {
            assert(slots@ =~= key_slots(4));
        }
    }
    slots
}

/// Scans one stage's tokens for the first redirection operator, rewrites
/// the combined `> <file> 2>&1` form into a single `&>`, and reports which
/// descriptor slots to overwrite, the target filename and the shrunken
/// token list; a stage without operators yields no plan.  This is pure
/// analysis: no file is opened here.
pub fn resolve_stage_redirection(command: &Vec<String>) -> (r: Result<Option<RedirPlan>, String>)
    ensures
        ({
            let dv = command.deep_view();
            &&& (r is Ok && r->Ok_0 is None) == redir_none(dv)
            &&& (r is Ok && r->Ok_0 is Some) == redir_ok(dv)
            &&& (r is Err) == (redir_syntax_err(dv) || redir_parse_err(dv))
            &&& redir_syntax_err(dv) ==> r is Err && r->Err_0@ == "syntax error"@
            &&& redir_parse_err(dv) ==> r is Err && r->Err_0@ == "parse error"@
            &&& r is Ok && r->Ok_0 is Some ==> ({
                let plan = r->Ok_0->0;
                &&& plan.slots@ == redir_slots(dv)
                &&& plan.read == redir_read(dv)
                &&& plan.filename@ == redir_filename(dv)
                &&& plan.remaining.deep_view() == redir_remaining(dv)
            })
        }),
{
    let ghost dv = command.deep_view();
    let mut j: usize = 0;
    while j < 5
        invariant
            dv == command.deep_view(),
            j <= 5,
            found_key_from(dv, 0) == found_key_from(dv, j as int),
        decreases 5 - j,
    {
        if contains_tok(command, key_at(j)) {
            proof {
                assert(found_key(dv) == j);
                lemma_found_key_range(dv, j as int);
            }
            let combined = contains_tok(command, ">") && contains_tok(command, "2>&1");
            let len = command.len();
            proof {
                assert(contains_token(dv, redirection_keys()[j as int]));
                assert(dv.len() == command@.len());
                assert(len >= 1);
            }
            if combined {
                if len < 3 {
                    proof {
                        assert(redir_syntax_err(dv));
                    }
                    return Err(String::from_str("syntax error"));
                }
                if !str_eq(command[len - 1].as_str(), "2>&1") {
                    proof {
                        assert(dv.last() == command@[len - 1]@);
                        assert(redir_syntax_err(dv));
                    }
                    return Err(String::from_str("syntax error"));
                }
                if !str_eq(command[len - 3].as_str(), ">") {
                    proof {
                        assert(dv[len - 3] == command@[len - 3]@);
                        assert(redir_syntax_err(dv));
                    }
                    return Err(String::from_str("syntax error"));
                }
                proof {
                    assert(dv.last() == command@[len - 1]@);
                    assert(dv[len - 3] == command@[len - 3]@);
                    assert(!redir_syntax_err(dv));
                }
                if len < 4 {
                    proof {
                        assert(redir_parse_err(dv));
                    }
                    return Err(String::from_str("parse error"));
                }
                let remaining = take_prefix(command, len - 3);
                let filename = command[len - 2].clone();
                let mut slots: Vec<usize> = Vec::new();
                slots.push(1);
                slots.push(2);
                proof {
                    assert(slots@ =~= seq![1usize, 2usize]);
                    assert(filename@ == dv[len - 2]);
                    assert(redir_ok(dv));
                }
                return Ok(Some(RedirPlan { slots, read: false, filename, remaining }));
            } else {
                proof {
                    assert(!combined_redir(dv));
                    assert(!redir_syntax_err(dv));
                }
                if len < 3 {
                    proof {
                        assert(redir_parse_err(dv));
                    }
                    return Err(String::from_str("parse error"));
                }
                let remaining = take_prefix(command, len - 2);
                let filename = command[len - 1].clone();
                let slots = slots_for(j);
                let read = j == 3;
                proof {
                    assert(filename@ == dv.last());
                    assert(redir_ok(dv));
                }
                return Ok(Some(RedirPlan { slots, read, filename, remaining }));
            }
        }
        j = j + 1;
    }
    proof {
        assert(found_key(dv) == 5);
    }
    Ok(None)
}

/// The triple once `fd` has been written into each slot of `slots`, in
/// order.
pub open spec fn apply_slots(t: DescTriple, slots: Seq<usize>, fd: i32) -> DescTriple
    decreases slots.len(),
{
    if slots.len() == 0 {
        t
    } else {
        apply_slots(t.with_slot(slots[0] as int, fd), slots.drop_first(), fd)
    }
}

/// The descriptors displaced while writing `fd` into each slot in order,
/// keeping only those the pipeline owns (values above the three standard
/// descriptors), which must be closed to avoid a leak.
pub open spec fn displaced_fds(t: DescTriple, slots: Seq<usize>, fd: i32) -> Seq<i32>
    decreases slots.len(),
{
    if slots.len() == 0 {
        Seq::empty()
    } else {
        let o = t.slot(slots[0] as int);
        let rest = displaced_fds(t.with_slot(slots[0] as int, fd), slots.drop_first(), fd);
        if o > 2 {
            seq![o] + rest
        } else {
            rest
        }
    }
}

pub proof fn lemma_found_key_at_most(cmd: Seq<Seq<char>>, j: int, k: int)
    requires
        0 <= k <= j < 5,
        contains_token(cmd, redirection_keys()[j]),
    ensures
        found_key_from(cmd, k) <= j,
    decreases j - k,
{
    if !contains_token(cmd, redirection_keys()[k]) && k < j {
        lemma_found_key_at_most(cmd, j, k + 1);
    }
}

/// A stage whose tokens end with the combined form `> <file> 2>&1`
/// resolves, on success, to a single `&>`-equivalent redirection: the
/// three trailing tokens are removed, the named file is opened for
/// writing, and one nonnegative descriptor fills both the stdout and the
/// stderr slot while stdin is untouched.
pub proof fn lemma_trailing_combined_form(
    cmd: Seq<Seq<char>>,
    t: DescTriple,
    cmd2: Seq<Seq<char>>,
    t2: DescTriple,
)
    requires
        cmd.len() >= 4,
        cmd.last() == "2>&1"@,
        cmd[cmd.len() - 3] == ">"@,
        stage_redirected(cmd, t, cmd2, t2),
    ensures
        redir_ok(cmd),
        !redir_read(cmd),
        redir_filename(cmd) == cmd[cmd.len() - 2],
        cmd2 == cmd.take(cmd.len() - 3),
        t2.stdout_fd == t2.stderr_fd,
        t2.stdout_fd >= 0,
        t2.stdin_fd == t.stdin_fd,
{
    assert(contains_token(cmd, ">"@)) by {
        assert(cmd[cmd.len() - 3] == ">"@);
    }
    assert(contains_token(cmd, "2>&1"@)) by {
        assert(cmd[cmd.len() - 1] == "2>&1"@);
    }
    assert(combined_redir(cmd));
    assert(redirection_keys()[4] == ">"@);
    lemma_found_key_at_most(cmd, 4, 0);
    assert(found_key(cmd) < 5);
    assert(redir_ok(cmd));
    assert(!redir_none(cmd));
    let fd = choose|fd: i32|
        fd >= 0 && t2 == #[trigger] apply_slots(t, redir_slots(cmd), fd);
    lemma_combined_redirection_unifies_outputs(cmd, t, fd);
}

/// The combined `> <file> 2>&1` form acts as a single `&>` redirection:
/// applying its slot set points both the stdout and the stderr slot at the
/// one newly opened descriptor, and leaves stdin alone.
pub proof fn lemma_combined_redirection_unifies_outputs(
    cmd: Seq<Seq<char>>,
    t: DescTriple,
    fd: i32,
)
    requires
        combined_redir(cmd),
    ensures
        apply_slots(t, redir_slots(cmd), fd).stdout_fd == fd,
        apply_slots(t, redir_slots(cmd), fd).stderr_fd == fd,
        apply_slots(t, redir_slots(cmd), fd).stdin_fd == t.stdin_fd,
{
    let slots = redir_slots(cmd);
    assert(slots =~= seq![1usize, 2usize]);
    assert(slots.drop_first() =~= seq![2usize]);
    assert(slots.drop_first().drop_first() =~= Seq::<usize>::empty());
    let t1 = t.with_slot(1, fd);
    let t2 = t1.with_slot(2, fd);
    assert(apply_slots(t, slots, fd) == apply_slots(t1, slots.drop_first(), fd));
    assert(apply_slots(t1, slots.drop_first(), fd) == apply_slots(
        t2,
        slots.drop_first().drop_first(),
        fd,
    ));
    assert(apply_slots(t2, slots.drop_first().drop_first(), fd) == t2);
}

/// Writes `fd` into each listed slot of the triple, returning the new
/// triple and the displaced descriptors that must now be closed; a
/// standard descriptor (0, 1 or 2) is never a candidate for closing.
pub fn apply_redirection(t: &DescTriple, slots: &Vec<usize>, fd: i32) -> (r: (
    DescTriple,
    Vec<i32>,
))
    requires
        forall|k: int| 0 <= k < slots@.len() ==> #[trigger] slots@[k] < 3,
    ensures
        r.0 == apply_slots(*t, slots@, fd),
        r.1@ == displaced_fds(*t, slots@, fd),
{
    let mut cur: DescTriple = *t;
    let mut closes: Vec<i32> = Vec::new();
    let mut k: usize = 0;
    proof {
        assert(slots@.skip(0) =~= slots@);
    }
    while k < slots.len()
        invariant
            forall|a: int| 0 <= a < slots@.len() ==> #[trigger] slots@[a] < 3,
            k <= slots@.len(),
            apply_slots(*t, slots@, fd) == apply_slots(cur, slots@.skip(k as int), fd),
            displaced_fds(*t, slots@, fd) == closes@ + displaced_fds(
                cur,
                slots@.skip(k as int),
                fd,
            ),
        decreases slots@.len() - k,
    {
        proof {
            assert(slots@.skip(k as int)[0] == slots@[k as int]);
            assert(slots@.skip(k as int).drop_first() =~= slots@.skip(k + 1 as int));
        }
        let ghost prev_closes = closes@;
        let slot = slots[k];
        let old_fd = cur.get_slot(slot);
        if old_fd > 2 {
            closes.push(old_fd);
        }
        cur.set_slot(slot, fd);
        proof {
            if old_fd > 2 {
                assert(closes@ =~= prev_closes.push(old_fd));
                assert(prev_closes + (seq![old_fd] + displaced_fds(
                    cur,
                    slots@.skip(k + 1 as int),
                    fd,
                )) =~= closes@ + displaced_fds(cur, slots@.skip(k + 1 as int), fd));
            }
        }
        k = k + 1;
    }
    proof {
        assert(slots@.skip(slots@.len() as int) =~= Seq::<usize>::empty());
        assert(closes@ + Seq::<i32>::empty() =~= closes@);
    }
    (cur, closes)
}

/// How one stage's tokens and triple relate across redirection resolution:
/// a stage without operators is untouched; otherwise its redirection was
/// well formed and some nonnegative descriptor, freshly opened for the
/// target file, now fills every targeted slot (both output slots get the
/// one same descriptor for the combined form).
pub open spec fn stage_redirected(
    cmd: Seq<Seq<char>>,
    t: DescTriple,
    cmd2: Seq<Seq<char>>,
    t2: DescTriple,
) -> bool {
    if redir_none(cmd) {
        cmd2 == cmd && t2 == t
    } else {
        &&& redir_ok(cmd)
        &&& cmd2 == redir_remaining(cmd)
        &&& exists|fd: i32| fd >= 0 && t2 == #[trigger] apply_slots(t, redir_slots(cmd), fd)
    }
}

impl MyShell {
    /// Resolves every stage's redirection: scans the stage's tokens for the
    /// first operator, opens the target file (`<` for reading, the output
    /// operators creating and truncating), overwrites the targeted slots
    /// with the new descriptor — closing any displaced descriptor the
    /// pipeline owned — and shrinks the token list.  A malformed
    /// redirection, a failed open or a failed close aborts the line.
    pub fn preprocess_redirections(p: Pipeline) -> (r: Result<Pipeline, String>)
        requires
            p.wf(),
        ensures
            ({
                let sd = p.steps.deep_view();
                &&& r is Ok ==> ({
                    let q = r->Ok_0;
                    &&& q.wf()
                    &&& q.types == p.types
                    &&& q.subshell_comm == p.subshell_comm
                    &&& q.steps@.len() == p.steps@.len()
                    &&& forall|i: int|
                        0 <= i < sd.len() ==> stage_redirected(
                            #[trigger] sd[i],
                            p.ioe_descriptors@[i],
                            q.steps.deep_view()[i],
                            q.ioe_descriptors@[i],
                        )
                })
                &&& (forall|i: int| 0 <= i < sd.len() ==> redir_none(#[trigger] sd[i])) ==> r
                    is Ok
                &&& r is Err ==> exists|i: int|
                    0 <= i < sd.len() && !redir_none(#[trigger] sd[i])
                &&& forall|i: int|
                    0 <= i < sd.len() && #[trigger] redir_syntax_err(sd[i]) && (forall|j: int|
                        0 <= j < i ==> redir_none(#[trigger] sd[j])) ==> r is Err && r->Err_0@
                        == "syntax error"@
                &&& forall|i: int|
                    0 <= i < sd.len() && #[trigger] redir_parse_err(sd[i]) && (forall|j: int|
                        0 <= j < i ==> redir_none(#[trigger] sd[j])) ==> r is Err && r->Err_0@
                        == "parse error"@
            }),
    {
        let ghost sd = p.steps.deep_view();
        let ghost io0 = p.ioe_descriptors@;
        let n = p.steps.len();
        let mut new_steps: Vec<Vec<String>> = Vec::new();
        let mut new_ioe: Vec<DescTriple> = Vec::new();
        let mut i: usize = 0;
        while i < n
            invariant
                p.wf(),
                n == p.steps@.len(),
                sd == p.steps.deep_view(),
                io0 == p.ioe_descriptors@,
                sd.len() == n,
                io0.len() == n,
                i <= n,
                new_steps@.len() == i,
                new_ioe@.len() == i,
                forall|k: int|
                    0 <= k < i ==> stage_redirected(
                        #[trigger] sd[k],
                        io0[k],
                        new_steps.deep_view()[k],
                        new_ioe@[k],
                    ),
            decreases n - i,
        {
            proof {
                assert(p.steps.deep_view()[i as int] == p.steps@[i as int].deep_view());
            }
            let plan_opt = match resolve_stage_redirection(&p.steps[i]) {
                Ok(v) => v,
                Err(e) => {
                    proof {
                        assert(!redir_none(sd[i as int]));
                        assert forall|ii: int|
                            0 <= ii < sd.len() && (redir_syntax_err(sd[ii]) || redir_parse_err(
                                sd[ii],
                            )) && (forall|j: int|
                                0 <= j < ii ==> redir_none(#[trigger] sd[j])) implies ii
                            == i as int by {
                            if ii < i as int {
                                assert(stage_redirected(
                                    sd[ii],
                                    io0[ii],
                                    new_steps.deep_view()[ii],
                                    new_ioe@[ii],
                                ));
                            }
                            if ii > i as int {
                                assert(redir_none(sd[i as int]));
                            }
                        }
                    }
                    return Err(e);
                },
            };
            let ghost old_ns = new_steps.deep_view();
            match plan_opt {
                None => {
                    let stage_len = p.steps[i].len();
                    let copy = take_prefix(&p.steps[i], stage_len);
                    proof {
                        assert(copy.deep_view() =~~= sd[i as int]);
                    }
                    new_steps.push(copy);
                    new_ioe.push(p.ioe_descriptors[i]);
                    proof {
                        assert(new_steps.deep_view() =~~= old_ns.push(sd[i as int]));
                        assert(stage_redirected(
                            sd[i as int],
                            io0[i as int],
                            new_steps.deep_view()[i as int],
                            new_ioe@[i as int],
                        ));
                    }
                },
                Some(plan) => {
                    proof {
                        assert(redir_ok(sd[i as int]));
                        assert(!redir_none(sd[i as int]));
                        assert forall|ii: int|
                            0 <= ii < sd.len() && (forall|j: int|
                                0 <= j < ii ==> redir_none(#[trigger] sd[j])) implies
                            !redir_syntax_err(sd[ii]) && !redir_parse_err(sd[ii]) by {
                            if ii < i as int {
                                assert(stage_redirected(
                                    sd[ii],
                                    io0[ii],
                                    new_steps.deep_view()[ii],
                                    new_ioe@[ii],
                                ));
                            }
                            if ii > i as int {
                                assert(redir_none(sd[i as int]));
                            }
                        }
                    }
                    let fd_res = if plan.read {
                        crate::myshell::os::os_open_read(&plan.filename)
                    } else {
                        crate::myshell::os::os_open_trunc(&plan.filename)
                    };
                    let fd = match fd_res {
                        Ok(fd) => fd,
                        Err(e) => {
                            return Err(e);
                        },
                    };
                    proof {
                        lemma_redir_slots_bounds(sd[i as int]);
                    }
                    let (newt, closes) = apply_redirection(
                        &p.ioe_descriptors[i],
                        &plan.slots,
                        fd,
                    );
                    let mut ci: usize = 0;
                    while ci < closes.len()
                        invariant
                            sd == p.steps.deep_view(),
                            0 <= i < sd.len(),
                            !redir_none(sd[i as int]),
                            ci <= closes@.len(),
                            forall|ii: int|
                                0 <= ii < sd.len() && (forall|j: int|
                                    0 <= j < ii ==> redir_none(#[trigger] sd[j])) ==> !(
                                #[trigger] redir_syntax_err(sd[ii])) && !redir_parse_err(sd[ii]),
                        decreases closes@.len() - ci,
                    {
                        match crate::myshell::os::os_close(closes[ci]) {
                            Ok(_) => {},
                            Err(_) => {
                                return Err(
                                    String::from_str("file descriptor close was unsuccsessful"),
                                );
                            },
                        }
                        ci = ci + 1;
                    }
                    new_steps.push(plan.remaining);
                    new_ioe.push(newt);
                    proof {
                        assert(new_steps.deep_view() =~~= old_ns.push(
                            redir_remaining(sd[i as int]),
                        ));
                        assert(new_ioe@[i as int] == apply_slots(
                            io0[i as int],
                            redir_slots(sd[i as int]),
                            fd,
                        ));
                        assert(fd >= 0);
                        assert(stage_redirected(
                            sd[i as int],
                            io0[i as int],
                            new_steps.deep_view()[i as int],
                            new_ioe@[i as int],
                        ));
                    }
                },
            }
            proof {
                assert forall|k: int|
                    0 <= k < i + 1 implies stage_redirected(
                    #[trigger] sd[k],
                    io0[k],
                    new_steps.deep_view()[k],
                    new_ioe@[k],
                ) by {
                    if k < i {
                        assert(new_steps.deep_view()[k] == old_ns[k]);
                        assert(stage_redirected(sd[k], io0[k], old_ns[k], new_ioe@[k]));
                    }
                }
            }
            i = i + 1;
        }
        proof {
            assert forall|ii: int| 0 <= ii < sd.len() implies !redir_syntax_err(sd[ii])
                && !redir_parse_err(sd[ii]) by {
                assert(stage_redirected(
                    sd[ii],
                    io0[ii],
                    new_steps.deep_view()[ii],
                    new_ioe@[ii],
                ));
            }
        }
        let q = Pipeline {
            steps: new_steps,
            ioe_descriptors: new_ioe,
            types: p.types,
            subshell_comm: p.subshell_comm,
        };
        proof {
            assert(q.wf());
        }
        Ok(q)
    }
}

/// The characters that end a variable name (and trigger other scanner
/// behaviour): `$`, space, single quote, double quote.
pub open spec fn is_special(c: char) -> bool {
    c == '$' || c == ' ' || c == '\'' || c == '"'
}

/// How many characters of a variable name start at `from`: the run of
/// non-special characters.
pub open spec fn name_len(t: Seq<char>, from: int) -> nat
    decreases t.len() - from,
{
    if from < 0 || from >= t.len() {
        0
    } else if is_special(t[from]) {
        0
    } else {
        1 + name_len(t, from + 1)
    }
}

/// The position just past the variable name that starts at `from`.
pub open spec fn name_end(t: Seq<char>, from: int) -> int {
    let j = from + name_len(t, from);
    if j > t.len() {
        t.len() as int
    } else {
        j
    }
}

pub proof fn lemma_name_len_bound(t: Seq<char>, from: int)
    requires
        0 <= from <= t.len(),
    ensures
        from + name_len(t, from) <= t.len(),
        name_end(t, from) == from + name_len(t, from),
    decreases t.len() - from,
{
    if from < t.len() && !is_special(t[from]) {
        lemma_name_len_bound(t, from + 1);
    }
}

/// What a `$name` reference stands for: the local-variable table is
/// consulted first, then the environment; an unresolved name becomes the
/// empty string.
pub open spec fn resolve_var(
    locals: Map<Seq<char>, Seq<char>>,
    envs: Map<Seq<char>, Seq<char>>,
    name: Seq<char>,
) -> Seq<char> {
    if locals.contains_key(name) {
        locals[name]
    } else if envs.contains_key(name) {
        envs[name]
    } else {
        Seq::empty()
    }
}

/// The substituted remainder of token `t` from position `i` on, with the
/// given quote state.  A backslash emits the next character literally (a
/// trailing lone backslash is dropped); an unescaped single quote flips
/// the substitution flag and is not copied; double quotes are stripped; an
/// enabled `$` not followed by `(` substitutes the variable named by the
/// following non-special run; everything else is copied.
pub open spec fn subst_from(
    t: Seq<char>,
    locals: Map<Seq<char>, Seq<char>>,
    envs: Map<Seq<char>, Seq<char>>,
    i: int,
    enabled: bool,
) -> Seq<char>
    decreases t.len() - i,
{
    if i < 0 || i >= t.len() {
        Seq::empty()
    } else if t[i] == '\\' {
        if i != t.len() - 1 {
            seq![t[i + 1]] + subst_from(t, locals, envs, i + 2, enabled)
        } else {
            subst_from(t, locals, envs, i + 1, enabled)
        }
    } else if t[i] == '\'' {
        subst_from(t, locals, envs, i + 1, !enabled)
    } else if t[i] == '$' && enabled && i != t.len() - 1 && t[i + 1] != '(' {
        let j = name_end(t, i + 1);
        resolve_var(locals, envs, t.subrange(i + 1, j)) + subst_from(t, locals, envs, j, enabled)
    } else if t[i] == '"' {
        subst_from(t, locals, envs, i + 1, enabled)
    } else {
        seq![t[i]] + subst_from(t, locals, envs, i + 1, enabled)
    }
}

/// The fully substituted form of one token.
pub open spec fn subst_token_spec(
    t: Seq<char>,
    locals: Map<Seq<char>, Seq<char>>,
    envs: Map<Seq<char>, Seq<char>>,
) -> Seq<char> {
    subst_from(t, locals, envs, 0, true)
}

/// Whether `c` ends a variable name.
fn is_special_char(c: char) -> (r: bool)
    ensures
        r == is_special(c),
{
    c == '$' || c == ' ' || c == '\'' || c == '"'
}

impl MyShell {
    /// Substitutes `$name` references in one token against the shell's
    /// local variables first and its environment second, applying the
    /// escape and quote rules of the scanner.
    pub fn substitute_token(&self, token: &str) -> (r: String)
        ensures
            r@ == subst_token_spec(token@, self.local_vars@, self.env_vars@),
    {
        let ghost lm = self.local_vars@;
        let ghost em = self.env_vars@;
        let n = token.unicode_len();
        let mut out = String::new();
        let mut i: usize = 0;
        let mut enabled: bool = true;
        proof {
            assert(Seq::<char>::empty() + subst_from(token@, lm, em, 0, true) =~= subst_from(
                token@,
                lm,
                em,
                0,
                true,
            ));
        }
        while i < n
            invariant
                n == token@.len(),
                i <= n,
                lm == self.local_vars@,
                em == self.env_vars@,
                subst_from(token@, lm, em, 0, true) == out@ + subst_from(
                    token@,
                    lm,
                    em,
                    i as int,
                    enabled,
                ),
            decreases n - i,
        {
            let ghost old_out = out@;
            let ghost old_i = i as int;
            let ghost old_enabled = enabled;
            let c = token.get_char(i);
            if c == '\\' {
                if i != n - 1 {
                    out.push(token.get_char(i + 1));
                    proof {
                        assert(out@ + subst_from(token@, lm, em, old_i + 2, enabled) =~= old_out
                            + (seq![token@[old_i + 1]] + subst_from(
                            token@,
                            lm,
                            em,
                            old_i + 2,
                            enabled,
                        )));
                    }
                    i = i + 2;
                } else {
                    i = i + 1;
                }
            } else if c == '\'' {
                enabled = !enabled;
                i = i + 1;
            } else if c == '$' && enabled && i != n - 1 && token.get_char(i + 1) != '(' {
                let mut j = i + 1;
                proof {
                    lemma_name_len_bound(token@, i + 1 as int);
                }
                while j < n && !is_special_char(token.get_char(j))
                    invariant
                        n == token@.len(),
                        i + 1 <= j <= n,
                        name_len(token@, i + 1 as int) == j - i - 1 + name_len(token@, j as int),
                    decreases n - j,
                {
                    j = j + 1;
                }
                proof {
                    if j < n {
                        assert(is_special(token@[j as int]));
                        assert(name_len(token@, j as int) == 0);
                    } else {
                        assert(name_len(token@, j as int) == 0);
                    }
                    lemma_name_len_bound(token@, i + 1 as int);
                    assert(name_end(token@, i + 1 as int) == j);
                }
                let name = token.substring_char(i + 1, j);
                let ghost resolved = resolve_var(lm, em, token@.subrange(i + 1 as int, j as int));
                match self.local_vars.get(name) {
                    Some(v) => {
                        out.append(v.as_str());
                        proof {
                            assert(out@ == old_out + resolved);
                        }
                    },
                    None => {
                        match self.env_vars.get(name) {
                            Some(v) => {
                                out.append(v.as_str());
                                proof {
                                    assert(out@ == old_out + resolved);
                                }
                            },
                            None => {
                                proof {
                                    assert(resolved =~= Seq::<char>::empty());
                                    assert(out@ =~= old_out + resolved);
                                }
                            },
                        }
                    },
                }
                proof {
                    assert(out@ + subst_from(token@, lm, em, j as int, enabled) =~= old_out
                        + (resolved + subst_from(token@, lm, em, j as int, enabled)));
                }
                i = j;
            } else if c == '"' {
                i = i + 1;
            } else {
                out.push(c);
                proof {
                    assert(out@ + subst_from(token@, lm, em, old_i + 1, enabled) =~= old_out + (seq![
                        token@[old_i],
                    ] + subst_from(token@, lm, em, old_i + 1, enabled)));
                }
                i = i + 1;
            }
        }
        proof {
            assert(subst_from(token@, lm, em, n as int, enabled) =~= Seq::<char>::empty());
            assert(out@ + Seq::<char>::empty() =~= out@);
        }
        out
    }

    /// Substitutes variables in every token of the command, threading an
    /// upstream error through untouched.
    pub fn substitute_vars_rem_parenth(&self, command: Result<Vec<String>, String>) -> (r: Result<
        Vec<String>,
        String,
    >)
        ensures
            command is Err ==> r == command,
            command is Ok ==> r is Ok && ({
                let dv = command->Ok_0.deep_view();
                let rv = r->Ok_0.deep_view();
                &&& rv.len() == dv.len()
                &&& forall|k: int|
                    0 <= k < dv.len() ==> #[trigger] rv[k] == subst_token_spec(
                        dv[k],
                        self.local_vars@,
                        self.env_vars@,
                    )
            }),
    {
        let command = match command {
            Ok(c) => c,
            Err(e) => {
                return Err(e);
            },
        };
        let mut result: Vec<String> = Vec::new();
        let mut i: usize = 0;
        while i < command.len()
            invariant
                i <= command@.len(),
                result@.len() == i,
                forall|k: int|
                    0 <= k < i ==> #[trigger] result.deep_view()[k] == subst_token_spec(
                        command.deep_view()[k],
                        self.local_vars@,
                        self.env_vars@,
                    ),
            decreases command@.len() - i,
        {
            let ghost old_dv = result.deep_view();
            let t = self.substitute_token(command[i].as_str());
            result.push(t);
            proof {
                assert(result.deep_view() =~~= old_dv.push(t@));
                assert(command.deep_view()[i as int] == command@[i as int]@);
            }
            i = i + 1;
        }
        Ok(result)
    }
}

/// The names of the shell's builtin commands.
pub open spec fn internal_names() -> Seq<Seq<char>> {
    seq!["merrno"@, "mpwd"@, "mcd"@, "."@, "mecho"@, "mexport"@, "alias"@, "mexit"@]
}

/// The classification of one stage: `Internal` when its first token is a
/// builtin name, `LocalVar` when its single token holds `=`, `External`
/// otherwise.
pub open spec fn classify_stage(stage: Seq<Seq<char>>) -> CommandType {
    if contains_token(internal_names(), stage[0]) {
        CommandType::Internal
    } else if stage.len() == 1 && stage[0].contains('=') {
        CommandType::LocalVar
    } else {
        CommandType::External
    }
}

/// Whether `name` is one of the builtin command names.
fn is_internal_cmd(name: &str) -> (r: bool)
    ensures
        r == contains_token(internal_names(), name@),
{
    if str_eq(name, "merrno") || str_eq(name, "mpwd") || str_eq(name, "mcd") || str_eq(name, ".")
        || str_eq(name, "mecho") || str_eq(name, "mexport") || str_eq(name, "alias") || str_eq(
        name,
        "mexit",
    ) {
        proof {
            assert(exists|k: int|
                0 <= k < internal_names().len() && #[trigger] internal_names()[k] == name@) by {
                if name@ == "merrno"@ {
                    assert(internal_names()[0] == name@);
                } else if name@ == "mpwd"@ {
                    assert(internal_names()[1] == name@);
                } else if name@ == "mcd"@ {
                    assert(internal_names()[2] == name@);
                } else if name@ == "."@ {
                    assert(internal_names()[3] == name@);
                } else if name@ == "mecho"@ {
                    assert(internal_names()[4] == name@);
                } else if name@ == "mexport"@ {
                    assert(internal_names()[5] == name@);
                } else if name@ == "alias"@ {
                    assert(internal_names()[6] == name@);
                } else {
                    assert(internal_names()[7] == name@);
                }
            }
        }
        true
    } else {
        proof {
            assert forall|k: int|
                0 <= k < internal_names().len() implies #[trigger] internal_names()[k]
                != name@ by {
                if k == 0 {
                    assert(internal_names()[0] == "merrno"@);
                } else if k == 1 {
                    assert(internal_names()[1] == "mpwd"@);
                } else if k == 2 {
                    assert(internal_names()[2] == "mcd"@);
                } else if k == 3 {
                    assert(internal_names()[3] == "."@);
                } else if k == 4 {
                    assert(internal_names()[4] == "mecho"@);
                } else if k == 5 {
                    assert(internal_names()[5] == "mexport"@);
                } else if k == 6 {
                    assert(internal_names()[6] == "alias"@);
                } else {
                    assert(internal_names()[7] == "mexit"@);
                }
            }
        }
        false
    }
}

impl MyShell {
    /// Labels every stage `Internal`, `LocalVar` or `External` from its
    /// first token and its token count; nothing else about the pipeline
    /// changes.  Every stage must already have at least one token.
    pub fn mark_command_types(&self, p: Pipeline) -> (r: Pipeline)
        requires
            p.wf(),
            forall|i: int| 0 <= i < p.steps@.len() ==> (#[trigger] p.steps@[i]@).len() > 0,
        ensures
            r.wf(),
            r.steps == p.steps,
            r.ioe_descriptors == p.ioe_descriptors,
            r.subshell_comm == p.subshell_comm,
            r.types@.len() == p.steps@.len(),
            forall|i: int|
                0 <= i < p.steps@.len() ==> #[trigger] r.types@[i] == classify_stage(
                    p.steps.deep_view()[i],
                ),
    {
        let ghost sd = p.steps.deep_view();
        let n = p.steps.len();
        let mut new_types: Vec<CommandType> = Vec::new();
        let mut i: usize = 0;
        while i < n
            invariant
                p.wf(),
                forall|k: int| 0 <= k < p.steps@.len() ==> (#[trigger] p.steps@[k]@).len() > 0,
                sd == p.steps.deep_view(),
                n == p.steps@.len(),
                i <= n,
                new_types@.len() == i,
                forall|k: int|
                    0 <= k < i ==> #[trigger] new_types@[k] == classify_stage(sd[k]),
            decreases n - i,
        {
            let stage = &p.steps[i];
            proof {
                assert(sd[i as int] == stage.deep_view());
                assert(stage.deep_view()[0] == stage@[0]@);
            }
            let t = if is_internal_cmd(stage[0].as_str()) {
                CommandType::Internal
            } else if stage.len() == 1 && crate::text::str_contains_char(stage[0].as_str(), '=') {
                CommandType::LocalVar
            } else {
                CommandType::External
            };
            proof {
                assert(stage.deep_view().len() == stage@.len());
            }
            new_types.push(t);
            i = i + 1;
        }
        let mut p = p;
        p.types = new_types;
        p
    }

    /// A single-token command naming a `.msh` script gets the shell's own
    /// name prepended, so that the script is run by the shell itself; an
    /// upstream error threads through untouched.
    pub fn insert_myshell(command: Result<Vec<String>, String>) -> (r: Result<Vec<String>, String>)
        ensures
            command is Err ==> r == command,
            command is Ok ==> r is Ok && ({
                let dv = command->Ok_0.deep_view();
                if dv.len() == 1 && crate::text::seq_ends_with(dv[0], ".msh"@) {
                    r->Ok_0.deep_view() == seq!["myshell"@] + dv
                } else {
                    r->Ok_0.deep_view() == dv
                }
            }),
    {
        let mut command = match command {
            Ok(c) => c,
            Err(e) => {
                return Err(e);
            },
        };
        proof {
            if command@.len() > 0 {
                assert(command.deep_view()[0] == command@[0]@);
            }
        }
        if command.len() == 1 && crate::text::str_ends_with(command[0].as_str(), ".msh") {
            let ghost old_dv = command.deep_view();
            command.insert(0, String::from_str("myshell"));
            proof {
                assert(command.deep_view() =~~= seq!["myshell"@] + old_dv);
            }
        }
        Ok(command)
    }

    /// Alias expansion is not implemented: the command passes through
    /// unchanged, errors included.
    pub fn substitute_aliases(&self, command: Result<Vec<String>, String>) -> (r: Result<
        Vec<String>,
        String,
    >)
        ensures
            r == command,
    {
        command
    }
}

impl MyShell {
    /// Partitions the token sequence into stages at every `|` token and
    /// allocates one OS pipe between each adjacent pair of stages, wiring
    /// the read end of each pipe to the next stage's stdin and its write
    /// end to the previous stage's stdout.  A single-stage pipeline gets
    /// the shell's own standard streams.  Every stage is provisionally
    /// `External`; the classifier runs later.  A pipe allocation failure
    /// aborts the build with the OS error message.
    pub fn preprocess_pipeline(commands: Vec<String>) -> (r: Result<Pipeline, String>)
        ensures
            r is Ok ==> ({
                let p = r->Ok_0;
                &&& p.wf()
                &&& p.steps.deep_view() == stage_split(commands.deep_view())
                &&& p.steps@.len() >= 1
                &&& forall|k: int|
                    0 <= k < p.types@.len() ==> #[trigger] p.types@[k] == CommandType::External
                &&& forall|k: int|
                    0 <= k < p.subshell_comm@.len() ==> #[trigger] p.subshell_comm@[k]@.len() == 0
                &&& exists|pf: Seq<(i32, i32)>|
                    wired(p.ioe_descriptors@, pf) && (forall|k: int|
                        0 <= k < pf.len() ==> #[trigger] pf[k].0 >= 0 && pf[k].1 >= 0)
            }),
            stage_split(commands.deep_view()).len() == 1 ==> r is Ok,
            r is Err ==> stage_split(commands.deep_view()).len() > 1,
    {
        let steps = split_stages(&commands);
        let n = steps.len();
        proof {
            lemma_stage_split_len(commands.deep_view());
            assert(steps.deep_view().len() == steps@.len());
        }
        let mut pfds: Vec<(i32, i32)> = Vec::new();
        let mut i: usize = 0;
        while i < n - 1
            invariant
                n >= 1,
                n as int == stage_split(commands.deep_view()).len(),
                i <= n - 1,
                pfds@.len() == i,
                forall|k: int| 0 <= k < i ==> #[trigger] pfds@[k].0 >= 0 && pfds@[k].1 >= 0,
            decreases n - 1 - i,
        {
            match os_pipe() {
                Ok(p) => {
                    pfds.push(p);
                },
                Err(e) => {
                    return Err(e);
                },
            }
            i = i + 1;
        }
        let ioe_descriptors = wire_stages(n, &pfds);
        let mut types: Vec<CommandType> = Vec::new();
        let mut subshell_comm: Vec<Vec<(usize, Vec<(usize, usize)>)>> = Vec::new();
        let mut i: usize = 0;
        while i < n
            invariant
                i <= n,
                types@.len() == i,
                subshell_comm@.len() == i,
                forall|k: int| 0 <= k < i ==> #[trigger] types@[k] == CommandType::External,
                forall|k: int| 0 <= k < i ==> #[trigger] subshell_comm@[k]@.len() == 0,
            decreases n - i,
        {
            types.push(CommandType::External);
            subshell_comm.push(Vec::new());
            i = i + 1;
        }
        let p = Pipeline { steps, ioe_descriptors, types, subshell_comm };
        proof {
            assert(wired(p.ioe_descriptors@, pfds@));
        }
        Ok(p)
    }
}

/// The tokens of a trimmed, comment-free line.
pub open spec fn line_tokens(t: Seq<char>) -> Seq<Seq<char>> {
    split_tokens(t, line_regions(t))
}

/// Whether grouping these tokens into stages leaves some stage with no
/// tokens at all, as in `cmd1 | | cmd2`.
fn tokens_have_empty_stage(commands: &Vec<String>) -> (r: bool)
    ensures
        r == (exists|i: int|
            0 <= i < stage_split(commands.deep_view()).len() && (#[trigger] stage_split(
                commands.deep_view(),
            )[i]).len() == 0),
{
    let stages = split_stages(commands);
    let ghost ss = stage_split(commands.deep_view());
    let mut i: usize = 0;
    while i < stages.len()
        invariant
            ss == stage_split(commands.deep_view()),
            stages.deep_view() == ss,
            stages@.len() == ss.len(),
            i <= ss.len(),
            forall|k: int| 0 <= k < i ==> (#[trigger] ss[k]).len() != 0,
        decreases ss.len() - i,
    {
        proof {
            assert(ss[i as int].len() == stages@[i as int].deep_view().len());
        }
        if stages[i].is_empty() {
            proof {
                assert(stage_split(commands.deep_view())[i as int].len() == 0);
            }
            return true;
        }
        i = i + 1;
    }
    false
}

/// The stages of a trimmed, comment-free line.
pub open spec fn line_stages(t: Seq<char>) -> Seq<Seq<Seq<char>>> {
    stage_split(line_tokens(t))
}

/// A stage's tokens once its redirection (if any) has been resolved away.
pub open spec fn after_redirections(stage: Seq<Seq<char>>) -> Seq<Seq<char>> {
    if redir_none(stage) {
        stage
    } else {
        redir_remaining(stage)
    }
}

/// A stage's final argument tokens: redirections removed, every token
/// substituted, and the shell's own name prepended to a lone `.msh` script
/// token.
pub open spec fn stage_final(
    stage: Seq<Seq<char>>,
    locals: Map<Seq<char>, Seq<char>>,
    envs: Map<Seq<char>, Seq<char>>,
) -> Seq<Seq<char>> {
    let a = after_redirections(stage);
    let s = Seq::new(a.len(), |k: int| subst_token_spec(a[k], locals, envs));
    if s.len() == 1 && crate::text::seq_ends_with(s[0], ".msh"@) {
        seq!["myshell"@] + s
    } else {
        s
    }
}

impl MyShell {
    /// Turns one raw input line into a fully resolved pipeline: comments
    /// are stripped, the line is trimmed and tokenized, stages are built
    /// and wired with pipes, subshell spans are recorded, redirections are
    /// resolved, every token has its variables substituted, and each stage
    /// is classified.  A blank line yields no pipeline; unbalanced quotes
    /// or subshells, a malformed redirection, an empty stage or an OS
    /// failure abort the line with a message.
    pub fn prepare_line(&self, line: &str) -> (r: Result<Option<Pipeline>, String>)
        ensures
            ({
                let trimmed = trim_spec(line@.take(comment_start(line@, 0)));
                let stages = line_stages(trimmed);
                &&& (r is Ok && r->Ok_0 is None) == (trimmed.len() == 0)
                &&& (trimmed.len() > 0 && !line_balanced(trimmed)) ==> r is Err && r->Err_0@
                    == "myshell: parse error"@
                &&& (trimmed.len() > 0 && line_balanced(trimmed) && stages.len() == 1
                    && stages[0].len() > 0 && redir_none(stages[0]) && (forall|j: int|
                    0 <= j < stages[0].len() ==> subshell_balanced(#[trigger] stages[0][j])))
                    ==> r is Ok && r->Ok_0 is Some
                &&& (trimmed.len() > 0 && line_balanced(trimmed) && (exists|i: int|
                    0 <= i < stages.len() && (#[trigger] stages[i]).len() == 0)) ==> r is Err
                    && r->Err_0@ == "syntax error"@
                &&& (trimmed.len() > 0 && line_balanced(trimmed) && stages.len() == 1
                    && redir_syntax_err(stages[0]) && (forall|j: int|
                    0 <= j < stages[0].len() ==> subshell_balanced(#[trigger] stages[0][j])))
                    ==> r is Err && r->Err_0@ == "syntax error"@
                &&& (trimmed.len() > 0 && line_balanced(trimmed) && stages.len() == 1
                    && redir_parse_err(stages[0]) && (forall|j: int|
                    0 <= j < stages[0].len() ==> subshell_balanced(#[trigger] stages[0][j])))
                    ==> r is Err && r->Err_0@ == "parse error"@
                &&& (r is Ok && r->Ok_0 is Some) ==> ({
                    let p = r->Ok_0->0;
                    &&& p.wf()
                    &&& line_balanced(trimmed)
                    &&& p.steps@.len() == stages.len()
                    &&& forall|i: int|
                        0 <= i < stages.len() ==> #[trigger] p.steps.deep_view()[i] == stage_final(
                            stages[i],
                            self.local_vars@,
                            self.env_vars@,
                        )
                    &&& forall|i: int|
                        0 <= i < stages.len() ==> #[trigger] p.types@[i] == classify_stage(
                            stage_final(stages[i], self.local_vars@, self.env_vars@),
                        )
                    &&& forall|i: int|
                        0 <= i < stages.len() ==> after_redirections(#[trigger] stages[i]).len()
                            > 0
                })
            }),
    {
        let ghost lm = self.local_vars@;
        let ghost em = self.env_vars@;
        let stripped = MyShell::preprocess_comments(line);
        let trimmed = trim_spaces(stripped);
        let ghost tr = trim_spec(line@.take(comment_start(line@, 0)));
        proof {
            assert(trimmed@ == tr);
        }
        if trimmed.unicode_len() == 0 {
            return Ok(None);
        }
        let tokens = match MyShell::split_command(trimmed) {
            Ok(t) => t,
            Err(e) => {
                return Err(String::from_str(e));
            },
        };
        let ghost stages = line_stages(tr);
        proof {
            assert(tokens.deep_view() == line_tokens(tr));
            assert(stage_split(tokens.deep_view()) == stages);
        }
        if tokens_have_empty_stage(&tokens) {
            proof {
                let w = choose|ii: int|
                    0 <= ii < stage_split(tokens.deep_view()).len() && (#[trigger] stage_split(
                        tokens.deep_view(),
                    )[ii]).len() == 0;
                assert(0 <= w < stages.len() && stages[w].len() == 0);
                assert(exists|ii: int|
                    0 <= ii < stages.len() && (#[trigger] stages[ii]).len() == 0);
                if stages.len() == 1 && (redir_parse_err(stages[0]) || redir_syntax_err(
                    stages[0],
                )) {
                    assert(w == 0);
                    lemma_found_key_range(stages[0], 0);
                    assert(contains_token(stages[0], redirection_keys()[found_key(stages[0])]));
                    assert(stages[0].len() > 0);
                    assert(false);
                }
            }
            return Err(String::from_str("syntax error"));
        }
        let p = match MyShell::preprocess_pipeline(tokens) {
            Ok(p) => p,
            Err(e) => {
                return Err(e);
            },
        };
        proof {
            assert(p.steps.deep_view() == stages);
        }
        let p = match MyShell::preprocess_subshells(p) {
            Ok(p) => p,
            Err(e) => {
                return Err(e);
            },
        };
        let ghost sd1 = p.steps.deep_view();
        let p = match MyShell::preprocess_redirections(p) {
            Ok(p) => p,
            Err(e) => {
                return Err(e);
            },
        };
        proof {
            assert forall|i: int| 0 <= i < stages.len() implies #[trigger] p.steps.deep_view()[i]
                == after_redirections(stages[i]) by {
                assert(sd1[i] == stages[i]);
            }
        }
        if p.has_empty_stage() {
            return Err(String::from_str("syntax error"));
        }
        let ghost sd2 = p.steps.deep_view();
        let n = p.steps.len();
        let mut new_steps: Vec<Vec<String>> = Vec::new();
        let mut i: usize = 0;
        while i < n
            invariant
                lm == self.local_vars@,
                em == self.env_vars@,
                n == p.steps@.len(),
                sd2 == p.steps.deep_view(),
                sd2.len() == n,
                i <= n,
                new_steps@.len() == i,
                forall|k: int| 0 <= k < n ==> (#[trigger] sd2[k]).len() > 0,
                forall|k: int|
                    0 <= k < i ==> (#[trigger] new_steps.deep_view()[k]).len() > 0,
                forall|k: int|
                    0 <= k < i ==> #[trigger] new_steps.deep_view()[k] == ({
                        let s = Seq::new(sd2[k].len(), |j: int| subst_token_spec(sd2[k][j], lm, em));
                        if s.len() == 1 && crate::text::seq_ends_with(s[0], ".msh"@) {
                            seq!["myshell"@] + s
                        } else {
                            s
                        }
                    }),
            decreases n - i,
        {
            let stage_len = p.steps[i].len();
            let copy = take_prefix(&p.steps[i], stage_len);
            proof {
                assert(copy.deep_view() =~~= sd2[i as int]);
            }
            let substituted = match self.substitute_vars_rem_parenth(Ok(copy)) {
                Ok(v) => v,
                Err(e) => {
                    return Err(e);
                },
            };
            proof {
                assert(substituted.deep_view() =~~= Seq::new(
                    sd2[i as int].len(),
                    |j: int| subst_token_spec(sd2[i as int][j], lm, em),
                ));
            }
            let inserted = match MyShell::insert_myshell(Ok(substituted)) {
                Ok(v) => v,
                Err(e) => {
                    return Err(e);
                },
            };
            let ghost old_dv = new_steps.deep_view();
            new_steps.push(inserted);
            proof {
                assert(new_steps.deep_view() =~~= old_dv.push(inserted.deep_view()));
            }
            i = i + 1;
        }
        let mut p = p;
        p.steps = new_steps;
        proof {
            assert forall|k: int| 0 <= k < p.steps@.len() implies (#[trigger] p.steps@[k]@).len()
                > 0 by {
                assert(p.steps.deep_view()[k].len() == p.steps@[k]@.len());
            }
        }
        let p = self.mark_command_types(p);
        proof {
            assert forall|k: int| 0 <= k < stages.len() implies #[trigger] p.steps.deep_view()[k]
                == stage_final(stages[k], lm, em) by {
                assert(p.steps.deep_view()[k] == ({
                    let s = Seq::new(sd2[k].len(), |j: int| subst_token_spec(sd2[k][j], lm, em));
                    if s.len() == 1 && crate::text::seq_ends_with(s[0], ".msh"@) {
                        seq!["myshell"@] + s
                    } else {
                        s
                    }
                }));
                assert(sd2[k] == after_redirections(stages[k]));
            }
        }
        Ok(Some(p))
    }
}

impl MyShell {
    /// The line up to (but not including) its first unescaped `#`; the
    /// whole line when it has none.  A backslash consumes the following
    /// character as a unit — the same escape rule the variable scanner
    /// applies — so a `#` right after a backslash begins no comment.
    pub fn preprocess_comments<'a>(line: &'a str) -> (r: &'a str)
        ensures
            r@ == line@.take(comment_start(line@, 0)),
    {
        let n = line.unicode_len();
        let mut i: usize = 0;
        loop
            invariant
                n == line@.len(),
                i <= n,
                comment_start(line@, 0) == comment_start(line@, i as int),
            decreases n - i,
        {
            if i >= n {
                proof {
                    assert(comment_start(line@, i as int) == n);
                    assert(line@.subrange(0, n as int) =~= line@.take(n as int));
                }
                return line.substring_char(0, n);
            }
            let c = line.get_char(i);
            if c == '#' {
                proof {
                    assert(comment_start(line@, i as int) == i);
                    assert(line@.subrange(0, i as int) =~= line@.take(i as int));
                }
                return line.substring_char(0, i);
            }
            if c == '\\' {
                proof {
                    assert(comment_start(line@, i as int) == comment_start(line@, i + 2 as int));
                    if i + 1 == n {
                        assert(comment_start(line@, i + 1 as int) == n);
                        assert(comment_start(line@, i + 2 as int) == n);
                    }
                }
                i = i + 1;
                if i < n {
                    i = i + 1;
                }
            } else {
                i = i + 1;
            }
        }
    }
}

} // verus!
