//! Decisions the execution engine makes before and after any process runs:
//! the order in which stages are dispatched (all externals before any
//! in-process stage, so a pipe writer never runs before its reader exists),
//! the search for a binary along the path list, the background marker, and
//! the aggregation of the stages' exit statuses.

use crate::myshell::CommandType;
use crate::text::{split_on, str_eq};
use vstd::prelude::*;
use vstd::string::StringExecFns;

verus! {

/// The status of the first stage that failed, or 0 when every stage
/// succeeded.
pub open spec fn first_nonzero_status(s: Seq<i32>) -> i32
    decreases s.len(),
{
    if s.len() == 0 {
        0i32
    } else if s[0] != 0i32 {
        s[0]
    } else {
        first_nonzero_status(s.drop_first())
    }
}

/// The aggregate status of a pipeline follows first-nonzero semantics: the
/// reported status is that of the earliest failing stage, not the last
/// stage's.
pub fn aggregate_status(statuses: &Vec<i32>) -> (r: i32)
    ensures
        r == first_nonzero_status(statuses@),
{
    let mut i: usize = 0;
    proof {
        assert(statuses@.skip(0) =~= statuses@);
    }
    while i < statuses.len()
        invariant
            i <= statuses@.len(),
            first_nonzero_status(statuses@.skip(i as int)) == first_nonzero_status(statuses@),
        decreases statuses@.len() - i,
    {
        proof {
            assert(statuses@.skip(i as int)[0] == statuses@[i as int]);
            assert(statuses@.skip(i as int).drop_first() =~= statuses@.skip(i + 1 as int));
        }
        if statuses[i] != 0 {
            return statuses[i];
        }
        i = i + 1;
    }
    proof {
        assert(statuses@.skip(statuses@.len() as int) =~= Seq::<i32>::empty());
    }
    0
}

/// If stage `k` is the first stage with a nonzero status, the aggregate
/// status is stage `k`'s status; in particular the middle failing stage of
/// an otherwise successful pipeline decides the result.
pub proof fn lemma_first_failure_decides(s: Seq<i32>, k: int)
    requires
        0 <= k < s.len(),
        s[k] != 0,
        forall|j: int| 0 <= j < k ==> s[j] == 0,
    ensures
        first_nonzero_status(s) == s[k],
    decreases k,
{
    if k == 0 {
    } else {
        assert(s[0] == 0);
        assert(s.drop_first()[k - 1] == s[k]);
        assert(forall|j: int| 0 <= j < k - 1 ==> s.drop_first()[j] == s[j + 1]);
        lemma_first_failure_decides(s.drop_first(), k - 1);
    }
}

/// The indices of the `External` stages, in stage order.
pub open spec fn external_indices(ts: Seq<CommandType>) -> Seq<int>
    decreases ts.len(),
{
    if ts.len() == 0 {
        Seq::empty()
    } else {
        let prev = external_indices(ts.drop_last());
        if ts.last() == CommandType::External {
            prev.push(ts.len() - 1)
        } else {
            prev
        }
    }
}

/// The indices of the `Internal` and `LocalVar` stages, in stage order.
pub open spec fn in_process_indices(ts: Seq<CommandType>) -> Seq<int>
    decreases ts.len(),
{
    if ts.len() == 0 {
        Seq::empty()
    } else {
        let prev = in_process_indices(ts.drop_last());
        if ts.last() != CommandType::External {
            prev.push(ts.len() - 1)
        } else {
            prev
        }
    }
}

pub proof fn lemma_external_indices_props(ts: Seq<CommandType>)
    ensures
        forall|k: int|
            0 <= k < external_indices(ts).len() ==> 0 <= #[trigger] external_indices(ts)[k]
                < ts.len() && ts[external_indices(ts)[k]] == CommandType::External,
        forall|k: int|
            0 <= k < in_process_indices(ts).len() ==> 0 <= #[trigger] in_process_indices(ts)[k]
                < ts.len() && ts[in_process_indices(ts)[k]] != CommandType::External,
    decreases ts.len(),
{
    if ts.len() > 0 {
        lemma_external_indices_props(ts.drop_last());
        assert(forall|j: int| 0 <= j < ts.len() - 1 ==> ts.drop_last()[j] == ts[j]);
    }
}

/// The dispatch order of a pipeline: every `External` stage, in stage
/// order, then every in-process stage, in stage order.
pub fn execution_schedule(types: &Vec<CommandType>) -> (r: Vec<usize>)
    ensures
        r@.map_values(|x: usize| x as int) == external_indices(types@) + in_process_indices(
            types@,
        ),
        forall|k: int| 0 <= k < r@.len() ==> #[trigger] r@[k] < types@.len(),
{
    let n = types.len();
    let mut order: Vec<usize> = Vec::new();
    let mut i: usize = 0;
    while i < n
        invariant
            n == types@.len(),
            i <= n,
            order@.map_values(|x: usize| x as int) == external_indices(types@.take(i as int)),
            forall|k: int| 0 <= k < order@.len() ==> #[trigger] order@[k] < n,
        decreases n - i,
    {
        proof {
            assert(types@.take(i + 1 as int).drop_last() =~= types@.take(i as int));
            assert(types@.take(i + 1 as int).last() == types@[i as int]);
        }
        if types[i] == CommandType::External {
            order.push(i);
            proof {
                assert(order@.map_values(|x: usize| x as int) =~= external_indices(
                    types@.take(i + 1 as int),
                ));
            }
        }
        i = i + 1;
    }
    proof {
        assert(types@.take(n as int) =~= types@);
    }
    let ghost externals = order@;
    let mut i: usize = 0;
    while i < n
        invariant
            n == types@.len(),
            i <= n,
            order@.map_values(|x: usize| x as int) == external_indices(types@)
                + in_process_indices(types@.take(i as int)),
            forall|k: int| 0 <= k < order@.len() ==> #[trigger] order@[k] < n,
        decreases n - i,
    {
        proof {
            let t1 = types@.take(i as int);
            let t2 = types@.take(i + 1 as int);
            assert(t2.drop_last() =~= t1);
            assert(t2.last() == types@[i as int]);
            if types@[i as int] != CommandType::External {
                assert(in_process_indices(t2) == in_process_indices(t1).push(i as int));
            } else {
                assert(in_process_indices(t2) == in_process_indices(t1));
            }
        }
        if types[i] != CommandType::External {
            let ghost prev_map = order@.map_values(|x: usize| x as int);
            order.push(i);
            proof {
                assert(order@.map_values(|x: usize| x as int) =~= prev_map.push(i as int));
                assert(prev_map.push(i as int) =~= external_indices(types@) + in_process_indices(
                    types@.take(i + 1 as int),
                ));
            }
        } else {
            proof {
                assert(order@.map_values(|x: usize| x as int) =~= external_indices(types@)
                    + in_process_indices(types@.take(i + 1 as int)));
            }
        }
        i = i + 1;
    }
    proof {
        assert(types@.take(n as int) =~= types@);
    }
    order
}

/// Deadlock avoidance: in the dispatch order every `External` stage comes
/// before every in-process stage, so by the time an in-process writer runs,
/// the external reader of its pipe has already been spawned.
pub proof fn lemma_externals_dispatched_first(ts: Seq<CommandType>, order: Seq<int>)
    requires
        order == external_indices(ts) + in_process_indices(ts),
    ensures
        forall|a: int, b: int|
            0 <= a < order.len() && 0 <= b < order.len() && ts[#[trigger] order[a]]
                == CommandType::External && ts[#[trigger] order[b]] != CommandType::External ==> a
                < b,
{
    lemma_external_indices_props(ts);
    let ne = external_indices(ts).len();
    assert forall|a: int, b: int|
        0 <= a < order.len() && 0 <= b < order.len() && ts[#[trigger] order[a]]
            == CommandType::External && ts[#[trigger] order[b]] != CommandType::External implies a
        < b by {
        if a >= ne {
            assert(order[a] == in_process_indices(ts)[a - ne]);
            assert(ts[order[a]] != CommandType::External);
        }
        if b < ne {
            assert(order[b] == external_indices(ts)[b]);
            assert(ts[order[b]] == CommandType::External);
        }
    }
}

/// Strips a trailing `&` marker: returns true and removes the token when the
/// stage's last token is `&`, marking the stage to run in the background.
pub fn strip_background(command: &mut Vec<String>) -> (r: bool)
    requires
        old(command)@.len() > 0,
    ensures
        r == (old(command)@.last()@ == "&"@),
        r ==> final(command)@ == old(command)@.drop_last(),
        !r ==> final(command)@ == old(command)@,
{
    let last = command.len() - 1;
    if str_eq(command[last].as_str(), "&") {
        command.pop();
        proof {
            assert(command@ =~= old(command)@.drop_last());
        }
        true
    } else {
        false
    }
}

/// The directories an external command is resolved against: the colon
/// separated pieces of `path`, with one empty entry appended so that a
/// command named by an absolute path resolves as itself.
pub fn split_path_dirs(path: &String) -> (r: Vec<String>)
    ensures
        r.deep_view() == split_on(path@, ':').push(Seq::<char>::empty()),
{
    let mut dirs = crate::text::split_char(path.as_str(), ':');
    dirs.push(String::new());
    proof {
        assert(dirs.deep_view() =~= split_on(path@, ':').push(Seq::<char>::empty()));
    }
    dirs
}

/// The candidate path `dir + "/" + name` for every directory in `dirs`, in
/// order; the first candidate that exists on disk is the one spawned.
pub fn candidate_paths(dirs: &Vec<String>, name: &str) -> (r: Vec<String>)
    ensures
        r@.len() == dirs@.len(),
        forall|k: int|
            0 <= k < dirs@.len() ==> #[trigger] r.deep_view()[k] == dirs.deep_view()[k] + "/"@
                + name@,
{
    let mut out: Vec<String> = Vec::new();
    let mut i: usize = 0;
    while i < dirs.len()
        invariant
            i <= dirs@.len(),
            out@.len() == i,
            forall|k: int|
                0 <= k < i ==> #[trigger] out.deep_view()[k] == dirs.deep_view()[k] + "/"@ + name@,
        decreases dirs@.len() - i,
    {
        let ghost prev_dv = out.deep_view();
        let mut p = dirs[i].clone();
        p.append("/");
        p.append(name);
        proof {
            assert(p@ == dirs.deep_view()[i as int] + "/"@ + name@);
        }
        out.push(p);
        proof {
            assert(out.deep_view() =~~= prev_dv.push(p@));
        }
        i = i + 1;
    }
    out
}

/// The index of the first set flag, if any: used to pick the first existing
/// candidate binary, every earlier candidate being absent.
pub fn first_true(flags: &Vec<bool>) -> (r: Option<usize>)
    ensures
        r is Some ==> 0 <= r->0 < flags@.len() && flags@[r->0 as int] && forall|j: int|
            0 <= j < r->0 ==> !flags@[j],
        r is None ==> forall|j: int| 0 <= j < flags@.len() ==> !flags@[j],
{
    let mut i: usize = 0;
    while i < flags.len()
        invariant
            i <= flags@.len(),
            forall|j: int| 0 <= j < i ==> !flags@[j],
        decreases flags@.len() - i,
    {
        if flags[i] {
            return Some(i);
        }
        i = i + 1;
    }
    None
}

} // verus!
