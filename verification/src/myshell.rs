//! The shell's data model: the `MyShell` interpreter state, the `Pipeline`
//! built from one input line, the per-stage descriptor triple and the
//! command classification.

pub mod engine;
pub mod mcommands;
pub mod os;
pub mod preprocessing;
pub mod stability;
pub mod vars;

use crate::myshell::vars::StringMap;
use vstd::prelude::*;

verus! {

/// How one pipeline stage is executed: in-process as a builtin, as a spawned
/// external binary, or in-process as a local-variable assignment.
#[derive(Clone, Copy, Debug, PartialEq, Eq, Structural)]
pub enum CommandType {
    Internal,
    External,
    LocalVar,
}

/// The (stdin, stdout, stderr) file descriptors a stage's process or builtin
/// call will use.  The values `0`, `1` and `2` stand for the shell's own
/// standard streams; any other value is a descriptor the pipeline owns (a
/// pipe end or an opened file).
#[derive(Clone, Copy, Debug, PartialEq, Eq, Structural)]
pub struct DescTriple {
    pub stdin_fd: i32,
    pub stdout_fd: i32,
    pub stderr_fd: i32,
}

impl DescTriple {
    /// The descriptor in slot `k`: 0 is stdin, 1 is stdout, 2 is stderr.
    pub open spec fn slot(self, k: int) -> i32 {
        if k == 0 {
            self.stdin_fd
        } else if k == 1 {
            self.stdout_fd
        } else {
            self.stderr_fd
        }
    }

    /// This triple with slot `k` replaced by `fd`.
    pub open spec fn with_slot(self, k: int, fd: i32) -> DescTriple {
        if k == 0 {
            DescTriple { stdin_fd: fd, ..self }
        } else if k == 1 {
            DescTriple { stdout_fd: fd, ..self }
        } else {
            DescTriple { stderr_fd: fd, ..self }
        }
    }

    /// The triple of the shell's own standard streams.
    pub fn standard() -> (r: DescTriple)
        ensures
            r == (DescTriple { stdin_fd: 0, stdout_fd: 1, stderr_fd: 2 }),
    {
        DescTriple { stdin_fd: 0, stdout_fd: 1, stderr_fd: 2 }
    }

    pub fn get_slot(&self, k: usize) -> (r: i32)
        requires
            k < 3,
        ensures
            r == self.slot(k as int),
    {
        if k == 0 {
            self.stdin_fd
        } else if k == 1 {
            self.stdout_fd
        } else {
            self.stderr_fd
        }
    }

    pub fn set_slot(&mut self, k: usize, fd: i32)
        requires
            k < 3,
        ensures
            *final(self) == old(self).with_slot(k as int, fd),
    {
        if k == 0 {
            self.stdin_fd = fd;
        } else if k == 1 {
            self.stdout_fd = fd;
        } else {
            self.stderr_fd = fd;
        }
    }
}

/// The full set of stages derived from one input line.  `steps[i]` holds
/// stage `i`'s argument tokens, `ioe_descriptors[i]` its descriptor triple,
/// `types[i]` its classification, and `subshell_comm[i]` maps token indices
/// of stage `i` to the `$(...)` spans detected inside that token.
#[derive(Debug)]
pub struct Pipeline {
    pub steps: Vec<Vec<String>>,
    pub ioe_descriptors: Vec<DescTriple>,
    pub types: Vec<CommandType>,
    pub subshell_comm: Vec<Vec<(usize, Vec<(usize, usize)>)>>,
}

impl Pipeline {
    /// The four per-stage vectors describe the same number of stages.
    pub open spec fn wf(self) -> bool {
        &&& self.ioe_descriptors@.len() == self.steps@.len()
        &&& self.types@.len() == self.steps@.len()
        &&& self.subshell_comm@.len() == self.steps@.len()
    }

    /// Whether some stage has no tokens at all (as in `cmd1 | | cmd2`), which
    /// is a syntax error that must be reported before anything is executed.
    pub fn has_empty_stage(&self) -> (r: bool)
        ensures
            r == exists|i: int| 0 <= i < self.steps@.len() && self.steps@[i]@.len() == 0,
    {
        let mut i: usize = 0;
        while i < self.steps.len()
            invariant
                i <= self.steps@.len(),
                forall|k: int| 0 <= k < i ==> self.steps@[k]@.len() != 0,
            decreases self.steps@.len() - i,
        {
            if self.steps[i].is_empty() {
                return true;
            }
            i = i + 1;
        }
        false
    }
}

/// The interpreter's own state: the termination flag set by `mexit`, the
/// alias and local-variable tables, a mirror of the process environment
/// maintained by the embedding program, the path of the shell's executable,
/// and the status of the last interpreted line.
pub struct MyShell {
    pub time_to_exit: bool,
    pub aliases: StringMap,
    pub local_vars: StringMap,
    pub env_vars: StringMap,
    pub exec_path: String,
    pub last_exit_code: i32,
}

impl MyShell {
    /// A fresh interpreter with empty tables, not yet asked to exit, with a
    /// zero last status.  The caller supplies the path of the shell's own
    /// executable and fills `env_vars` with its view of the environment.
    pub fn new(exec_path: String) -> (r: MyShell)
        ensures
            r.time_to_exit == false,
            r.aliases@ == Map::<Seq<char>, Seq<char>>::empty(),
            r.local_vars@ == Map::<Seq<char>, Seq<char>>::empty(),
            r.env_vars@ == Map::<Seq<char>, Seq<char>>::empty(),
            r.exec_path@ == exec_path@,
            r.last_exit_code == 0,
    {
        MyShell {
            time_to_exit: false,
            aliases: StringMap::new(),
            local_vars: StringMap::new(),
            env_vars: StringMap::new(),
            exec_path,
            last_exit_code: 0,
        }
    }

    /// Runs a `LocalVar` stage: a single `name=value` token sets the local
    /// variable `name` and returns 0; a token that does not split into
    /// exactly one name and one value is a syntax error with status 1 and
    /// the table unchanged.
    pub fn set_local_variable(&mut self, command: &Vec<String>) -> (r: i32)
        requires
            command@.len() > 0,
        ensures
            ({
                let parts = crate::text::split_on(command@[0]@, '=');
                &&& parts.len() == 2 ==> r == 0 && final(self).local_vars@ == old(
                    self,
                ).local_vars@.insert(parts[0], parts[1])
                &&& parts.len() != 2 ==> r == 1 && final(self).local_vars == old(self).local_vars
                &&& final(self).time_to_exit == old(self).time_to_exit
                &&& final(self).aliases == old(self).aliases
                &&& final(self).env_vars == old(self).env_vars
                &&& final(self).exec_path == old(self).exec_path
                &&& final(self).last_exit_code == old(self).last_exit_code
            }),
    {
        let parts = crate::text::split_char(command[0].as_str(), '=');
        if parts.len() != 2 {
            return 1;
        }
        let mut parts = parts;
        let value = parts.pop().unwrap();
        let name = parts.pop().unwrap();
        proof {
            assert(name@ == crate::text::split_on(command@[0]@, '=')[0]);
            assert(value@ == crate::text::split_on(command@[0]@, '=')[1]);
        }
        self.local_vars.insert(name, value);
        0
    }
}

} // verus!
