//! The dispatch decision of the builtin registry: which builtin a stage's
//! first token names.  The builtins' bodies perform their own I/O with the
//! stage's descriptor triple and belong to the embedding program; the
//! name-to-builtin decision is the library's and is verified here.

use crate::myshell::MyShell;
use crate::text::str_eq;
use vstd::prelude::*;

verus! {

/// The shell's builtin commands.
#[derive(Clone, Copy, Debug, PartialEq, Eq, Structural)]
pub enum Builtin {
    Merrno,
    Mpwd,
    Mcd,
    RunScript,
    Mecho,
    Mexport,
    Mexit,
}

/// The builtin that `name` dispatches to, if any.  The name `alias` sits
/// in the builtin set for classification, but dispatches to nothing:
/// alias expansion is not implemented, and such a stage runs as a no-op
/// with status 0.
pub open spec fn builtin_of(name: Seq<char>) -> Option<Builtin> {
    if name == "merrno"@ {
        Some(Builtin::Merrno)
    } else if name == "mpwd"@ {
        Some(Builtin::Mpwd)
    } else if name == "mcd"@ {
        Some(Builtin::Mcd)
    } else if name == "."@ {
        Some(Builtin::RunScript)
    } else if name == "mecho"@ {
        Some(Builtin::Mecho)
    } else if name == "mexport"@ {
        Some(Builtin::Mexport)
    } else if name == "mexit"@ {
        Some(Builtin::Mexit)
    } else {
        None
    }
}

impl MyShell {
    /// The builtin registry's dispatch decision for one stage: which
    /// builtin its first token names, or nothing for a name the registry
    /// does not know.  The caller runs the chosen builtin's body with the
    /// stage's argument tokens and descriptor triple.
    pub fn call_mcommand(command: &Vec<String>) -> (r: Option<Builtin>)
        requires
            command@.len() > 0,
        ensures
            r == builtin_of(command@[0]@),
    {
        let name = command[0].as_str();
        if str_eq(name, "merrno") {
            Some(Builtin::Merrno)
        } else if str_eq(name, "mpwd") {
            Some(Builtin::Mpwd)
        } else if str_eq(name, "mcd") {
            Some(Builtin::Mcd)
        } else if str_eq(name, ".") {
            Some(Builtin::RunScript)
        } else if str_eq(name, "mecho") {
            Some(Builtin::Mecho)
        } else if str_eq(name, "mexport") {
            Some(Builtin::Mexport)
        } else if str_eq(name, "mexit") {
            Some(Builtin::Mexit)
        } else {
            None
        }
    }
}

} // verus!
