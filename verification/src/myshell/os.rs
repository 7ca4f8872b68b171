//! The pipeline builder and the redirection resolver reach the operating
//! system through these wrappers and nothing else.  Each wrapper makes one
//! call into the `nix` crate and converts its error to a message; what a
//! wrapper's contract states is exactly what the call's documentation
//! promises of every outcome.

use vstd::prelude::*;

verus! {

/// Relies on `nix::unistd::pipe`: on success it returns the `(read, write)`
/// descriptors of a fresh pipe, and POSIX file descriptors are nonnegative.
#[verifier::external_body]
pub(crate) fn os_pipe() -> (r: Result<(i32, i32), String>)
    ensures
        r is Ok ==> r->Ok_0.0 >= 0 && r->Ok_0.1 >= 0,
{
    match nix::unistd::pipe() {
        Ok((rd, wr)) => Ok((rd, wr)),
        Err(e) => Err(e.to_string()),
    }
}

/// Relies on `nix::fcntl::open` with `O_RDONLY`: on success it returns a
/// nonnegative descriptor open for reading; a missing file is an error.
#[verifier::external_body]
pub(crate) fn os_open_read(path: &String) -> (r: Result<i32, String>)
    ensures
        r is Ok ==> r->Ok_0 >= 0,
{
    match nix::fcntl::open(
        path.as_str(),
        nix::fcntl::OFlag::O_RDONLY,
        nix::sys::stat::Mode::empty(),
    ) {
        Ok(fd) => Ok(fd),
        Err(e) => Err(e.to_string()),
    }
}

/// Relies on `nix::fcntl::open` with `O_WRONLY | O_CREAT | O_TRUNC`: on
/// success it returns a nonnegative descriptor for the created or truncated
/// file.
#[verifier::external_body]
pub(crate) fn os_open_trunc(path: &String) -> (r: Result<i32, String>)
    ensures
        r is Ok ==> r->Ok_0 >= 0,
{
    match nix::fcntl::open(
        path.as_str(),
        nix::fcntl::OFlag::O_WRONLY | nix::fcntl::OFlag::O_CREAT | nix::fcntl::OFlag::O_TRUNC,
        nix::sys::stat::Mode::from_bits_truncate(0o644),
    ) {
        Ok(fd) => Ok(fd),
        Err(e) => Err(e.to_string()),
    }
}

/// Relies on `nix::unistd::close`: closes the descriptor, reporting failure
/// as an error value rather than a panic.
#[verifier::external_body]
pub(crate) fn os_close(fd: i32) -> (r: Result<(), String>) {
    match nix::unistd::close(fd) {
        Ok(()) => Ok(()),
        Err(e) => Err(e.to_string()),
    }
}

} // verus!
