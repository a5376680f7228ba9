//! Errors of the asynchronous I/O part.

use vstd::prelude::*;

verus! {

/// Why an I/O operation could not be made.
#[derive(Clone, Copy, Debug, PartialEq, Eq, Structural)]
pub enum CatioError {
    /// A system call failed, with this error number; zero stands for one that is
    /// not known.
    Syscall(i32),
}

/// Calls `nix::errno::from_i32`, and returns the number of the error that it
/// finds. It claims of Linux, where the numbers of all errors are positive, that
/// one which no error has gives zero, the number of `Errno::UnknownErrno`, and
/// that every other gives itself. Which positive numbers are taken is left open:
/// it differs between architectures.
#[verifier::external_body]
fn known_errno(raw: i32) -> (number: i32)
    ensures
        number == raw || number == 0,
        raw <= 0 ==> number == 0,
{
    nix::errno::from_i32(raw) as i32
}

/// Tells the success of a system call from its failure.
pub fn wrap_syscall(result: i32) -> (outcome: Result<i32, CatioError>)
    ensures
        result >= 0 ==> outcome == Ok::<i32, CatioError>(result),
        result < 0 ==> outcome == Err::<i32, CatioError>(CatioError::Syscall(0)),
{
    if result >= 0 {
        Ok(result)
    } else {
        Err(CatioError::Syscall(known_errno(result)))
    }
}

} // verus!
