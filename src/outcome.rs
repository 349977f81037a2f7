use vstd::prelude::*;

verus! {

/// The error type of std's I/O operations, carried through as it is.
#[verifier::external_type_specification]
#[verifier::external_body]
pub struct ExIoError(std::io::Error);

/// The ways in which a run can fail.
#[non_exhaustive]
#[derive(Debug)]
pub enum Error {
    /// The stdin to a child process wasn't piped
    StdinNotPiped,
    /// One of the spawned processes was killed by a signal
    KilledBySignal,
    /// One of the spawned processes returned a non-zero exit code
    NonZeroExitCode(i32),
    /// An error occured while trying to read from the input
    Input(std::io::Error),
    /// An error occured while trying to write to a child process
    Output(std::io::Error),
    /// An error occured while trying to spawn a child process
    Spawn(std::io::Error),
    /// An error occured while trying to wait for a child process
    Wait(std::io::Error),
}

/// Classifies the exit code of a reaped process: `Some(0)` is success, any other
/// code is `NonZeroExitCode`, and no code at all means a signal ended it.
pub fn exit_result(code: Option<i32>) -> (r: Result<(), Error>)
    ensures
        code == Some(0i32) ==> r is Ok,
        forall|c: i32| code == Some(c) && c != 0 ==> r == Err::<(), Error>(Error::NonZeroExitCode(c)),
        code is None ==> r == Err::<(), Error>(Error::KilledBySignal),
{
    match code {
        Some(0) => Ok(()),
        Some(c) => Err(Error::NonZeroExitCode(c)),
        None => Err(Error::KilledBySignal),
    }
}

} // verus!
