//! What the parent of a workload does once its child has ended.

use vstd::prelude::*;

verus! {

/// The signal by which a workload is killed.
pub const SIGKILL: i32 = 9;

/// What the parent does next.
#[derive(Debug, Clone, Copy, PartialEq, Eq, Structural)]
pub enum NextStep {
    /// The child ended well: the parent ends well.
    Succeed,
    /// The child ended with this status: the parent reports it and fails.
    FailWithStatus(i32),
    /// The child was killed as intended: the parent starts another.
    Again,
    /// The child ended in another way: the parent fails.
    FailAbnormally,
}

/// What the parent does next, given how the child ended: whether it exited
/// and with what status, whether a signal ended it and which.
pub open spec fn next_step(exited: bool, exit_status: i32, signaled: bool, signal: i32) -> NextStep {
    if exited && exit_status == 0 {
        NextStep::Succeed
    } else if exited {
        NextStep::FailWithStatus(exit_status)
    } else if signaled && signal == SIGKILL {
        NextStep::Again
    } else {
        NextStep::FailAbnormally
    }
}

/// What the parent does next, given how the child ended.
pub fn after_child(exited: bool, exit_status: i32, signaled: bool, signal: i32) -> (step: NextStep)
    ensures
        step == next_step(exited, exit_status, signaled, signal),
{
    if exited {
        if exit_status == 0 {
            NextStep::Succeed
        } else {
            NextStep::FailWithStatus(exit_status)
        }
    } else if signaled && signal == SIGKILL {
        NextStep::Again
    } else {
        NextStep::FailAbnormally
    }
}

/// Whether a status that `waitpid` reported is that of a child that exited:
/// `libc::WIFEXITED`. How a status is laid out is the operating system's
/// matter, so nothing is said of the result.
#[verifier::external_body]
fn status_exited(status: i32) -> bool {
    libc::WIFEXITED(status)
}

/// The exit status within a status that `waitpid` reported:
/// `libc::WEXITSTATUS`. Nothing is said of the result.
#[verifier::external_body]
fn status_exit_status(status: i32) -> i32 {
    libc::WEXITSTATUS(status)
}

/// Whether a status that `waitpid` reported is that of a child that a
/// signal ended: `libc::WIFSIGNALED`. Nothing is said of the result.
#[verifier::external_body]
fn status_signaled(status: i32) -> bool {
    libc::WIFSIGNALED(status)
}

/// The signal within a status that `waitpid` reported: `libc::WTERMSIG`.
/// Nothing is said of the result.
#[verifier::external_body]
fn status_signal(status: i32) -> i32 {
    libc::WTERMSIG(status)
}

/// What the parent does next, given the status that `waitpid` reported of
/// the child. The status is taken apart as the operating system lays it
/// out; what follows from its parts is what `after_child` says.
pub fn after_status(status: i32) -> (step: NextStep)
    ensures
        exists|exited: bool, exit_status: i32, signaled: bool, signal: i32|
            step == #[trigger] next_step(exited, exit_status, signaled, signal),
{
    let exited = status_exited(status);
    let exit_status = status_exit_status(status);
    let signaled = status_signaled(status);
    let signal = status_signal(status);
    let step = after_child(exited, exit_status, signaled, signal);
    assert(step == next_step(exited, exit_status, signaled, signal));
    step
}

} // verus!
