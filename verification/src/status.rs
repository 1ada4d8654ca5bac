use vstd::prelude::*;

verus! {

/// Current state of a process reference.
#[derive(Clone, Copy, Debug, PartialEq, Eq, Structural)]
pub enum ProcessStatus {
    /// The referenced process is still running.
    Running,
    /// The referenced process has exited or is no longer observable.
    Exited,
}

/// `POLLIN`: a pidfd becomes readable once its process has exited.
pub const POLLIN: i16 = 0x001;
/// `POLLERR`.
pub const POLLERR: i16 = 0x008;
/// `POLLHUP`.
pub const POLLHUP: i16 = 0x010;
/// `POLLNVAL`: the descriptor is not open.
pub const POLLNVAL: i16 = 0x020;

/// What one zero-timeout `poll` of a pidfd tells about its process.
#[derive(Clone, Copy, Debug, PartialEq, Eq, Structural)]
pub enum PollVerdict {
    /// The call was interrupted by a signal: poll again.
    Retry,
    /// The probe is conclusive.
    Status(ProcessStatus),
}

/// The verdict for `poll` results: `ready` is the return value, `interrupted`
/// tells whether a failure was `EINTR`, `revents` the returned event bits.
pub open spec fn spec_poll_verdict(ready: i32, interrupted: bool, revents: i16) -> PollVerdict {
    if ready < 0 {
        if interrupted {
            PollVerdict::Retry
        } else {
            PollVerdict::Status(ProcessStatus::Running)
        }
    } else if ready == 0 {
        PollVerdict::Status(ProcessStatus::Running)
    } else if revents & (POLLIN | POLLHUP | POLLERR | POLLNVAL) != 0 {
        PollVerdict::Status(ProcessStatus::Exited)
    } else {
        PollVerdict::Status(ProcessStatus::Running)
    }
}

/// Decide the status of a pidfd-backed process from one `poll` attempt.
///
/// A failed poll that was not interrupted is treated as still running: the
/// kernel has not reported the process gone.
pub fn poll_verdict(ready: i32, interrupted: bool, revents: i16) -> (v: PollVerdict)
    ensures
        v == spec_poll_verdict(ready, interrupted, revents),
{
    if ready < 0 {
        if interrupted {
            return PollVerdict::Retry;
        }
        return PollVerdict::Status(ProcessStatus::Running);
    }
    if ready == 0 {
        return PollVerdict::Status(ProcessStatus::Running);
    }
    if revents & (POLLIN | POLLHUP | POLLERR | POLLNVAL) != 0 {
        PollVerdict::Status(ProcessStatus::Exited)
    } else {
        PollVerdict::Status(ProcessStatus::Running)
    }
}

} // verus!
