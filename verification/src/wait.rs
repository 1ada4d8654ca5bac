use vstd::prelude::*;
use crate::status::ProcessStatus;

verus! {

/// How long one sleep between two probes lasts at most, in milliseconds.
pub const POLL_INTERVAL_MS: u64 = 50;

/// How a wait for processes to exit ends.
#[derive(Clone, Copy, Debug, PartialEq, Eq, Structural)]
pub enum WaitOutcome {
    /// Every watched process has exited.
    Exited,
    /// The time limit was used up first.
    TimedOut,
    /// The caller's cancellation token fired.
    Cancelled,
}

/// What the caller of a wait must do next.
#[derive(Clone, Copy, Debug, PartialEq, Eq, Structural)]
pub enum WaitAction {
    /// Check the cancellation token, then call `cancel_checked`.
    CheckCancel,
    /// Probe whether every watched process has exited, then call `probed`.
    Probe,
    /// Sleep this many milliseconds, then call `slept`.
    Sleep(u64),
    /// The wait is over.
    Finish(WaitOutcome),
}

#[derive(Clone, Copy, Debug, PartialEq, Eq, Structural)]
pub enum WaitPhase {
    FirstCheck,
    FirstProbe,
    LoopCheck(u64),
    Sleeping(u64),
    LoopProbe,
    Done(WaitOutcome),
}

pub struct WaitView {
    pub limit: Option<u64>,
    pub elapsed: u64,
    pub phase: WaitPhase,
}

/// How long the next sleep lasts: the poll interval, cut short so as not to
/// pass the limit.
pub open spec fn sleep_len(limit: Option<u64>, elapsed: u64) -> u64 {
    match limit {
        None => POLL_INTERVAL_MS,
        Some(l) => if l - elapsed < POLL_INTERVAL_MS {
            (l - elapsed) as u64
        } else {
            POLL_INTERVAL_MS
        },
    }
}

/// The head of the polling loop: stop once the limit is used up, else sleep
/// again after a cancellation check.
pub open spec fn loop_top(limit: Option<u64>, elapsed: u64) -> WaitPhase {
    if limit matches Some(l) && elapsed >= l {
        WaitPhase::Done(WaitOutcome::TimedOut)
    } else if sleep_len(limit, elapsed) == 0 {
        WaitPhase::Done(WaitOutcome::TimedOut)
    } else {
        WaitPhase::LoopCheck(sleep_len(limit, elapsed))
    }
}

pub open spec fn wait_action_of(v: WaitView) -> WaitAction {
    match v.phase {
        WaitPhase::FirstCheck => WaitAction::CheckCancel,
        WaitPhase::LoopCheck(_) => WaitAction::CheckCancel,
        WaitPhase::FirstProbe => WaitAction::Probe,
        WaitPhase::LoopProbe => WaitAction::Probe,
        WaitPhase::Sleeping(s) => WaitAction::Sleep(s),
        WaitPhase::Done(o) => WaitAction::Finish(o),
    }
}

/// The time slept so far never passes the limit, and without a limit it is
/// not counted; each sleep lasts at most one poll interval and fits before
/// the limit; a wait times out only once the whole limit has been slept.
pub open spec fn wait_inv(v: WaitView) -> bool {
    &&& match v.limit {
        Some(l) => v.elapsed <= l,
        None => v.elapsed == 0,
    }
    &&& match v.phase {
        WaitPhase::LoopCheck(s) | WaitPhase::Sleeping(s) => 0 < s <= POLL_INTERVAL_MS && (
        v.limit matches Some(l) ==> v.elapsed + s <= l),
        WaitPhase::Done(WaitOutcome::TimedOut) => v.limit matches Some(l) && v.elapsed == l,
        _ => true,
    }
}

/// Waiting for a root process and its descendants to exit, polling every
/// `POLL_INTERVAL_MS` milliseconds, with an optional limit in milliseconds
/// and a cancellation token checked before the first probe and before each
/// sleep.
pub struct ExitWait {
    limit: Option<u64>,
    elapsed: u64,
    phase: WaitPhase,
}

impl View for ExitWait {
    type V = WaitView;

    closed spec fn view(&self) -> WaitView {
        WaitView { limit: self.limit, elapsed: self.elapsed, phase: self.phase }
    }
}

impl ExitWait {
    pub open spec fn wf(&self) -> bool {
        wait_inv(self@)
    }

    /// Start a wait; `limit_ms` is `None` to wait until the processes exit.
    pub fn new(limit_ms: Option<u64>) -> (w: Self)
        ensures
            w.wf(),
            w@ == (WaitView { limit: limit_ms, elapsed: 0, phase: WaitPhase::FirstCheck }),
    {
        ExitWait { limit: limit_ms, elapsed: 0, phase: WaitPhase::FirstCheck }
    }

    /// What the caller must do next.
    pub fn action(&self) -> (a: WaitAction)
        ensures
            a == wait_action_of(self@),
    {
        match self.phase {
            WaitPhase::FirstCheck => WaitAction::CheckCancel,
            WaitPhase::LoopCheck(_) => WaitAction::CheckCancel,
            WaitPhase::FirstProbe => WaitAction::Probe,
            WaitPhase::LoopProbe => WaitAction::Probe,
            WaitPhase::Sleeping(s) => WaitAction::Sleep(s),
            WaitPhase::Done(o) => WaitAction::Finish(o),
        }
    }

    /// The time slept so far, when there is a limit.
    pub fn elapsed_ms(&self) -> (e: u64)
        ensures
            e == self@.elapsed,
    {
        self.elapsed
    }

    fn loop_top(&mut self)
        requires
            old(self).wf(),
            old(self).phase == WaitPhase::LoopProbe,
        ensures
            final(self).wf(),
            final(self)@ == (WaitView { phase: loop_top(old(self)@.limit, old(self)@.elapsed), ..old(self)@ }),
    {
        let s: u64 = match self.limit {
            None => POLL_INTERVAL_MS,
            Some(l) => {
                if self.elapsed >= l {
                    self.phase = WaitPhase::Done(WaitOutcome::TimedOut);
                    return;
                }
                if l - self.elapsed < POLL_INTERVAL_MS {
                    l - self.elapsed
                } else {
                    POLL_INTERVAL_MS
                }
            },
        };
        if s == 0 {
            self.phase = WaitPhase::Done(WaitOutcome::TimedOut);
        } else {
            self.phase = WaitPhase::LoopCheck(s);
        }
    }

    /// The cancellation token was checked: a fired token ends the wait.
    pub fn cancel_checked(&mut self, cancelled: bool) -> (a: WaitAction)
        requires
            old(self).wf(),
            old(self)@.phase == WaitPhase::FirstCheck || old(self)@.phase is LoopCheck,
        ensures
            final(self).wf(),
            final(self)@ == (WaitView {
                phase: if cancelled {
                    WaitPhase::Done(WaitOutcome::Cancelled)
                } else {
                    match old(self)@.phase {
                        WaitPhase::LoopCheck(s) => WaitPhase::Sleeping(s),
                        _ => WaitPhase::FirstProbe,
                    }
                },
                ..old(self)@
            }),
            a == wait_action_of(final(self)@),
    {
        if cancelled {
            self.phase = WaitPhase::Done(WaitOutcome::Cancelled);
        } else {
            match self.phase {
                WaitPhase::LoopCheck(s) => {
                    self.phase = WaitPhase::Sleeping(s);
                },
                _ => {
                    self.phase = WaitPhase::FirstProbe;
                },
            }
        }
        self.action()
    }

    /// The processes were probed: the wait ends once all have exited, else
    /// it goes round the polling loop.
    pub fn probed(&mut self, all_exited: bool) -> (a: WaitAction)
        requires
            old(self).wf(),
            old(self)@.phase == WaitPhase::FirstProbe || old(self)@.phase == WaitPhase::LoopProbe,
        ensures
            final(self).wf(),
            final(self)@ == (WaitView {
                phase: if all_exited {
                    WaitPhase::Done(WaitOutcome::Exited)
                } else {
                    loop_top(old(self)@.limit, old(self)@.elapsed)
                },
                ..old(self)@
            }),
            a == wait_action_of(final(self)@),
    {
        if all_exited {
            self.phase = WaitPhase::Done(WaitOutcome::Exited);
        } else {
            self.phase = WaitPhase::LoopProbe;
            self.loop_top();
        }
        self.action()
    }

    /// The requested sleep is over; the time counts towards the limit.
    pub fn slept(&mut self) -> (a: WaitAction)
        requires
            old(self).wf(),
            old(self)@.phase is Sleeping,
        ensures
            final(self).wf(),
            final(self)@ == (WaitView {
                elapsed: if old(self)@.limit is Some {
                    (old(self)@.elapsed + old(self)@.phase->Sleeping_0) as u64
                } else {
                    0
                },
                phase: WaitPhase::LoopProbe,
                ..old(self)@
            }),
            a == WaitAction::Probe,
    {
        if let WaitPhase::Sleeping(s) = self.phase {
            if self.limit.is_some() {
                self.elapsed = self.elapsed + s;
            }
        }
        self.phase = WaitPhase::LoopProbe;
        WaitAction::Probe
    }
}


/// Whether every watched process (the root and its descendants) has exited,
/// from their probed statuses.
pub fn all_exited(statuses: &Vec<ProcessStatus>) -> (b: bool)
    ensures
        b == (forall|i: int| 0 <= i < statuses@.len() ==> statuses@[i] != ProcessStatus::Running),
{
    let mut i: usize = 0;
    while i < statuses.len()
        invariant
            i <= statuses.len(),
            forall|j: int| 0 <= j < i ==> statuses@[j] != ProcessStatus::Running,
        decreases statuses.len() - i,
    {
        if statuses[i] == ProcessStatus::Running {
            return false;
        }
        i = i + 1;
    }
    true
}

} // verus!
