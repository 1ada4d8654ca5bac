use vstd::prelude::*;
use crate::wait::WaitOutcome;

verus! {

/// POSIX `SIGTERM`, also the polite-termination sentinel elsewhere.
pub const TERM_SIGNAL: i32 = 15;

/// POSIX `SIGKILL`, also the hard-termination sentinel elsewhere.
pub const KILL_SIGNAL: i32 = 9;

/// Where a signal goes.
#[derive(Clone, Copy, Debug, PartialEq, Eq, Structural)]
pub enum SignalTarget {
    /// Every process of a process group.
    Group(i32),
    /// One process.
    Process(i32),
}

/// One signal to send.
#[derive(Clone, Copy, Debug, PartialEq, Eq, Structural)]
pub struct SignalSend {
    pub target: SignalTarget,
    pub signal: i32,
}

/// How a termination ends.
#[derive(Clone, Copy, Debug, PartialEq, Eq, Structural)]
pub enum TerminateOutcome {
    /// The root and all its descendants have exited (`Ok(true)`).
    Exited,
    /// Some of them still ran when the time ran out (`Ok(false)`).
    StillRunning,
    /// The cancellation token fired (an error).
    Cancelled,
}

/// What the caller of a termination must do next.
#[derive(Clone, Copy, Debug, PartialEq, Eq, Structural)]
pub enum TerminateAction {
    /// Probe whether the root still runs, then call `root_probed`.
    ProbeRoot,
    /// Walk the root's descendants (a `DescendantWalk`), then call
    /// `descendants_collected`.
    CollectDescendants,
    /// Ask for the root's process group, then call `group_queried`.
    QueryGroup,
    /// Send this signal, whatever comes of it, then call `signal_sent`.
    Send(SignalSend),
    /// Probe whether this process still runs, then call `process_probed`.
    Probe(i32),
    /// Wait (an `ExitWait`) this many milliseconds for the root and its
    /// descendants to exit, then call `wait_finished`.
    Wait(u64),
    /// The termination is over.
    Finish(TerminateOutcome),
}

#[derive(Clone, Copy, Debug, PartialEq, Eq, Structural)]
pub enum TermPhase {
    ProbingRoot,
    Collecting,
    QueryingGroup,
    TermGroup,
    Term(usize),
    Grace,
    KillGroup,
    KillProbe(usize),
    Kill(usize),
    Final,
    Done(TerminateOutcome),
}

pub struct TermView {
    pub root: i32,
    pub group: bool,
    pub graceful_ms: i32,
    pub timeout_ms: u32,
    pub descendants: Seq<i32>,
    pub pgid: Option<i32>,
    pub phase: TermPhase,
    /// The signals sent so far, in order.
    pub sent: Seq<SignalSend>,
    /// What the probes of the hard-kill wave found, in order.
    pub probes: Seq<bool>,
}

/// The processes signalled one by one: the descendants, children first, then
/// the root.
pub open spec fn targets(v: TermView) -> Seq<i32> {
    v.descendants.push(v.root)
}

pub open spec fn group_part(pgid: Option<i32>, signal: i32) -> Seq<SignalSend> {
    match pgid {
        Some(g) => seq![SignalSend { target: SignalTarget::Group(g), signal }],
        None => Seq::empty(),
    }
}

pub open spec fn process_sends(pids: Seq<i32>, signal: i32) -> Seq<SignalSend>
    decreases pids.len(),
{
    if pids.len() == 0 {
        Seq::empty()
    } else {
        process_sends(pids.drop_last(), signal).push(
            SignalSend { target: SignalTarget::Process(pids.last()), signal },
        )
    }
}

/// `signal` for each pid whose probe found it running.
pub open spec fn running_sends(pids: Seq<i32>, probes: Seq<bool>, signal: i32) -> Seq<SignalSend>
    decreases pids.len(),
{
    if pids.len() == 0 || probes.len() == 0 {
        Seq::empty()
    } else {
        let r = running_sends(pids.drop_last(), probes.drop_last(), signal);
        if probes.last() {
            r.push(SignalSend { target: SignalTarget::Process(pids.last()), signal })
        } else {
            r
        }
    }
}

/// The polite wave: the group (when there is one), then every target.
pub open spec fn term_wave(v: TermView) -> Seq<SignalSend> {
    group_part(v.pgid, TERM_SIGNAL) + process_sends(targets(v), TERM_SIGNAL)
}

/// The hard wave: the group (when there is one), then every target that its
/// probe found still running.
pub open spec fn kill_wave(v: TermView) -> Seq<SignalSend> {
    group_part(v.pgid, KILL_SIGNAL) + running_sends(targets(v), v.probes, KILL_SIGNAL)
}

pub open spec fn term_start(pgid: Option<i32>) -> TermPhase {
    if pgid is Some {
        TermPhase::TermGroup
    } else {
        TermPhase::Term(0)
    }
}

pub open spec fn kill_start(pgid: Option<i32>) -> TermPhase {
    if pgid is Some {
        TermPhase::KillGroup
    } else {
        TermPhase::KillProbe(0)
    }
}

/// After the polite wave: a negative grace period goes straight to the hard
/// wave.
pub open spec fn after_term(v: TermView) -> TermPhase {
    if v.graceful_ms < 0 {
        kill_start(v.pgid)
    } else {
        TermPhase::Grace
    }
}

pub open spec fn action_of(v: TermView) -> TerminateAction {
    match v.phase {
        TermPhase::ProbingRoot => TerminateAction::ProbeRoot,
        TermPhase::Collecting => TerminateAction::CollectDescendants,
        TermPhase::QueryingGroup => TerminateAction::QueryGroup,
        TermPhase::TermGroup => TerminateAction::Send(
            SignalSend { target: SignalTarget::Group(v.pgid.unwrap()), signal: TERM_SIGNAL },
        ),
        TermPhase::Term(i) => TerminateAction::Send(
            SignalSend { target: SignalTarget::Process(targets(v)[i as int]), signal: TERM_SIGNAL },
        ),
        TermPhase::Grace => TerminateAction::Wait(v.graceful_ms as u64),
        TermPhase::KillGroup => TerminateAction::Send(
            SignalSend { target: SignalTarget::Group(v.pgid.unwrap()), signal: KILL_SIGNAL },
        ),
        TermPhase::KillProbe(i) => TerminateAction::Probe(targets(v)[i as int]),
        TermPhase::Kill(i) => TerminateAction::Send(
            SignalSend { target: SignalTarget::Process(targets(v)[i as int]), signal: KILL_SIGNAL },
        ),
        TermPhase::Final => TerminateAction::Wait(v.timeout_ms as u64),
        TermPhase::Done(r) => TerminateAction::Finish(r),
    }
}

/// What has been sent at each point of a termination. In particular, once it
/// is over: nothing was sent when the root no longer ran; or exactly the
/// polite wave, when everything exited (or the wait was cancelled) within
/// the grace period; or exactly the polite wave followed by the hard wave.
pub open spec fn term_inv(v: TermView) -> bool {
    match v.phase {
        TermPhase::ProbingRoot | TermPhase::Collecting => v.sent.len() == 0 && v.probes.len() == 0
            && v.pgid is None,
        TermPhase::QueryingGroup => v.sent.len() == 0 && v.probes.len() == 0 && v.pgid is None
            && v.group,
        TermPhase::TermGroup => v.sent.len() == 0 && v.probes.len() == 0 && v.pgid is Some,
        TermPhase::Term(i) => i < targets(v).len() && v.probes.len() == 0 && v.sent == group_part(
            v.pgid,
            TERM_SIGNAL,
        ) + process_sends(targets(v).take(i as int), TERM_SIGNAL),
        TermPhase::Grace => v.graceful_ms >= 0 && v.probes.len() == 0 && v.sent == term_wave(v),
        TermPhase::KillGroup => v.pgid is Some && v.probes.len() == 0 && v.sent == term_wave(v),
        TermPhase::KillProbe(i) => i < targets(v).len() && v.probes.len() == i && v.sent
            == term_wave(v) + group_part(v.pgid, KILL_SIGNAL) + running_sends(
            targets(v).take(i as int),
            v.probes,
            KILL_SIGNAL,
        ),
        TermPhase::Kill(i) => i < targets(v).len() && v.probes.len() == i + 1 && v.probes[i as int]
            && v.sent == term_wave(v) + group_part(v.pgid, KILL_SIGNAL) + running_sends(
            targets(v).take(i as int),
            v.probes.take(i as int),
            KILL_SIGNAL,
        ),
        TermPhase::Final => v.probes.len() == targets(v).len() && v.sent == term_wave(v)
            + kill_wave(v),
        TermPhase::Done(r) => (v.sent.len() == 0 && v.probes.len() == 0 && r
            == TerminateOutcome::Exited) || (v.sent == term_wave(v) && v.probes.len() == 0
            && v.graceful_ms >= 0 && r != TerminateOutcome::StillRunning) || (v.probes.len()
            == targets(v).len() && v.sent == term_wave(v) + kill_wave(v)),
    }
}


/// The phase after the probe of target `i` in the hard wave, or after its
/// signal.
pub open spec fn next_kill(v: TermView, i: usize) -> TermPhase {
    if i < v.descendants.len() {
        TermPhase::KillProbe((i + 1) as usize)
    } else {
        TermPhase::Final
    }
}

/// The phase once the signal of the current phase is sent.
pub open spec fn after_send(v: TermView) -> TermPhase {
    match v.phase {
        TermPhase::TermGroup => TermPhase::Term(0),
        TermPhase::Term(i) => if i < v.descendants.len() {
            TermPhase::Term((i + 1) as usize)
        } else {
            after_term(v)
        },
        TermPhase::KillGroup => TermPhase::KillProbe(0),
        TermPhase::Kill(i) => next_kill(v, i),
        _ => v.phase,
    }
}

/// The phase once a wait is over: everything exited, or the token fired,
/// ends the termination; a grace period that runs out leads to the hard
/// wave, and a final wait that runs out leaves processes running.
pub open spec fn after_wait(v: TermView, o: WaitOutcome) -> TermPhase {
    match o {
        WaitOutcome::Exited => TermPhase::Done(TerminateOutcome::Exited),
        WaitOutcome::Cancelled => TermPhase::Done(TerminateOutcome::Cancelled),
        WaitOutcome::TimedOut => if v.phase == TermPhase::Grace {
            kill_start(v.pgid)
        } else {
            TermPhase::Done(TerminateOutcome::StillRunning)
        },
    }
}

proof fn lemma_process_sends_step(t: Seq<i32>, i: int, signal: i32)
    requires
        0 <= i < t.len(),
    ensures
        process_sends(t.take(i + 1), signal) == process_sends(t.take(i), signal).push(
            SignalSend { target: SignalTarget::Process(t[i]), signal },
        ),
{
    assert(t.take(i + 1).drop_last() =~= t.take(i));
}

proof fn lemma_running_sends_step(t: Seq<i32>, probes: Seq<bool>, i: int, b: bool, signal: i32)
    requires
        0 <= i < t.len(),
        probes.len() == i,
    ensures
        running_sends(t.take(i + 1), probes.push(b), signal) == (if b {
            running_sends(t.take(i), probes, signal).push(
                SignalSend { target: SignalTarget::Process(t[i]), signal },
            )
        } else {
            running_sends(t.take(i), probes, signal)
        }),
{
    assert(t.take(i + 1).drop_last() =~= t.take(i));
    assert(probes.push(b).drop_last() =~= probes);
}

/// Terminating a process tree: the polite signal to the process group (when
/// asked for and known), to every descendant (children first) and to the
/// root; then, unless everything exits within the grace period, the hard
/// signal to the group and to each of those processes that still runs; then
/// a last wait for everything to exit.
pub struct Termination {
    root: i32,
    group: bool,
    graceful_ms: i32,
    timeout_ms: u32,
    descendants: Vec<i32>,
    pgid: Option<i32>,
    phase: TermPhase,
    sent: Ghost<Seq<SignalSend>>,
    probes: Ghost<Seq<bool>>,
}

impl View for Termination {
    type V = TermView;

    closed spec fn view(&self) -> TermView {
        TermView {
            root: self.root,
            group: self.group,
            graceful_ms: self.graceful_ms,
            timeout_ms: self.timeout_ms,
            descendants: self.descendants@,
            pgid: self.pgid,
            phase: self.phase,
            sent: self.sent@,
            probes: self.probes@,
        }
    }
}

impl Termination {
    pub open spec fn wf(&self) -> bool {
        term_inv(self@)
    }

    /// Start terminating the tree of `root`; `group` also signals its process
    /// group, `graceful_ms` is the grace period between the two waves
    /// (negative: none), `timeout_ms` the last wait.
    pub fn new(root: i32, group: bool, graceful_ms: i32, timeout_ms: u32) -> (t: Self)
        ensures
            t.wf(),
            t@ == (TermView {
                root,
                group,
                graceful_ms,
                timeout_ms,
                descendants: Seq::empty(),
                pgid: None,
                phase: TermPhase::ProbingRoot,
                sent: Seq::empty(),
                probes: Seq::empty(),
            }),
    {
        Termination {
            root,
            group,
            graceful_ms,
            timeout_ms,
            descendants: Vec::new(),
            pgid: None,
            phase: TermPhase::ProbingRoot,
            sent: Ghost(Seq::empty()),
            probes: Ghost(Seq::empty()),
        }
    }

    fn target(&self, i: usize) -> (p: i32)
        requires
            i <= self.descendants.len(),
        ensures
            p == targets(self@)[i as int],
    {
        if i < self.descendants.len() {
            self.descendants[i]
        } else {
            self.root
        }
    }

    /// What the caller must do next.
    pub fn action(&self) -> (a: TerminateAction)
        requires
            self.wf(),
        ensures
            a == action_of(self@),
    {
        match self.phase {
            TermPhase::ProbingRoot => TerminateAction::ProbeRoot,
            TermPhase::Collecting => TerminateAction::CollectDescendants,
            TermPhase::QueryingGroup => TerminateAction::QueryGroup,
            TermPhase::TermGroup => TerminateAction::Send(
                SignalSend { target: SignalTarget::Group(self.pgid.unwrap()), signal: TERM_SIGNAL },
            ),
            TermPhase::Term(i) => TerminateAction::Send(
                SignalSend { target: SignalTarget::Process(self.target(i)), signal: TERM_SIGNAL },
            ),
            TermPhase::Grace => TerminateAction::Wait(self.graceful_ms as u64),
            TermPhase::KillGroup => TerminateAction::Send(
                SignalSend { target: SignalTarget::Group(self.pgid.unwrap()), signal: KILL_SIGNAL },
            ),
            TermPhase::KillProbe(i) => TerminateAction::Probe(self.target(i)),
            TermPhase::Kill(i) => TerminateAction::Send(
                SignalSend { target: SignalTarget::Process(self.target(i)), signal: KILL_SIGNAL },
            ),
            TermPhase::Final => TerminateAction::Wait(self.timeout_ms as u64),
            TermPhase::Done(r) => TerminateAction::Finish(r),
        }
    }

    /// The root was probed: a root that no longer runs needs no termination.
    pub fn root_probed(&mut self, running: bool) -> (a: TerminateAction)
        requires
            old(self).wf(),
            old(self)@.phase == TermPhase::ProbingRoot,
        ensures
            final(self).wf(),
            final(self)@ == (TermView {
                phase: if running {
                    TermPhase::Collecting
                } else {
                    TermPhase::Done(TerminateOutcome::Exited)
                },
                ..old(self)@
            }),
            a == action_of(final(self)@),
    {
        if running {
            self.phase = TermPhase::Collecting;
        } else {
            self.phase = TermPhase::Done(TerminateOutcome::Exited);
        }
        self.action()
    }

    /// The root's descendants, children first, as a `DescendantWalk` gives
    /// them.
    pub fn descendants_collected(&mut self, descendants: Vec<i32>) -> (a: TerminateAction)
        requires
            old(self).wf(),
            old(self)@.phase == TermPhase::Collecting,
        ensures
            final(self).wf(),
            final(self)@ == (TermView {
                descendants: descendants@,
                phase: if old(self)@.group {
                    TermPhase::QueryingGroup
                } else {
                    term_start(None)
                },
                ..old(self)@
            }),
            a == action_of(final(self)@),
    {
        self.descendants = descendants;
        if self.group {
            self.phase = TermPhase::QueryingGroup;
        } else {
            self.phase = TermPhase::Term(0);
            assert(targets(self@).take(0) =~= Seq::<i32>::empty());
            assert(self@.sent =~= group_part(self@.pgid, TERM_SIGNAL) + process_sends(
                targets(self@).take(0),
                TERM_SIGNAL,
            ));
        }
        self.action()
    }

    /// The root's process group, when the platform has one.
    pub fn group_queried(&mut self, pgid: Option<i32>) -> (a: TerminateAction)
        requires
            old(self).wf(),
            old(self)@.phase == TermPhase::QueryingGroup,
        ensures
            final(self).wf(),
            final(self)@ == (TermView { pgid, phase: term_start(pgid), ..old(self)@ }),
            a == action_of(final(self)@),
    {
        self.pgid = pgid;
        if pgid.is_some() {
            self.phase = TermPhase::TermGroup;
        } else {
            self.phase = TermPhase::Term(0);
            assert(targets(self@).take(0) =~= Seq::<i32>::empty());
            assert(self@.sent =~= group_part(self@.pgid, TERM_SIGNAL) + process_sends(
                targets(self@).take(0),
                TERM_SIGNAL,
            ));
        }
        self.action()
    }

    /// The signal that `action` asked for was sent (whether it was delivered
    /// does not matter).
    pub fn signal_sent(&mut self) -> (a: TerminateAction)
        requires
            old(self).wf(),
            action_of(old(self)@) is Send,
        ensures
            final(self).wf(),
            final(self)@ == (TermView {
                sent: old(self)@.sent.push(action_of(old(self)@)->Send_0),
                phase: after_send(old(self)@),
                ..old(self)@
            }),
            a == action_of(final(self)@),
    {
        match self.phase {
            TermPhase::TermGroup => self.term_group_sent(),
            TermPhase::Term(i) => self.term_sent(i),
            TermPhase::KillGroup => self.kill_group_sent(),
            _ => self.kill_sent(),
        }
        self.action()
    }

    fn term_group_sent(&mut self)
        requires
            old(self).wf(),
            old(self)@.phase == TermPhase::TermGroup,
        ensures
            final(self).wf(),
            final(self)@ == (TermView {
                sent: old(self)@.sent.push(action_of(old(self)@)->Send_0),
                phase: after_send(old(self)@),
                ..old(self)@
            }),
    {
        let ghost v = self@;
        proof {
            self.sent@ = self.sent@.push(action_of(v)->Send_0);
        }
        self.phase = TermPhase::Term(0);
        assert(targets(self@).take(0) =~= Seq::<i32>::empty());
        assert(self@.sent =~= group_part(v.pgid, TERM_SIGNAL) + Seq::empty());
    }

    fn term_sent(&mut self, i: usize)
        requires
            old(self).wf(),
            old(self)@.phase == TermPhase::Term(i),
        ensures
            final(self).wf(),
            final(self)@ == (TermView {
                sent: old(self)@.sent.push(action_of(old(self)@)->Send_0),
                phase: after_send(old(self)@),
                ..old(self)@
            }),
    {
        let ghost v = self@;
        proof {
            self.sent@ = self.sent@.push(action_of(v)->Send_0);
            lemma_process_sends_step(targets(v), i as int, TERM_SIGNAL);
            assert(self@.sent =~= group_part(v.pgid, TERM_SIGNAL) + process_sends(
                targets(v).take(i + 1),
                TERM_SIGNAL,
            ));
        }
        if i < self.descendants.len() {
            self.phase = TermPhase::Term(i + 1);
        } else {
            assert(targets(v).take(i + 1) =~= targets(v));
            if self.graceful_ms < 0 {
                if self.pgid.is_some() {
                    self.phase = TermPhase::KillGroup;
                } else {
                    self.phase = TermPhase::KillProbe(0);
                    assert(targets(v).take(0) =~= Seq::<i32>::empty());
                    assert(self@.sent =~= term_wave(v) + Seq::empty() + Seq::empty());
                }
            } else {
                self.phase = TermPhase::Grace;
            }
        }
    }

    fn kill_group_sent(&mut self)
        requires
            old(self).wf(),
            old(self)@.phase == TermPhase::KillGroup,
        ensures
            final(self).wf(),
            final(self)@ == (TermView {
                sent: old(self)@.sent.push(action_of(old(self)@)->Send_0),
                phase: after_send(old(self)@),
                ..old(self)@
            }),
    {
        let ghost v = self@;
        proof {
            self.sent@ = self.sent@.push(action_of(v)->Send_0);
        }
        self.phase = TermPhase::KillProbe(0);
        assert(targets(v).take(0) =~= Seq::<i32>::empty());
        assert(self@.sent =~= term_wave(v) + group_part(v.pgid, KILL_SIGNAL) + Seq::empty());
    }

    fn kill_sent(&mut self)
        requires
            old(self).wf(),
            old(self)@.phase is Kill,
        ensures
            final(self).wf(),
            final(self)@ == (TermView {
                sent: old(self)@.sent.push(action_of(old(self)@)->Send_0),
                phase: after_send(old(self)@),
                ..old(self)@
            }),
    {
        let ghost v = self@;
        let i = match self.phase {
            TermPhase::Kill(i) => i,
            _ => 0,
        };
        proof {
            self.sent@ = self.sent@.push(action_of(v)->Send_0);
            let t = targets(v);
            let pr = v.probes.take(i as int);
            assert(pr.push(true) =~= v.probes);
            lemma_running_sends_step(t, pr, i as int, true, KILL_SIGNAL);
            assert(self@.sent =~= term_wave(v) + group_part(v.pgid, KILL_SIGNAL) + running_sends(
                t.take(i + 1),
                v.probes,
                KILL_SIGNAL,
            ));
        }
        if i < self.descendants.len() {
            self.phase = TermPhase::KillProbe(i + 1);
        } else {
            self.phase = TermPhase::Final;
            assert(targets(v).take(i + 1) =~= targets(v));
            assert(self@.sent =~= term_wave(v) + kill_wave(v));
        }
    }

    /// A process of the hard wave was probed: it gets the hard signal only if
    /// it still runs.
    pub fn process_probed(&mut self, running: bool) -> (a: TerminateAction)
        requires
            old(self).wf(),
            old(self)@.phase is KillProbe,
        ensures
            final(self).wf(),
            final(self)@ == (TermView {
                probes: old(self)@.probes.push(running),
                phase: if running {
                    TermPhase::Kill(old(self)@.phase->KillProbe_0)
                } else {
                    next_kill(old(self)@, old(self)@.phase->KillProbe_0)
                },
                ..old(self)@
            }),
            a == action_of(final(self)@),
    {
        let ghost v = self@;
        proof {
            self.probes@ = self.probes@.push(running);
        }
        if let TermPhase::KillProbe(i) = self.phase {
            proof {
                lemma_running_sends_step(targets(v), v.probes, i as int, running, KILL_SIGNAL);
                assert(self@.probes.take(i as int) =~= v.probes);
            }
            if running {
                self.phase = TermPhase::Kill(i);
            } else if i < self.descendants.len() {
                self.phase = TermPhase::KillProbe(i + 1);
            } else {
                self.phase = TermPhase::Final;
                assert(targets(v).take(i + 1) =~= targets(v));
                assert(self@.sent =~= term_wave(v) + kill_wave(self@));
            }
        }
        self.action()
    }

    /// A wait that `action` asked for is over.
    pub fn wait_finished(&mut self, outcome: WaitOutcome) -> (a: TerminateAction)
        requires
            old(self).wf(),
            old(self)@.phase == TermPhase::Grace || old(self)@.phase == TermPhase::Final,
        ensures
            final(self).wf(),
            final(self)@ == (TermView { phase: after_wait(old(self)@, outcome), ..old(self)@ }),
            a == action_of(final(self)@),
    {
        let ghost v = self@;
        match outcome {
            WaitOutcome::Exited => {
                self.phase = TermPhase::Done(TerminateOutcome::Exited);
            },
            WaitOutcome::Cancelled => {
                self.phase = TermPhase::Done(TerminateOutcome::Cancelled);
            },
            WaitOutcome::TimedOut => {
                if self.phase == TermPhase::Grace {
                    if self.pgid.is_some() {
                        self.phase = TermPhase::KillGroup;
                    } else {
                        self.phase = TermPhase::KillProbe(0);
                        assert(targets(v).take(0) =~= Seq::<i32>::empty());
                        assert(self@.sent =~= term_wave(v) + Seq::empty() + Seq::empty());
                    }
                } else {
                    self.phase = TermPhase::Done(TerminateOutcome::StillRunning);
                }
            },
        }
        self.action()
    }
}


/// The grace period of a termination when none is given, in milliseconds.
pub const DEFAULT_GRACEFUL_MS: i32 = 1000;

/// The final wait of a termination when none is given, in milliseconds.
pub const DEFAULT_TIMEOUT_MS: u32 = 5000;

impl Termination {
    /// Start a termination from the caller's options: no group signal, a
    /// grace period of `DEFAULT_GRACEFUL_MS` and a final wait of
    /// `DEFAULT_TIMEOUT_MS` unless given.
    pub fn with_options(
        root: i32,
        group: Option<bool>,
        graceful_ms: Option<i32>,
        timeout_ms: Option<u32>,
    ) -> (t: Self)
        ensures
            t.wf(),
            t@ == (TermView {
                root,
                group: match group {
                    Some(g) => g,
                    None => false,
                },
                graceful_ms: match graceful_ms {
                    Some(g) => g,
                    None => DEFAULT_GRACEFUL_MS,
                },
                timeout_ms: match timeout_ms {
                    Some(t) => t,
                    None => DEFAULT_TIMEOUT_MS,
                },
                descendants: Seq::empty(),
                pgid: None,
                phase: TermPhase::ProbingRoot,
                sent: Seq::empty(),
                probes: Seq::empty(),
            }),
    {
        let group = match group {
            Some(g) => g,
            None => false,
        };
        let graceful_ms = match graceful_ms {
            Some(g) => g,
            None => DEFAULT_GRACEFUL_MS,
        };
        let timeout_ms = match timeout_ms {
            Some(t) => t,
            None => DEFAULT_TIMEOUT_MS,
        };
        Termination::new(root, group, graceful_ms, timeout_ms)
    }
}

/// The signal that `kill_tree` sends: the given one, else the hard kill.
pub fn kill_tree_signal(signal: Option<i32>) -> (s: i32)
    ensures
        s == (match signal {
            Some(s) => s,
            None => KILL_SIGNAL,
        }),
{
    match signal {
        Some(s) => s,
        None => KILL_SIGNAL,
    }
}

/// The order in which `kill_tree` signals a tree: the descendants, children
/// first, then the root.
pub fn signal_order(root: i32, descendants: Vec<i32>) -> (order: Vec<i32>)
    ensures
        order@ == descendants@.push(root),
{
    let mut order = descendants;
    order.push(root);
    order
}

/// How many of the signals were delivered.
pub open spec fn count_delivered_spec(delivered: Seq<bool>) -> nat
    decreases delivered.len(),
{
    if delivered.len() == 0 {
        0
    } else {
        count_delivered_spec(delivered.drop_last()) + if delivered.last() {
            1nat
        } else {
            0nat
        }
    }
}

proof fn lemma_count_bounded(delivered: Seq<bool>)
    ensures
        count_delivered_spec(delivered) <= delivered.len(),
    decreases delivered.len(),
{
    if delivered.len() > 0 {
        lemma_count_bounded(delivered.drop_last());
    }
}

/// The number that `kill_tree` reports: how many of its signals were
/// delivered.
pub fn count_delivered(delivered: &Vec<bool>) -> (n: u32)
    requires
        delivered.len() <= u32::MAX,
    ensures
        n == count_delivered_spec(delivered@),
        n <= delivered.len(),
{
    let mut n: u32 = 0;
    let mut i: usize = 0;
    while i < delivered.len()
        invariant
            i <= delivered.len() <= u32::MAX,
            n == count_delivered_spec(delivered@.take(i as int)),
        decreases delivered.len() - i,
    {
        proof {
            assert(delivered@.take(i + 1).drop_last() =~= delivered@.take(i as int));
            lemma_count_bounded(delivered@.take(i as int));
        }
        if delivered[i] {
            n = n + 1;
        }
        i = i + 1;
    }
    assert(delivered@.take(i as int) =~= delivered@);
    proof {
        lemma_count_bounded(delivered@);
    }
    n
}


proof fn lemma_process_sends_signal(pids: Seq<i32>, signal: i32)
    ensures
        process_sends(pids, signal).len() == pids.len(),
        forall|k: int|
            0 <= k < pids.len() ==> #[trigger] process_sends(pids, signal)[k] == (SignalSend {
                target: SignalTarget::Process(pids[k]),
                signal,
            }),
    decreases pids.len(),
{
    if pids.len() > 0 {
        lemma_process_sends_signal(pids.drop_last(), signal);
    }
}

proof fn lemma_running_sends_signal(pids: Seq<i32>, probes: Seq<bool>, signal: i32)
    ensures
        running_sends(pids, probes, signal).len() <= pids.len(),
        forall|k: int|
            0 <= k < running_sends(pids, probes, signal).len() ==> (#[trigger] running_sends(
                pids,
                probes,
                signal,
            )[k]).signal == signal && running_sends(pids, probes, signal)[k].target is Process,
    decreases pids.len(),
{
    if pids.len() > 0 && probes.len() > 0 {
        lemma_running_sends_signal(pids.drop_last(), probes.drop_last(), signal);
    }
}

/// Once a termination is over, every polite signal was sent before every
/// hard signal, and no other signal was sent: nothing at all when the root
/// no longer ran; only the polite wave (the group, the descendants children
/// first, then the root) when everything exited or the wait was cancelled
/// within the grace period; else that wave followed by the hard wave, in which
/// a process gets the hard signal only when its probe just before found it
/// still running.
pub proof fn lemma_termination_signals(v: TermView)
    requires
        term_inv(v),
        v.phase is Done,
    ensures
        forall|i: int, j: int|
            0 <= i < j < v.sent.len() && (#[trigger] v.sent[i]).signal == KILL_SIGNAL ==> (
            #[trigger] v.sent[j]).signal == KILL_SIGNAL,
        forall|i: int|
            0 <= i < v.sent.len() ==> (#[trigger] v.sent[i]).signal == TERM_SIGNAL || v.sent[i].signal
                == KILL_SIGNAL,
        v.sent.len() == 0 || v.sent == term_wave(v) || v.sent == term_wave(v) + kill_wave(v),
        v.sent.len() == 0 ==> v.phase == TermPhase::Done(TerminateOutcome::Exited),
        v.phase == TermPhase::Done(TerminateOutcome::StillRunning) ==> v.sent == term_wave(v)
            + kill_wave(v),
{
    let t = targets(v);
    lemma_process_sends_signal(t, TERM_SIGNAL);
    lemma_running_sends_signal(t, v.probes, KILL_SIGNAL);
    let tw = term_wave(v);
    let kw = kill_wave(v);
    assert forall|i: int| 0 <= i < tw.len() implies (#[trigger] tw[i]).signal == TERM_SIGNAL by {
        let g = group_part(v.pgid, TERM_SIGNAL);
        if i >= g.len() {
            assert(tw[i] == process_sends(t, TERM_SIGNAL)[i - g.len()]);
        }
    }
    assert forall|i: int| 0 <= i < kw.len() implies (#[trigger] kw[i]).signal == KILL_SIGNAL by {
        let g = group_part(v.pgid, KILL_SIGNAL);
        if i >= g.len() {
            assert(kw[i] == running_sends(t, v.probes, KILL_SIGNAL)[i - g.len()]);
        }
    }
    if v.sent == tw + kw {
        assert forall|i: int| 0 <= i < v.sent.len() implies (#[trigger] v.sent[i]).signal
            == TERM_SIGNAL || v.sent[i].signal == KILL_SIGNAL by {
            if i >= tw.len() {
                assert(v.sent[i] == kw[i - tw.len()]);
            }
        }
        assert forall|i: int, j: int|
            0 <= i < j < v.sent.len() && (#[trigger] v.sent[i]).signal == KILL_SIGNAL implies (
            #[trigger] v.sent[j]).signal == KILL_SIGNAL by {
            if i < tw.len() {
                assert(v.sent[i] == tw[i]);
            }
            assert(v.sent[j] == kw[j - tw.len()]);
        }
    }
}

} // verus!
