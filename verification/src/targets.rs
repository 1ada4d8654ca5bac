use vstd::prelude::*;
use std::collections::HashSet;

verus! {

broadcast use vstd::std_specs::hash::group_hash_axioms;

/// The process group ids after recording `pgid`: a new id is appended, a
/// known one ignored.
pub open spec fn with_pgid(pgids: Seq<i32>, pgid: i32) -> Seq<i32> {
    if pgids.contains(pgid) {
        pgids
    } else {
        pgids.push(pgid)
    }
}

/// Recording a process group id a second time changes nothing, and
/// recording keeps the ids free of duplicates.
pub proof fn lemma_with_pgid_idempotent(pgids: Seq<i32>, pgid: i32)
    requires
        pgids.no_duplicates(),
    ensures
        with_pgid(with_pgid(pgids, pgid), pgid) == with_pgid(pgids, pgid),
        with_pgid(pgids, pgid).no_duplicates(),
        with_pgid(pgids, pgid).contains(pgid),
{
    let once = with_pgid(pgids, pgid);
    if !pgids.contains(pgid) {
        assert(once[pgids.len() as int] == pgid);
        assert forall|a: int, b: int| 0 <= a < once.len() && 0 <= b < once.len() && a != b implies
            once[a] != once[b] by {
            if a < pgids.len() && b < pgids.len() {
            } else if a < pgids.len() {
                assert(pgids.contains(once[a]));
            } else if b < pgids.len() {
                assert(pgids.contains(once[b]));
            }
        }
    }
}

/// A collection of process groups and process trees scheduled for
/// termination together, built up from job records or terminal metadata and
/// then signalled in escalating waves (typically `TERM_SIGNAL`, then
/// `KILL_SIGNAL` after a grace period).
///
/// `P` is the caller's stable process reference.
pub struct TerminationTargets<P> {
    pgids: Vec<i32>,
    processes: Vec<P>,
    seen_pids: HashSet<i32>,
}

impl<P> TerminationTargets<P> {
    /// The recorded process group ids, in the order first recorded.
    pub closed spec fn pgid_list(&self) -> Seq<i32> {
        self.pgids@
    }

    /// The recorded process references.
    pub closed spec fn process_list(&self) -> Seq<P> {
        self.processes@
    }

    /// Every pid handed to `add_pid`.
    pub closed spec fn seen(&self) -> Set<i32> {
        self.seen_pids@
    }

    /// No process group id is recorded twice.
    pub open spec fn wf(&self) -> bool {
        self.pgid_list().no_duplicates()
    }

    /// Create an empty target set.
    pub fn new() -> (t: Self)
        ensures
            t.wf(),
            t.pgid_list() == Seq::<i32>::empty(),
            t.process_list() == Seq::<P>::empty(),
            t.seen() == Set::<i32>::empty(),
    {
        TerminationTargets { pgids: Vec::new(), processes: Vec::new(), seen_pids: HashSet::new() }
    }

    /// Record a process group id. Duplicates are ignored.
    pub fn add_pgid(&mut self, pgid: i32)
        requires
            old(self).wf(),
        ensures
            final(self).wf(),
            final(self).pgid_list() == with_pgid(old(self).pgid_list(), pgid),
            final(self).process_list() == old(self).process_list(),
            final(self).seen() == old(self).seen(),
    {
        let mut i: usize = 0;
        while i < self.pgids.len()
            invariant
                i <= self.pgids.len(),
                forall|j: int| 0 <= j < i ==> self.pgids@[j] != pgid,
                self.pgids@ == old(self).pgids@,
                self.processes@ == old(self).processes@,
                self.seen_pids@ == old(self).seen_pids@,
                old(self).pgids@.no_duplicates(),
            decreases self.pgids.len() - i,
        {
            if self.pgids[i] == pgid {
                assert(self.pgids@.contains(pgid)) by {
                    assert(self.pgids@[i as int] == pgid);
                }
                return;
            }
            i = i + 1;
        }
        assert(!self.pgids@.contains(pgid));
        self.pgids.push(pgid);
        assert(self.pgids@.no_duplicates()) by {
            assert forall|a: int, b: int|
                0 <= a < self.pgids@.len() && 0 <= b < self.pgids@.len() && a != b implies
                self.pgids@[a] != self.pgids@[b] by {
                if a == self.pgids@.len() - 1 {
                    assert(self.pgids@[b] == old(self).pgids@[b]);
                } else if b == self.pgids@.len() - 1 {
                    assert(self.pgids@[a] == old(self).pgids@[a]);
                } else {
                    assert(old(self).pgids@.no_duplicates());
                }
            }
        }
    }

    /// Record a pid. Duplicates are ignored: the result tells whether the pid
    /// is new, in which case the caller opens a stable reference to it (if it
    /// is alive) and records it with `add_process`, so that its tree can be
    /// signalled even if the pid is reused later.
    pub fn add_pid(&mut self, pid: i32) -> (fresh: bool)
        requires
            old(self).wf(),
        ensures
            final(self).wf(),
            fresh == !old(self).seen().contains(pid),
            final(self).seen() == old(self).seen().insert(pid),
            final(self).pgid_list() == old(self).pgid_list(),
            final(self).process_list() == old(self).process_list(),
    {
        self.seen_pids.insert(pid)
    }

    /// Record the process reference opened for a new pid.
    pub fn add_process(&mut self, process: P)
        requires
            old(self).wf(),
        ensures
            final(self).wf(),
            final(self).process_list() == old(self).process_list().push(process),
            final(self).pgid_list() == old(self).pgid_list(),
            final(self).seen() == old(self).seen(),
    {
        self.processes.push(process);
    }

    /// True when no targets have been recorded.
    pub fn is_empty(&self) -> (b: bool)
        ensures
            b == (self.pgid_list().len() == 0 && self.process_list().len() == 0),
    {
        self.pgids.len() == 0 && self.processes.len() == 0
    }

    /// The recorded process group ids.
    pub fn pgids(&self) -> (r: &Vec<i32>)
        ensures
            r@ == self.pgid_list(),
    {
        &self.pgids
    }

    /// The recorded process references.
    pub fn processes(&self) -> (r: &Vec<P>)
        ensures
            r@ == self.process_list(),
    {
        &self.processes
    }
}

impl<P> Default for TerminationTargets<P> {
    fn default() -> (t: Self)
        ensures
            t.wf(),
            t.pgid_list() == Seq::<i32>::empty(),
            t.process_list() == Seq::<P>::empty(),
            t.seen() == Set::<i32>::empty(),
    {
        Self::new()
    }
}

} // verus!
