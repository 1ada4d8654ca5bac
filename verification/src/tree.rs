use vstd::prelude::*;
use std::collections::HashSet;

verus! {

broadcast use vstd::std_specs::hash::group_hash_axioms;

/// A process whose children are being visited: its pid and the children not
/// yet visited, the next one last.
pub struct Frame {
    pub pid: i32,
    pub pending: Vec<i32>,
}

pub struct FrameView {
    pub pid: i32,
    pub pending: Seq<i32>,
}

/// The state of a depth-first walk over a process tree.
pub struct WalkView {
    /// Every pid met so far, the root included.
    pub visited: Set<i32>,
    /// The processes whose children are being visited, the root first.
    pub stack: Seq<FrameView>,
    /// The descendants finished so far, each after its own descendants.
    pub descendants: Seq<i32>,
    /// The process whose children must be listed next, if any.
    pub awaiting: Option<i32>,
    /// For each process met, the process whose child list named it first.
    pub parent: Map<i32, i32>,
    /// Every pid that some child list named.
    pub reported: Set<i32>,
}

pub open spec fn work(stack: Seq<FrameView>) -> nat
    decreases stack.len(),
{
    if stack.len() == 0 {
        0
    } else {
        work(stack.drop_last()) + stack.last().pending.len() + 1
    }
}

/// Run the walk until it needs the children of a newly met process, or until
/// the root's frame is finished. A finished frame other than the root's adds
/// its process to the descendants; a child already met is skipped.
pub open spec fn advance(w: WalkView) -> WalkView
    decreases work(w.stack),
{
    if w.stack.len() == 0 {
        w
    } else {
        let k = w.stack.len() - 1;
        let top = w.stack[k];
        if top.pending.len() > 0 {
            let c = top.pending.last();
            let stack2 = w.stack.update(k, FrameView { pid: top.pid, pending: top.pending.drop_last() });
            if w.visited.contains(c) {
                proof {
                    assert(stack2.drop_last() =~= w.stack.drop_last());
                }
                advance(WalkView { stack: stack2, reported: w.reported.insert(c), ..w })
            } else {
                WalkView {
                    visited: w.visited.insert(c),
                    stack: stack2,
                    awaiting: Some(c),
                    parent: w.parent.insert(c, top.pid),
                    reported: w.reported.insert(c),
                    ..w
                }
            }
        } else {
            let d = if k > 0 {
                w.descendants.push(top.pid)
            } else {
                w.descendants
            };
            advance(WalkView { stack: w.stack.drop_last(), descendants: d, ..w })
        }
    }
}

/// The awaited process's children arrive: it gets a frame of its own.
pub open spec fn push_frame(w: WalkView, children: Seq<i32>) -> WalkView {
    WalkView {
        stack: w.stack.push(FrameView { pid: w.awaiting.unwrap(), pending: children.reverse() }),
        awaiting: None,
        ..w
    }
}

pub open spec fn on_stack(stack: Seq<FrameView>, x: i32) -> bool {
    exists|i: int| 0 <= i < stack.len() && stack[i].pid == x
}

/// What holds of every state of a walk from `root`.
pub open spec fn walk_inv(root: i32, w: WalkView) -> bool {
    &&& forall|x: i32|
        #![trigger w.visited.contains(x)]
        w.visited.contains(x) <==> (x == root || on_stack(w.stack, x) || w.descendants.contains(x)
            || w.awaiting == Some(x))
    &&& w.stack.len() > 0 ==> w.stack[0].pid == root
    &&& forall|i: int|
        #![trigger w.stack[i]]
        0 < i < w.stack.len() ==> w.stack[i].pid != root && w.parent.dom().contains(w.stack[i].pid)
            && w.parent[w.stack[i].pid] == w.stack[i - 1].pid
    &&& forall|i: int, j: int|
        #![trigger w.stack[i], w.stack[j]]
        0 <= i < j < w.stack.len() ==> w.stack[i].pid != w.stack[j].pid
    &&& forall|i: int|
        #![trigger w.stack[i]]
        0 <= i < w.stack.len() ==> !w.descendants.contains(w.stack[i].pid)
    &&& w.descendants.no_duplicates()
    &&& !w.descendants.contains(root)
    &&& forall|i: int|
        #![trigger w.descendants[i]]
        0 <= i < w.descendants.len() ==> w.parent.dom().contains(w.descendants[i])
            && w.visited.contains(w.parent[w.descendants[i]])
    &&& forall|i: int, j: int|
        #![trigger w.descendants[i], w.descendants[j]]
        0 <= j <= i < w.descendants.len() ==> w.descendants[j] != w.parent[w.descendants[i]]
    &&& match w.awaiting {
        None => true,
        Some(a) => (w.stack.len() == 0 && a == root && w.descendants.len() == 0) || (w.stack.len()
            > 0 && a != root && !on_stack(w.stack, a) && !w.descendants.contains(a)
            && w.parent.dom().contains(a) && w.parent[a] == w.stack.last().pid),
    }
    &&& forall|x: i32|
        #![trigger w.reported.contains(x)]
        w.visited.contains(x) && x != root ==> w.reported.contains(x)
    &&& forall|x: i32| #![trigger w.reported.contains(x)] w.reported.contains(x) ==> w.visited.contains(x)
}


proof fn lemma_push_frame_inv(root: i32, w: WalkView, children: Seq<i32>)
    requires
        walk_inv(root, w),
        w.awaiting is Some,
    ensures
        walk_inv(root, push_frame(w, children)),
{
    let a = w.awaiting.unwrap();
    let w2 = push_frame(w, children);
    let k = w.stack.len() as int;
    assert(w2.stack[k].pid == a);
    assert forall|x: i32| #![trigger w2.visited.contains(x)]
        w2.visited.contains(x) <==> (x == root || on_stack(w2.stack, x) || w2.descendants.contains(x)
            || w2.awaiting == Some(x)) by {
        if on_stack(w.stack, x) {
            let i = choose|i: int| 0 <= i < w.stack.len() && w.stack[i].pid == x;
            assert(w2.stack[i].pid == x);
        }
        if on_stack(w2.stack, x) {
            let i = choose|i: int| 0 <= i < w2.stack.len() && w2.stack[i].pid == x;
            if i < k {
                assert(w.stack[i].pid == x);
            }
        }
    }
    assert forall|i: int, j: int| #![trigger w2.stack[i], w2.stack[j]]
        0 <= i < j < w2.stack.len() implies w2.stack[i].pid != w2.stack[j].pid by {
        if j == k {
            assert(w.stack[i].pid == w2.stack[i].pid);
            if w2.stack[i].pid == a {
                assert(on_stack(w.stack, a));
            }
        } else {
            assert(w.stack[i] == w2.stack[i]);
            assert(w.stack[j] == w2.stack[j]);
        }
    }
    assert forall|i: int| #![trigger w2.stack[i]]
        0 < i < w2.stack.len() implies w2.stack[i].pid != root && w2.parent.dom().contains(
            w2.stack[i].pid,
        ) && w2.parent[w2.stack[i].pid] == w2.stack[i - 1].pid by {
        if i < k {
            assert(w.stack[i] == w2.stack[i]);
            assert(w.stack[i - 1] == w2.stack[i - 1]);
        } else {
            assert(w.stack[i - 1] == w2.stack[i - 1]);
        }
    }
    assert forall|i: int| #![trigger w2.stack[i]]
        0 <= i < w2.stack.len() implies !w2.descendants.contains(w2.stack[i].pid) by {
        if i < k {
            assert(w.stack[i] == w2.stack[i]);
        }
    }
}

proof fn lemma_same_pids(s1: Seq<FrameView>, s2: Seq<FrameView>)
    requires
        s1.len() == s2.len(),
        forall|i: int| 0 <= i < s1.len() ==> #[trigger] s1[i].pid == s2[i].pid,
    ensures
        forall|x: i32| on_stack(s1, x) <==> on_stack(s2, x),
{
    assert forall|x: i32| on_stack(s1, x) implies on_stack(s2, x) by {
        let i = choose|i: int| 0 <= i < s1.len() && s1[i].pid == x;
        assert(s2[i].pid == x);
    }
    assert forall|x: i32| on_stack(s2, x) implies on_stack(s1, x) by {
        let i = choose|i: int| 0 <= i < s2.len() && s2[i].pid == x;
        assert(s1[i].pid == x);
    }
}

/// Every advance keeps the walk's invariant, stops only to ask for a newly
/// met process's children or when the walk is over, and meets at most that
/// one new process.
proof fn lemma_advance_inv(root: i32, w: WalkView)
    requires
        walk_inv(root, w),
        w.awaiting is None,
    ensures
        walk_inv(root, advance(w)),
        advance(w).awaiting is None ==> advance(w).stack.len() == 0 && advance(w).visited
            == w.visited,
        advance(w).awaiting matches Some(c) ==> !w.visited.contains(c) && advance(w).visited
            == w.visited.insert(c),
    decreases work(w.stack),
{
    if w.stack.len() == 0 {
        return;
    }
    let k = w.stack.len() - 1;
    let top = w.stack[k];
    if top.pending.len() > 0 {
        let c = top.pending.last();
        let stack2 = w.stack.update(k, FrameView { pid: top.pid, pending: top.pending.drop_last() });
        assert(stack2.drop_last() =~= w.stack.drop_last());
        assert forall|i: int| 0 <= i < w.stack.len() implies #[trigger] w.stack[i].pid
            == stack2[i].pid by {}
        lemma_same_pids(w.stack, stack2);
        if w.visited.contains(c) {
            let w2 = WalkView { stack: stack2, reported: w.reported.insert(c), ..w };
            assert(w2.visited =~= w.visited);
            assert forall|i: int| #![trigger w2.stack[i]] 0 <= i < w2.stack.len() implies w2.stack[i].pid
                == w.stack[i].pid by {}
            assert(walk_inv(root, w2)) by {
                assert forall|i: int, j: int| #![trigger w2.stack[i], w2.stack[j]]
                    0 <= i < j < w2.stack.len() implies w2.stack[i].pid != w2.stack[j].pid by {
                    assert(w.stack[i].pid != w.stack[j].pid);
                }
                assert forall|i: int| #![trigger w2.stack[i]]
                    0 < i < w2.stack.len() implies w2.stack[i].pid != root && w2.parent.dom().contains(
                        w2.stack[i].pid,
                    ) && w2.parent[w2.stack[i].pid] == w2.stack[i - 1].pid by {
                    assert(w.stack[i].pid == w2.stack[i].pid);
                    assert(w.stack[i - 1].pid == w2.stack[i - 1].pid);
                }
                assert forall|i: int| #![trigger w2.stack[i]]
                    0 <= i < w2.stack.len() implies !w2.descendants.contains(w2.stack[i].pid) by {
                    assert(w.stack[i].pid == w2.stack[i].pid);
                }
                assert forall|x: i32| #![trigger w2.reported.contains(x)]
                    w2.reported.contains(x) implies w2.visited.contains(x) by {
                    if x != c {
                        assert(w.reported.contains(x));
                    }
                }
                assert forall|x: i32| #![trigger w2.visited.contains(x)]
                    w2.visited.contains(x) <==> (x == root || on_stack(w2.stack, x)
                        || w2.descendants.contains(x) || w2.awaiting == Some(x)) by {
                    assert(w.visited.contains(x) <==> (x == root || on_stack(w.stack, x)
                        || w.descendants.contains(x) || w.awaiting == Some(x)));
                }
            }
            lemma_advance_inv(root, w2);
            assert(advance(w) == advance(w2));
        } else {
            let w2 = advance(w);
            assert(w2 == WalkView {
                visited: w.visited.insert(c),
                stack: stack2,
                awaiting: Some(c),
                parent: w.parent.insert(c, top.pid),
                reported: w.reported.insert(c),
                ..w
            });
            assert(c != root);
            assert(!on_stack(w.stack, c)) by {
                if on_stack(w.stack, c) {
                    let i = choose|i: int| 0 <= i < w.stack.len() && w.stack[i].pid == c;
                    assert(w.visited.contains(w.stack[i].pid));
                }
            }
            assert(!w.descendants.contains(c));
            assert forall|x: i32| #![trigger w2.visited.contains(x)]
                w2.visited.contains(x) <==> (x == root || on_stack(w2.stack, x)
                    || w2.descendants.contains(x) || w2.awaiting == Some(x)) by {
                assert(w.visited.contains(x) <==> (x == root || on_stack(w.stack, x)
                    || w.descendants.contains(x) || w.awaiting == Some(x)));
            }
            assert forall|i: int| #![trigger w2.stack[i]]
                0 < i < w2.stack.len() implies w2.stack[i].pid != root && w2.parent.dom().contains(
                    w2.stack[i].pid,
                ) && w2.parent[w2.stack[i].pid] == w2.stack[i - 1].pid by {
                assert(w.stack[i].pid == w2.stack[i].pid);
                assert(w.stack[i - 1].pid == w2.stack[i - 1].pid);
                assert(w.visited.contains(w.stack[i].pid)) by {
                    assert(on_stack(w.stack, w.stack[i].pid));
                }
            }
            assert forall|i: int, j: int| #![trigger w2.stack[i], w2.stack[j]]
                0 <= i < j < w2.stack.len() implies w2.stack[i].pid != w2.stack[j].pid by {
                assert(w.stack[i].pid != w.stack[j].pid);
            }
            assert forall|i: int| #![trigger w2.stack[i]]
                0 <= i < w2.stack.len() implies !w2.descendants.contains(w2.stack[i].pid) by {
                assert(w.stack[i].pid == w2.stack[i].pid);
            }
            assert forall|i: int| #![trigger w2.descendants[i]]
                0 <= i < w2.descendants.len() implies w2.parent.dom().contains(w2.descendants[i])
                    && w2.visited.contains(w2.parent[w2.descendants[i]]) by {
                assert(w.visited.contains(w.descendants[i]));
            }
            assert forall|i: int, j: int| #![trigger w2.descendants[i], w2.descendants[j]]
                0 <= j <= i < w2.descendants.len() implies w2.descendants[j]
                    != w2.parent[w2.descendants[i]] by {
                assert(w.visited.contains(w.descendants[i]));
                assert(w.descendants[j] != w.parent[w.descendants[i]]);
            }
            assert forall|x: i32| #![trigger w2.reported.contains(x)]
                w2.visited.contains(x) && x != root implies w2.reported.contains(x) by {
                if x != c {
                    assert(w.visited.contains(x));
                }
            }
            assert forall|x: i32| #![trigger w2.reported.contains(x)]
                w2.reported.contains(x) implies w2.visited.contains(x) by {
                if x != c {
                    assert(w.reported.contains(x));
                }
            }
        }
    } else {
        let d = if k > 0 {
            w.descendants.push(top.pid)
        } else {
            w.descendants
        };
        let w2 = WalkView { stack: w.stack.drop_last(), descendants: d, ..w };
        assert(advance(w) == advance(w2));
        assert forall|i: int| #![trigger w2.stack[i]] 0 <= i < w2.stack.len() implies w2.stack[i]
            == w.stack[i] by {}
        assert(walk_inv(root, w2)) by {
            if k > 0 {
                let t = top.pid;
                let p = w.stack[k - 1].pid;
                assert(w.parent[t] == p);
                assert(!w.descendants.contains(t));
                assert(!w.descendants.contains(p));
                assert(t != p) by {
                    assert(w.stack[k - 1].pid != w.stack[k].pid);
                }
                assert(w.visited.contains(p)) by {
                    assert(on_stack(w.stack, p));
                }
                assert forall|i: int| #![trigger w2.descendants[i]]
                    0 <= i < w2.descendants.len() implies w2.parent.dom().contains(w2.descendants[i])
                        && w2.visited.contains(w2.parent[w2.descendants[i]]) by {
                    if i < w.descendants.len() {
                        assert(w2.descendants[i] == w.descendants[i]);
                    }
                }
                assert forall|i: int, j: int| #![trigger w2.descendants[i], w2.descendants[j]]
                    0 <= j <= i < w2.descendants.len() implies w2.descendants[j]
                        != w2.parent[w2.descendants[i]] by {
                    if i < w.descendants.len() {
                        assert(w2.descendants[i] == w.descendants[i]);
                        assert(w2.descendants[j] == w.descendants[j]);
                    } else if j < w.descendants.len() {
                        assert(w2.descendants[j] == w.descendants[j]);
                        assert(w.descendants.contains(w.descendants[j]));
                    }
                }
                assert forall|i: int| #![trigger w2.stack[i]]
                    0 <= i < w2.stack.len() implies !w2.descendants.contains(w2.stack[i].pid) by {
                    assert(w.stack[i].pid != w.stack[k].pid);
                    assert(!w.descendants.contains(w.stack[i].pid));
                    if w2.descendants.contains(w2.stack[i].pid) {
                        let j = choose|j: int| 0 <= j < w2.descendants.len() && w2.descendants[j]
                            == w2.stack[i].pid;
                        if j < w.descendants.len() {
                            assert(w.descendants[j] == w2.descendants[j]);
                        }
                    }
                }
                assert(w2.descendants.no_duplicates()) by {
                    assert forall|i: int, j: int|
                        0 <= i < w2.descendants.len() && 0 <= j < w2.descendants.len() && i != j implies
                        w2.descendants[i] != w2.descendants[j] by {
                        if i < w.descendants.len() && j < w.descendants.len() {
                        } else if i < w.descendants.len() {
                            assert(w.descendants.contains(w.descendants[i]));
                        } else if j < w.descendants.len() {
                            assert(w.descendants.contains(w.descendants[j]));
                        }
                    }
                }
                assert(!w2.descendants.contains(root)) by {
                    if w2.descendants.contains(root) {
                        let j = choose|j: int| 0 <= j < w2.descendants.len() && w2.descendants[j] == root;
                        if j < w.descendants.len() {
                            assert(w.descendants.contains(root));
                        }
                    }
                }
                assert forall|x: i32| #![trigger w2.visited.contains(x)]
                    w2.visited.contains(x) <==> (x == root || on_stack(w2.stack, x)
                        || w2.descendants.contains(x) || w2.awaiting == Some(x)) by {
                    assert(w.visited.contains(x) <==> (x == root || on_stack(w.stack, x)
                        || w.descendants.contains(x) || w.awaiting == Some(x)));
                    if on_stack(w.stack, x) && x != t {
                        let i = choose|i: int| 0 <= i < w.stack.len() && w.stack[i].pid == x;
                        assert(w2.stack[i].pid == x);
                    }
                    if on_stack(w2.stack, x) {
                        let i = choose|i: int| 0 <= i < w2.stack.len() && w2.stack[i].pid == x;
                        assert(w.stack[i].pid == x);
                    }
                    if w.descendants.contains(x) {
                        let j = choose|j: int| 0 <= j < w.descendants.len() && w.descendants[j] == x;
                        assert(w2.descendants[j] == x);
                    }
                    if w2.descendants.contains(x) && x != t {
                        let j = choose|j: int| 0 <= j < w2.descendants.len() && w2.descendants[j] == x;
                        assert(w.descendants[j] == x);
                    }
                    if x == t {
                        assert(w2.descendants[w.descendants.len() as int] == t);
                    }
                }
            } else {
                assert forall|x: i32| #![trigger w2.visited.contains(x)]
                    w2.visited.contains(x) <==> (x == root || on_stack(w2.stack, x)
                        || w2.descendants.contains(x) || w2.awaiting == Some(x)) by {
                    assert(w.visited.contains(x) <==> (x == root || on_stack(w.stack, x)
                        || w.descendants.contains(x) || w.awaiting == Some(x)));
                    if on_stack(w.stack, x) {
                        let i = choose|i: int| 0 <= i < w.stack.len() && w.stack[i].pid == x;
                        assert(i == 0);
                    }
                }
            }
        }
        lemma_advance_inv(root, w2);
    }
}


/// A depth-first walk over the descendants of a process, which asks its
/// caller for the children of each process it meets.
///
/// Each child met for the first time is walked before the next sibling,
/// and becomes a descendant once its own descendants are done, so the
/// descendants come children first. A pid met twice is walked once.
pub struct DescendantWalk {
    root: i32,
    visited: HashSet<i32>,
    stack: Vec<Frame>,
    descendants: Vec<i32>,
    awaiting: Option<i32>,
    parent: Ghost<Map<i32, i32>>,
    reported: Ghost<Set<i32>>,
}

pub open spec fn frame_view(f: Frame) -> FrameView {
    FrameView { pid: f.pid, pending: f.pending@ }
}

pub open spec fn frames_view(s: Seq<Frame>) -> Seq<FrameView> {
    s.map_values(|f: Frame| frame_view(f))
}

impl View for DescendantWalk {
    type V = WalkView;

    closed spec fn view(&self) -> WalkView {
        WalkView {
            visited: self.visited@,
            stack: frames_view(self.stack@),
            descendants: self.descendants@,
            awaiting: self.awaiting,
            parent: self.parent@,
            reported: self.reported@,
        }
    }
}

impl DescendantWalk {
    /// The process whose descendants are walked.
    pub closed spec fn root(&self) -> i32 {
        self.root
    }

    /// The walk's invariant, and: it is either waiting for a child list or
    /// over.
    pub open spec fn wf(&self) -> bool {
        &&& walk_inv(self.root(), self@)
        &&& self@.awaiting is None ==> self@.stack.len() == 0
    }

    /// Start a walk from `root`; the first child list asked for is the
    /// root's.
    pub fn new(root: i32) -> (w: Self)
        ensures
            w.wf(),
            w.root() == root,
            w@ == (WalkView {
                visited: set![root],
                stack: Seq::empty(),
                descendants: Seq::empty(),
                awaiting: Some(root),
                parent: Map::empty(),
                reported: Set::empty(),
            }),
    {
        let mut visited: HashSet<i32> = HashSet::new();
        visited.insert(root);
        let w = DescendantWalk {
            root,
            visited,
            stack: Vec::new(),
            descendants: Vec::new(),
            awaiting: Some(root),
            parent: Ghost(Map::empty()),
            reported: Ghost(Set::empty()),
        };
        assert(w@.stack =~= Seq::<FrameView>::empty());
        assert(w@.visited =~= set![root]);
        assert(walk_inv(root, w@)) by {
            assert forall|x: i32| #![trigger w@.visited.contains(x)]
                w@.visited.contains(x) <==> (x == root || on_stack(w@.stack, x)
                    || w@.descendants.contains(x) || w@.awaiting == Some(x)) by {}
        }
        w
    }

    /// The process whose children the walk needs next; `None` once the walk
    /// is over.
    pub fn awaiting(&self) -> (r: Option<i32>)
        ensures
            r == self@.awaiting,
    {
        self.awaiting
    }

    /// Hand the walk the children of the process it is waiting for, in the
    /// order the system lists them. The walk runs on until it needs another
    /// child list or is over.
    pub fn children_listed(&mut self, children: Vec<i32>)
        requires
            old(self).wf(),
            old(self)@.awaiting is Some,
        ensures
            final(self).wf(),
            final(self).root() == old(self).root(),
            final(self)@ == advance(push_frame(old(self)@, children@)),
            final(self)@.awaiting matches Some(c) ==> !old(self)@.visited.contains(c)
                && final(self)@.visited == old(self)@.visited.insert(c),
            final(self)@.awaiting is None ==> final(self)@.visited == old(self)@.visited,
    {
        let ghost w0 = self@;
        let a = self.awaiting.unwrap();
        let pending = reversed(&children);
        let frame = Frame { pid: a, pending };
        proof {
            assert(frames_view(self.stack@.push(frame)) =~= frames_view(self.stack@).push(
                frame_view(frame),
            ));
        }
        self.stack.push(frame);
        self.awaiting = None;
        assert(self@ == push_frame(w0, children@));
        proof {
            lemma_push_frame_inv(self.root, w0, children@);
            lemma_advance_inv(self.root, self@);
        }
        self.run();
    }

    /// Run the walk until it needs another child list or is over.
    fn run(&mut self)
        requires
            old(self)@.awaiting is None,
        ensures
            final(self)@ == advance(old(self)@),
            final(self).root == old(self).root,
    {
        let ghost target = advance(self@);
        loop
            invariant
                self@.awaiting is None,
                advance(self@) == target,
                target == advance(old(self)@),
                self.root == old(self).root,
            ensures
                self@ == target,
            decreases work(self@.stack),
        {
            let ghost w = self@;
            if self.stack.len() == 0 {
                return;
            }
            let mut top = self.stack.pop().unwrap();
            proof {
                assert(frames_view(self.stack@) =~= w.stack.drop_last());
            }
            if top.pending.len() > 0 {
                let c = top.pending.pop().unwrap();
                assert(c == w.stack.last().pending.last());
                proof {
                    assert(frames_view(self.stack@.push(top)) =~= w.stack.update(
                        w.stack.len() - 1,
                        FrameView { pid: top.pid, pending: w.stack.last().pending.drop_last() },
                    ));
                }
                self.stack.push(top);
                proof {
                    self.reported@ = self.reported@.insert(c);
                }
                if self.visited.insert(c) {
                    self.awaiting = Some(c);
                    proof {
                        self.parent@ = self.parent@.insert(c, w.stack.last().pid);
                    }
                    return;
                }
                assert(self@.visited =~= w.visited);
                assert(self@.stack.drop_last() =~= w.stack.drop_last());
                assert(self@ == WalkView {
                    stack: self@.stack,
                    reported: w.reported.insert(c),
                    ..w
                });
            } else {
                if self.stack.len() > 0 {
                    self.descendants.push(top.pid);
                }
                assert(self@ == WalkView {
                    stack: w.stack.drop_last(),
                    descendants: if w.stack.len() > 1 {
                        w.descendants.push(w.stack.last().pid)
                    } else {
                        w.descendants
                    },
                    ..w
                });
            }
        }
    }

    /// The descendants, once the walk is over: each after all of its own
    /// descendants, so that signalling them in this order reaches children
    /// before their parents.
    pub fn into_descendants(self) -> (d: Vec<i32>)
        requires
            self.wf(),
            self@.awaiting is None,
        ensures
            d@ == self@.descendants,
            d@.no_duplicates(),
            !d@.contains(self.root()),
            forall|x: i32| self@.visited.contains(x) <==> (x == self.root() || d@.contains(x)),
            forall|x: i32| #[trigger] self@.reported.contains(x) ==> x == self.root() || d@.contains(x),
            forall|i: int|
                0 <= i < d@.len() ==> self@.reported.contains(#[trigger] d@[i])
                    && self@.parent.dom().contains(d@[i]) && (self@.parent[d@[i]] == self.root()
                    || d@.contains(self@.parent[d@[i]])),
            forall|i: int, j: int|
                0 <= j <= i < d@.len() ==> #[trigger] d@[j] != self@.parent[#[trigger] d@[i]],
    {
        assert forall|x: i32| #[trigger] self@.reported.contains(x) implies x == self.root()
            || self@.descendants.contains(x) by {
            assert(self@.visited.contains(x));
        }
        assert forall|i: int| 0 <= i < self@.descendants.len() implies self@.reported.contains(
            #[trigger] self@.descendants[i],
        ) && self@.parent.dom().contains(self@.descendants[i]) && (self@.parent[self@.descendants[i]]
            == self.root() || self@.descendants.contains(self@.parent[self@.descendants[i]])) by {
            let x = self@.descendants[i];
            assert(self@.visited.contains(x));
            assert(self@.visited.contains(self@.parent[x]));
        }
        assert forall|i: int, j: int| 0 <= j <= i < self@.descendants.len() implies
            #[trigger] self@.descendants[j] != self@.parent[#[trigger] self@.descendants[i]] by {
            assert(self@.descendants[j] != self@.parent[self@.descendants[i]]);
        }
        self.descendants
    }
}

/// The elements of `v` in reverse order.
fn reversed(v: &Vec<i32>) -> (r: Vec<i32>)
    ensures
        r@ == v@.reverse(),
{
    let mut r: Vec<i32> = Vec::new();
    let mut i = v.len();
    while i > 0
        invariant
            i <= v.len(),
            r@ == v@.subrange(i as int, v.len() as int).reverse(),
        decreases i,
    {
        i = i - 1;
        r.push(v[i]);
        assert(r@ =~= v@.subrange(i as int, v.len() as int).reverse());
    }
    assert(v@.subrange(0, v.len() as int) =~= v@);
    r
}

} // verus!
