use vstd::prelude::*;
use std::collections::HashMap;
use smallvec::SmallVec;

verus! {

broadcast use vstd::std_specs::hash::group_hash_axioms;

/// The child pids of one parent, held inline while there are at most four.
#[verifier::external_body]
pub struct ChildList {
    items: SmallVec<[u32; 4]>,
}

/// The pids in a child list, in order.
pub uninterp spec fn small_items(v: ChildList) -> Seq<u32>;

/// Calls `SmallVec::new`. Claimed: the vector is empty.
#[verifier::external_body]
fn small_new() -> (v: ChildList)
    ensures
        small_items(v) == Seq::<u32>::empty(),
{
    ChildList { items: SmallVec::new() }
}

/// Calls `SmallVec::push`. Claimed: the item is appended. Growing panics on
/// a capacity that overflows; the bound on the length rules that out.
#[verifier::external_body]
fn small_push(v: &mut ChildList, item: u32)
    requires
        small_items(*old(v)).len() < 0x1000_0000,
    ensures
        small_items(*final(v)) == small_items(*old(v)).push(item),
{
    v.items.push(item)
}

/// Calls `SmallVec::as_slice` and copies the items out. Claimed: the copy
/// holds the items in order.
#[verifier::external_body]
fn small_to_vec(v: &ChildList) -> (r: Vec<u32>)
    ensures
        r@ == small_items(*v),
{
    v.items.as_slice().to_vec()
}

/// One entry of a process snapshot: a process and the process that created
/// it.
#[derive(Clone, Copy, Debug, PartialEq, Eq, Structural)]
pub struct SnapshotEntry {
    pub pid: u32,
    pub parent_pid: u32,
}

/// The pids whose entries name `parent` as their parent, in snapshot order.
pub open spec fn children_in(entries: Seq<SnapshotEntry>, parent: u32) -> Seq<u32>
    decreases entries.len(),
{
    if entries.len() == 0 {
        Seq::empty()
    } else {
        let r = children_in(entries.drop_last(), parent);
        if entries.last().parent_pid == parent {
            r.push(entries.last().pid)
        } else {
            r
        }
    }
}

proof fn lemma_children_in_len(entries: Seq<SnapshotEntry>, parent: u32)
    ensures
        children_in(entries, parent).len() <= entries.len(),
    decreases entries.len(),
{
    if entries.len() > 0 {
        lemma_children_in_len(entries.drop_last(), parent);
    }
}

/// The map from each parent pid to its child pids, built from a process
/// snapshot: a parent appears exactly when some entry names it, and its
/// children keep the snapshot's order.
pub fn build_process_tree(entries: &Vec<SnapshotEntry>) -> (tree: HashMap<u32, ChildList>)
    requires
        entries.len() < 0x1000_0000,
    ensures
        forall|p: u32| #[trigger] tree@.contains_key(p) <==> children_in(entries@, p).len() > 0,
        forall|p: u32| #[trigger] tree@.contains_key(p) ==> small_items(tree@[p]) == children_in(entries@, p),
{
    let mut tree: HashMap<u32, ChildList> = HashMap::new();
    let mut i: usize = 0;
    while i < entries.len()
        invariant
            i <= entries.len() < 0x1000_0000,
            forall|p: u32| #[trigger] tree@.contains_key(p) <==> children_in(entries@.take(i as int), p).len() > 0,
            forall|p: u32| #[trigger] tree@.contains_key(p) ==> small_items(tree@[p]) == children_in(
                entries@.take(i as int),
                p,
            ),
        decreases entries.len() - i,
    {
        let e = entries[i];
        let ghost before = entries@.take(i as int);
        let ghost after = entries@.take(i + 1);
        assert(after.drop_last() =~= before);
        assert(after.last() == e);
        let mut kids = match tree.remove(&e.parent_pid) {
            Some(k) => k,
            None => small_new(),
        };
        proof {
            lemma_children_in_len(before, e.parent_pid);
        }
        assert(small_items(kids) == children_in(before, e.parent_pid));
        small_push(&mut kids, e.pid);
        tree.insert(e.parent_pid, kids);
        i = i + 1;
        assert forall|p: u32| #[trigger] tree@.contains_key(p) <==> children_in(entries@.take(i as int), p).len() > 0 by {
            if p != e.parent_pid {
                assert(children_in(after, p) == children_in(before, p));
            }
        }
        assert forall|p: u32| #[trigger] tree@.contains_key(p) implies small_items(tree@[p]) == children_in(
            entries@.take(i as int),
            p,
        ) by {
            if p != e.parent_pid {
                assert(children_in(after, p) == children_in(before, p));
            }
        }
    }
    assert(entries@.take(i as int) =~= entries@);
    tree
}

/// The candidate children of `pid` in a process tree; none for a negative
/// pid, which no snapshot holds.
pub fn children_from_tree(tree: &HashMap<u32, ChildList>, pid: i32) -> (r: Vec<u32>)
    ensures
        r@ == (if pid >= 0 && tree@.contains_key(pid as u32) {
            small_items(tree@[pid as u32])
        } else {
            Seq::empty()
        }),
{
    if pid < 0 {
        return Vec::new();
    }
    let key = pid as u32;
    match tree.get(&key) {
        Some(kids) => small_to_vec(kids),
        None => Vec::new(),
    }
}

} // verus!
