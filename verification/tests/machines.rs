use std::collections::HashMap;

use process_tree::platform::{
    complete_read, exit_code_status, group_id_from, kill_process_group, listed_count, listing_capacity,
    positive_pid, probe_status, still_child_of, utf16_units, valid_pid, Platform, StartTime, STILL_ACTIVE,
};
use process_tree::snapshot::{build_process_tree, children_from_tree, SnapshotEntry};
use process_tree::status::{poll_verdict, PollVerdict, ProcessStatus, POLLHUP, POLLIN, POLLNVAL};
use process_tree::targets::TerminationTargets;
use process_tree::terminate::{
    count_delivered, kill_tree_signal, signal_order, SignalSend, SignalTarget, TerminateAction,
    TerminateOutcome, Termination, KILL_SIGNAL, TERM_SIGNAL,
};
use process_tree::tree::DescendantWalk;
use process_tree::wait::{all_exited, ExitWait, WaitAction, WaitOutcome};

#[test]
fn poll_verdicts() {
    assert_eq!(poll_verdict(-1, true, 0), PollVerdict::Retry);
    assert_eq!(poll_verdict(-1, false, 0), PollVerdict::Status(ProcessStatus::Running));
    assert_eq!(poll_verdict(0, false, 0), PollVerdict::Status(ProcessStatus::Running));
    assert_eq!(poll_verdict(1, false, POLLIN), PollVerdict::Status(ProcessStatus::Exited));
    assert_eq!(poll_verdict(1, false, POLLHUP), PollVerdict::Status(ProcessStatus::Exited));
    assert_eq!(poll_verdict(1, false, POLLNVAL), PollVerdict::Status(ProcessStatus::Exited));
    assert_eq!(poll_verdict(1, false, 0x004), PollVerdict::Status(ProcessStatus::Running));
}

#[test]
fn platform_decisions() {
    assert_eq!(kill_process_group(Platform::Linux, 1234, 15), Some((-1234, 15)));
    assert_eq!(kill_process_group(Platform::MacOs, 7, 9), Some((-7, 9)));
    assert_eq!(kill_process_group(Platform::Windows, 1234, 15), None);
    assert_eq!(kill_process_group(Platform::Linux, 2, 15), Some((-2, 15)));
    assert_eq!(kill_process_group(Platform::Linux, 1, 15), None);
    assert_eq!(kill_process_group(Platform::Linux, 0, 15), None);
    assert_eq!(kill_process_group(Platform::MacOs, -5, 9), None);
    assert_eq!(kill_process_group(Platform::Linux, i32::MIN, 9), None);
    assert_eq!(kill_process_group(Platform::Linux, i32::MAX, 9), Some((-i32::MAX, 9)));
    assert!(valid_pid(1));
    assert!(!valid_pid(0));
    assert!(!valid_pid(-5));
    assert_eq!(group_id_from(-1), None);
    assert_eq!(group_id_from(0), Some(0));
    assert_eq!(group_id_from(321), Some(321));
    assert_eq!(positive_pid(0), None);
    assert_eq!(positive_pid(1), Some(1));
    assert_eq!(positive_pid(2147483647), Some(i32::MAX));
    assert_eq!(positive_pid(2147483648), None);
    let opened = StartTime { secs: 1_700_000_000, micros: 250 };
    let later = StartTime { secs: 1_700_000_000, micros: 251 };
    assert_eq!(probe_status(0, false, Some(opened), opened), ProcessStatus::Running);
    assert_eq!(probe_status(-1, true, Some(opened), opened), ProcessStatus::Running);
    assert_eq!(probe_status(-1, false, Some(opened), opened), ProcessStatus::Exited);
    // The pid now names a process that started later: the reference has exited.
    assert_eq!(probe_status(0, false, Some(later), opened), ProcessStatus::Exited);
    assert_eq!(probe_status(0, false, None, opened), ProcessStatus::Exited);
    assert_eq!(exit_code_status(true, true, STILL_ACTIVE), ProcessStatus::Running);
    assert_eq!(exit_code_status(true, true, 0), ProcessStatus::Exited);
    assert_eq!(exit_code_status(true, false, STILL_ACTIVE), ProcessStatus::Exited);
    // Exited with code 259: the handle is signalled, so the wait does not time out.
    assert_eq!(exit_code_status(false, true, STILL_ACTIVE), ProcessStatus::Exited);
    assert!(complete_read(true, 6, 6));
    assert!(!complete_read(true, 4, 6));
    assert!(!complete_read(false, 6, 6));
    assert_eq!(listing_capacity(400), 2048);
    assert_eq!(listing_capacity(4000), 4000);
    assert_eq!(listing_capacity(4003), 4000);
    assert_eq!(listed_count(40, 2048), 10);
    assert_eq!(listed_count(40000, 2048), 2048);
    assert_eq!(utf16_units(0, 8), None);
    assert_eq!(utf16_units(6, 0), None);
    assert_eq!(utf16_units(7, 8), None);
    assert_eq!(utf16_units(6, 8), Some(3));
    assert!(still_child_of(ProcessStatus::Running, Some(10), 10));
    assert!(!still_child_of(ProcessStatus::Running, Some(1), 10));
    assert!(!still_child_of(ProcessStatus::Running, None, 10));
    assert!(!still_child_of(ProcessStatus::Exited, Some(10), 10));
}

#[test]
fn all_exited_needs_every_process_gone() {
    assert!(all_exited(&vec![]));
    assert!(all_exited(&vec![ProcessStatus::Exited, ProcessStatus::Exited]));
    assert!(!all_exited(&vec![ProcessStatus::Exited, ProcessStatus::Running]));
    assert!(!all_exited(&vec![ProcessStatus::Running]));
}

/// Walk a tree given as a parent -> children table, recording the order in
/// which child lists were asked for.
fn walk(root: i32, tree: &HashMap<i32, Vec<i32>>) -> (Vec<i32>, Vec<i32>) {
    let mut w = DescendantWalk::new(root);
    let mut asked = Vec::new();
    while let Some(pid) = w.awaiting() {
        asked.push(pid);
        let children = tree.get(&pid).cloned().unwrap_or_default();
        w.children_listed(children);
    }
    (w.into_descendants(), asked)
}

#[test]
fn walk_lists_children_first() {
    let mut tree = HashMap::new();
    tree.insert(1, vec![2, 3]);
    tree.insert(2, vec![4, 5]);
    tree.insert(5, vec![6]);
    let (descendants, asked) = walk(1, &tree);
    assert_eq!(descendants, vec![4, 6, 5, 2, 3]);
    assert_eq!(asked, vec![1, 2, 4, 5, 6, 3]);
    assert_eq!(signal_order(1, descendants), vec![4, 6, 5, 2, 3, 1]);
}

#[test]
fn walk_visits_each_pid_once() {
    let mut tree = HashMap::new();
    // A pid reported twice, and one that names the root as its child.
    tree.insert(10, vec![11, 12, 11]);
    tree.insert(12, vec![10, 11, 13]);
    let (descendants, asked) = walk(10, &tree);
    assert_eq!(descendants, vec![11, 13, 12]);
    assert_eq!(asked, vec![10, 11, 12, 13]);
}

#[test]
fn walk_of_a_leaf() {
    let (descendants, asked) = walk(42, &HashMap::new());
    assert!(descendants.is_empty());
    assert_eq!(asked, vec![42]);
}

fn run_wait(limit: Option<u64>, exit_after_sleeps: Option<usize>, cancel_at_check: Option<usize>) -> (WaitOutcome, Vec<u64>) {
    let mut w = ExitWait::new(limit);
    let mut sleeps = Vec::new();
    let mut checks = 0;
    let mut action = w.action();
    loop {
        action = match action {
            WaitAction::CheckCancel => {
                checks += 1;
                w.cancel_checked(cancel_at_check == Some(checks))
            }
            WaitAction::Probe => w.probed(exit_after_sleeps == Some(sleeps.len())),
            WaitAction::Sleep(ms) => {
                sleeps.push(ms);
                w.slept()
            }
            WaitAction::Finish(outcome) => return (outcome, sleeps),
        };
        assert!(sleeps.len() < 1000);
    }
}

#[test]
fn wait_times_out_after_the_whole_limit() {
    assert_eq!(run_wait(Some(120), None, None), (WaitOutcome::TimedOut, vec![50, 50, 20]));
    assert_eq!(run_wait(Some(100), None, None), (WaitOutcome::TimedOut, vec![50, 50]));
    assert_eq!(run_wait(Some(0), None, None), (WaitOutcome::TimedOut, vec![]));
}

#[test]
fn wait_ends_when_everything_exited() {
    assert_eq!(run_wait(Some(1000), Some(0), None), (WaitOutcome::Exited, vec![]));
    assert_eq!(run_wait(Some(1000), Some(3), None), (WaitOutcome::Exited, vec![50, 50, 50]));
    assert_eq!(run_wait(None, Some(5), None), (WaitOutcome::Exited, vec![50; 5]));
}

#[test]
fn wait_is_cancelled() {
    assert_eq!(run_wait(Some(1000), None, Some(1)), (WaitOutcome::Cancelled, vec![]));
    assert_eq!(run_wait(None, None, Some(3)), (WaitOutcome::Cancelled, vec![50]));
}

#[derive(Default)]
struct World {
    root_running: bool,
    descendants: Vec<i32>,
    pgid: Option<i32>,
    grace_outcome: Option<WaitOutcome>,
    final_outcome: Option<WaitOutcome>,
    still_running: Vec<i32>,
}

fn run_termination(mut t: Termination, world: &World) -> (TerminateOutcome, Vec<SignalSend>, Vec<u64>) {
    let mut sent = Vec::new();
    let mut waits = Vec::new();
    let mut action = t.action();
    loop {
        action = match action {
            TerminateAction::ProbeRoot => t.root_probed(world.root_running),
            TerminateAction::CollectDescendants => t.descendants_collected(world.descendants.clone()),
            TerminateAction::QueryGroup => t.group_queried(world.pgid),
            TerminateAction::Send(s) => {
                sent.push(s);
                t.signal_sent()
            }
            TerminateAction::Probe(pid) => t.process_probed(world.still_running.contains(&pid)),
            TerminateAction::Wait(ms) => {
                let outcome = if waits.is_empty() && t_is_grace(&world, &sent) {
                    world.grace_outcome.unwrap()
                } else {
                    world.final_outcome.unwrap()
                };
                waits.push(ms);
                t.wait_finished(outcome)
            }
            TerminateAction::Finish(outcome) => return (outcome, sent, waits),
        };
    }
}

fn t_is_grace(world: &World, sent: &[SignalSend]) -> bool {
    world.grace_outcome.is_some() && sent.iter().all(|s| s.signal == TERM_SIGNAL)
}

fn term(pid: i32) -> SignalSend {
    SignalSend { target: SignalTarget::Process(pid), signal: TERM_SIGNAL }
}

fn kill(pid: i32) -> SignalSend {
    SignalSend { target: SignalTarget::Process(pid), signal: KILL_SIGNAL }
}

#[test]
fn terminating_an_exited_root_sends_nothing() {
    let t = Termination::with_options(100, None, None, None);
    let (outcome, sent, waits) = run_termination(t, &World::default());
    assert_eq!(outcome, TerminateOutcome::Exited);
    assert!(sent.is_empty());
    assert!(waits.is_empty());
}

#[test]
fn terminate_exits_within_the_grace_period() {
    let world = World {
        root_running: true,
        descendants: vec![102, 101],
        grace_outcome: Some(WaitOutcome::Exited),
        ..World::default()
    };
    let t = Termination::with_options(100, None, None, None);
    let (outcome, sent, waits) = run_termination(t, &world);
    assert_eq!(outcome, TerminateOutcome::Exited);
    assert_eq!(sent, vec![term(102), term(101), term(100)]);
    assert_eq!(waits, vec![1000]);
}

#[test]
fn terminate_escalates_to_the_hard_kill() {
    let world = World {
        root_running: true,
        descendants: vec![102, 101],
        pgid: Some(100),
        grace_outcome: Some(WaitOutcome::TimedOut),
        final_outcome: Some(WaitOutcome::Exited),
        still_running: vec![101, 100],
    };
    let t = Termination::with_options(100, Some(true), Some(200), Some(3000));
    let (outcome, sent, waits) = run_termination(t, &world);
    assert_eq!(outcome, TerminateOutcome::Exited);
    let group_term = SignalSend { target: SignalTarget::Group(100), signal: TERM_SIGNAL };
    let group_kill = SignalSend { target: SignalTarget::Group(100), signal: KILL_SIGNAL };
    assert_eq!(
        sent,
        vec![group_term, term(102), term(101), term(100), group_kill, kill(101), kill(100)]
    );
    assert_eq!(waits, vec![200, 3000]);
}

#[test]
fn terminate_without_grace_kills_at_once() {
    let world = World {
        root_running: true,
        descendants: vec![7],
        final_outcome: Some(WaitOutcome::TimedOut),
        still_running: vec![7, 5],
        ..World::default()
    };
    let t = Termination::with_options(5, Some(false), Some(-1), Some(10));
    let (outcome, sent, waits) = run_termination(t, &world);
    assert_eq!(outcome, TerminateOutcome::StillRunning);
    assert_eq!(sent, vec![term(7), term(5), kill(7), kill(5)]);
    assert_eq!(waits, vec![10]);
}

#[test]
fn terminate_group_without_a_known_group() {
    let world = World {
        root_running: true,
        pgid: None,
        grace_outcome: Some(WaitOutcome::Cancelled),
        ..World::default()
    };
    let t = Termination::with_options(5, Some(true), None, None);
    let (outcome, sent, _) = run_termination(t, &world);
    assert_eq!(outcome, TerminateOutcome::Cancelled);
    assert_eq!(sent, vec![term(5)]);
}

#[test]
fn kill_tree_helpers() {
    assert_eq!(kill_tree_signal(None), KILL_SIGNAL);
    assert_eq!(kill_tree_signal(Some(2)), 2);
    assert_eq!(count_delivered(&vec![true, false, true, true]), 3);
    assert_eq!(count_delivered(&vec![]), 0);
    assert_eq!(signal_order(9, vec![]), vec![9]);
}

#[test]
fn termination_targets_ignore_duplicates() {
    let mut targets: TerminationTargets<&'static str> = TerminationTargets::new();
    assert!(targets.is_empty());
    targets.add_pgid(10);
    targets.add_pgid(20);
    targets.add_pgid(10);
    assert_eq!(targets.pgids(), &vec![10, 20]);
    assert!(!targets.is_empty());
    assert!(targets.add_pid(5));
    assert!(!targets.add_pid(5));
    assert!(targets.add_pid(6));
    targets.add_process("five");
    assert_eq!(targets.processes(), &vec!["five"]);
    let empty: TerminationTargets<u8> = TerminationTargets::default();
    assert!(empty.is_empty());
}

#[test]
fn a_seen_pid_without_a_process_is_no_target() {
    let mut targets: TerminationTargets<u8> = TerminationTargets::new();
    assert!(targets.add_pid(77));
    assert!(targets.is_empty());
}

#[test]
fn snapshot_process_tree() {
    let entries = vec![
        SnapshotEntry { pid: 4, parent_pid: 0 },
        SnapshotEntry { pid: 100, parent_pid: 4 },
        SnapshotEntry { pid: 101, parent_pid: 100 },
        SnapshotEntry { pid: 102, parent_pid: 100 },
        SnapshotEntry { pid: 103, parent_pid: 100 },
        SnapshotEntry { pid: 104, parent_pid: 100 },
        SnapshotEntry { pid: 105, parent_pid: 100 },
        SnapshotEntry { pid: 200, parent_pid: 4 },
    ];
    let tree = build_process_tree(&entries);
    assert_eq!(children_from_tree(&tree, 100), vec![101, 102, 103, 104, 105]);
    assert_eq!(children_from_tree(&tree, 4), vec![100, 200]);
    assert_eq!(children_from_tree(&tree, 0), vec![4]);
    assert_eq!(children_from_tree(&tree, 101), Vec::<u32>::new());
    assert_eq!(children_from_tree(&tree, -1), Vec::<u32>::new());
    assert_eq!(tree.len(), 3);
}

