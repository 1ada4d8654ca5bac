use vstd::prelude::*;
use crate::status::ProcessStatus;

verus! {

/// The operating systems whose process interfaces the library knows.
#[derive(Clone, Copy, Debug, PartialEq, Eq, Structural)]
pub enum Platform {
    /// pidfds and `/proc`.
    Linux,
    /// libproc and `kill(2)` probes.
    MacOs,
    /// Process handles and Toolhelp snapshots; no process groups.
    Windows,
}

/// The `kill(2)` call, `(pid, signal)`, that sends `signal` to the process
/// group `pgid` (the negated id selects the group). `None`, where the signal
/// counts as not delivered, on a platform without process groups and for an
/// id that names no group to signal this way: 0 and below name none, and the
/// negation of 1 would reach every process the caller may signal.
pub fn kill_process_group(platform: Platform, pgid: i32, signal: i32) -> (call: Option<(i32, i32)>)
    ensures
        call == (if platform == Platform::Windows || pgid <= 1 {
            None
        } else {
            Some(((-pgid) as i32, signal))
        }),
{
    if platform == Platform::Windows || pgid <= 1 {
        None
    } else {
        Some((-pgid, signal))
    }
}

/// Only a positive pid names a process that a reference can be opened for.
pub fn valid_pid(pid: i32) -> (b: bool)
    ensures
        b == (pid > 0),
{
    pid > 0
}

/// The process group id that `getpgid` reported, `None` for its error
/// value.
pub fn group_id_from(pgid: i32) -> (r: Option<i32>)
    ensures
        r == (if pgid < 0 {
            None
        } else {
            Some(pgid)
        }),
{
    if pgid < 0 {
        None
    } else {
        Some(pgid)
    }
}

/// A parent pid as the system reports it (an unsigned number): usable only
/// when it is a positive `i32`.
pub fn positive_pid(raw: u64) -> (r: Option<i32>)
    ensures
        r == (if 0 < raw <= i32::MAX {
            Some(raw as i32)
        } else {
            None
        }),
{
    if 0 < raw && raw <= 0x7fff_ffff {
        Some(raw as i32)
    } else {
        None
    }
}

/// When a process started, as libproc reports it: seconds and microseconds.
#[derive(Clone, Copy, Debug, PartialEq, Eq, Structural)]
pub struct StartTime {
    pub secs: u64,
    pub micros: u64,
}

/// macOS: a reference runs while a `kill(pid, 0)` probe succeeds (or fails
/// only for lack of permission) and the process now under its pid started
/// when the reference was opened. A pid taken over by a later process thus
/// never makes an exited reference read as running again.
pub fn probe_status(ret: i32, permission_denied: bool, now_started: Option<StartTime>, opened_started: StartTime) -> (s: ProcessStatus)
    ensures
        s == (if (ret == 0 || permission_denied) && now_started == Some(opened_started) {
            ProcessStatus::Running
        } else {
            ProcessStatus::Exited
        }),
{
    let same_process = match now_started {
        Some(t) => t.secs == opened_started.secs && t.micros == opened_started.micros,
        None => false,
    };
    if (ret == 0 || permission_denied) && same_process {
        ProcessStatus::Running
    } else {
        ProcessStatus::Exited
    }
}

/// The exit code that Windows reports for a process that still runs.
pub const STILL_ACTIVE: u32 = 259;

/// Windows: a process runs while a zero-timeout wait on its handle times out
/// (the handle is not signalled) and its exit code reads `STILL_ACTIVE`. A
/// process that exited with code 259 has a signalled handle, so it reads as
/// exited.
pub fn exit_code_status(wait_timed_out: bool, query_ok: bool, exit_code: u32) -> (s: ProcessStatus)
    ensures
        s == (if wait_timed_out && query_ok && exit_code == STILL_ACTIVE {
            ProcessStatus::Running
        } else {
            ProcessStatus::Exited
        }),
{
    if wait_timed_out && query_ok && exit_code == STILL_ACTIVE {
        ProcessStatus::Running
    } else {
        ProcessStatus::Exited
    }
}

/// Windows: a remote read is complete when the call succeeded and read every
/// requested byte.
pub fn complete_read(ok: bool, read: usize, length: u16) -> (b: bool)
    ensures
        b == (ok && read == length),
{
    ok && read == length as usize
}

/// macOS: how many pids a libproc listing buffer holds. The listing reports
/// a byte count; the buffer is padded to four times the count it implies,
/// and to at least 2048 entries, because libproc truncates a near-fit buffer.
pub fn listing_capacity(bytes: i32) -> (cap: usize)
    requires
        bytes > 0,
    ensures
        cap == (if 4 * (bytes / 4) > 2048 {
            4 * (bytes / 4)
        } else {
            2048
        }),
{
    let count: usize = (bytes / 4) as usize;
    let padded: usize = count * 4;
    if padded > 2048 {
        padded
    } else {
        2048
    }
}

/// macOS: how many entries of a listing buffer of `capacity` entries hold
/// pids, given the byte count that the second libproc call returned.
pub fn listed_count(actual: i32, capacity: usize) -> (n: usize)
    requires
        actual > 0,
    ensures
        n == (if (actual / 4) < capacity {
            (actual / 4) as usize
        } else {
            capacity
        }),
{
    let count: usize = (actual / 4) as usize;
    if count < capacity {
        count
    } else {
        capacity
    }
}

/// Windows: the number of UTF-16 code units in a remote `UNICODE_STRING`
/// of `length` bytes at address `buffer`; `None` when it is empty, null or
/// of odd length.
pub fn utf16_units(length: u16, buffer: usize) -> (n: Option<usize>)
    ensures
        n == (if length == 0 || buffer == 0 || length % 2 != 0 {
            None
        } else {
            Some((length / 2) as usize)
        }),
{
    if length == 0 || buffer == 0 || length % 2 != 0 {
        None
    } else {
        Some((length / 2) as usize)
    }
}


/// A listed child counts only while it runs and the system still names
/// `parent` as its parent, so that a reused pid is not taken for a child.
pub fn still_child_of(child_status: ProcessStatus, child_parent: Option<i32>, parent: i32) -> (b: bool)
    ensures
        b == (child_status == ProcessStatus::Running && child_parent == Some(parent)),
{
    child_status == ProcessStatus::Running && match child_parent {
        Some(p) => p == parent,
        None => false,
    }
}

} // verus!
