use vstd::prelude::*;

use crate::text::{parse_unsigned, parse_unsigned_spec, trim_spec, trim_text};

verus! {

/// What a daemon's pid file says.
#[derive(Debug, Clone, Copy, PartialEq, Eq, Structural)]
pub enum PidRecord {
    /// There is no pid file.
    Missing,
    /// The file does not hold a process id.
    Invalid,
    /// The file names this process.
    Pid(u32),
}

/// How pid-file content is read: trimmed of white space, it must be a
/// `u32` (an optional `+`, then decimal digits).
pub open spec fn pid_record_spec(text: Option<Seq<char>>) -> PidRecord {
    match text {
        None => PidRecord::Missing,
        Some(t) => match parse_unsigned_spec(trim_spec(t), 4294967295) {
            Some(v) => PidRecord::Pid(v as u32),
            None => PidRecord::Invalid,
        },
    }
}

/// Reads a pid file's content (`None` when there is no file).
pub fn read_pid_record(text: Option<&str>) -> (r: PidRecord)
    ensures
        r == pid_record_spec(
            match text {
                Some(t) => Some(t@),
                None => None,
            },
        ),
{
    match text {
        None => PidRecord::Missing,
        Some(t) => {
            let trimmed = trim_text(t);
            match parse_unsigned(trimmed.as_str(), 4294967295) {
                Some(v) => PidRecord::Pid(v as u32),
                None => PidRecord::Invalid,
            }
        },
    }
}

/// What starting a daemon comes to.
#[derive(Debug, Clone, Copy, PartialEq, Eq, Structural)]
pub enum StartDecision {
    /// The service is switched off in its configuration.
    Disabled,
    /// A live process already runs it.
    AlreadyRunning(u32),
    /// Start it.
    Start,
}

/// Decides whether to start a daemon, given whether its service is enabled,
/// its pid file, and whether the process the file names is alive.
pub fn start_decision(enabled: bool, record: PidRecord, alive: bool) -> (r: StartDecision)
    ensures
        !enabled ==> r == StartDecision::Disabled,
        enabled ==> r == match record {
            PidRecord::Pid(p) => if alive {
                StartDecision::AlreadyRunning(p)
            } else {
                StartDecision::Start
            },
            _ => StartDecision::Start,
        },
{
    if !enabled {
        return StartDecision::Disabled;
    }
    match record {
        PidRecord::Pid(p) => if alive {
            StartDecision::AlreadyRunning(p)
        } else {
            StartDecision::Start
        },
        _ => StartDecision::Start,
    }
}

/// What stopping a daemon comes to.
#[derive(Debug, Clone, Copy, PartialEq, Eq, Structural)]
pub enum StopDecision {
    /// There is no pid file: nothing to stop.
    NotRunning,
    /// The pid file is unreadable: nothing is signalled.
    InvalidPid,
    /// Send the process a termination signal; remove the pid file if that
    /// succeeds.
    Signal(u32),
}

pub fn stop_decision(record: PidRecord) -> (r: StopDecision)
    ensures
        r == match record {
            PidRecord::Missing => StopDecision::NotRunning,
            PidRecord::Invalid => StopDecision::InvalidPid,
            PidRecord::Pid(p) => StopDecision::Signal(p),
        },
{
    match record {
        PidRecord::Missing => StopDecision::NotRunning,
        PidRecord::Invalid => StopDecision::InvalidPid,
        PidRecord::Pid(p) => StopDecision::Signal(p),
    }
}

/// What the status of a daemon is.
#[derive(Debug, Clone, Copy, PartialEq, Eq, Structural)]
pub enum DaemonStatus {
    NotRunning,
    InvalidPid,
    Running(u32),
    /// The pid file names a process that is gone: the file is to be removed.
    Stale(u32),
}

/// The status of a daemon, given its pid file and whether the process the
/// file names is alive.
pub fn daemon_status(record: PidRecord, alive: bool) -> (r: DaemonStatus)
    ensures
        r == match record {
            PidRecord::Missing => DaemonStatus::NotRunning,
            PidRecord::Invalid => DaemonStatus::InvalidPid,
            PidRecord::Pid(p) => if alive {
                DaemonStatus::Running(p)
            } else {
                DaemonStatus::Stale(p)
            },
        },
{
    match record {
        PidRecord::Missing => DaemonStatus::NotRunning,
        PidRecord::Invalid => DaemonStatus::InvalidPid,
        PidRecord::Pid(p) => if alive {
            DaemonStatus::Running(p)
        } else {
            DaemonStatus::Stale(p)
        },
    }
}

} // verus!
