//! The decisions of the backup worker: when to run, what the backup file
//! is called, where it is uploaded, and what state a run leaves behind.
//!
//! Reading the clock, copying the database file and talking to the WebDAV
//! server happen outside this crate; they hand their results to the
//! functions here.

use vstd::prelude::*;
use crate::text::{push_char, push_str};

verus! {

/// The outcome of the last backup run, with the time it ran (RFC 3339).
#[derive(Clone, Debug)]
pub enum BackupState {
    NotRunYet,
    Successful { timestamp: String },
    Failed { timestamp: String, error: String },
}

/// The view of a run's outcome.
pub enum RunStateV {
    NotRunYet,
    Successful { timestamp: Seq<char> },
    Failed { timestamp: Seq<char>, error: Seq<char> },
}

impl View for BackupState {
    type V = RunStateV;

    open spec fn view(&self) -> RunStateV {
        match self {
            BackupState::NotRunYet => RunStateV::NotRunYet,
            BackupState::Successful { timestamp } => RunStateV::Successful { timestamp: timestamp@ },
            BackupState::Failed { timestamp, error } => RunStateV::Failed { timestamp: timestamp@, error: error@ },
        }
    }
}

/// The state a run leaves behind: successful, or failed with the error.
pub open spec fn state_after_run(outcome: Result<(), Seq<char>>, timestamp: Seq<char>) -> RunStateV {
    match outcome {
        Ok(()) => RunStateV::Successful { timestamp },
        Err(e) => RunStateV::Failed { timestamp, error: e },
    }
}

/// The view of a run's outcome.
pub open spec fn outcome_view(outcome: Result<(), String>) -> Result<(), Seq<char>> {
    match outcome {
        Ok(()) => Ok(()),
        Err(e) => Err(e@),
    }
}

/// The state recorded after a backup run that started at `timestamp`.
pub fn backup_state_after(outcome: Result<(), String>, timestamp: String) -> (r: BackupState)
    ensures
        r@ == state_after_run(outcome_view(outcome), timestamp@),
{
    match outcome {
        Ok(()) => BackupState::Successful { timestamp },
        Err(error) => BackupState::Failed { timestamp, error },
    }
}

/// What wakes a worker up.
#[derive(Clone, Copy, Debug, PartialEq, Eq, Structural)]
pub enum WorkerEvent {
    /// The worker's settings changed.
    ConfigChanged,
    /// The worker's timer fired.
    Tick,
}

/// What a worker does when woken.
#[derive(Clone, Copy, Debug, PartialEq, Eq, Structural)]
pub enum WorkerAction {
    /// Start the timer over, so that the next run comes at once.
    RestartTimer,
    /// Run now.
    Run,
    /// Do nothing until the next event.
    Skip,
}

/// A worker's decision: a change of settings restarts the timer (whose
/// first tick comes at once); a tick runs the job when it is enabled.
pub fn worker_step(event: WorkerEvent, enabled: bool) -> (r: WorkerAction)
    ensures
        event == WorkerEvent::ConfigChanged ==> r == WorkerAction::RestartTimer,
        event == WorkerEvent::Tick && enabled ==> r == WorkerAction::Run,
        event == WorkerEvent::Tick && !enabled ==> r == WorkerAction::Skip,
{
    match event {
        WorkerEvent::ConfigChanged => WorkerAction::RestartTimer,
        WorkerEvent::Tick => if enabled { WorkerAction::Run } else { WorkerAction::Skip },
    }
}

/// `s` without its colons.
pub open spec fn without_colons(s: Seq<char>) -> Seq<char>
    decreases s.len(),
{
    if s.len() == 0 {
        Seq::empty()
    } else if s.last() == ':' {
        without_colons(s.drop_last())
    } else {
        without_colons(s.drop_last()).push(s.last())
    }
}

/// Removes every colon of `s` (WebDAV servers refuse them in file names,
/// because Windows does).
pub fn remove_colons(s: &str) -> (r: String)
    ensures
        r@ == without_colons(s@),
{
    let mut r = String::new();
    let mut i: usize = 0;
    let n = s.unicode_len();
    while i < n
        invariant
            0 <= i <= n,
            n == s@.len(),
            r@ == without_colons(s@.take(i as int)),
        decreases n - i,
    {
        let c = s.get_char(i);
        if c != ':' {
            push_char(&mut r, c);
        }
        proof {
            assert(s@.take(i + 1).drop_last() =~= s@.take(i as int));
            assert(s@.take(i + 1).last() == c);
        }
        i = i + 1;
    }
    assert(s@.take(n as int) =~= s@);
    r
}

/// The name of the backup file of installation `instance_id` made at
/// `timestamp` (RFC 3339): the id, a hyphen, the time without colons, and
/// the extension `.sqlite`.
pub open spec fn backup_file_name_text(instance_id: Seq<char>, timestamp: Seq<char>) -> Seq<char> {
    instance_id + "-"@ + without_colons(timestamp) + ".sqlite"@
}

/// Names the backup file of installation `instance_id` made at `timestamp`.
pub fn backup_file_name(instance_id: &str, timestamp: &str) -> (r: String)
    ensures
        r@ == backup_file_name_text(instance_id@, timestamp@),
{
    let mut r = String::new();
    push_str(&mut r, instance_id);
    push_str(&mut r, "-");
    let t = remove_colons(timestamp);
    push_str(&mut r, t.as_str());
    push_str(&mut r, ".sqlite");
    r
}

/// Where a backup file is uploaded: at the root of the server.
pub fn backup_remote_path(file_name: &str) -> (r: String)
    ensures
        r@ == "/"@ + file_name@,
{
    let mut r = String::new();
    push_str(&mut r, "/");
    push_str(&mut r, file_name);
    r
}

/// A backup on request is refused while the backup worker is disabled.
pub fn backup_on_request(enabled: bool) -> (r: Result<(), String>)
    ensures
        r is Ok <==> enabled,
        r matches Err(e) ==> e@ == "Backup module is disabled"@,
{
    if !enabled {
        return Err(String::from_str("Backup module is disabled"));
    }
    Ok(())
}

} // verus!
