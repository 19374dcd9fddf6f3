//! Block lifecycle engine, tamper watcher and termination coordinator: the
//! decisions that insert the block region, keep it in force, and take it
//! out again on every termination path.
//!
//! The caller performs the reads, writes, sleeps and signals around these
//! functions; everything here computes from plain values what the next
//! content of the hosts file must be.

use crate::codec::{
    build_blocked_content, contains_bytes, insert_spec, is_present, is_present_spec, occurs,
    occurs_at, push_range, region_of, strip, strip_spec,
};
use crate::config::Config;
use vstd::prelude::*;

verus! {

/// The failures the blocker reports.
#[derive(Debug, PartialEq, Eq, Structural, Clone, Copy)]
pub enum FocusError {
    /// The persisted configuration could not be read or decoded.
    ConfigInvalid,
    /// The hosts file could not be read.
    HostFileUnreadable,
    /// The hosts file could not be written.
    HostFileWriteFailed,
    /// A live session already exists.
    AlreadyActive,
    /// A stop or status request found no running session.
    NoActiveSession,
    /// The hosts file could not be restored on teardown and needs manual
    /// repair.
    CriticalRestoreFailure,
}

impl FocusError {
    /// A short description of the failure.
    pub fn message(&self) -> (r: &'static str)
        ensures
            *self == FocusError::ConfigInvalid ==> r@ == "could not load the configuration"@,
            *self == FocusError::HostFileUnreadable ==> r@ == "failed to read the hosts file"@,
            *self == FocusError::HostFileWriteFailed ==> r@ == "failed to write to the hosts file"@,
            *self == FocusError::AlreadyActive ==> r@ == "a blocking session is already active"@,
            *self == FocusError::NoActiveSession ==> r@ == "no active blocking session found"@,
            *self == FocusError::CriticalRestoreFailure ==> r@
                == "failed to restore the hosts file; fix it manually"@,
    {
        match self {
            FocusError::ConfigInvalid => "could not load the configuration",
            FocusError::HostFileUnreadable => "failed to read the hosts file",
            FocusError::HostFileWriteFailed => "failed to write to the hosts file",
            FocusError::AlreadyActive => "a blocking session is already active",
            FocusError::NoActiveSession => "no active blocking session found",
            FocusError::CriticalRestoreFailure => "failed to restore the hosts file; fix it manually",
        }
    }
}

/// What the status command reports.
#[derive(Debug, PartialEq, Eq, Structural, Clone, Copy)]
pub struct Status {
    /// A session marker exists; liveness is not re-verified here.
    pub running: bool,
    /// The hosts file holds a block region.
    pub blocked: bool,
}

/// Decides the status report: running exactly when a marker exists, blocked
/// exactly when the hosts-file content holds a block region.
pub fn check_status(marker_exists: bool, hosts_content: &Vec<u8>) -> (r: Status)
    ensures
        r.running == marker_exists,
        r.blocked == is_present_spec(hosts_content@),
{
    let blocked = is_present(hosts_content);
    Status { running: marker_exists, blocked }
}

/// Computes the hosts-file content that puts the block in force: when a
/// region is already present the content is returned unchanged (and the
/// flag says so), otherwise the rendered region is appended.
pub fn block_sites(current: &Vec<u8>, config: &Config) -> (r: (Vec<u8>, bool))
    ensures
        r.1 == is_present_spec(current@),
        r.0@ == insert_spec(current@, region_of(*config)),
{
    let present = is_present(current);
    let mut out: Vec<u8> = Vec::new();
    push_range(&mut out, current, 0, current.len());
    proof {
        assert(out@ =~= current@);
    }
    if !present {
        let mut region = build_blocked_content(config);
        out.append(&mut region);
    }
    (out, present)
}

/// One tick of the tamper watcher: when the expected region is missing from
/// the current content, the repaired content — the current content with the
/// region appended — is returned, and it holds the region; when the region
/// is present nothing is written.
pub fn watcher_tick(current: &Vec<u8>, region: &Vec<u8>) -> (r: Option<Vec<u8>>)
    ensures
        match r {
            None => occurs(current@, region@),
            Some(repaired) => !occurs(current@, region@) && repaired@ == current@ + region@
                && occurs(repaired@, region@),
        },
{
    if contains_bytes(current, region) {
        None
    } else {
        let mut repaired: Vec<u8> = Vec::new();
        push_range(&mut repaired, current, 0, current.len());
        push_range(&mut repaired, region, 0, region.len());
        proof {
            assert(repaired@ =~= current@ + region@);
            let tl: int = current@.len() as int;
            assert(occurs_at(repaired@, region@, tl)) by {
                assert forall|m: int| 0 <= m < region@.len() implies repaired@[tl + m]
                    == region@[m] by {}
            }
        }
        Some(repaired)
    }
}

/// What an external stop request must do: which process to ask to
/// terminate, whether a session marker was found at all, and the cleaned
/// hosts-file content to write back.
#[derive(Debug)]
pub struct StopPlan {
    /// The process recorded in the marker, when the marker was readable as
    /// a process identifier.
    pub signal_pid: Option<i32>,
    /// A session marker existed.
    pub had_session: bool,
    /// The hosts-file content with every block region stripped.
    pub new_content: Vec<u8>,
}

/// Decides a stop request from the marker-file content (if a marker exists)
/// and the current hosts-file content: the recorded process is the one to
/// signal, and the content to write back is the stripped current content,
/// whether or not any session marker was found.
pub fn stop_daemon(marker_content: Option<&Vec<u8>>, hosts_content: &Vec<u8>) -> (r: StopPlan)
    ensures
        r.signal_pid == (match marker_content {
            Some(c) => crate::session::parse_pid_spec(c@),
            None => None::<i32>,
        }),
        r.had_session == (marker_content is Some),
        r.new_content@ == strip_spec(hosts_content@),
{
    let (signal_pid, had_session) = match marker_content {
        Some(c) => (crate::session::parse_pid(c), true),
        None => (None, false),
    };
    let new_content = strip(hosts_content);
    StopPlan { signal_pid, had_session, new_content }
}

/// A running session: the configuration it blocks with and the snapshot of
/// the hosts file taken before the region was first written.
#[derive(Debug)]
pub struct Engine {
    config: Config,
    original: Vec<u8>,
}

impl Engine {
    /// The snapshot the session restores on normal expiry.
    pub closed spec fn snapshot(&self) -> Seq<u8> {
        self.original@
    }

    /// The configuration the session blocks with.
    pub closed spec fn spec_config(&self) -> Config {
        self.config
    }

    /// Starts a session: rejected while a live session exists; otherwise
    /// the current hosts-file content is snapshotted before any write, and
    /// the content to write is the idempotent insertion of the rendered
    /// region — unchanged if a region is already present.
    pub fn start(
        config: Config,
        current: Vec<u8>,
        marker_exists: bool,
        process_alive: bool,
    ) -> (r: Result<(Engine, Vec<u8>), FocusError>)
        ensures
            marker_exists && process_alive ==> r == Err::<(Engine, Vec<u8>), FocusError>(
                FocusError::AlreadyActive,
            ),
            !(marker_exists && process_alive) ==> (r matches Ok(p) && p.0.snapshot() == current@
                && p.0.spec_config() == config && p.1@ == insert_spec(current@, region_of(config))),
    {
        if marker_exists && process_alive {
            return Err(FocusError::AlreadyActive);
        }
        let (content, _already) = block_sites(&current, &config);
        let engine = Engine { config, original: current };
        Ok((engine, content))
    }

    /// The region this session's watcher re-asserts: rendered fresh from
    /// the configuration the session started with.
    pub fn expected_region(&self) -> (r: Vec<u8>)
        ensures
            r@ == region_of(self.spec_config()),
    {
        build_blocked_content(&self.config)
    }

    /// The content to write back on normal duration expiry: the snapshot,
    /// verbatim.
    pub fn on_expiry(&self) -> (r: &Vec<u8>)
        ensures
            r@ == self.snapshot(),
    {
        &self.original
    }
}

/// Termination coordinator: the one routine all three termination triggers
/// — duration expiry, an explicit stop, an interrupt — funnel into. The
/// first invocation cancels the watcher and yields the stripped content to
/// write back; later invocations change nothing.
#[derive(Debug)]
pub struct Coordinator {
    done: bool,
}

impl Coordinator {
    /// Whether teardown has already run.
    pub closed spec fn is_done(&self) -> bool {
        self.done
    }

    /// A coordinator that has not yet torn anything down.
    pub fn new() -> (r: Coordinator)
        ensures
            !r.is_done(),
    {
        Coordinator { done: false }
    }

    /// Runs teardown once: the first call returns the current content with
    /// every block region stripped — tolerant of watcher-introduced
    /// duplicates, partial markers, or an already absent region — and any
    /// later call returns nothing, so the file is never rewritten twice.
    pub fn terminate(&mut self, current: &Vec<u8>) -> (r: Option<Vec<u8>>)
        ensures
            final(self).is_done(),
            old(self).is_done() ==> r is None,
            !old(self).is_done() ==> (r matches Some(c) && c@ == strip_spec(current@)),
    {
        if self.done {
            return None;
        }
        self.done = true;
        Some(strip(current))
    }
}

} // verus!
