//! Non-blocking reaping of exited descendants.
//!
//! One probe asks the kernel for any child whose state changed, without
//! blocking; the supervisor reads each outcome through `normalize_wait`:
//! a normal exit keeps its code, a death by signal counts as exit code 0,
//! and everything else reports no reaped child.

use vstd::prelude::*;

verus! {

/// What one non-blocking wait probe reported.
#[derive(Clone, Copy, PartialEq, Eq, Structural, Debug)]
pub enum WaitOutcome {
    /// A child exited normally: its pid and its exit code.
    Exited(i32, i32),
    /// A child was terminated by a signal: its pid and the signal number.
    Signaled(i32, i32),
    /// Children exist but none has changed state.
    StillAlive,
    /// This process has no children at all.
    NoChildren,
    /// A state change of a kind the supervisor does not track (stopped,
    /// traced, and the like).
    Other,
    /// The wait call itself failed.
    Failed,
}

/// Relies on `nix::sys::wait::waitpid` over all children (pid -1) with
/// `WNOHANG`: one non-blocking probe for any child's state change, the
/// outside enums flattened variant by variant. What comes back depends on
/// the system's processes, so nothing is promised of the outcome.
#[verifier::external_body]
fn wait_any_nonblocking() -> (r: WaitOutcome) {
    let probe = nix::sys::wait::waitpid(
        nix::unistd::Pid::from_raw(-1),
        Some(nix::sys::wait::WaitPidFlag::WNOHANG),
    );
    match probe {
        Ok(nix::sys::wait::WaitStatus::Exited(p, c)) => WaitOutcome::Exited(p.as_raw(), c),
        Ok(nix::sys::wait::WaitStatus::Signaled(p, s, _)) => WaitOutcome::Signaled(p.as_raw(), s as i32),
        Ok(nix::sys::wait::WaitStatus::StillAlive) => WaitOutcome::StillAlive,
        Ok(_) => WaitOutcome::Other,
        Err(nix::errno::Errno::ECHILD) => WaitOutcome::NoChildren,
        Err(_) => WaitOutcome::Failed,
    }
}

/// How the supervisor reads one wait outcome: a normal exit keeps its pid
/// and code, a death by signal is normalized to synthetic exit code 0, and
/// every other outcome reports no reaped child.
pub open spec fn spec_normalize_wait(o: WaitOutcome) -> Option<(i32, i32)> {
    match o {
        WaitOutcome::Exited(pid, code) => Some((pid, code)),
        WaitOutcome::Signaled(pid, _) => Some((pid, 0i32)),
        WaitOutcome::StillAlive => None,
        WaitOutcome::NoChildren => None,
        WaitOutcome::Other => None,
        WaitOutcome::Failed => None,
    }
}

/// Normalizes one wait outcome into the reaped pair the supervisor tracks.
pub fn normalize_wait(o: WaitOutcome) -> (r: Option<(i32, i32)>)
    ensures
        r == spec_normalize_wait(o),
{
    match o {
        WaitOutcome::Exited(pid, code) => Some((pid, code)),
        WaitOutcome::Signaled(pid, _) => Some((pid, 0i32)),
        WaitOutcome::StillAlive => None,
        WaitOutcome::NoChildren => None,
        WaitOutcome::Other => None,
        WaitOutcome::Failed => None,
    }
}

/// A handle that yields immediately available `(pid, exit_code)` pairs of
/// dead children, one probe per call, until a call reports none.
pub struct ProcessWaiter {}

impl ProcessWaiter {
    /// One probe: the next immediately available dead child, if any. The
    /// returned pair is the normalization of whatever the probe reported;
    /// which outcome that is depends on the system, not on this crate.
    pub fn next(&mut self) -> (r: Option<(i32, i32)>)
        ensures
            exists|o: WaitOutcome| r == spec_normalize_wait(o),
    {
        let o = wait_any_nonblocking();
        let r = normalize_wait(o);
        proof {
            assert(r == spec_normalize_wait(o));
        }
        r
    }
}

/// A fresh probe handle over this process's dead children.
pub fn iter_dead_children() -> (r: ProcessWaiter) {
    ProcessWaiter {  }
}

} // verus!
