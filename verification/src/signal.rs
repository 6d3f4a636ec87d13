//! The signals the supervisor traps, escalates and forwards, their Linux
//! numbers, and the trusted delivery call.

use vstd::prelude::*;

verus! {

/// A signal the supervisor reasons about, named by its role.
#[derive(Clone, Copy, PartialEq, Eq, Structural, Debug)]
pub enum Sig {
    /// Interrupt (SIGINT).
    Int,
    /// Graceful termination (SIGTERM).
    Term,
    /// Quit (SIGQUIT).
    Quit,
    /// Child status changed (SIGCHLD).
    Chld,
    /// Unconditional kill (SIGKILL).
    Kill,
}

/// The Linux number of each signal the supervisor works with.
pub open spec fn spec_sig_number(s: Sig) -> int {
    match s {
        Sig::Int => 2,
        Sig::Quit => 3,
        Sig::Kill => 9,
        Sig::Term => 15,
        Sig::Chld => 17,
    }
}

/// The Linux signal number of `s`.
pub fn sig_number(s: Sig) -> (r: i32)
    ensures
        r as int == spec_sig_number(s),
{
    match s {
        Sig::Int => 2,
        Sig::Quit => 3,
        Sig::Kill => 9,
        Sig::Term => 15,
        Sig::Chld => 17,
    }
}

/// Which signal a raw signal number denotes, if it is one the supervisor
/// traps or sends.
pub open spec fn spec_decode_signal(n: int) -> Option<Sig> {
    if n == 2 {
        Some(Sig::Int)
    } else if n == 3 {
        Some(Sig::Quit)
    } else if n == 9 {
        Some(Sig::Kill)
    } else if n == 15 {
        Some(Sig::Term)
    } else if n == 17 {
        Some(Sig::Chld)
    } else {
        None
    }
}

/// Decodes a raw signal number as stored by a handler. A number that does
/// not denote a signal this supervisor traps or sends decodes to nothing
/// and is dropped by the caller; in particular the idle slot value 0 does.
pub fn decode_signal(n: i32) -> (r: Option<Sig>)
    ensures
        r == spec_decode_signal(n as int),
{
    if n == 2 {
        Some(Sig::Int)
    } else if n == 3 {
        Some(Sig::Quit)
    } else if n == 9 {
        Some(Sig::Kill)
    } else if n == 15 {
        Some(Sig::Term)
    } else if n == 17 {
        Some(Sig::Chld)
    } else {
        None
    }
}

/// Law: decoding a signal's own number gives that signal back.
pub proof fn lemma_sig_number_round_trip(s: Sig)
    ensures
        spec_decode_signal(spec_sig_number(s)) == Some(s),
{
}

/// Relies on `nix::sys::signal::kill`, with `Signal::try_from` converting
/// the number into its argument: delivers signal `signum` to process `pid`
/// and reports whether the kernel accepted it. Nothing further holds of the
/// result; delivery can fail or succeed depending on the target process.
#[verifier::external_body]
pub(crate) fn send_signal(pid: i32, signum: i32) -> (r: bool)
    requires
        1 <= pid,
{
    match nix::sys::signal::Signal::try_from(signum) {
        Ok(sig) => nix::sys::signal::kill(nix::unistd::Pid::from_raw(pid), sig).is_ok(),
        Err(_) => false,
    }
}

} // verus!
