//! The supervisor's record of one child and its kill gating.

use vstd::prelude::*;

use crate::signal::Sig;
use crate::signal::send_signal;
use crate::signal::sig_number;

verus! {

/// The ghost-level state of one supervised child.
pub struct ChildSt {
    /// The configured name of the child.
    pub name: Seq<char>,
    /// The OS process id.
    pub pid: int,
    /// The strongest signal already sent, if any.
    pub kill_sent: Option<Sig>,
    /// Whether the child's exit has been reaped.
    pub reaped: bool,
    /// How many of the two output streams are still open.
    pub streams_open: int,
}

/// One supervised child: its name, its OS process id, the strongest signal
/// already sent, whether its exit has been reaped, and how many of its two
/// output streams are still open. The stream count is bookkeeping only;
/// liveness is decided by reap events alone, never by stream end.
pub struct ChildEntry {
    /// The configured name of the child.
    pub name: String,
    /// The OS process id; strictly positive.
    pub pid: i32,
    /// The strongest signal already sent, if any.
    pub kill_sent: Option<Sig>,
    /// Whether the child's exit has been reaped.
    pub reaped: bool,
    /// How many of the two output streams are still open.
    pub streams_open: u32,
}

impl View for ChildEntry {
    type V = ChildSt;

    open spec fn view(&self) -> ChildSt {
        ChildSt {
            name: self.name@,
            pid: self.pid as int,
            kill_sent: self.kill_sent,
            reaped: self.reaped,
            streams_open: self.streams_open as int,
        }
    }
}

/// The gating of one kill: a reaped child is never signalled, the same
/// signal is never sent twice, and any other signal is recorded as the new
/// strongest sent.
pub open spec fn spec_kill(c: ChildSt, sig: Sig) -> ChildSt {
    if c.reaped || c.kill_sent == Some(sig) {
        c
    } else {
        ChildSt { kill_sent: Some(sig), ..c }
    }
}

/// Law: a child is signalled only while it is still running; the kill
/// transition leaves a reaped child exactly as it was.
pub proof fn lemma_no_kill_after_reap(c: ChildSt, sig: Sig)
    requires
        c.reaped,
    ensures
        spec_kill(c, sig) == c,
{
}

/// Law: kills are idempotent per signal; re-sending the strongest signal
/// already sent changes nothing.
pub proof fn lemma_kill_idempotent(c: ChildSt, sig: Sig)
    ensures
        spec_kill(spec_kill(c, sig), sig) == spec_kill(c, sig),
{
}

impl ChildEntry {
    /// Well-formedness: a real OS process id.
    pub open spec fn wf(&self) -> bool {
        1 <= self.pid
    }

    /// A freshly spawned child: running, nothing sent, both streams open.
    pub fn new(name: String, pid: i32) -> (r: ChildEntry)
        requires
            1 <= pid,
        ensures
            r.wf(),
            r@ == (ChildSt {
                name: name@,
                pid: pid as int,
                kill_sent: None,
                reaped: false,
                streams_open: 2,
            }),
    {
        ChildEntry { name, pid, kill_sent: None, reaped: false, streams_open: 2 }
    }

    /// Whether the child counts as alive; exclusively reap-based.
    pub fn is_alive(&self) -> (r: bool)
        ensures
            r == !self@.reaped,
    {
        !self.reaped
    }

    /// Sends `sig` to the child unless gated, recording it as the new
    /// strongest sent; the recorded state changes exactly as `spec_kill`
    /// says. A kill is thus only ever delivered while the child is still
    /// running. A delivery failure is ignored: the next escalation tier is
    /// the remedy, not a retry.
    pub fn kill(&mut self, sig: Sig)
        requires
            old(self).wf(),
        ensures
            final(self).wf(),
            final(self)@ == spec_kill(old(self)@, sig),
    {
        if self.reaped {
            return ;
        }
        if let Some(prev) = self.kill_sent {
            if prev == sig {
                return ;
            }
        }
        self.kill_sent = Some(sig);
        let _delivered = send_signal(self.pid, sig_number(sig));
    }
}

} // verus!
