//! The supervisor's run state and its transitions.
//!
//! The supervisor owns a fixed table of children. Reap events mark children
//! as exited, arm the group kill and fix the exit code of the first death;
//! interrupt signals escalate from interrupt through termination to an
//! unconditional kill; pending signals are delivered to every child through
//! the per-child kill gating. Each exec transition is pinned to a spec
//! transition over the ghost state, and the laws at the end of this module
//! are proved over those spec transitions.

use vstd::prelude::*;

use crate::child::ChildEntry;
use crate::child::ChildSt;
use crate::child::spec_kill;
use crate::line_reader::Line;
use crate::signal::Sig;

verus! {

/// The ghost state of the whole supervisor.
pub struct SupSt {
    /// The tracked children, in spawn order.
    pub children: Seq<ChildSt>,
    /// The pending group-kill signal, armed by the first reaped child.
    pub killall: Option<Sig>,
    /// How many interrupt signals have been observed; saturates at 3, where
    /// the escalation is already at its strongest tier.
    pub int_count: int,
    /// The exit code of the first reaped child.
    pub first_exit_code: Option<int>,
}

/// Index of the first child with the given pid, if any.
pub open spec fn find_pid(cs: Seq<ChildSt>, pid: int) -> Option<int>
    decreases cs.len(),
{
    if cs.len() == 0 {
        None
    } else if cs[0].pid == pid {
        Some(0)
    } else {
        match find_pid(cs.skip(1), pid) {
            Some(j) => Some(j + 1),
            None => None,
        }
    }
}

/// `find_pid` returns the first index whose child has the pid; `None` means
/// no child has it.
pub proof fn lemma_find_pid_spec(cs: Seq<ChildSt>, pid: int)
    ensures
        match find_pid(cs, pid) {
            Some(j) => 0 <= j < cs.len() && cs[j].pid == pid && (forall|k: int|
                0 <= k < j ==> cs[k].pid != pid),
            None => forall|k: int| 0 <= k < cs.len() ==> cs[k].pid != pid,
        },
    decreases cs.len(),
{
    if cs.len() == 0 {
    } else if cs[0].pid == pid {
    } else {
        lemma_find_pid_spec(cs.skip(1), pid);
        let t = cs.skip(1);
        match find_pid(t, pid) {
            Some(j) => {
                assert(t[j] == cs[j + 1]);
                assert forall|k: int| 0 <= k < j + 1 implies cs[k].pid != pid by {
                    if k > 0 {
                        assert(t[k - 1] == cs[k]);
                        assert(t[k - 1].pid != pid);
                    }
                }
            },
            None => {
                assert forall|k: int| 0 <= k < cs.len() implies cs[k].pid != pid by {
                    if k > 0 {
                        assert(t[k - 1] == cs[k]);
                        assert(t[k - 1].pid != pid);
                    }
                }
            },
        }
    }
}

/// If `j` is the first index with the pid, `find_pid` finds it.
pub proof fn lemma_find_pid_is(cs: Seq<ChildSt>, pid: int, j: int)
    requires
        0 <= j < cs.len(),
        cs[j].pid == pid,
        forall|k: int| 0 <= k < j ==> cs[k].pid != pid,
    ensures
        find_pid(cs, pid) == Some(j),
{
    lemma_find_pid_spec(cs, pid);
    match find_pid(cs, pid) {
        Some(jp) => {
            if jp < j {
                assert(cs[jp].pid != pid);
            } else if jp > j {
                assert(cs[j].pid != pid);
            }
        },
        None => {
            assert(cs[j].pid != pid);
        },
    }
}

/// A table without the pid makes `find_pid` return `None`.
pub proof fn lemma_find_pid_none(cs: Seq<ChildSt>, pid: int)
    requires
        forall|k: int| 0 <= k < cs.len() ==> cs[k].pid != pid,
    ensures
        find_pid(cs, pid) is None,
{
    lemma_find_pid_spec(cs, pid);
    match find_pid(cs, pid) {
        Some(j) => {
            assert(cs[j].pid != pid);
        },
        None => {},
    }
}

/// Index of the first child with the given name, if any.
pub open spec fn find_name(cs: Seq<ChildSt>, name: Seq<char>) -> Option<int>
    decreases cs.len(),
{
    if cs.len() == 0 {
        None
    } else if cs[0].name == name {
        Some(0)
    } else {
        match find_name(cs.skip(1), name) {
            Some(j) => Some(j + 1),
            None => None,
        }
    }
}

/// If `j` is the first index with the name, `find_name` finds it.
pub proof fn lemma_find_name_is(cs: Seq<ChildSt>, name: Seq<char>, j: int)
    requires
        0 <= j < cs.len(),
        cs[j].name == name,
        forall|k: int| 0 <= k < j ==> cs[k].name != name,
    ensures
        find_name(cs, name) == Some(j),
    decreases cs.len(),
{
    if j == 0 {
    } else {
        let t = cs.skip(1);
        assert(t[j - 1] == cs[j]);
        assert forall|k: int| 0 <= k < j - 1 implies t[k].name != name by {
            assert(t[k] == cs[k + 1]);
        }
        lemma_find_name_is(t, name, j - 1);
    }
}

/// A table without the name makes `find_name` return `None`.
pub proof fn lemma_find_name_none(cs: Seq<ChildSt>, name: Seq<char>)
    requires
        forall|k: int| 0 <= k < cs.len() ==> cs[k].name != name,
    ensures
        find_name(cs, name) is None,
    decreases cs.len(),
{
    if cs.len() > 0 {
        let t = cs.skip(1);
        assert forall|k: int| 0 <= k < t.len() implies t[k].name != name by {
            assert(t[k] == cs[k + 1]);
        }
        lemma_find_name_none(t, name);
    }
}

/// The reap transition: the first child with the reaped pid is marked
/// exited; the first reap of the run arms the group kill with `Term` and
/// fixes the supervisor's exit code; a pid matching no tracked child (an
/// adopted orphan) changes nothing.
pub open spec fn spec_reap(s: SupSt, pid: int, code: int) -> SupSt {
    match find_pid(s.children, pid) {
        Some(j) => SupSt {
            children: s.children.update(j, ChildSt { reaped: true, ..s.children[j] }),
            killall: if s.killall is None {
                Some(Sig::Term)
            } else {
                s.killall
            },
            int_count: s.int_count,
            first_exit_code: if s.first_exit_code is None {
                Some(code)
            } else {
                s.first_exit_code
            },
        },
        None => s,
    }
}

/// One observation of the escalation counter; it saturates at 3, beyond
/// which every further interrupt already forwards the strongest tier.
pub open spec fn spec_bump(c: int) -> int {
    if c < 3 {
        c + 1
    } else {
        c
    }
}

/// The signal transition: only an interrupt changes state, by bumping the
/// escalation counter.
pub open spec fn spec_signal(s: SupSt, sig: Sig) -> SupSt {
    if sig == Sig::Int {
        SupSt { int_count: spec_bump(s.int_count), ..s }
    } else {
        s
    }
}

/// What a received signal forwards to the children: a child-status signal
/// forwards nothing, an interrupt forwards its escalation tier — the
/// interrupt itself first, then graceful termination, then an unconditional
/// kill — and every other signal is relayed unchanged.
pub open spec fn spec_forward(s: SupSt, sig: Sig) -> Option<Sig> {
    match sig {
        Sig::Chld => None,
        Sig::Int => if s.int_count == 0 {
            Some(Sig::Int)
        } else if s.int_count == 1 {
            Some(Sig::Term)
        } else {
            Some(Sig::Kill)
        },
        _ => Some(sig),
    }
}

/// What delivery does to one child: the forwarded signal, if any, then the
/// pending group kill, if any, each through the kill gating.
pub open spec fn spec_deliver_child(c: ChildSt, fwd: Option<Sig>, ka: Option<Sig>) -> ChildSt {
    let c1 = match fwd {
        Some(f) => spec_kill(c, f),
        None => c,
    };
    match ka {
        Some(k) => spec_kill(c1, k),
        None => c1,
    }
}

/// The delivery transition: every child receives the forwarded signal and
/// the pending group kill through its gating; nothing else changes.
pub open spec fn spec_deliver(s: SupSt, fwd: Option<Sig>) -> SupSt {
    SupSt {
        children: Seq::new(
            s.children.len(),
            |i: int| spec_deliver_child(s.children[i], fwd, s.killall),
        ),
        ..s
    }
}

/// The stream-bookkeeping transition: an end-of-stream record closes one of
/// the first matching child's streams; other records change nothing. The
/// count feeds no other transition — liveness is reap-based.
pub open spec fn spec_note_line(s: SupSt, name: Seq<char>, eof: bool) -> SupSt {
    if !eof {
        s
    } else {
        match find_name(s.children, name) {
            Some(j) => if s.children[j].streams_open > 0 {
                SupSt {
                    children: s.children.update(
                        j,
                        ChildSt { streams_open: s.children[j].streams_open - 1, ..s.children[j] },
                    ),
                    ..s
                }
            } else {
                s
            },
            None => s,
        }
    }
}

/// The run state of the supervisor.
pub struct Supervisor {
    /// The tracked children, in spawn order; fixed after startup.
    pub children: Vec<ChildEntry>,
    /// The pending group-kill signal, armed by the first reaped child.
    pub killall: Option<Sig>,
    /// How many interrupt signals have been observed; saturates at 3.
    pub int_count: u32,
    /// The exit code of the first reaped child.
    pub first_exit_code: Option<i32>,
}

impl View for Supervisor {
    type V = SupSt;

    open spec fn view(&self) -> SupSt {
        SupSt {
            children: Seq::new(self.children@.len(), |i: int| self.children@[i]@),
            killall: self.killall,
            int_count: self.int_count as int,
            first_exit_code: match self.first_exit_code {
                Some(c) => Some(c as int),
                None => None,
            },
        }
    }
}

/// The ghost child table indexes the exec child table pointwise.
pub proof fn lemma_view_index(s: &Supervisor, i: int)
    requires
        0 <= i < s.children@.len(),
    ensures
        s@.children[i] == s.children@[i]@,
{
}

impl Supervisor {
    /// Well-formedness: every tracked child has a real OS process id.
    pub open spec fn wf(&self) -> bool {
        forall|i: int| 0 <= i < self.children@.len() ==> (#[trigger] self.children@[i]).wf()
    }

    /// A supervisor over a fixed table of children, with nothing pending,
    /// no interrupt observed, and no exit code fixed.
    pub fn new(children: Vec<ChildEntry>) -> (r: Supervisor)
        requires
            forall|i: int| 0 <= i < children@.len() ==> (#[trigger] children@[i]).wf(),
        ensures
            r.wf(),
            r.children == children,
            r.killall is None,
            r.int_count == 0,
            r.first_exit_code is None,
    {
        Supervisor { children, killall: None, int_count: 0, first_exit_code: None }
    }

    /// Records one reaped `(pid, code)` pair, exactly as `spec_reap` says,
    /// and reports whether the pid matched a tracked child; an unmatched
    /// pid is an adopted orphan and leaves the state untouched.
    pub fn note_reap(&mut self, pid: i32, code: i32) -> (matched: bool)
        requires
            old(self).wf(),
        ensures
            final(self).wf(),
            final(self)@ == spec_reap(old(self)@, pid as int, code as int),
            matched == (find_pid(old(self)@.children, pid as int) is Some),
    {
        let n = self.children.len();
        let mut i: usize = 0;
        while i < n
            invariant
                *self == *old(self),
                old(self).wf(),
                0 <= i <= n,
                n == self.children@.len(),
                forall|k: int| 0 <= k < i ==> self@.children[k].pid != pid as int,
            decreases n - i,
        {
            if self.children[i].pid == pid {
                proof {
                    lemma_find_pid_is(self@.children, pid as int, i as int);
                }
                self.children[i].reaped = true;
                if self.killall.is_none() {
                    self.killall = Some(Sig::Term);
                }
                if self.first_exit_code.is_none() {
                    self.first_exit_code = Some(code);
                }
                proof {
                    assert forall|k: int| 0 <= k < self.children@.len() implies (
                    #[trigger] self.children@[k]).wf() by {
                        if k != i {
                            assert(self.children@[k] == old(self).children@[k]);
                        }
                    }
                    assert(self@.children =~= old(self)@.children.update(
                        i as int,
                        ChildSt { reaped: true, ..old(self)@.children[i as int] },
                    ));
                    assert(self@ == spec_reap(old(self)@, pid as int, code as int));
                }
                return true;
            }
            i = i + 1;
        }
        proof {
            lemma_find_pid_none(self@.children, pid as int);
        }
        false
    }

    /// Handles one received signal: bumps the escalation counter on an
    /// interrupt, exactly as `spec_signal` says, and returns the signal to
    /// forward to the children, exactly as `spec_forward` says.
    pub fn handle_signal(&mut self, sig: Sig) -> (forward: Option<Sig>)
        requires
            old(self).wf(),
        ensures
            final(self).wf(),
            final(self)@ == spec_signal(old(self)@, sig),
            forward == spec_forward(old(self)@, sig),
    {
        match sig {
            Sig::Chld => None,
            Sig::Int => {
                let forward = if self.int_count == 0 {
                    Some(Sig::Int)
                } else if self.int_count == 1 {
                    Some(Sig::Term)
                } else {
                    Some(Sig::Kill)
                };
                if self.int_count < 3 {
                    self.int_count = self.int_count + 1;
                }
                proof {
                    assert(self@.children =~= old(self)@.children);
                    assert(self@ == spec_signal(old(self)@, sig));
                }
                forward
            },
            _ => Some(sig),
        }
    }

    /// Delivers the forwarded signal, if any, and the pending group kill,
    /// if any, to every child through the kill gating, exactly as
    /// `spec_deliver` says.
    pub fn deliver_signals(&mut self, forward: Option<Sig>)
        requires
            old(self).wf(),
        ensures
            final(self).wf(),
            final(self)@ == spec_deliver(old(self)@, forward),
    {
        let ka = self.killall;
        let n = self.children.len();
        let mut i: usize = 0;
        while i < n
            invariant
                old(self).wf(),
                0 <= i <= n,
                n == self.children@.len(),
                self.killall == old(self).killall,
                ka == old(self).killall,
                self.int_count == old(self).int_count,
                self.first_exit_code == old(self).first_exit_code,
                n == old(self).children@.len(),
                forall|k: int| 0 <= k < self.children@.len() ==> (
                #[trigger] self.children@[k]).wf(),
                forall|k: int| i <= k < n ==> (#[trigger] self.children@[k]) == old(
                    self,
                ).children@[k],
                forall|k: int| 0 <= k < i ==> (#[trigger] self.children@[k])@
                    == spec_deliver_child(old(self)@.children[k], forward, old(self)@.killall),
            decreases n - i,
        {
            let ghost c0 = self.children@[i as int]@;
            proof {
                lemma_view_index(old(self), i as int);
                assert(self.children@[i as int] == old(self).children@[i as int]);
                assert(c0 == old(self)@.children[i as int]);
            }
            if let Some(f) = forward {
                self.children[i].kill(f);
            }
            let ghost c1 = self.children@[i as int]@;
            proof {
                assert(c1 == (match forward {
                    Some(f) => spec_kill(c0, f),
                    None => c0,
                }));
            }
            if let Some(k) = ka {
                self.children[i].kill(k);
            }
            proof {
                assert(self.children@[i as int]@ == spec_deliver_child(
                    old(self)@.children[i as int],
                    forward,
                    old(self)@.killall,
                ));
            }
            i = i + 1;
        }
        proof {
            assert(self@.children =~= spec_deliver(old(self)@, forward).children);
            assert(self@ == spec_deliver(old(self)@, forward));
        }
    }

    /// Records that a record arrived from the named child's output, exactly
    /// as `spec_note_line` says: an end-of-stream record closes one of the
    /// first matching child's streams. Bookkeeping only.
    pub fn note_line(&mut self, name: &String, rec: &Line)
        requires
            old(self).wf(),
        ensures
            final(self).wf(),
            final(self)@ == spec_note_line(old(self)@, name@, rec.tag() is Eof),
    {
        let eof = match rec {
            Line::EOF(_) => true,
            Line::FullLine(_) => false,
            Line::PartialLine(_) => false,
        };
        proof {
            assert(eof == (rec.tag() is Eof));
        }
        if !eof {
            return ;
        }
        let n = self.children.len();
        let mut i: usize = 0;
        while i < n
            invariant
                *self == *old(self),
                old(self).wf(),
                rec.tag() is Eof,
                0 <= i <= n,
                n == self.children@.len(),
                forall|k: int| 0 <= k < i ==> self@.children[k].name != name@,
            decreases n - i,
        {
            if self.children[i].name == *name {
                proof {
                    lemma_view_index(self, i as int);
                    assert(self@.children[i as int].name == name@);
                    lemma_find_name_is(self@.children, name@, i as int);
                    assert(rec.tag() is Eof);
                }
                if self.children[i].streams_open > 0 {
                    let so = self.children[i].streams_open;
                    self.children[i].streams_open = so - 1;
                    proof {
                        assert forall|k: int| 0 <= k < self.children@.len() implies (
                        #[trigger] self.children@[k]).wf() by {
                            if k != i {
                                assert(self.children@[k] == old(self).children@[k]);
                            }
                        }
                        assert(self@.children =~= old(self)@.children.update(
                            i as int,
                            ChildSt {
                                streams_open: old(self)@.children[i as int].streams_open - 1,
                                ..old(self)@.children[i as int]
                            },
                        ));
                        assert(self@ == spec_note_line(old(self)@, name@, true));
                    }
                } else {
                    proof {
                        lemma_view_index(self, i as int);
                        assert(self@.children[i as int].streams_open <= 0);
                        assert(spec_note_line(old(self)@, name@, true) == old(self)@);
                    }
                }
                return ;
            }
            i = i + 1;
        }
        proof {
            lemma_find_name_none(self@.children, name@);
        }
    }

    /// Whether every tracked child has been reaped; when true the run moves
    /// on to draining and termination.
    pub fn all_reaped(&self) -> (r: bool)
        ensures
            r == (forall|i: int|
                0 <= i < self@.children.len() ==> (#[trigger] self@.children[i]).reaped),
    {
        let n = self.children.len();
        let mut i: usize = 0;
        while i < n
            invariant
                0 <= i <= n,
                n == self.children@.len(),
                forall|k: int| 0 <= k < i ==> (#[trigger] self@.children[k]).reaped,
            decreases n - i,
        {
            if !self.children[i].reaped {
                proof {
                    assert(!(self@.children[i as int]).reaped);
                }
                return false;
            }
            i = i + 1;
        }
        true
    }

    /// The supervisor's own exit code: the code of the first reaped child,
    /// or 0 when no child was reaped before a clean shutdown.
    pub fn exit_code(&self) -> (r: i32)
        ensures
            r as int == (match self@.first_exit_code {
                Some(c) => c,
                None => 0int,
            }),
    {
        match self.first_exit_code {
            Some(c) => c,
            None => 0,
        }
    }
}

/// Law: interrupt escalation. The first interrupt observed in a run is
/// forwarded as itself, the second as graceful termination, the third and
/// every later one as an unconditional kill.
pub proof fn lemma_interrupt_escalation(s: SupSt)
    ensures
        s.int_count == 0 ==> spec_forward(s, Sig::Int) == Some(Sig::Int),
        s.int_count == 1 ==> spec_forward(s, Sig::Int) == Some(Sig::Term),
        s.int_count >= 2 ==> spec_forward(s, Sig::Int) == Some(Sig::Kill),
{
}

/// Law: the escalation counter never decreases, whatever arrives.
pub proof fn lemma_escalation_monotone(s: SupSt, sig: Sig)
    ensures
        spec_signal(s, sig).int_count >= s.int_count,
{
}

/// Law: first-dead-child exit code. A matched reap in a run with no exit
/// code yet fixes the code of that child, and no later reap — matched or
/// not, zero or not — ever overrides it.
pub proof fn lemma_first_dead_child_exit_code(
    s: SupSt,
    pid1: int,
    code1: int,
    pid2: int,
    code2: int,
)
    requires
        s.first_exit_code is None,
        find_pid(s.children, pid1) is Some,
    ensures
        spec_reap(s, pid1, code1).first_exit_code == Some(code1),
        spec_reap(spec_reap(s, pid1, code1), pid2, code2).first_exit_code == Some(code1),
{
}

/// Law: a reap never changes an exit code that is already fixed.
pub proof fn lemma_exit_code_sticky(s: SupSt, pid: int, code: int)
    requires
        s.first_exit_code is Some,
    ensures
        spec_reap(s, pid, code).first_exit_code == s.first_exit_code,
{
}

/// Law: adopted-orphan reaping. A reaped pid that matches no tracked child
/// leaves the supervisor state — child table, group kill, escalation
/// counter and exit code — exactly as it was.
pub proof fn lemma_orphan_reap_harmless(s: SupSt, pid: int, code: int)
    requires
        forall|i: int| 0 <= i < s.children.len() ==> (#[trigger] s.children[i]).pid != pid,
    ensures
        spec_reap(s, pid, code) == s,
{
    lemma_find_pid_none(s.children, pid);
}

/// Law: the group kill, once armed, never disarms and never changes.
pub proof fn lemma_group_kill_sticky(s: SupSt, pid: int, code: int)
    requires
        s.killall is Some,
    ensures
        spec_reap(s, pid, code).killall == s.killall,
{
}

/// Law: the child table is fixed after startup. Every transition keeps its
/// length and every child's name and pid.
pub proof fn lemma_children_fixed(s: SupSt, pid: int, code: int, sig: Sig, fwd: Option<Sig>)
    ensures
        spec_reap(s, pid, code).children.len() == s.children.len(),
        forall|i: int| 0 <= i < s.children.len() ==> (#[trigger] spec_reap(
            s,
            pid,
            code,
        ).children[i]).name == s.children[i].name && spec_reap(s, pid, code).children[i].pid
            == s.children[i].pid,
        spec_signal(s, sig).children == s.children,
        spec_deliver(s, fwd).children.len() == s.children.len(),
        forall|i: int| 0 <= i < s.children.len() ==> (#[trigger] spec_deliver(
            s,
            fwd,
        ).children[i]).name == s.children[i].name && spec_deliver(s, fwd).children[i].pid
            == s.children[i].pid,
{
    lemma_find_pid_spec(s.children, pid);
}

} // verus!
