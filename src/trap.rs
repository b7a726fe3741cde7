//! Trap handling: what the kernel does for each cause of a trap.
use vstd::prelude::*;
use crate::cpu::MachineTime;
use crate::kernel::{Kernel, find_proc, released};
use crate::process::{Process, ProcessState, has_pid, first_pid, with_state};
use crate::scheduler::{schedule, rotl, picks, switched};
use crate::syscall::{SyscallAction, SyscallOutcome, syscall_post};

verus! {

/// Ticks between two timer interrupts: about a second.
pub const SCHEDULER_FREQUENCY: u64 = 10_000_000;

/// When the next timer interrupt is due: `SCHEDULER_FREQUENCY` ticks after
/// `now`, or the largest time where that would not fit.
pub fn schedule_scheduler(now: MachineTime) -> (r: MachineTime)
    ensures
        r.ticks == next_tick(now.ticks),
        now.ticks + SCHEDULER_FREQUENCY <= u64::MAX ==> r.ticks == now.ticks + SCHEDULER_FREQUENCY,
        now.ticks + SCHEDULER_FREQUENCY > u64::MAX ==> r.ticks == u64::MAX,
{
    if now.ticks > u64::MAX - SCHEDULER_FREQUENCY {
        MachineTime::from_ticks(u64::MAX)
    } else {
        now.offset_ticks(SCHEDULER_FREQUENCY)
    }
}

/// The time of the next timer interrupt armed at `now`.
pub open spec fn next_tick(now: u64) -> u64 {
    if now + SCHEDULER_FREQUENCY <= u64::MAX {
        (now + SCHEDULER_FREQUENCY) as u64
    } else {
        u64::MAX
    }
}

/// `t` is the list `s` with its process of pid `pid` taken out, where there
/// is one.
pub open spec fn deleted(s: Seq<Process>, pid: u16, t: Seq<Process>) -> bool {
    &&& has_pid(s, pid) ==> exists|i: int| first_pid(s, pid, i) && t == s.remove(i)
    &&& !has_pid(s, pid) ==> t == s
}

/// `f` is the kernel `k` after process `pid` made the system call that
/// trapped at `epc`, with outcome `out`.
pub open spec fn ecall_step(k: &Kernel, f: &Kernel, pid: u16, epc: u64, now: u64, out: SyscallOutcome) -> bool {
    &&& f.wf()
    &&& has_pid(k.procs.view_procs(), pid) ==> syscall_post(k, f, pid, epc, now, out)
    &&& !has_pid(k.procs.view_procs(), pid) ==> !out.reschedule && f.procs.view_procs() == k.procs.view_procs()
}

/// How the trap ends.
#[derive(Clone, Copy, Debug, PartialEq, Eq, Structural)]
pub enum TrapAction {
    /// Return to the interrupted code at this address.
    Resume(u64),
    /// Switch to the process with this pid; `None` where no process may run.
    Switch(Option<u16>),
    /// An external interrupt: claim it from the PLIC, then resume at this
    /// address.
    External(u64),
    /// A cause the kernel does not handle: halt the hart.
    Fatal,
}

/// What a trap leaves to do: how it ends, the timer to arm, and the work a
/// system call left.
#[derive(Clone, Debug)]
pub struct TrapOutcome {
    pub action: TrapAction,
    pub next_timer: Option<MachineTime>,
    pub syscall: Option<SyscallAction>,
}

/// The trap is asynchronous: bit 63 of the cause is set.
pub open spec fn is_async(cause: u64) -> bool {
    (cause >> 63u64) & 1 == 1
}

/// The cause number: the low 12 bits.
pub open spec fn cause_num(cause: u64) -> u64 {
    cause & 0xfff
}

/// A fault that kills the process: illegal instruction, misaligned or
/// faulting access, page fault.
pub open spec fn is_fault(n: u64) -> bool {
    n == 2 || n == 4 || n == 5 || n == 6 || n == 7 || n == 12 || n == 13 || n == 15
}

/// An environment call from user, supervisor or machine mode.
pub open spec fn is_ecall(n: u64) -> bool {
    n == 8 || n == 9 || n == 11
}

/// The switch a trap ends with picks a process of the list after the trap,
/// or none where none may run.
pub open spec fn switch_ok(f: &Kernel, next: Option<u16>) -> bool {
    next.is_some() ==> has_pid(f.procs.view_procs(), next->0)
}

/// Every frame stays full when the list is rotated and its new front woken.
pub proof fn lemma_frames_rotl(s: Seq<Process>, m: int)
    requires
        0 <= m < s.len(),
        forall|j: int| 0 <= j < s.len() ==> (#[trigger] s[j]).frame.wf(),
    ensures
        forall|j: int|
            0 <= j < s.len() ==> (#[trigger] rotl(s, m).update(0, with_state(s[m], ProcessState::Running))[j]).frame.wf(),
{
    let t = rotl(s, m).update(0, with_state(s[m], ProcessState::Running));
    assert forall|j: int| 0 <= j < s.len() implies (#[trigger] t[j]).frame.wf() by {
        if j != 0 {
            if j < s.len() - m {
                assert(rotl(s, m)[j] == s[m + j]);
            } else {
                assert(rotl(s, m)[j] == s[j - (s.len() - m)]);
            }
        }
    }
}

/// Rotating the list and waking its front keeps the set of pids.
pub proof fn lemma_pids_rotl(s: Seq<Process>, m: int, x: u16)
    requires
        0 <= m < s.len(),
    ensures
        has_pid(rotl(s, m).update(0, with_state(s[m], ProcessState::Running)), x) == has_pid(s, x),
{
    let t = rotl(s, m).update(0, with_state(s[m], ProcessState::Running));
    let n = s.len() as int;
    assert forall|j: int| 0 <= j < n implies #[trigger] t[j].pid == s[if j < n - m { m + j } else { j - (n - m) }].pid by {
        if j < n - m {
            assert(rotl(s, m)[j] == s[m + j]);
        } else {
            assert(rotl(s, m)[j] == s[j - (n - m)]);
        }
    }
    if has_pid(s, x) {
        let i = choose|i: int| 0 <= i < s.len() && #[trigger] s[i].pid == x;
        let j = if i >= m { i - m } else { i + (n - m) };
        assert(t[j].pid == x);
    }
    if has_pid(t, x) {
        let j = choose|j: int| 0 <= j < t.len() && #[trigger] t[j].pid == x;
        let i = if j < n - m { m + j } else { j - (n - m) };
        assert(s[i].pid == x);
    }
}

impl Kernel {
    /// Picks the next process at `now`, keeping the kernel well formed.
    fn context_switch(&mut self, now: MachineTime) -> (r: Option<u16>)
        requires
            old(self).wf(),
        ensures
            final(self).wf(),
            r.is_some() ==> has_pid(final(self).procs.view_procs(), r->0) && has_pid(old(self).procs.view_procs(), r->0),
            forall|x: u16| #[trigger] has_pid(final(self).procs.view_procs(), x) == has_pid(old(self).procs.view_procs(), x),
            (exists|i: int| 0 <= i < old(self).procs.view_procs().len() && (#[trigger] old(self).procs.view_procs()[i]).state
                == ProcessState::Running) ==> r.is_some(),
            switched(old(self).procs.view_procs(), final(self).procs.view_procs(), now.ticks, r),
            final(self).pages == old(self).pages,
            final(self).tables == old(self).tables,
            final(self).heap == old(self).heap,
            final(self).console == old(self).console,
            final(self).blocks == old(self).blocks,
    {
        let ghost s = self.procs.view_procs();
        let r = schedule(&mut self.procs, now);
        proof {
            if r.is_some() {
                let k = choose|k: int| picks(s, now.ticks, k) && {
                    let m = k % s.len() as int;
                    &&& r->0 == s[m].pid
                    &&& self.procs.view_procs() == rotl(s, m).update(0, with_state(s[m], ProcessState::Running))
                };
                let m = k % s.len() as int;
                lemma_frames_rotl(s, m);
                assert(self.procs.view_procs()[0].pid == r->0);
                assert forall|x: u16| #[trigger] has_pid(self.procs.view_procs(), x) == has_pid(s, x) by {
                    lemma_pids_rotl(s, m, x);
                }
            }
            if exists|i: int| 0 <= i < s.len() && (#[trigger] s[i]).state == ProcessState::Running {
                let i = choose|i: int| 0 <= i < s.len() && (#[trigger] s[i]).state == ProcessState::Running;
                assert(crate::scheduler::runnable(s[i], now.ticks));
            }
        }
        r
    }

    /// Handles a trap of process `pid` at `epc` with the given cause at time
    /// `now`. A timer interrupt arms the next one and switches process;
    /// an external interrupt goes to the PLIC; a breakpoint resumes past
    /// it; an `ecall` runs the system call and resumes past it, or switches
    /// where the call asks; a fault kills the process and switches. Any
    /// other cause is fatal.
    pub fn m_trap(
        &mut self,
        epc: u64,
        tval: u64,
        cause: u64,
        hart: u64,
        status: u64,
        pid: u16,
        now: MachineTime,
    ) -> (r: TrapOutcome)
        requires
            old(self).wf(),
            epc <= u64::MAX - 4,
        ensures
            final(self).wf(),
            r.action matches TrapAction::Switch(next) ==> switch_ok(final(self), next),
            is_async(cause) && cause_num(cause) == 3 ==> r.action == TrapAction::Resume(epc),
            is_async(cause) && cause_num(cause) == 7 ==> r.action is Switch && r.next_timer.is_some(),
            is_async(cause) && cause_num(cause) == 11 ==> r.action == TrapAction::External(epc),
            is_async(cause) && !(cause_num(cause) == 3 || cause_num(cause) == 7 || cause_num(cause) == 11)
                ==> r.action == TrapAction::Fatal,
            !is_async(cause) && is_fault(cause_num(cause)) ==> !has_pid(final(self).procs.view_procs(), pid)
                && r.action is Switch && r.action != TrapAction::Switch(Some(pid)),
            !is_async(cause) && is_fault(cause_num(cause)) && has_pid(old(self).procs.view_procs(), pid) ==> released(
                old(self),
                final(self),
                find_proc(old(self).procs.view_procs(), pid)->0,
            ),
            !is_async(cause) && is_fault(cause_num(cause)) ==> final(self).heap == old(self).heap && final(self).console
                == old(self).console && final(self).blocks == old(self).blocks,
            is_async(cause) && cause_num(cause) == 7 ==> final(self).pages == old(self).pages && final(self).tables
                == old(self).tables && final(self).heap == old(self).heap && final(self).console == old(self).console
                && final(self).blocks == old(self).blocks,
            (is_async(cause) && cause_num(cause) != 7) || (!is_async(cause) && !is_fault(cause_num(cause))
                && !is_ecall(cause_num(cause))) ==> *final(self) == *old(self),
            is_async(cause) && cause_num(cause) == 7 ==> r.next_timer == Some(MachineTime { ticks: next_tick(now.ticks) })
                && (r.action matches TrapAction::Switch(next) && switched(
                old(self).procs.view_procs(),
                final(self).procs.view_procs(),
                now.ticks,
                next,
            )),
            !is_async(cause) && is_fault(cause_num(cause)) ==> r.next_timer == Some(MachineTime { ticks: next_tick(now.ticks) })
                && exists|mid: Seq<Process>|
                deleted(old(self).procs.view_procs(), pid, mid) && (r.action matches TrapAction::Switch(next)
                    && switched(mid, final(self).procs.view_procs(), now.ticks, next)),
            !is_async(cause) && is_ecall(cause_num(cause)) ==> exists|mid: Kernel, out: SyscallOutcome|
                ecall_step(old(self), &mid, pid, epc, now.ticks, out) && r.syscall == Some(out.action) && (
                out.reschedule ==> r.next_timer == Some(MachineTime { ticks: next_tick(now.ticks) }) && (
                r.action matches TrapAction::Switch(next) && switched(
                    mid.procs.view_procs(),
                    final(self).procs.view_procs(),
                    now.ticks,
                    next,
                ))) && (!out.reschedule ==> r.action == TrapAction::Resume((epc + 4) as u64) && *final(self)
                == mid),
            !is_async(cause) && cause_num(cause) == 3 ==> r.action == TrapAction::Resume((epc + 2) as u64)
                && final(self).procs == old(self).procs,
            !is_async(cause) && is_ecall(cause_num(cause)) ==> r.syscall.is_some() && (r.action
                == TrapAction::Resume((epc + 4) as u64) || r.action is Switch),
            !is_async(cause) && !(is_fault(cause_num(cause)) || cause_num(cause) == 3 || is_ecall(
                cause_num(cause),
            )) ==> r.action == TrapAction::Fatal,
    {
        let n = cause & 0xfff;
        if (cause >> 63u64) & 1 == 1 {
            if n == 3 {
                return TrapOutcome { action: TrapAction::Resume(epc), next_timer: None, syscall: None };
            }
            if n == 7 {
                let t = schedule_scheduler(now);
                let next = self.context_switch(now);
                return TrapOutcome { action: TrapAction::Switch(next), next_timer: Some(t), syscall: None };
            }
            if n == 11 {
                return TrapOutcome { action: TrapAction::External(epc), next_timer: None, syscall: None };
            }
            return TrapOutcome { action: TrapAction::Fatal, next_timer: None, syscall: None };
        }
        if n == 2 || n == 4 || n == 5 || n == 6 || n == 7 || n == 12 || n == 13 || n == 15 {
            self.delete_process(pid);
            let ghost mid = self.procs.view_procs();
            proof {
                if has_pid(old(self).procs.view_procs(), pid) {
                    let i = choose|i: int|
                        first_pid(old(self).procs.view_procs(), pid, i) && self.procs.view_procs() == old(self).procs.view_procs().remove(i)
                            && released(old(self), self, old(self).procs.view_procs()[i]);
                    crate::kernel::lemma_find_proc(&old(self).procs, pid, i);
                }
            }
            proof {
                assert(deleted(old(self).procs.view_procs(), pid, mid));
            }
            let t = schedule_scheduler(now);
            let next = self.context_switch(now);
            let r = TrapOutcome { action: TrapAction::Switch(next), next_timer: Some(t), syscall: None };
            proof {
                assert(deleted(old(self).procs.view_procs(), pid, mid) && (r.action matches TrapAction::Switch(next)
                    && switched(mid, self.procs.view_procs(), now.ticks, next)));
            }
            return r;
        }
        if n == 3 {
            return TrapOutcome { action: TrapAction::Resume(epc + 2), next_timer: None, syscall: None };
        }
        if n == 8 || n == 9 || n == 11 {
            let out = self.do_syscall(pid, epc, now);
            let ghost mid = *self;
            let ghost og = out;
            proof {
                assert(ecall_step(old(self), &mid, pid, epc, now.ticks, og));
            }
            if out.reschedule {
                let t = schedule_scheduler(now);
                let next = self.context_switch(now);
                let r = TrapOutcome {
                    action: TrapAction::Switch(next),
                    next_timer: Some(t),
                    syscall: Some(out.action),
                };
                proof {
                    assert(ecall_step(old(self), &mid, pid, epc, now.ticks, og) && r.syscall == Some(og.action) && (
                    og.reschedule ==> r.next_timer == Some(MachineTime { ticks: next_tick(now.ticks) }) && (
                    r.action matches TrapAction::Switch(next) && switched(
                        mid.procs.view_procs(),
                        self.procs.view_procs(),
                        now.ticks,
                        next,
                    ))));
                }
                return r;
            }
            let r = TrapOutcome {
                action: TrapAction::Resume(epc + 4),
                next_timer: None,
                syscall: Some(out.action),
            };
            proof {
                assert(ecall_step(old(self), &mid, pid, epc, now.ticks, og) && r.syscall == Some(og.action)
                    && *self == mid);
            }
            return r;
        }
        TrapOutcome { action: TrapAction::Fatal, next_timer: None, syscall: None }
    }
}

} // verus!
