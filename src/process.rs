//! Processes and the process list.
use vstd::prelude::*;
use std::collections::VecDeque;
use crate::cpu::{CpuMode, MachineTime, TrapFrame, REG_A0, REG_RA, REG_SP};

verus! {

/// Pages of a process stack.
pub const STACK_PAGES: usize = 2;

/// Where a user process sees its stack.
pub const STACK_ADDR: u64 = 0xf_0000_0000;

/// Pages of code that a user process sees from its entry point on.
pub const CODE_PAGES: u64 = 101;

/// Where the system-call trampoline is mapped for user processes.
pub const TRAMPOLINE_ADDR: u64 = 0x8000_0000;

/// Length of the working-directory field of a process.
pub const CWD_LEN: usize = 128;

/// States of a process.
#[derive(Clone, Copy, Debug, PartialEq, Eq, Structural)]
pub enum ProcessState {
    Running,
    Sleeping,
    Waiting,
    Dead,
}

/// Private data of a process: its working directory.
#[derive(Clone, Debug)]
pub struct ProcessData {
    pub cwd_path: Vec<u8>,
}

impl ProcessData {
    /// Data with an empty working directory.
    pub fn zero() -> (r: ProcessData)
        ensures
            r.cwd_path@.len() == CWD_LEN,
            forall|i: int| 0 <= i < CWD_LEN ==> #[trigger] r.cwd_path@[i] == 0,
    {
        let mut cwd_path: Vec<u8> = Vec::new();
        let mut i: usize = 0;
        while i < CWD_LEN
            invariant
                i <= CWD_LEN,
                cwd_path@.len() == i,
                forall|j: int| 0 <= j < i ==> #[trigger] cwd_path@[j] == 0,
            decreases CWD_LEN - i,
        {
            cwd_path.push(0);
            i = i + 1;
        }
        ProcessData { cwd_path }
    }
}

/// A process: its saved registers, stack, root page table, state and the
/// time it sleeps until.
#[derive(Clone, Debug)]
pub struct Process {
    pub frame: TrapFrame,
    pub stack: u64,
    pub pid: u16,
    pub root_table: u64,
    pub state: ProcessState,
    pub data: ProcessData,
    pub sleep_until: MachineTime,
}

/// `p` with its state replaced.
pub open spec fn with_state(p: Process, st: ProcessState) -> Process {
    Process { state: st, ..p }
}

/// `p` asleep until `t`.
pub open spec fn asleep(p: Process, t: MachineTime) -> Process {
    Process { state: ProcessState::Sleeping, sleep_until: t, ..p }
}

/// `q` is `p` with its saved program counter set to `pc`.
pub open spec fn pc_set(p: Process, q: Process, pc: u64) -> bool {
    &&& q.pid == p.pid
    &&& q.state == p.state
    &&& q.sleep_until == p.sleep_until
    &&& q.stack == p.stack
    &&& q.root_table == p.root_table
    &&& q.frame.regs@ == p.frame.regs@
    &&& q.frame.fregs@ == p.frame.fregs@
    &&& q.frame.satp == p.frame.satp
    &&& q.frame.pc == pc
    &&& q.frame.mode == p.frame.mode
    &&& q.frame.pid == p.frame.pid
}

/// `q` is `p` with register `reg` set to `v`.
pub open spec fn reg_set(p: Process, q: Process, reg: int, v: u64) -> bool {
    &&& q.pid == p.pid
    &&& q.state == p.state
    &&& q.sleep_until == p.sleep_until
    &&& q.stack == p.stack
    &&& q.root_table == p.root_table
    &&& q.frame.regs@ == p.frame.regs@.update(reg, v)
    &&& q.frame.fregs@ == p.frame.fregs@
    &&& q.frame.satp == p.frame.satp
    &&& q.frame.pc == p.frame.pc
    &&& q.frame.mode == p.frame.mode
    &&& q.frame.pid == p.frame.pid
}

/// Entry `i` is the first process with pid `pid`.
pub open spec fn first_pid(s: Seq<Process>, pid: u16, i: int) -> bool {
    &&& 0 <= i < s.len()
    &&& s[i].pid == pid
    &&& forall|j: int| 0 <= j < i ==> #[trigger] s[j].pid != pid
}

/// Some process has pid `pid`.
pub open spec fn has_pid(s: Seq<Process>, pid: u16) -> bool {
    exists|i: int| 0 <= i < s.len() && #[trigger] s[i].pid == pid
}

/// The list of processes, in scheduling order, and the next pid to hand out.
pub struct ProcessList {
    procs: VecDeque<Process>,
    next_pid: u16,
}

impl ProcessList {
    /// The processes, front first.
    pub closed spec fn view_procs(&self) -> Seq<Process> {
        self.procs@
    }

    /// The pid the next process gets.
    pub closed spec fn spec_next_pid(&self) -> u16 {
        self.next_pid
    }

    /// Pids are unique, at least 1 and below the next pid to hand out.
    pub open spec fn wf(&self) -> bool {
        &&& self.spec_next_pid() >= 1
        &&& forall|i: int|
            0 <= i < self.view_procs().len() ==> 1 <= #[trigger] self.view_procs()[i].pid < self.spec_next_pid()
        &&& forall|i: int, j: int|
            0 <= i < self.view_procs().len() && 0 <= j < self.view_procs().len() && i != j ==> #[trigger] self.view_procs()[i].pid
                != #[trigger] self.view_procs()[j].pid
    }

    /// An empty list; pids start at 1.
    pub fn new() -> (r: ProcessList)
        ensures
            r.wf(),
            r.view_procs().len() == 0,
            r.spec_next_pid() == 1,
    {
        ProcessList { procs: VecDeque::new(), next_pid: 1 }
    }

    /// Number of processes.
    pub fn len(&self) -> (r: usize)
        ensures
            r == self.view_procs().len(),
    {
        self.procs.len()
    }

    /// The process at position `i`.
    pub fn get(&self, i: usize) -> (r: &Process)
        requires
            i < self.view_procs().len(),
        ensures
            *r == self.view_procs()[i as int],
    {
        &self.procs[i]
    }

    /// The pid the next process gets.
    pub fn next_pid(&self) -> (r: u16)
        ensures
            r == self.spec_next_pid(),
    {
        self.next_pid
    }

    /// Appends a process with a fresh pid; the pid, or `None` once pids ran
    /// out.
    pub fn push(&mut self, p: Process) -> (r: Option<u16>)
        requires
            old(self).wf(),
        ensures
            final(self).wf(),
            old(self).spec_next_pid() == u16::MAX ==> r.is_none() && final(self).view_procs() == old(self).view_procs() && final(self).spec_next_pid() == old(self).spec_next_pid(),
            old(self).spec_next_pid() < u16::MAX ==> r == Some(old(self).spec_next_pid())
                && final(self).spec_next_pid() == old(self).spec_next_pid() + 1
                && final(self).view_procs() == old(self).view_procs().push(
                Process { pid: old(self).spec_next_pid(), ..p },
            ),
    {
        if self.next_pid == u16::MAX {
            return None;
        }
        let pid = self.next_pid;
        let mut p = p;
        p.pid = pid;
        self.procs.push_back(p);
        self.next_pid = pid + 1;
        assert forall|i: int, j: int|
            0 <= i < self.view_procs().len() && 0 <= j < self.view_procs().len() && i != j implies #[trigger] self.view_procs()[i].pid
            != #[trigger] self.view_procs()[j].pid by {
            let n = old(self).view_procs().len() as int;
            if i < n && j < n {
                assert(self.view_procs()[i] == old(self).view_procs()[i]);
                assert(self.view_procs()[j] == old(self).view_procs()[j]);
            } else if i < n {
                assert(self.view_procs()[i] == old(self).view_procs()[i]);
            } else {
                assert(self.view_procs()[j] == old(self).view_procs()[j]);
            }
        }
        assert forall|i: int| 0 <= i < self.view_procs().len() implies 1 <= #[trigger] self.view_procs()[i].pid
            < self.spec_next_pid() by {
            if i < old(self).view_procs().len() {
                assert(self.view_procs()[i] == old(self).view_procs()[i]);
            }
        }
        Some(pid)
    }

    /// Position of the first process with pid `pid`.
    pub fn get_by_pid(&self, pid: u16) -> (r: Option<usize>)
        ensures
            r.is_none() <==> !has_pid(self.view_procs(), pid),
            r.is_some() ==> first_pid(self.view_procs(), pid, r->0 as int),
    {
        let mut i: usize = 0;
        while i < self.procs.len()
            invariant
                i <= self.procs@.len(),
                forall|j: int| 0 <= j < i ==> #[trigger] self.procs@[j].pid != pid,
            decreases self.procs@.len() - i,
        {
            if self.procs[i].pid == pid {
                return Some(i);
            }
            i = i + 1;
        }
        None
    }

    /// Gives the first process with pid `pid` a new state; false where there
    /// is none.
    pub fn set_state(&mut self, pid: u16, st: ProcessState) -> (r: bool)
        requires
            old(self).wf(),
        ensures
            final(self).wf(),
            r == has_pid(old(self).view_procs(), pid),
            final(self).spec_next_pid() == old(self).spec_next_pid(),
            !r ==> final(self).view_procs() == old(self).view_procs(),
            r ==> exists|i: int|
                first_pid(old(self).view_procs(), pid, i) && final(self).view_procs() == old(self).view_procs().update(i, with_state(old(self).view_procs()[i], st)),
    {
        match self.get_by_pid(pid) {
            None => false,
            Some(i) => {
                let mut p = self.procs.remove(i).unwrap();
                p.state = st;
                self.procs.insert(i, p);
                assert(self.procs@ =~= old(self).procs@.update(i as int, with_state(old(self).procs@[i as int], st)));
                true
            },
        }
    }

    /// Marks the first process with pid `pid` running; false where there is
    /// none.
    pub fn set_running(&mut self, pid: u16) -> (r: bool)
        requires
            old(self).wf(),
        ensures
            final(self).wf(),
            r == has_pid(old(self).view_procs(), pid),
            final(self).spec_next_pid() == old(self).spec_next_pid(),
            !r ==> final(self).view_procs() == old(self).view_procs(),
            r ==> exists|i: int|
                first_pid(old(self).view_procs(), pid, i) && final(self).view_procs() == old(self).view_procs().update(i, with_state(old(self).view_procs()[i], ProcessState::Running)),
    {
        self.set_state(pid, ProcessState::Running)
    }

    /// Marks the first process with pid `pid` waiting; false where there is
    /// none.
    pub fn set_waiting(&mut self, pid: u16) -> (r: bool)
        requires
            old(self).wf(),
        ensures
            final(self).wf(),
            r == has_pid(old(self).view_procs(), pid),
            final(self).spec_next_pid() == old(self).spec_next_pid(),
            !r ==> final(self).view_procs() == old(self).view_procs(),
            r ==> exists|i: int|
                first_pid(old(self).view_procs(), pid, i) && final(self).view_procs() == old(self).view_procs().update(i, with_state(old(self).view_procs()[i], ProcessState::Waiting)),
    {
        self.set_state(pid, ProcessState::Waiting)
    }

    /// Puts the first process with pid `pid` to sleep until `sleep_until`;
    /// false where there is none.
    pub fn set_sleeping(&mut self, pid: u16, sleep_until: MachineTime) -> (r: bool)
        requires
            old(self).wf(),
        ensures
            final(self).wf(),
            r == has_pid(old(self).view_procs(), pid),
            final(self).spec_next_pid() == old(self).spec_next_pid(),
            !r ==> final(self).view_procs() == old(self).view_procs(),
            r ==> exists|i: int|
                first_pid(old(self).view_procs(), pid, i) && final(self).view_procs() == old(self).view_procs().update(i, asleep(old(self).view_procs()[i], sleep_until)),
    {
        match self.get_by_pid(pid) {
            None => false,
            Some(i) => {
                let mut p = self.procs.remove(i).unwrap();
                p.state = ProcessState::Sleeping;
                p.sleep_until = sleep_until;
                self.procs.insert(i, p);
                assert(self.procs@ =~= old(self).procs@.update(i as int, asleep(old(self).procs@[i as int], sleep_until)));
                true
            },
        }
    }

    /// Sets register `reg` in the frame of the first process with pid `pid`;
    /// false where there is none.
    pub fn set_reg(&mut self, pid: u16, reg: usize, value: u64) -> (r: bool)
        requires
            old(self).wf(),
            reg < 32,
            forall|i: int| 0 <= i < old(self).view_procs().len() ==> (#[trigger] old(self).view_procs()[i]).frame.wf(),
        ensures
            final(self).wf(),
            r == has_pid(old(self).view_procs(), pid),
            final(self).spec_next_pid() == old(self).spec_next_pid(),
            forall|i: int| 0 <= i < final(self).view_procs().len() ==> (#[trigger] final(self).view_procs()[i]).frame.wf(),
            !r ==> final(self).view_procs() == old(self).view_procs(),
            r ==> exists|i: int|
                first_pid(old(self).view_procs(), pid, i) && final(self).view_procs() == old(self).view_procs().update(
                    i,
                    final(self).view_procs()[i],
                ) && reg_set(old(self).view_procs()[i], final(self).view_procs()[i], reg as int, value),
    {
        match self.get_by_pid(pid) {
            None => false,
            Some(i) => {
                let mut p = self.procs.remove(i).unwrap();
                assert(p == old(self).procs@[i as int]);
                p.frame.set_reg(reg, value);
                self.procs.insert(i, p);
                assert(self.procs@ =~= old(self).procs@.update(i as int, self.procs@[i as int]));
                assert forall|j: int| 0 <= j < self.procs@.len() implies (#[trigger] self.procs@[j]).frame.wf() by {
                    if j != i {
                        assert(self.procs@[j] == old(self).procs@[j]);
                    }
                }
                true
            },
        }
    }

    /// Sets the saved program counter of the first process with pid `pid`;
    /// false where there is none.
    pub fn set_pc(&mut self, pid: u16, pc: u64) -> (r: bool)
        requires
            old(self).wf(),
        ensures
            final(self).wf(),
            r == has_pid(old(self).view_procs(), pid),
            final(self).spec_next_pid() == old(self).spec_next_pid(),
            !r ==> final(self).view_procs() == old(self).view_procs(),
            r ==> exists|i: int|
                first_pid(old(self).view_procs(), pid, i) && final(self).view_procs() == old(self).view_procs().update(
                    i,
                    final(self).view_procs()[i],
                ) && pc_set(old(self).view_procs()[i], final(self).view_procs()[i], pc),
    {
        match self.get_by_pid(pid) {
            None => false,
            Some(i) => {
                let mut p = self.procs.remove(i).unwrap();
                p.frame.pc = pc;
                self.procs.insert(i, p);
                assert(self.procs@ =~= old(self).procs@.update(i as int, self.procs@[i as int]));
                true
            },
        }
    }

    /// Moves the front process to the back.
    pub fn rotate_front(&mut self)
        requires
            old(self).wf(),
            old(self).view_procs().len() > 0,
        ensures
            final(self).wf(),
            final(self).view_procs() == old(self).view_procs().subrange(1, old(self).view_procs().len() as int).push(
                old(self).view_procs()[0],
            ),
            final(self).spec_next_pid() == old(self).spec_next_pid(),
    {
        let p = self.procs.remove(0).unwrap();
        self.procs.push_back(p);
        assert(self.procs@ =~= old(self).procs@.subrange(1, old(self).procs@.len() as int).push(old(self).procs@[0]));
    }

    /// State of the front process.
    pub fn front_state(&self) -> (r: ProcessState)
        requires
            self.view_procs().len() > 0,
        ensures
            r == self.view_procs()[0].state,
    {
        self.procs[0].state
    }

    /// Time the front process sleeps until.
    pub fn front_sleep_until(&self) -> (r: u64)
        requires
            self.view_procs().len() > 0,
        ensures
            r == self.view_procs()[0].sleep_until.ticks,
    {
        self.procs[0].sleep_until.ticks
    }

    /// Marks the front process running and returns its pid.
    pub fn wake_front(&mut self) -> (r: u16)
        requires
            old(self).wf(),
            old(self).view_procs().len() > 0,
        ensures
            final(self).wf(),
            r == old(self).view_procs()[0].pid,
            final(self).view_procs() == old(self).view_procs().update(0, with_state(old(self).view_procs()[0], ProcessState::Running)),
            final(self).spec_next_pid() == old(self).spec_next_pid(),
    {
        let mut p = self.procs.remove(0).unwrap();
        p.state = ProcessState::Running;
        let pid = p.pid;
        self.procs.insert(0, p);
        assert(self.procs@ =~= old(self).procs@.update(0, with_state(old(self).procs@[0], ProcessState::Running)));
        pid
    }

    /// Takes the first process with pid `pid` out of the list and hands it
    /// back; `None` where there is none.
    pub fn delete_process(&mut self, pid: u16) -> (r: Option<Process>)
        requires
            old(self).wf(),
        ensures
            final(self).wf(),
            r.is_none() <==> !has_pid(old(self).view_procs(), pid),
            final(self).spec_next_pid() == old(self).spec_next_pid(),
            r.is_none() ==> final(self).view_procs() == old(self).view_procs(),
            r.is_some() ==> exists|i: int|
                first_pid(old(self).view_procs(), pid, i) && r->0 == old(self).view_procs()[i] && final(self).view_procs() == old(self).view_procs().remove(i),
    {
        match self.get_by_pid(pid) {
            None => None,
            Some(i) => self.procs.remove(i),
        }
    }
}

} // verus!
