//! System calls: their numbers, the requests a process makes, and the
//! kernel's dispatch of them.
use vstd::prelude::*;
use crate::block::BlockOpResult;
use crate::cpu::{MachineTime, MTIMER_TICKS_PER_MS, REG_A0, REG_A1, REG_A2, REG_A3, REG_A4, REG_A7};
use crate::kernel::{Kernel, InodeRequest, INODE_ARGS_SIZE, find_proc, lemma_find_proc, lemma_frames_update};
use crate::kmem::{first_free_fit, need_of};
use crate::process::{Process, with_state, asleep, pc_set, reg_set};
use crate::process::{ProcessState, has_pid, first_pid};

verus! {

/// Ends the calling process.
pub const SYSCALL_EXIT: u64 = 93;
/// Ends the calling process, as `SYSCALL_EXIT`.
pub const SYSCALL_EXIT_GROUP: u64 = 94;
/// Gives the processor to the next process.
pub const SYSCALL_YIELD: u64 = 1;
/// Writes the character in A0 to the console.
pub const SYSCALL_PUTCHAR: u64 = 2;
/// Reserved; served as an unknown call.
pub const SYSCALL_DUMP_REGISTERS: u64 = 8;
/// Sleeps for the milliseconds in A0.
pub const SYSCALL_SLEEP: u64 = 10;
/// Reserved; served as an unknown call.
pub const SYSCALL_EXECV: u64 = 11;
/// Waits until something wakes the caller.
pub const SYSCALL_WAIT: u64 = 3;
/// A call that only logs.
pub const SYSCALL_TEST: u64 = 99;
/// Reads from a file: fd, buffer, size.
pub const SYSCALL_SYS_READ: u64 = 63;
/// Writes to a file: fd, buffer, size.
pub const SYSCALL_SYS_WRITE: u64 = 64;
/// The caller's pid.
pub const SYSCALL_GET_PID: u64 = 172;
/// Reads from a block device: device, buffer, size, offset.
pub const SYSCALL_BLOCK_READ: u64 = 180;
/// The machine time in ticks.
pub const SYSCALL_GET_TIME: u64 = 1000;
/// Reads from an inode: device, inode, buffer, size, offset.
pub const SYSCALL_GET_INODE: u64 = 1001;

/// A system call as a process makes it: the number for A7 and the
/// arguments for A0 to A5.
#[derive(Clone, Copy, Debug, PartialEq, Eq, Structural)]
pub struct Syscall {
    pub number: u64,
    pub arg0: u64,
    pub arg1: u64,
    pub arg2: u64,
    pub arg3: u64,
    pub arg4: u64,
    pub arg5: u64,
}

/// The request of a system call with its arguments.
pub fn do_make_syscall(call_num: u64, arg0: u64, arg1: u64, arg2: u64, arg3: u64, arg4: u64, arg5: u64) -> (r: Syscall)
    ensures
        r == (Syscall { number: call_num, arg0, arg1, arg2, arg3, arg4, arg5 }),
{
    Syscall { number: call_num, arg0, arg1, arg2, arg3, arg4, arg5 }
}

/// Ends the calling process.
pub fn exit_process() -> (r: Syscall)
    ensures
        r == (Syscall { number: SYSCALL_EXIT, arg0: 0, arg1: 0, arg2: 0, arg3: 0, arg4: 0, arg5: 0 }),
{
    do_make_syscall(SYSCALL_EXIT, 0, 0, 0, 0, 0, 0)
}

/// Gives the processor to the next process.
pub fn yield_process() -> (r: Syscall)
    ensures
        r == (Syscall { number: SYSCALL_YIELD, arg0: 0, arg1: 0, arg2: 0, arg3: 0, arg4: 0, arg5: 0 }),
{
    do_make_syscall(SYSCALL_YIELD, 0, 0, 0, 0, 0, 0)
}

/// Sleeps for `period` milliseconds.
pub fn sleep(period: u64) -> (r: Syscall)
    ensures
        r == (Syscall { number: SYSCALL_SLEEP, arg0: period, arg1: 0, arg2: 0, arg3: 0, arg4: 0, arg5: 0 }),
{
    do_make_syscall(SYSCALL_SLEEP, period, 0, 0, 0, 0, 0)
}

/// Waits until something wakes the process.
pub fn wait_process() -> (r: Syscall)
    ensures
        r == (Syscall { number: SYSCALL_WAIT, arg0: 0, arg1: 0, arg2: 0, arg3: 0, arg4: 0, arg5: 0 }),
{
    do_make_syscall(SYSCALL_WAIT, 0, 0, 0, 0, 0, 0)
}

/// Writes one character to the console.
pub fn putchar(c: u8) -> (r: Syscall)
    ensures
        r == (Syscall { number: SYSCALL_PUTCHAR, arg0: c as u64, arg1: 0, arg2: 0, arg3: 0, arg4: 0, arg5: 0 }),
{
    do_make_syscall(SYSCALL_PUTCHAR, c as u64, 0, 0, 0, 0, 0)
}

/// The test call.
pub fn test_syscall() -> (r: Syscall)
    ensures
        r == (Syscall { number: SYSCALL_TEST, arg0: 0, arg1: 0, arg2: 0, arg3: 0, arg4: 0, arg5: 0 }),
{
    do_make_syscall(SYSCALL_TEST, 0, 0, 0, 0, 0, 0)
}

/// Reads up to `size` bytes of file `fd` into `buf`.
pub fn sys_read(fd: u16, buf: u64, size: u64) -> (r: Syscall)
    ensures
        r == (Syscall { number: SYSCALL_SYS_READ, arg0: fd as u64, arg1: buf, arg2: size, arg3: 0, arg4: 0, arg5: 0 }),
{
    do_make_syscall(SYSCALL_SYS_READ, fd as u64, buf, size, 0, 0, 0)
}

/// Writes `size` bytes of `buf` to file `fd`.
pub fn sys_write(fd: u16, buf: u64, size: u64) -> (r: Syscall)
    ensures
        r == (Syscall { number: SYSCALL_SYS_WRITE, arg0: fd as u64, arg1: buf, arg2: size, arg3: 0, arg4: 0, arg5: 0 }),
{
    do_make_syscall(SYSCALL_SYS_WRITE, fd as u64, buf, size, 0, 0, 0)
}

/// The caller's pid.
pub fn get_pid() -> (r: Syscall)
    ensures
        r == (Syscall { number: SYSCALL_GET_PID, arg0: 0, arg1: 0, arg2: 0, arg3: 0, arg4: 0, arg5: 0 }),
{
    do_make_syscall(SYSCALL_GET_PID, 0, 0, 0, 0, 0, 0)
}

/// Reads `size` bytes at byte `offset` of block device `dev` into `buf`.
pub fn read_block(dev: u64, buf: u64, size: u32, offset: u32) -> (r: Syscall)
    ensures
        r == (Syscall { number: SYSCALL_BLOCK_READ, arg0: dev, arg1: buf, arg2: size as u64, arg3: offset as u64, arg4: 0, arg5: 0 }),
{
    do_make_syscall(SYSCALL_BLOCK_READ, dev, buf, size as u64, offset as u64, 0, 0)
}

/// The machine time.
pub fn get_time() -> (r: Syscall)
    ensures
        r == (Syscall { number: SYSCALL_GET_TIME, arg0: 0, arg1: 0, arg2: 0, arg3: 0, arg4: 0, arg5: 0 }),
{
    do_make_syscall(SYSCALL_GET_TIME, 0, 0, 0, 0, 0, 0)
}

/// Reads `size` bytes at `offset` of inode `node` of device `dev` into
/// `buffer`.
pub fn get_inode(dev: u64, node: u32, buffer: u64, size: u32, offset: u32) -> (r: Syscall)
    ensures
        r == (Syscall {
            number: SYSCALL_GET_INODE,
            arg0: dev, arg1: node as u64, arg2: buffer, arg3: size as u64, arg4: offset as u64, arg5: 0,
        }),
{
    do_make_syscall(SYSCALL_GET_INODE, dev, node as u64, buffer, size as u64, offset as u64, 0)
}

/// What is left to do outside the kernel's state after a system call.
#[derive(Clone, Debug)]
pub enum SyscallAction {
    Nothing,
    Print(u8),
    Test,
    Store(Vec<u64>, Vec<u8>),
    Emit(Vec<u64>),
    Notify(u64),
    Unknown(u64),
}

/// The outcome of a system call: whether another process must be
/// scheduled, and the work left outside.
#[derive(Clone, Debug)]
pub struct SyscallOutcome {
    pub reschedule: bool,
    pub action: SyscallAction,
}

/// Time that a sleep of `ms` milliseconds from `now` lasts until, saturated
/// at the largest time.
pub open spec fn wake_time(now: u64, ms: u64) -> u64 {
    if now + ms * MTIMER_TICKS_PER_MS > u64::MAX {
        u64::MAX
    } else {
        (now + ms * MTIMER_TICKS_PER_MS) as u64
    }
}

/// Whether a system call moves its caller off the processor.
pub open spec fn reschedules(n: u64) -> bool {
    n == SYSCALL_EXIT || n == SYSCALL_EXIT_GROUP || n == SYSCALL_YIELD || n == SYSCALL_SLEEP || n
        == SYSCALL_WAIT || n == SYSCALL_GET_INODE
}

/// What a system call of process `pid` leaves, by its number in A7 and its
/// arguments: `k` before, `f` after, `r` the outcome.
pub open spec fn syscall_post(k: &Kernel, f: &Kernel, pid: u16, mepc: u64, now: u64, r: SyscallOutcome) -> bool {
    let c = find_proc(k.procs.view_procs(), pid)->0;
    let n = c.frame.regs@[REG_A7 as int];
    let a0 = c.frame.regs@[REG_A0 as int];
    let a2 = c.frame.regs@[REG_A2 as int];
    let a = after_state(f, pid);
    let p = a->0;
    let input = k.console.in_buffer@;
    let m: int = if a2 < input.len() { a2 as int } else { input.len() as int };
    &&& forall|q: u16|
        q != pid && has_pid(k.procs.view_procs(), q) ==> #[trigger] find_proc(f.procs.view_procs(), q) == find_proc(
            k.procs.view_procs(),
            q,
        )
    &&& !(n == SYSCALL_BLOCK_READ || n == SYSCALL_GET_INODE) ==> f.heap == k.heap
    &&& !(n == SYSCALL_EXIT || n == SYSCALL_EXIT_GROUP || n == SYSCALL_GET_INODE) ==> f.pages == k.pages
        && f.tables == k.tables
    &&& n != SYSCALL_BLOCK_READ ==> f.blocks@ == k.blocks@
    &&& n != SYSCALL_SYS_READ ==> f.console == k.console
    &&& r.reschedule == (reschedules(n) || (n == SYSCALL_SYS_READ && a0 as u16 == 0 && m == 0) || (n
        == SYSCALL_BLOCK_READ && r.action != SyscallAction::Nothing))
    &&& (n == SYSCALL_EXIT || n == SYSCALL_EXIT_GROUP) ==> a.is_none() && exists|i: int|
        first_pid(k.procs.view_procs(), pid, i) && f.procs.view_procs() == k.procs.view_procs().remove(i)
            && crate::kernel::released(k, f, c)
    &&& !(n == SYSCALL_EXIT || n == SYSCALL_EXIT_GROUP) ==> a.is_some() && p.frame.pc == mepc + 4
        && p.pid == pid && p.stack == c.stack && p.root_table == c.root_table
    &&& n == SYSCALL_SLEEP ==> p.state == ProcessState::Sleeping && p.sleep_until.ticks == wake_time(now, a0)
    &&& (n == SYSCALL_WAIT || (n == SYSCALL_BLOCK_READ && r.action != SyscallAction::Nothing)) ==> p.state
        == ProcessState::Waiting
    &&& (n == SYSCALL_BLOCK_READ && r.action == SyscallAction::Nothing) ==> p.state == c.state
        && p.frame.regs@[REG_A0 as int] == 0
    &&& n == SYSCALL_BLOCK_READ ==> block_read_post(
        k,
        f,
        a0,
        c.frame.regs@[REG_A1 as int],
        a2 as u32,
        c.frame.regs@[REG_A3 as int],
        pid,
        r.action,
    )
    &&& n == SYSCALL_PUTCHAR ==> r.action == SyscallAction::Print(a0 as u8)
    &&& n == SYSCALL_GET_PID ==> p.frame.regs@[REG_A0 as int] == pid
    &&& n == SYSCALL_GET_TIME ==> p.frame.regs@[REG_A0 as int] == now
    &&& n == SYSCALL_GET_INODE ==> inode_read_started(
        k,
        f,
        pid,
        a0,
        c.frame.regs@[REG_A1 as int] as u32,
        c.frame.regs@[REG_A2 as int],
        c.frame.regs@[REG_A3 as int] as u32,
        c.frame.regs@[REG_A4 as int] as u32,
    )
    &&& (n == SYSCALL_GET_INODE && room_for_inode_read(k)) ==> f.procs.view_procs().len() == k.procs.view_procs().len() + 1
    &&& (n == SYSCALL_SYS_READ && a0 as u16 == 0 && m == 0) ==> p.state == ProcessState::Waiting
        && p.frame.regs@[REG_A0 as int] == 0 && f.console.waiters@ == k.console.waiters@.push(pid)
        && f.console.in_buffer@ == input
    &&& (n == SYSCALL_SYS_READ && a0 as u16 == 0 && m > 0) ==> f.console.in_buffer@ == input.subrange(
        m,
        input.len() as int,
    ) && match r.action {
        SyscallAction::Store(addrs, bytes) => addrs@.len() <= m && bytes@ == input.subrange(
            0,
            addrs@.len() as int,
        ) && p.frame.regs@[REG_A0 as int] == addrs@.len() && (forall|t: int|
            0 <= t < addrs@.len() ==> xlate(k, c, c.frame.regs@[REG_A1 as int] + t) == Some(#[trigger] addrs@[t]))
            && (addrs@.len() == m || xlate(k, c, c.frame.regs@[REG_A1 as int] + addrs@.len()).is_none()),
        _ => false,
    }
    &&& (n == SYSCALL_SYS_WRITE && (a0 as u16 == 1 || a0 as u16 == 2)) ==> match r.action {
        SyscallAction::Emit(addrs) => addrs@.len() <= a2 && (forall|t: int|
            0 <= t < addrs@.len() ==> xlate(k, c, c.frame.regs@[REG_A1 as int] + t) == Some(#[trigger] addrs@[t]))
            && (addrs@.len() == a2 || xlate(k, c, c.frame.regs@[REG_A1 as int] + addrs@.len()).is_none())
            && p.frame.regs@[REG_A0 as int] == addrs@.len(),
        _ => false,
    }
    &&& (n == SYSCALL_YIELD || n == SYSCALL_PUTCHAR || n == SYSCALL_TEST || n == SYSCALL_GET_PID || n
        == SYSCALL_GET_TIME || n == SYSCALL_SYS_WRITE || !known_syscall(n)) ==> p.state == c.state
    &&& (n == SYSCALL_YIELD || n == SYSCALL_PUTCHAR || n == SYSCALL_TEST || n == SYSCALL_SLEEP || n
        == SYSCALL_WAIT || (n == SYSCALL_BLOCK_READ && r.action != SyscallAction::Nothing) || !known_syscall(n))
        ==> p.frame.regs@ == c.frame.regs@
    &&& (n == SYSCALL_SYS_READ && a0 as u16 != 0) ==> p.frame.regs@[REG_A0 as int] == 0 && !r.reschedule
    &&& (n == SYSCALL_SYS_WRITE && !(a0 as u16 == 1 || a0 as u16 == 2)) ==> p.frame.regs@[REG_A0 as int] == 0
    &&& !known_syscall(n) ==> r.action == SyscallAction::Unknown(n)
}

/// What a block read for process `pid` leaves: without a device of number
/// `dev` nothing is sent; a request sent goes to the first such device,
/// whose queue moves on by one submission of a read of the right sector
/// for `pid`, and its registers are to be notified.
pub open spec fn block_read_post(
    k: &Kernel,
    f: &Kernel,
    dev: u64,
    buf: u64,
    size: u32,
    offset: u64,
    pid: u16,
    r: SyscallAction,
) -> bool {
    &&& (forall|j: int| 0 <= j < k.blocks@.len() ==> (#[trigger] k.blocks@[j]).id != dev) ==> r
        == SyscallAction::Nothing
    &&& ((exists|j: int| 0 <= j < k.blocks@.len() && (#[trigger] k.blocks@[j]).id == dev) && (exists|i: int|
        #[trigger] first_free_fit(k.heap.view_chunks(), i, need_of(crate::block::REQUEST_SIZE)))) ==> r
        != SyscallAction::Nothing
    &&& r != SyscallAction::Nothing ==> exists|j: int|
        0 <= j < k.blocks@.len() && (#[trigger] k.blocks@[j]).id == dev && f.blocks@.len() == k.blocks@.len()
            && r == SyscallAction::Notify(k.blocks@[j].dev.dev) && crate::block::submit_step(
            &k.blocks@[j].dev,
            &f.blocks@[j].dev,
        ) && f.blocks@[j].dev.pending@.last().pid == pid && f.blocks@[j].dev.pending@.last().request.header.sector
            == offset / 512 && f.blocks@[j].dev.pending@.last().request.data.data == buf
            && f.blocks@[j].dev.pending@.last().size == size
            && f.blocks@[j].dev.pending@.last().request.header.blktype == crate::block::VIRTIO_BLK_T_IN
            && f.blocks@[j].dev.queue.desc@[crate::block::slot(k.blocks@[j].dev.idx, 2) as int]
            == (crate::virtio::Descriptor {
                addr: buf,
                len: size,
                flags: (crate::virtio::VIRTIO_DESC_F_NEXT | crate::virtio::VIRTIO_DESC_F_WRITE) as u16,
                next: crate::block::slot(k.blocks@[j].dev.idx, 3),
            })
}

/// There is room to start a read of an inode: heap room for its
/// arguments, and room for its helper process.
pub open spec fn room_for_inode_read(k: &Kernel) -> bool {
    &&& exists|i: int| #[trigger] first_free_fit(k.heap.view_chunks(), i, need_of(INODE_ARGS_SIZE))
    &&& Kernel::room_for_kernel_process(k)
}

/// `f` is `k` after a read of an inode started for process `pid`: either a
/// helper process was appended, started at `inode_reader` with the address
/// of the recorded request in A0, and the caller waits; or nothing was
/// appended and the caller goes on, with 0 in A0.
pub open spec fn inode_read_started(
    k: &Kernel,
    f: &Kernel,
    pid: u16,
    dev: u64,
    node: u32,
    buffer: u64,
    size: u32,
    offset: u32,
) -> bool {
    let s = f.procs.view_procs();
    let c = after_state(f, pid)->0;
    &&& after_state(f, pid).is_some()
    &&& f.inode_reader == k.inode_reader && f.exit_stub == k.exit_stub
    &&& (s.len() == k.procs.view_procs().len() + 1 && s.drop_last().len() == k.procs.view_procs().len()
        && f.procs.spec_next_pid() == k.procs.spec_next_pid() + 1 && Kernel::new_process(
        s.last(),
        k.procs.spec_next_pid(),
        k.inode_reader,
        k.exit_stub,
        (s.last().stack + 8192) as u64,
        3,
    ) && f.inode_requests@ == k.inode_requests@.push(
        InodeRequest { args: s.last().frame.regs@[REG_A0 as int], pid, dev, node, buffer, size, offset },
    ) && c.state == ProcessState::Waiting)
        || (s.len() == k.procs.view_procs().len() && c.frame.regs@[REG_A0 as int] == 0 && c.state
        == find_proc(k.procs.view_procs(), pid)->0.state && f.inode_requests == k.inode_requests)
}

/// Where byte `va` of process `c` lands: itself under a bare `satp`, else
/// its translation through the process's root table; nothing past the
/// address space.
pub open spec fn xlate(k: &Kernel, c: Process, va: int) -> Option<u64> {
    if va > u64::MAX {
        None
    } else if c.frame.satp >> 60u64 == 0 {
        Some(va as u64)
    } else {
        k.tables.translate(c.root_table, va as u64)
    }
}

/// The numbers the kernel serves.
pub open spec fn known_syscall(n: u64) -> bool {
    reschedules(n) || n == SYSCALL_BLOCK_READ || n == SYSCALL_PUTCHAR || n == SYSCALL_TEST || n == SYSCALL_SYS_READ || n
        == SYSCALL_SYS_WRITE || n == SYSCALL_GET_PID || n == SYSCALL_GET_TIME
}

/// The caller's state after a system call, where it still exists.
pub open spec fn after_state(k: &Kernel, pid: u16) -> Option<Process> {
    find_proc(k.procs.view_procs(), pid)
}

impl Kernel {
    /// Where byte address `va` of a process lands: itself under a bare
    /// `satp`, else its translation through the process's root table.
    pub fn user_addr(&self, satp: u64, root: u64, va: u64) -> (r: Option<u64>)
        requires
            self.tables.wf(),
        ensures
            r == if satp >> 60u64 == 0 {
                Some(va)
            } else {
                self.tables.translate(root, va)
            },
    {
        if satp >> 60u64 == 0 {
            Some(va)
        } else {
            self.tables.virt_to_phys(root, va)
        }
    }

    /// State of process `pid`.
    fn proc_state(&self, pid: u16) -> (r: ProcessState)
        requires
            self.wf(),
            has_pid(self.procs.view_procs(), pid),
        ensures
            r == find_proc(self.procs.view_procs(), pid)->0.state,
    {
        let i = self.procs.get_by_pid(pid).unwrap();
        proof {
            lemma_find_proc(&self.procs, pid, i as int);
        }
        self.procs.get(i).state
    }

    /// Sets register `reg` of process `pid`, keeping the kernel well formed.
    fn set_proc_reg(&mut self, pid: u16, reg: usize, v: u64)
        requires
            old(self).wf(),
            has_pid(old(self).procs.view_procs(), pid),
            reg < 32,
        ensures
            final(self).wf(),
            final(self).procs.view_procs().len() == old(self).procs.view_procs().len(),
            final(self).console == old(self).console,
            final(self).blocks == old(self).blocks,
            final(self).pages == old(self).pages,
            final(self).tables == old(self).tables,
            final(self).heap == old(self).heap,
            final(self).inode_requests == old(self).inode_requests,
            final(self).inode_reader == old(self).inode_reader,
            final(self).exit_stub == old(self).exit_stub,
            final(self).procs.spec_next_pid() == old(self).procs.spec_next_pid(),
            find_proc(final(self).procs.view_procs(), pid).is_some(),
            reg_set(
                find_proc(old(self).procs.view_procs(), pid)->0,
                find_proc(final(self).procs.view_procs(), pid)->0,
                reg as int,
                v,
            ),
            forall|q: u16| q != pid ==> #[trigger] find_proc(final(self).procs.view_procs(), q) == find_proc(old(self).procs.view_procs(), q),
    {
        let ghost s = self.procs.view_procs();
        let _ = self.procs.set_reg(pid, reg, v);
        proof {
            let i = choose|i: int|
                first_pid(s, pid, i) && self.procs.view_procs() == s.update(i, self.procs.view_procs()[i])
                    && reg_set(s[i], self.procs.view_procs()[i], reg as int, v);
            lemma_find_proc(&self.procs, pid, i);
            lemma_find_proc(&old(self).procs, pid, i);
            assert forall|q: u16| q != pid implies #[trigger] find_proc(self.procs.view_procs(), q) == find_proc(s, q) by {
                crate::kernel::lemma_find_other(&old(self).procs, &self.procs, i, pid, q);
            }
        }
    }

    /// Sets the saved program counter of process `pid`.
    fn set_proc_pc(&mut self, pid: u16, pc: u64)
        requires
            old(self).wf(),
            has_pid(old(self).procs.view_procs(), pid),
        ensures
            final(self).wf(),
            final(self).procs.view_procs().len() == old(self).procs.view_procs().len(),
            final(self).console == old(self).console,
            final(self).blocks == old(self).blocks,
            final(self).pages == old(self).pages,
            final(self).tables == old(self).tables,
            final(self).heap == old(self).heap,
            final(self).inode_requests == old(self).inode_requests,
            final(self).inode_reader == old(self).inode_reader,
            final(self).exit_stub == old(self).exit_stub,
            final(self).procs.spec_next_pid() == old(self).procs.spec_next_pid(),
            find_proc(final(self).procs.view_procs(), pid).is_some(),
            pc_set(find_proc(old(self).procs.view_procs(), pid)->0, find_proc(final(self).procs.view_procs(), pid)->0, pc),
            exists|i: int|
                first_pid(old(self).procs.view_procs(), pid, i) && final(self).procs.view_procs() == old(self).procs.view_procs().update(
                    i,
                    final(self).procs.view_procs()[i],
                ) && pc_set(old(self).procs.view_procs()[i], final(self).procs.view_procs()[i], pc),
            forall|q: u16| q != pid ==> #[trigger] find_proc(final(self).procs.view_procs(), q) == find_proc(old(self).procs.view_procs(), q),
    {
        let ghost s = self.procs.view_procs();
        let _ = self.procs.set_pc(pid, pc);
        proof {
            let i = choose|i: int|
                first_pid(s, pid, i) && self.procs.view_procs() == s.update(i, self.procs.view_procs()[i])
                    && pc_set(s[i], self.procs.view_procs()[i], pc);
            lemma_frames_update(s, i, self.procs.view_procs()[i]);
            lemma_find_proc(&self.procs, pid, i);
            lemma_find_proc(&old(self).procs, pid, i);
            assert forall|q: u16| q != pid implies #[trigger] find_proc(self.procs.view_procs(), q) == find_proc(s, q) by {
                crate::kernel::lemma_find_other(&old(self).procs, &self.procs, i, pid, q);
            }
        }
    }

    /// Puts process `pid` to sleep until `t`.
    fn set_proc_sleeping(&mut self, pid: u16, t: MachineTime)
        requires
            old(self).wf(),
            has_pid(old(self).procs.view_procs(), pid),
        ensures
            final(self).wf(),
            final(self).procs.view_procs().len() == old(self).procs.view_procs().len(),
            final(self).console == old(self).console,
            final(self).blocks == old(self).blocks,
            final(self).pages == old(self).pages,
            final(self).tables == old(self).tables,
            final(self).heap == old(self).heap,
            final(self).inode_requests == old(self).inode_requests,
            final(self).inode_reader == old(self).inode_reader,
            final(self).exit_stub == old(self).exit_stub,
            find_proc(final(self).procs.view_procs(), pid) == Some(asleep(find_proc(old(self).procs.view_procs(), pid)->0, t)),
            forall|q: u16| q != pid ==> #[trigger] find_proc(final(self).procs.view_procs(), q) == find_proc(old(self).procs.view_procs(), q),
    {
        let ghost s = self.procs.view_procs();
        let _ = self.procs.set_sleeping(pid, t);
        proof {
            let i = choose|i: int| first_pid(s, pid, i) && self.procs.view_procs() == s.update(i, asleep(s[i], t));
            lemma_frames_update(s, i, asleep(s[i], t));
            lemma_find_proc(&self.procs, pid, i);
            lemma_find_proc(&old(self).procs, pid, i);
            assert forall|q: u16| q != pid implies #[trigger] find_proc(self.procs.view_procs(), q) == find_proc(s, q) by {
                crate::kernel::lemma_find_other(&old(self).procs, &self.procs, i, pid, q);
            }
        }
    }

    /// Carries out a system call of process `pid`, trapped at `mepc`, at
    /// time `now`: reads the number from A7 and the arguments from A0 on,
    /// moves the saved program counter past the `ecall`, changes the state
    /// the call asks for and puts its result in A0. Says whether another
    /// process must be scheduled and what is left to do outside.
    pub fn do_syscall(&mut self, pid: u16, mepc: u64, now: MachineTime) -> (r: SyscallOutcome)
        requires
            old(self).wf(),
            mepc <= u64::MAX - 4,
        ensures
            final(self).wf(),
            !has_pid(old(self).procs.view_procs(), pid) ==> !r.reschedule && final(self).procs.view_procs()
                == old(self).procs.view_procs(),
            has_pid(old(self).procs.view_procs(), pid) ==> syscall_post(old(self), final(self), pid, mepc, now.ticks, r),
    {
        let i = match self.procs.get_by_pid(pid) {
            None => {
                return SyscallOutcome { reschedule: false, action: SyscallAction::Unknown(0) };
            },
            Some(i) => i,
        };
        proof {
            lemma_find_proc(&self.procs, pid, i as int);
        }
        let n = self.procs.get(i).frame.reg(REG_A7);
        let a0 = self.procs.get(i).frame.reg(REG_A0);
        let a1 = self.procs.get(i).frame.reg(REG_A1);
        let a2 = self.procs.get(i).frame.reg(REG_A2);
        let a3 = self.procs.get(i).frame.reg(REG_A3);
        let a4 = self.procs.get(i).frame.reg(REG_A4);
        let satp = self.procs.get(i).frame.satp;
        let root = self.procs.get(i).root_table;
        let ghost cp = find_proc(old(self).procs.view_procs(), pid)->0;
        self.set_proc_pc(pid, mepc + 4);
        if n == SYSCALL_EXIT || n == SYSCALL_EXIT_GROUP {
            let ghost mid = self.procs.view_procs();
            let ghost s0 = old(self).procs.view_procs();
            let ghost midk = *self;
            self.delete_process(pid);
            proof {
                let i = choose|i: int| first_pid(s0, pid, i) && mid == s0.update(i, mid[i]) && pc_set(s0[i], mid[i], (mepc + 4) as u64);
                let i2 = choose|i2: int| first_pid(mid, pid, i2) && self.procs.view_procs() == mid.remove(i2)
                    && crate::kernel::released(&midk, self, mid[i2]);
                if i2 < i {
                    assert(mid[i2] == s0[i2]);
                } else if i2 > i {
                    assert(mid[i].pid == pid);
                }
                assert(i2 == i);
                assert(mid.remove(i) =~= s0.remove(i));
                lemma_find_proc(&old(self).procs, pid, i);
            }
            return SyscallOutcome { reschedule: true, action: SyscallAction::Nothing };
        }
        if n == SYSCALL_YIELD {
            return SyscallOutcome { reschedule: true, action: SyscallAction::Nothing };
        }
        if n == SYSCALL_SLEEP {
            let limit: u64 = (u64::MAX - now.ticks) / MTIMER_TICKS_PER_MS;
            let until = if a0 > limit {
                u64::MAX
            } else {
                now.ticks + a0 * MTIMER_TICKS_PER_MS
            };
            proof {
                let t = now.ticks as int;
                let q = (u64::MAX - now.ticks) as int / 10000;
                if a0 > q {
                    assert(t + a0 * 10000 > u64::MAX) by (nonlinear_arith)
                        requires
                            a0 > q,
                            q == (0xffff_ffff_ffff_ffff - t) / 10000,
                            0 <= t <= 0xffff_ffff_ffff_ffff,
                    ;
                } else {
                    assert(t + a0 * 10000 <= u64::MAX) by (nonlinear_arith)
                        requires
                            a0 <= q,
                            q == (0xffff_ffff_ffff_ffff - t) / 10000,
                            0 <= t <= 0xffff_ffff_ffff_ffff,
                    ;
                }
            }
            self.set_proc_sleeping(pid, MachineTime::from_ticks(until));
            return SyscallOutcome { reschedule: true, action: SyscallAction::Nothing };
        }
        if n == SYSCALL_WAIT {
            self.set_proc_state(pid, ProcessState::Waiting);
            return SyscallOutcome { reschedule: true, action: SyscallAction::Nothing };
        }
        if n == SYSCALL_PUTCHAR {
            return SyscallOutcome { reschedule: false, action: SyscallAction::Print(a0 as u8) };
        }
        if n == SYSCALL_TEST {
            return SyscallOutcome { reschedule: false, action: SyscallAction::Test };
        }
        if n == SYSCALL_GET_PID {
            self.set_proc_reg(pid, REG_A0, pid as u64);
            return SyscallOutcome { reschedule: false, action: SyscallAction::Nothing };
        }
        if n == SYSCALL_GET_TIME {
            self.set_proc_reg(pid, REG_A0, now.ticks);
            return SyscallOutcome { reschedule: false, action: SyscallAction::Nothing };
        }
        if n == SYSCALL_GET_INODE {
            let _ = self.process_read(pid, a0, a1 as u32, a2, a3 as u32, a4 as u32);
            return SyscallOutcome { reschedule: true, action: SyscallAction::Nothing };
        }
        if n == SYSCALL_BLOCK_READ {
            let action = self.submit_block_read(a0, a1, a2 as u32, a3, pid);
            match action {
                SyscallAction::Nothing => {
                    self.set_proc_reg(pid, REG_A0, 0);
                    return SyscallOutcome { reschedule: false, action };
                },
                _ => {},
            }
            self.set_proc_state(pid, ProcessState::Waiting);
            return SyscallOutcome { reschedule: true, action };
        }
        if n == SYSCALL_SYS_READ {
            if a0 as u16 != 0 {
                self.set_proc_reg(pid, REG_A0, 0);
                return SyscallOutcome { reschedule: false, action: SyscallAction::Nothing };
            }
            let len = self.console.in_buffer.len();
            let m: usize = if a2 < len as u64 {
                a2 as usize
            } else {
                len
            };
            if m == 0 {
                self.console.push_queue(pid);
                self.set_proc_state(pid, ProcessState::Waiting);
                self.set_proc_reg(pid, REG_A0, 0);
                return SyscallOutcome { reschedule: true, action: SyscallAction::Nothing };
            }
            let input = self.console.drain(m);
            let mut addrs: Vec<u64> = Vec::new();
            let mut bytes: Vec<u8> = Vec::new();
            let mut j: usize = 0;
            let mut done = false;
            let ghost snap = *self;
            while j < m && !done
                invariant
                    *self == snap,
                    self.tables.wf(),
                    self.tables == old(self).tables,
                    satp == cp.frame.satp && root == cp.root_table && a1 == cp.frame.regs@[REG_A1 as int],
                    forall|t: int| 0 <= t < addrs@.len() ==> xlate(old(self), cp, a1 + t) == Some(#[trigger] addrs@[t]),
                    done ==> xlate(old(self), cp, a1 + j).is_none(),
                    j <= m,
                    m == input@.len(),
                    m <= old(self).console.in_buffer@.len(),
                    input@ == old(self).console.in_buffer@.subrange(0, m as int),
                    addrs@.len() == j,
                    bytes@ == input@.subrange(0, j as int),
                decreases m - j + if done { 0int } else { 1int },
            {
                if j as u64 > u64::MAX - a1 {
                    done = true;
                } else {
                    let got = self.user_addr(satp, root, a1 + j as u64);
                    match got {
                        None => {
                            done = true;
                        },
                        Some(pa) => {
                            addrs.push(pa);
                            bytes.push(input[j]);
                            j = j + 1;
                            assert(bytes@ =~= input@.subrange(0, j as int));
                        },
                    }
                }
            }
            assert(bytes@ =~= old(self).console.in_buffer@.subrange(0, addrs@.len() as int));
            self.set_proc_reg(pid, REG_A0, addrs.len() as u64);
            return SyscallOutcome { reschedule: false, action: SyscallAction::Store(addrs, bytes) };
        }
        if n == SYSCALL_SYS_WRITE {
            if a0 as u16 != 1 && a0 as u16 != 2 {
                self.set_proc_reg(pid, REG_A0, 0);
                return SyscallOutcome { reschedule: false, action: SyscallAction::Nothing };
            }
            let mut addrs: Vec<u64> = Vec::new();
            let mut j: u64 = 0;
            let ghost snap = *self;
            let mut done = false;
            while j < a2 && !done
                invariant
                    *self == snap,
                    self.tables.wf(),
                    self.tables == old(self).tables,
                    satp == cp.frame.satp && root == cp.root_table && a1 == cp.frame.regs@[REG_A1 as int],
                    j <= a2,
                    addrs@.len() == j,
                    forall|t: int| 0 <= t < addrs@.len() ==> xlate(old(self), cp, a1 + t) == Some(#[trigger] addrs@[t]),
                    done ==> xlate(old(self), cp, a1 + j).is_none(),
                decreases a2 - j + if done { 0int } else { 1int },
            {
                if j > u64::MAX - a1 {
                    done = true;
                } else {
                    match self.user_addr(satp, root, a1 + j) {
                        Some(pa) => {
                            addrs.push(pa);
                            j = j + 1;
                        },
                        None => {
                            done = true;
                        },
                    }
                }
            }
            self.set_proc_reg(pid, REG_A0, addrs.len() as u64);
            return SyscallOutcome { reschedule: false, action: SyscallAction::Emit(addrs) };
        }
        SyscallOutcome { reschedule: false, action: SyscallAction::Unknown(n) }
    }

    /// Starts a read of inode `node` of device `dev` for process `pid`: the
    /// arguments get room in the kernel heap, the process waits, and a
    /// kernel helper process starts at `inode_reader` with the arguments'
    /// address in A0; it ends the read with `complete_inode_read`. Where
    /// there is no room for either, the caller goes on with 0 bytes read.
    /// The helper's pid, or 0.
    pub fn process_read(&mut self, pid: u16, dev: u64, node: u32, buffer: u64, size: u32, offset: u32) -> (r: u16)
        requires
            old(self).wf(),
            has_pid(old(self).procs.view_procs(), pid),
        ensures
            final(self).wf(),
            final(self).console == old(self).console,
            final(self).blocks@ == old(self).blocks@,
            inode_read_started(old(self), final(self), pid, dev, node, buffer, size, offset),
            r != 0 <==> final(self).procs.view_procs().len() == old(self).procs.view_procs().len() + 1,
            room_for_inode_read(old(self)) ==> r != 0,
            ({
                let p = find_proc(final(self).procs.view_procs(), pid)->0;
                let q = find_proc(old(self).procs.view_procs(), pid)->0;
                p.frame.pc == q.frame.pc && p.pid == q.pid && p.stack == q.stack && p.root_table == q.root_table
            }),
            forall|q: u16|
                q != pid && has_pid(old(self).procs.view_procs(), q) ==> #[trigger] find_proc(final(self).procs.view_procs(), q)
                    == find_proc(old(self).procs.view_procs(), q),
    {
        let ghost before = find_proc(self.procs.view_procs(), pid)->0;
        proof {
            let i = choose|i: int| 0 <= i < self.procs.view_procs().len() && #[trigger] self.procs.view_procs()[i].pid == pid;
            lemma_find_proc(&self.procs, pid, i);
            assert(before.frame.wf());
        }
        let prev = self.proc_state(pid);
        let args = self.heap.kmalloc(INODE_ARGS_SIZE);
        if args == 0 {
            self.set_proc_reg(pid, REG_A0, 0);
            return 0;
        }
        let ghost k0 = *self;
        self.set_proc_state(pid, ProcessState::Waiting);
        let ghost k1 = *self;
        let helper = self.add_kernel_process_args(self.inode_reader, args, self.exit_stub);
        if helper == 0 {
            self.heap.kfree(args);
            self.set_proc_reg(pid, REG_A0, 0);
            self.set_proc_state(pid, prev);
            return 0;
        }
        self.inode_requests.push(InodeRequest { args, pid, dev, node, buffer, size, offset });
        proof {
            assert forall|q: u16|
                q != pid && has_pid(old(self).procs.view_procs(), q) implies #[trigger] find_proc(self.procs.view_procs(), q)
                == find_proc(old(self).procs.view_procs(), q) by {
                assert(has_pid(k1.procs.view_procs(), q)) by {
                    let j = choose|j: int| 0 <= j < old(self).procs.view_procs().len() && #[trigger] old(self).procs.view_procs()[j].pid == q;
                    assert(k1.procs.view_procs().len() == old(self).procs.view_procs().len());
                    assert(find_proc(k1.procs.view_procs(), q) == find_proc(old(self).procs.view_procs(), q));
                    lemma_find_proc(&old(self).procs, q, j);
                }
                crate::kernel::lemma_find_push(&k1.procs, &self.procs, q);
            }
            let i = choose|i: int| 0 <= i < k1.procs.view_procs().len() && #[trigger] k1.procs.view_procs()[i].pid == pid;
            assert(self.procs.view_procs().drop_last() == k1.procs.view_procs());
            assert(self.procs.view_procs().drop_last()[i] == self.procs.view_procs()[i]);
            lemma_find_proc(&k1.procs, pid, i);
            lemma_find_proc(&self.procs, pid, i);
        }
        helper
    }

    /// Queues a read of `size` bytes at byte `offset` of block device `dev`
    /// into `buf` for process `pid`; the device to notify, where the request
    /// went out.
    fn submit_block_read(&mut self, dev: u64, buf: u64, size: u32, offset: u64, pid: u16) -> (r: SyscallAction)
        requires
            old(self).wf(),
        ensures
            final(self).wf(),
            final(self).procs == old(self).procs,
            final(self).console == old(self).console,
            block_read_post(old(self), final(self), dev, buf, size, offset, pid, r),
            final(self).pages == old(self).pages,
            final(self).tables == old(self).tables,
    {
        let mut k: usize = 0;
        while k < self.blocks.len()
            invariant
                self.wf(),
                self.procs == old(self).procs,
                self.console == old(self).console,
                self.blocks == old(self).blocks,
                self.heap == old(self).heap,
                self.pages == old(self).pages,
                self.tables == old(self).tables,
                k <= self.blocks@.len(),
                forall|j: int| 0 <= j < k ==> (#[trigger] self.blocks@[j]).id != dev,
            decreases self.blocks@.len() - k,
        {
            if self.blocks[k].id == dev {
                let ghost before = self.blocks@;
                let mut slot = self.blocks.remove(k);
                let res = slot.dev.block_op(&mut self.heap, buf, size, offset, false, pid);
                let mmio = slot.dev.dev;
                self.blocks.insert(k, slot);
                proof {
                    assert forall|j: int| 0 <= j < self.blocks@.len() implies (#[trigger] self.blocks@[j]).dev.wf() by {
                        if j != k {
                            assert(self.blocks@[j] == before[j]);
                        }
                    }
                }
                let r = match res {
                    BlockOpResult::Submitted(_) => SyscallAction::Notify(mmio),
                    _ => SyscallAction::Nothing,
                };
                proof {
                    assert(old(self).blocks@[k as int] == before[k as int]);
                    assert(self.blocks@.len() == old(self).blocks@.len());
                    if r != SyscallAction::Nothing {
                        assert(0 <= k < old(self).blocks@.len() && old(self).blocks@[k as int].id == dev
                            && r == SyscallAction::Notify(old(self).blocks@[k as int].dev.dev));
                    }
                }
                return r;
            }
            k = k + 1;
        }
        SyscallAction::Nothing
    }

    /// Replaces the state of process `pid`, keeping the kernel well formed.
    fn set_proc_state(&mut self, pid: u16, st: ProcessState)
        requires
            old(self).wf(),
            has_pid(old(self).procs.view_procs(), pid),
        ensures
            final(self).wf(),
            final(self).procs.view_procs().len() == old(self).procs.view_procs().len(),
            final(self).console == old(self).console,
            final(self).blocks == old(self).blocks,
            final(self).pages == old(self).pages,
            final(self).tables == old(self).tables,
            final(self).heap == old(self).heap,
            final(self).inode_requests == old(self).inode_requests,
            final(self).inode_reader == old(self).inode_reader,
            final(self).exit_stub == old(self).exit_stub,
            final(self).procs.spec_next_pid() == old(self).procs.spec_next_pid(),
            find_proc(final(self).procs.view_procs(), pid) == Some(
                with_state(find_proc(old(self).procs.view_procs(), pid)->0, st),
            ),
            forall|q: u16| q != pid ==> #[trigger] find_proc(final(self).procs.view_procs(), q) == find_proc(old(self).procs.view_procs(), q),
    {
        let ghost s = self.procs.view_procs();
        let _ = self.procs.set_state(pid, st);
        proof {
            let i = choose|i: int| first_pid(s, pid, i) && self.procs.view_procs() == s.update(i, with_state(s[i], st));
            lemma_frames_update(s, i, with_state(s[i], st));
            lemma_find_proc(&self.procs, pid, i);
            lemma_find_proc(&old(self).procs, pid, i);
            assert forall|q: u16| q != pid implies #[trigger] find_proc(self.procs.view_procs(), q) == find_proc(s, q) by {
                crate::kernel::lemma_find_other(&old(self).procs, &self.procs, i, pid, q);
            }
        }
    }
}

} // verus!
