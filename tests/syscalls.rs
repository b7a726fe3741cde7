use peetos::cpu::{MachineTime, REG_A0, REG_A1, REG_A2, REG_A3, REG_A7, REG_RA};
use peetos::kernel::Kernel;
use peetos::process::ProcessState;
use peetos::syscall::{
    get_inode, get_pid, putchar, sleep, sys_read, sys_write, SyscallAction, SYSCALL_EXIT, SYSCALL_GET_INODE,
    SYSCALL_GET_PID, SYSCALL_GET_TIME, SYSCALL_PUTCHAR, SYSCALL_SLEEP, SYSCALL_SYS_READ, SYSCALL_SYS_WRITE,
    SYSCALL_WAIT, SYSCALL_YIELD,
};

const RA: u64 = 0x8000_0100;

fn kernel_with_one() -> (Kernel, u16) {
    let mut k = Kernel::new(0x8020_0000, 0x100_0000).unwrap();
    let p = k.add_kernel_process(0x8000_1000, RA);
    (k, p)
}

fn call(k: &mut Kernel, pid: u16, regs: &[(usize, u64)]) -> peetos::syscall::SyscallOutcome {
    for (r, v) in regs {
        assert!(k.procs.set_reg(pid, *r, *v));
    }
    k.do_syscall(pid, 0x1000, MachineTime::from_ms(7))
}

fn proc_of(k: &Kernel, pid: u16) -> peetos::process::Process {
    (0..k.procs.len()).map(|i| k.procs.get(i).clone()).find(|p| p.pid == pid).unwrap()
}

#[test]
fn getpid_and_gettime_answer_in_a0() {
    let (mut k, p) = kernel_with_one();
    let out = call(&mut k, p, &[(REG_A7, SYSCALL_GET_PID)]);
    assert!(!out.reschedule);
    assert_eq!(proc_of(&k, p).frame.regs[REG_A0], p as u64);
    assert_eq!(proc_of(&k, p).frame.pc, 0x1004);
    let out = call(&mut k, p, &[(REG_A7, SYSCALL_GET_TIME)]);
    assert!(!out.reschedule);
    assert_eq!(proc_of(&k, p).frame.regs[REG_A0], 70_000);
}

#[test]
fn sleep_wait_yield_and_exit_reschedule() {
    let (mut k, p) = kernel_with_one();
    let out = call(&mut k, p, &[(REG_A7, SYSCALL_SLEEP), (REG_A0, 5)]);
    assert!(out.reschedule);
    let pr = proc_of(&k, p);
    assert_eq!(pr.state, ProcessState::Sleeping);
    assert_eq!(pr.sleep_until.ticks, 70_000 + 50_000);
    let out = call(&mut k, p, &[(REG_A7, SYSCALL_WAIT)]);
    assert!(out.reschedule);
    assert_eq!(proc_of(&k, p).state, ProcessState::Waiting);
    assert!(call(&mut k, p, &[(REG_A7, SYSCALL_YIELD)]).reschedule);
    assert!(call(&mut k, p, &[(REG_A7, SYSCALL_EXIT)]).reschedule);
    assert_eq!(k.procs.len(), 0);
}

#[test]
fn long_sleep_saturates() {
    let (mut k, p) = kernel_with_one();
    call(&mut k, p, &[(REG_A7, SYSCALL_SLEEP), (REG_A0, u64::MAX)]);
    assert_eq!(proc_of(&k, p).sleep_until.ticks, u64::MAX);
}

#[test]
fn putchar_and_unknown_numbers() {
    let (mut k, p) = kernel_with_one();
    let out = call(&mut k, p, &[(REG_A7, SYSCALL_PUTCHAR), (REG_A0, b'x' as u64)]);
    assert!(matches!(out.action, SyscallAction::Print(b'x')));
    let out = call(&mut k, p, &[(REG_A7, 8)]);
    assert!(matches!(out.action, SyscallAction::Unknown(8)));
    assert!(!out.reschedule);
    assert_eq!(proc_of(&k, p).state, ProcessState::Running);
}

#[test]
fn read_of_empty_stdin_waits_until_input() {
    let (mut k, p) = kernel_with_one();
    let out = call(&mut k, p, &[(REG_A7, SYSCALL_SYS_READ), (REG_A0, 0), (REG_A1, 0x9000), (REG_A2, 4)]);
    assert!(out.reschedule);
    assert_eq!(proc_of(&k, p).state, ProcessState::Waiting);
    assert_eq!(proc_of(&k, p).frame.regs[REG_A0], 0);
    assert_eq!(k.stdin_input(b'h'), vec![p]);
    k.stdin_input(b'i');
    assert_eq!(proc_of(&k, p).state, ProcessState::Running);
    let out = call(&mut k, p, &[(REG_A7, SYSCALL_SYS_READ), (REG_A0, 0), (REG_A1, 0x9000), (REG_A2, 4)]);
    assert!(!out.reschedule);
    match out.action {
        SyscallAction::Store(addrs, bytes) => {
            assert_eq!(addrs, vec![0x9000, 0x9001]);
            assert_eq!(bytes, b"hi".to_vec());
        },
        _ => panic!("no bytes stored"),
    }
    assert_eq!(proc_of(&k, p).frame.regs[REG_A0], 2);
    assert_eq!(k.console.in_buffer.len(), 0);
}

#[test]
fn write_to_stdout_emits_each_byte() {
    let (mut k, p) = kernel_with_one();
    let out = call(&mut k, p, &[(REG_A7, SYSCALL_SYS_WRITE), (REG_A0, 1), (REG_A1, 0x7000), (REG_A2, 3)]);
    match out.action {
        SyscallAction::Emit(addrs) => assert_eq!(addrs, vec![0x7000, 0x7001, 0x7002]),
        _ => panic!("nothing emitted"),
    }
    assert_eq!(proc_of(&k, p).frame.regs[REG_A0], 3);
    let out = call(&mut k, p, &[(REG_A7, SYSCALL_SYS_WRITE), (REG_A0, 5), (REG_A1, 0x7000), (REG_A2, 3)]);
    assert!(matches!(out.action, SyscallAction::Nothing));
}

#[test]
fn get_inode_spawns_the_reader() {
    let (mut k, p) = kernel_with_one();
    k.inode_reader = 0x8000_7000;
    k.exit_stub = RA;
    let out = call(
        &mut k,
        p,
        &[(REG_A7, SYSCALL_GET_INODE), (REG_A0, 3), (REG_A1, 1), (REG_A2, 0x9000), (REG_A3, 1024)],
    );
    assert!(out.reschedule);
    assert_eq!(proc_of(&k, p).state, ProcessState::Waiting);
    assert_eq!(k.procs.len(), 2);
    let helper = k.procs.get(1).clone();
    assert_eq!(helper.frame.pc, 0x8000_7000);
    assert_eq!(helper.frame.regs[REG_RA], RA);
    assert_eq!(helper.frame.mode, 3);
    let args = helper.frame.regs[REG_A0];
    let req = k.take_inode_request(args).unwrap();
    assert_eq!((req.pid, req.dev, req.node, req.buffer, req.size, req.offset), (p, 3, 1, 0x9000, 1024, 0));
    assert!(k.take_inode_request(args).is_none());
    k.complete_inode_read(p, 128);
    assert_eq!(proc_of(&k, p).state, ProcessState::Running);
    assert_eq!(proc_of(&k, p).frame.regs[REG_A0], 128);
}

#[test]
fn requests_carry_number_and_arguments() {
    assert_eq!(get_pid().number, SYSCALL_GET_PID);
    let s = sleep(30);
    assert_eq!((s.number, s.arg0), (SYSCALL_SLEEP, 30));
    let r = sys_read(0, 0x10, 5);
    assert_eq!((r.number, r.arg0, r.arg1, r.arg2), (SYSCALL_SYS_READ, 0, 0x10, 5));
    let w = sys_write(1, 0x20, 6);
    assert_eq!((w.number, w.arg0, w.arg1, w.arg2), (SYSCALL_SYS_WRITE, 1, 0x20, 6));
    let g = get_inode(3, 1, 0x30, 100, 7);
    assert_eq!((g.number, g.arg0, g.arg1, g.arg2, g.arg3, g.arg4), (SYSCALL_GET_INODE, 3, 1, 0x30, 100, 7));
    assert_eq!(putchar(b'z').arg0, b'z' as u64);
}

#[test]
fn unknown_caller_changes_nothing() {
    let (mut k, _p) = kernel_with_one();
    let out = k.do_syscall(99, 0x1000, MachineTime::zero());
    assert!(!out.reschedule);
    assert_eq!(k.procs.len(), 1);
}

#[test]
fn machine_time_arithmetic_and_text() {
    let t = MachineTime::from_ms(1500);
    assert_eq!(t.as_u64(), 15_000_000);
    assert_eq!(t.offset_ms(2).ticks, 15_020_000);
    assert_eq!(t.offset(MachineTime::from_ticks(5)).ticks, 15_000_005);
    assert_eq!(t.offset_ticks(1).ticks, 15_000_001);
    let u = MachineTime::from_ticks(62 * 10_000_000 + 3 * 10_000);
    assert_eq!(u.formatted(), "1:2.3");
    assert_eq!(MachineTime::zero().formatted(), "0:0.0");
}

#[test]
fn read_from_a_bad_file_returns_zero() {
    let (mut k, p) = kernel_with_one();
    call(&mut k, p, &[(REG_A7, SYSCALL_SYS_READ), (REG_A0, 7), (REG_A1, 0x9000), (REG_A2, 4)]);
    assert_eq!(proc_of(&k, p).frame.regs[REG_A0], 0);
}

#[test]
fn block_read_without_a_device_returns_zero() {
    let (mut k, p) = kernel_with_one();
    let out = call(
        &mut k,
        p,
        &[(REG_A7, peetos::syscall::SYSCALL_BLOCK_READ), (REG_A0, 5), (REG_A1, 0x9000), (REG_A2, 512), (REG_A3, 0)],
    );
    assert!(!out.reschedule);
    assert_eq!(proc_of(&k, p).state, ProcessState::Running);
    assert_eq!(proc_of(&k, p).frame.regs[REG_A0], 0);
}

#[test]
fn write_under_a_bare_satp_emits_every_byte() {
    let mut k = Kernel::new(0x8020_0000, 0x100_0000).unwrap();
    let u = k.add_user_process(0x8010_0000, RA);
    let stack_top_page = peetos::process::STACK_ADDR + 4096;
    assert!(k.procs.set_reg(u, REG_A7, SYSCALL_SYS_WRITE));
    assert!(k.procs.set_reg(u, REG_A0, 1));
    assert!(k.procs.set_reg(u, REG_A1, stack_top_page + 4090));
    assert!(k.procs.set_reg(u, REG_A2, 10));
    let out = k.do_syscall(u, 0x1000, MachineTime::zero());
    match out.action {
        SyscallAction::Emit(addrs) => assert_eq!(addrs.len(), 10),
        _ => panic!("nothing emitted"),
    }
}
