use peetos::cpu::{MachineTime, REG_A0, REG_A7, REG_RA, REG_SP};
use peetos::kernel::Kernel;
use peetos::process::{ProcessState, STACK_ADDR};
use peetos::scheduler::schedule;
use peetos::trap::{schedule_scheduler, TrapAction, SCHEDULER_FREQUENCY};

const RA: u64 = 0x8000_0100;

fn kernel() -> Kernel {
    Kernel::new(0x8020_0000, 0x100_0000).unwrap()
}

fn state_of(k: &Kernel, pid: u16) -> Option<ProcessState> {
    (0..k.procs.len()).map(|i| k.procs.get(i)).find(|p| p.pid == pid).map(|p| p.state)
}

#[test]
fn sleeper_wakes_at_its_deadline() {
    let mut k = kernel();
    let idle = k.add_kernel_process(0x8000_1000, RA);
    let sleeper = k.add_kernel_process(0x8000_2000, RA);
    let waiter = k.add_kernel_process(0x8000_3000, RA);
    assert_eq!((idle, sleeper, waiter), (1, 2, 3));
    assert!(k.procs.set_sleeping(sleeper, MachineTime::from_ms(50)));
    assert!(k.procs.set_waiting(waiter));
    for t in [0u64, 10, 49] {
        let now = MachineTime::from_ms(t);
        assert_eq!(schedule(&mut k.procs, now), Some(idle));
        assert_eq!(schedule(&mut k.procs, now), Some(idle));
    }
    let now = MachineTime::from_ms(50);
    let mut seen = vec![];
    for _ in 0..3 {
        seen.push(schedule(&mut k.procs, now).unwrap());
    }
    assert!(seen.contains(&sleeper));
    assert_eq!(state_of(&k, sleeper), Some(ProcessState::Running));
    assert_eq!(state_of(&k, waiter), Some(ProcessState::Waiting));
}

#[test]
fn idle_process_keeps_the_scheduler_live() {
    let mut k = kernel();
    let idle = k.add_kernel_process(0x8000_1000, RA);
    for i in 0..20u64 {
        let p = k.add_kernel_process(0x8000_2000 + i * 0x100, RA);
        if i % 2 == 0 {
            k.procs.set_waiting(p);
        } else {
            k.procs.set_sleeping(p, MachineTime::from_ms(1_000_000));
        }
    }
    for _ in 0..50 {
        assert_eq!(schedule(&mut k.procs, MachineTime::from_ms(5)), Some(idle));
    }
}

#[test]
fn nothing_to_run_leaves_the_list() {
    let mut k = kernel();
    let p = k.add_kernel_process(0x8000_1000, RA);
    k.procs.set_waiting(p);
    assert_eq!(schedule(&mut k.procs, MachineTime::zero()), None);
    assert_eq!(k.procs.len(), 1);
    let mut empty = peetos::process::ProcessList::new();
    assert_eq!(schedule(&mut empty, MachineTime::zero()), None);
}

#[test]
fn store_page_fault_kills_the_process() {
    let mut k = kernel();
    let idle = k.add_kernel_process(0x8000_1000, RA);
    let user = k.add_user_process(0x8010_0000, RA);
    assert_ne!(user, 0);
    let out = k.m_trap(0x8010_0040, 0xdead_beef, 15, 0, 0, user, MachineTime::from_ms(3));
    assert_eq!(out.action, TrapAction::Switch(Some(idle)));
    assert_eq!(state_of(&k, user), None);
    assert_eq!(k.procs.len(), 1);
    let t = out.next_timer.unwrap();
    assert_eq!(t.ticks, MachineTime::from_ms(3).ticks + SCHEDULER_FREQUENCY);
}

#[test]
fn trap_causes_are_told_apart() {
    let mut k = kernel();
    let p = k.add_kernel_process(0x8000_1000, RA);
    let async_bit = 1u64 << 63;
    assert_eq!(k.m_trap(0x100, 0, 3, 0, 0, p, MachineTime::zero()).action, TrapAction::Resume(0x102));
    assert_eq!(k.m_trap(0x100, 0, async_bit | 3, 0, 0, p, MachineTime::zero()).action, TrapAction::Resume(0x100));
    assert_eq!(k.m_trap(0x100, 0, async_bit | 11, 0, 0, p, MachineTime::zero()).action, TrapAction::External(0x100));
    assert_eq!(k.m_trap(0x100, 0, async_bit | 7, 0, 0, p, MachineTime::zero()).action, TrapAction::Switch(Some(p)));
    assert_eq!(k.m_trap(0x100, 0, async_bit | 5, 0, 0, p, MachineTime::zero()).action, TrapAction::Fatal);
    assert_eq!(k.m_trap(0x100, 0, 14, 0, 0, p, MachineTime::zero()).action, TrapAction::Fatal);
}

#[test]
fn new_processes_start_where_asked() {
    let mut k = kernel();
    let p = k.add_kernel_process_args(0x8000_5000, 77, RA);
    let proc = k.procs.get(0);
    assert_eq!(proc.pid, p);
    assert_eq!(proc.frame.pc, 0x8000_5000);
    assert_eq!(proc.frame.regs[REG_RA], RA);
    assert_eq!(proc.frame.regs[REG_SP], proc.stack + 8192);
    assert_eq!(proc.frame.regs[REG_A0], 77);
    assert_eq!(proc.frame.mode, 3);
    assert_eq!(proc.frame.pid, p as u64);
    assert_eq!(proc.frame.regs[REG_A7], 0);
    assert_eq!(proc.state, ProcessState::Running);
}

#[test]
fn user_stack_is_mapped_at_its_window() {
    let mut k = kernel();
    let u = k.add_user_process(0x8010_0000, RA);
    let proc = k.procs.get(0).clone();
    assert_eq!(proc.pid, u);
    assert_eq!(proc.frame.mode, 0);
    assert_eq!(proc.frame.regs[REG_SP], STACK_ADDR + 8192);
    assert_eq!(k.tables.virt_to_phys(proc.root_table, STACK_ADDR + 8), Some(proc.stack + 8));
    assert_eq!(k.tables.virt_to_phys(proc.root_table, STACK_ADDR + 5000), Some(proc.stack + 5000));
    assert_eq!(k.tables.virt_to_phys(proc.root_table, 0x8010_0123), Some(0x8010_0123));
    assert_eq!(k.tables.virt_to_phys(proc.root_table, 0x8000_0000), Some(0x8000_0000));
}

#[test]
fn deleting_gives_resources_back() {
    let mut k = kernel();
    let free = |k: &Kernel| (0..k.pages.num_pages()).filter(|i| k.pages.page(*i).is_free()).count();
    let before = free(&k);
    let u = k.add_user_process(0x8010_0000, RA);
    assert!(free(&k) < before);
    assert!(k.delete_process(u));
    assert_eq!(free(&k), before);
    assert!(!k.delete_process(u));
}

#[test]
fn timer_is_armed_a_second_ahead() {
    assert_eq!(schedule_scheduler(MachineTime::from_ticks(5)).ticks, 10_000_005);
    assert_eq!(schedule_scheduler(MachineTime::from_ticks(u64::MAX - 1)).ticks, u64::MAX);
}
