use peetos::buffer::Buffer;
use peetos::console::Console;
use peetos::lock::{Mutex, MutexState, DEFAULT_LOCK_SLEEP};
use peetos::process::ProcessData;
use peetos::shell::Shell;
use peetos::cpu::{CpuMode, Registers, TrapFrame};
use peetos::uart::{echo_of, Uart};

#[test]
fn buffer_is_clear_and_sized() {
    let mut b = Buffer::new(16);
    assert_eq!(b.len(), 16);
    assert!(b.get().iter().all(|x| *x == 0));
    b.set(3, 9);
    assert_eq!(b.index(3), 9);
    b.get_mut()[4] = 7;
    assert_eq!(b.index(4), 7);
    assert_eq!(Buffer::default_block().len(), 1024);
}

#[test]
fn lock_is_taken_once() {
    let mut m = Mutex::new();
    assert_eq!(*m.val(), MutexState::Unlocked);
    assert!(m.try_lock());
    assert!(!m.try_lock());
    assert!(!m.spin_lock());
    let s = m.sleep_lock().unwrap();
    assert_eq!(s.arg0, DEFAULT_LOCK_SLEEP);
    m.unlock();
    assert!(m.sleep_lock().is_none());
    assert_eq!(*m.val(), MutexState::Locked);
}

#[test]
fn console_keeps_input_and_waiters() {
    let mut c = Console::new();
    c.push_stdin(b'a');
    c.push_stdin(b'b');
    c.push_queue(3);
    assert_eq!(c.drain(1), vec![b'a']);
    assert_eq!(c.in_buffer, vec![b'b']);
    assert_eq!(c.take_waiters(), vec![3]);
    assert!(c.waiters.is_empty());
}

#[test]
fn frames_and_modes() {
    let f = TrapFrame::zero();
    assert_eq!(f.regs.len(), 32);
    assert_eq!(f.qm, 1);
    assert_eq!(Registers::A7.index(), 17);
    assert_eq!(Registers::T6.index(), 31);
    assert_eq!(CpuMode::Machine.val(), 3);
    assert_eq!(ProcessData::zero().cwd_path.len(), 128);
}

#[test]
fn uart_and_shell() {
    assert_eq!(Uart::new(0x1000_0000).base_address, 0x1000_0000);
    assert!(Uart::data_ready(0x61));
    assert!(!Uart::data_ready(0x60));
    assert_eq!(echo_of(8), vec![8, 32, 8]);
    assert_eq!(echo_of(13), vec![13, 10]);
    assert_eq!(echo_of(b'q'), vec![b'q']);
    assert!(Shell::new().running);
}
