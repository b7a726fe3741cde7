//! Core of a small RISC-V kernel, modelled as plain data: the physical page
//! allocator, the sub-page heap, Sv39 page tables, processes and their
//! scheduler, the trap and system-call decisions, the virtio block queue and
//! the MINIX v3 inode reader.
pub mod block;
pub mod buffer;
pub mod console;
pub mod cpu;
pub mod fs;
pub mod kernel;
pub mod kmem;
pub mod lock;
pub mod mmu;
pub mod page;
pub mod plic;
pub mod process;
pub mod scheduler;
pub mod shell;
pub mod syscall;
pub mod trap;
pub mod uart;
pub mod virtio;
