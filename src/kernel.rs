//! The kernel as one value: its allocators, page tables, processes, console
//! and block devices, with process creation and removal.
use vstd::prelude::*;
use crate::block::{BlockDevice, Completion, drain, used_ids};
use crate::console::Console;
use crate::cpu::{CpuMode, MachineTime, TrapFrame, REG_A0, REG_RA, REG_SP};
use crate::kmem::KernelHeap;
use crate::mmu::{PageTables, EntryBits, lemma_other_page};
use crate::page::{PageAllocator, PAGE_SIZE, first_fit, run_ends_at, clear_range, FLAGS_FREE, window_free, mark_run, has_window, lemma_window_after_alloc};
use crate::process::{
    Process, ProcessData, ProcessList, ProcessState, has_pid, first_pid, with_state, reg_set, STACK_PAGES, STACK_ADDR,
    CODE_PAGES, TRAMPOLINE_ADDR,
};

verus! {

/// Physical addresses stay below this bound, the reach of an Sv39 entry.
pub const PHYS_LIMIT: u64 = 0x100_0000_0000_0000;

/// A region of memory to map to itself: `[start, end)` with entry bits.
#[derive(Clone, Copy, Debug, PartialEq, Eq, Structural)]
pub struct Region {
    pub start: u64,
    pub end: u64,
    pub bits: u64,
}

/// Where the linker put the parts of the kernel image.
#[derive(Clone, Copy, Debug, PartialEq, Eq, Structural)]
pub struct KernelLayout {
    pub text_start: u64,
    pub text_end: u64,
    pub rodata_start: u64,
    pub rodata_end: u64,
    pub data_start: u64,
    pub data_end: u64,
    pub bss_start: u64,
    pub bss_end: u64,
    pub stack_start: u64,
    pub stack_end: u64,
    pub heap_start: u64,
    pub heap_size: u64,
}

/// The kernel's address space once mapped: its root table, the `satp`
/// value that turns it on, and the top of the trap stack.
#[derive(Clone, Copy, Debug, PartialEq, Eq, Structural)]
pub struct KernelMap {
    pub root: u64,
    pub satp: u64,
    pub trap_stack: u64,
}

/// Addresses below this bound are Sv39 virtual addresses.
pub const VA_LIMIT: u64 = 0x80_0000_0000;

/// Read-write entry bits.
pub const BITS_RW: u64 = 6;

/// Read-execute entry bits.
pub const BITS_RX: u64 = 10;

/// The regions the kernel maps to itself: the sub-page heap at
/// `kmem_head`, the page descriptors, text and read-only data (read and
/// execute), data, bss and the kernel stack (read and write), and the UART,
/// CLINT and PLIC registers.
pub fn kernel_regions(layout: &KernelLayout, kmem_head: u64) -> (r: Vec<Region>)
    requires
        kmem_head + crate::kmem::KMEM_SPAN <= u64::MAX,
        layout.heap_start + layout.heap_size / PAGE_SIZE <= u64::MAX,
    ensures
        r@ == seq![
            Region { start: kmem_head, end: (kmem_head + crate::kmem::KMEM_SPAN) as u64, bits: BITS_RW },
            Region { start: layout.heap_start, end: (layout.heap_start + layout.heap_size / PAGE_SIZE) as u64, bits: BITS_RW },
            Region { start: layout.text_start, end: layout.text_end, bits: BITS_RX },
            Region { start: layout.rodata_start, end: layout.rodata_end, bits: BITS_RX },
            Region { start: layout.data_start, end: layout.data_end, bits: BITS_RW },
            Region { start: layout.bss_start, end: layout.bss_end, bits: BITS_RW },
            Region { start: layout.stack_start, end: layout.stack_end, bits: BITS_RW },
            Region { start: 0x1000_0000, end: 0x1000_0100, bits: BITS_RW },
            Region { start: 0x0200_0000, end: 0x0200_ffff, bits: BITS_RW },
            Region { start: 0x0c00_0000, end: 0x0c00_2000, bits: BITS_RW },
            Region { start: 0x0c20_0000, end: 0x0c20_8000, bits: BITS_RW },
        ],
{
    let mut r: Vec<Region> = Vec::new();
    r.push(Region { start: kmem_head, end: kmem_head + crate::kmem::KMEM_SPAN, bits: BITS_RW });
    r.push(Region { start: layout.heap_start, end: layout.heap_start + layout.heap_size / PAGE_SIZE, bits: BITS_RW });
    r.push(Region { start: layout.text_start, end: layout.text_end, bits: BITS_RX });
    r.push(Region { start: layout.rodata_start, end: layout.rodata_end, bits: BITS_RX });
    r.push(Region { start: layout.data_start, end: layout.data_end, bits: BITS_RW });
    r.push(Region { start: layout.bss_start, end: layout.bss_end, bits: BITS_RW });
    r.push(Region { start: layout.stack_start, end: layout.stack_end, bits: BITS_RW });
    r.push(Region { start: 0x1000_0000, end: 0x1000_0100, bits: BITS_RW });
    r.push(Region { start: 0x0200_0000, end: 0x0200_ffff, bits: BITS_RW });
    r.push(Region { start: 0x0c00_0000, end: 0x0c00_2000, bits: BITS_RW });
    r.push(Region { start: 0x0c20_0000, end: 0x0c20_8000, bits: BITS_RW });
    assert(r@ =~= seq![
        Region { start: kmem_head, end: (kmem_head + crate::kmem::KMEM_SPAN) as u64, bits: BITS_RW },
        Region { start: layout.heap_start, end: (layout.heap_start + layout.heap_size / PAGE_SIZE) as u64, bits: BITS_RW },
        Region { start: layout.text_start, end: layout.text_end, bits: BITS_RX },
        Region { start: layout.rodata_start, end: layout.rodata_end, bits: BITS_RX },
        Region { start: layout.data_start, end: layout.data_end, bits: BITS_RW },
        Region { start: layout.bss_start, end: layout.bss_end, bits: BITS_RW },
        Region { start: layout.stack_start, end: layout.stack_end, bits: BITS_RW },
        Region { start: 0x1000_0000, end: 0x1000_0100, bits: BITS_RW },
        Region { start: 0x0200_0000, end: 0x0200_ffff, bits: BITS_RW },
        Region { start: 0x0c00_0000, end: 0x0c00_2000, bits: BITS_RW },
        Region { start: 0x0c20_0000, end: 0x0c20_8000, bits: BITS_RW },
    ]);
    r
}

/// Every address of region `g`, from the start of its first page on, maps
/// to itself under `root`.
pub open spec fn region_mapped(t: &PageTables, root: u64, g: Region) -> bool {
    forall|va: u64| (g.start & !0xfffu64) <= va < g.end ==> #[trigger] t.translate(root, va) == Some(va)
}

/// Every address of region `g` is mapped by a leaf without the U bit: user
/// code cannot reach it.
pub open spec fn kernel_only(t: &PageTables, root: u64, g: Region) -> bool {
    forall|va: u64|
        (g.start & !0xfffu64) <= va < g.end ==> #[trigger] t.perm(root, va).is_some() && t.perm(root, va)->0 & 0x10
            == 0
}

/// Setting the valid bit keeps the U bit as it was.
pub proof fn lemma_valid_keeps_user(b: u64)
    ensures
        (b | 1) & 0x10 == b & 0x10,
{
    assert((b | 1) & 0x10 == b & 0x10) by (bit_vector);
}

/// A block device and its number (1 for the first MMIO bank).
#[derive(Clone, Debug)]
pub struct BlockSlot {
    pub id: u64,
    pub dev: BlockDevice,
}

/// The kernel's state.
pub struct Kernel {
    pub pages: PageAllocator,
    pub heap: KernelHeap,
    pub tables: PageTables,
    pub procs: ProcessList,
    pub console: Console,
    pub blocks: Vec<BlockSlot>,
    /// Entry point of the helper process that reads an inode.
    pub inode_reader: u64,
    /// Address kernel processes return to, which ends them.
    pub exit_stub: u64,
    /// Reads of inodes handed to helper processes and not taken yet.
    pub inode_requests: Vec<InodeRequest>,
}

/// A read of an inode handed to a helper process, under the address of its
/// arguments in the kernel heap, which the helper gets in A0.
#[derive(Clone, Copy, Debug, PartialEq, Eq, Structural)]
pub struct InodeRequest {
    pub args: u64,
    pub pid: u16,
    pub dev: u64,
    pub node: u32,
    pub buffer: u64,
    pub size: u32,
    pub offset: u32,
}

/// Bytes of kernel heap that the arguments of an inode read take.
pub const INODE_ARGS_SIZE: u64 = 40;

/// The pages of process `p` went back: its stack run is no longer live in
/// `f`, and its root table, where it was one in `k`, translates nothing.
pub open spec fn released(k: &Kernel, f: &Kernel, p: Process) -> bool {
    &&& !f.pages.live_at(p.stack)
    &&& k.tables.is_root(p.root_table) ==> forall|va: u64| #[trigger] f.tables.translate(p.root_table, va).is_none()
}

/// The process with pid `pid`, where there is one.
pub open spec fn find_proc(s: Seq<Process>, pid: u16) -> Option<Process> {
    if has_pid(s, pid) {
        Some(s[choose|i: int| first_pid(s, pid, i)])
    } else {
        None
    }
}

/// With unique pids, the process at a position with pid `pid` is the one
/// `find_proc` gives.
pub proof fn lemma_find_proc(l: &ProcessList, pid: u16, i: int)
    requires
        l.wf(),
        0 <= i < l.view_procs().len(),
        l.view_procs()[i].pid == pid,
    ensures
        first_pid(l.view_procs(), pid, i),
        find_proc(l.view_procs(), pid) == Some(l.view_procs()[i]),
{
    let s = l.view_procs();
    assert forall|j: int| 0 <= j < i implies #[trigger] s[j].pid != pid by {
        assert(s[j].pid != s[i].pid);
    }
    assert(first_pid(s, pid, i));
    let c = choose|c: int| first_pid(s, pid, c);
    if c != i {
        if c < i {
        } else {
            assert(s[i].pid != pid);
        }
    }
}

impl Kernel {
    /// Every part is well formed, and every process has full register files.
    pub open spec fn wf(&self) -> bool {
        &&& self.pages.wf()
        &&& self.pages.start() + self.pages.flags().len() * PAGE_SIZE <= PHYS_LIMIT
        &&& self.heap.wf()
        &&& self.tables.wf()
        &&& self.procs.wf()
        &&& forall|i: int|
            0 <= i < self.procs.view_procs().len() ==> (#[trigger] self.procs.view_procs()[i]).frame.wf()
        &&& forall|i: int| 0 <= i < self.blocks@.len() ==> (#[trigger] self.blocks@[i]).dev.wf()
    }

    /// Boots the memory side of the kernel over the heap region: the page
    /// allocator, then the sub-page heap from its pages. `None` where the
    /// region is too small for the heap.
    pub fn new(heap_start: u64, heap_size: u64) -> (r: Option<Kernel>)
        requires
            heap_start > 0,
            heap_start + 2 * heap_size + PAGE_SIZE <= PHYS_LIMIT,
        ensures
            r.is_some() <==> heap_size / PAGE_SIZE >= crate::kmem::KMEM_PAGES,
            r.is_some() ==> r->0.wf() && r->0.procs.view_procs().len() == 0
                && r->0.heap.view_chunks() == seq![(crate::kmem::KMEM_SPAN as int, false)]
                && r->0.blocks@.len() == 0,
    {
        let mut pages = PageAllocator::init(heap_start, heap_size);
        proof {
            let n = heap_size / PAGE_SIZE;
            assert(n * 4096 <= heap_size && n <= heap_size) by (nonlinear_arith)
                requires
                    n == heap_size / 4096,
            ;
        }
        proof {
            if heap_size / PAGE_SIZE >= 64 {
                assert(window_free(pages.flags(), 0, 64));
            } else {
                assert forall|i: int| !#[trigger] window_free(pages.flags(), i, 64) by {}
            }
        }
        let heap = match KernelHeap::init(&mut pages) {
            Some(h) => h,
            None => {
                return None;
            },
        };
        Some(
            Kernel {
                pages,
                heap,
                tables: PageTables::new(),
                procs: ProcessList::new(),
                console: Console::new(),
                blocks: Vec::new(),
                inode_reader: 0,
                exit_stub: 0,
                inode_requests: Vec::new(),
            },
        )
    }

    /// What a new process looks like: running, with its entry point, return
    /// address, stack pointer, mode and pid in its frame.
    pub open spec fn new_process(p: Process, pid: u16, func: u64, ra: u64, sp: u64, mode: u64) -> bool {
        &&& p.pid == pid
        &&& p.state == ProcessState::Running
        &&& p.frame.wf()
        &&& p.frame.pc == func
        &&& p.frame.regs@[REG_RA as int] == ra
        &&& p.frame.regs@[REG_SP as int] == sp
        &&& p.frame.mode == mode
        &&& p.frame.pid == pid
    }

    /// There is room for a kernel process: a pid is left, three free pages
    /// follow one another (the stack and the root table), and the page
    /// tables agree with the page allocator.
    pub open spec fn room_for_kernel_process(k: &Kernel) -> bool {
        &&& k.procs.spec_next_pid() < u16::MAX
        &&& exists|i: int| #[trigger] window_free(k.pages.flags(), i, 3)
        &&& k.tables.in_sync(&k.pages)
    }

    /// Free pages a user process may take: its stack, its root table, two
    /// table pages for each page of its code window, trampoline and `ra`
    /// page, and two for each stack page.
    pub open spec fn user_need(func: u64, ra: u64) -> int {
        3 + crate::mmu::id_need(func, (func + CODE_PAGES * 4096) as u64) + crate::mmu::id_need(
            TRAMPOLINE_ADDR,
            (TRAMPOLINE_ADDR + 1) as u64,
        ) + crate::mmu::id_need(ra, (ra + 1) as u64) + 4
    }

    /// There is room for a user process: a pid is left, `user_need` free
    /// pages follow one another, and the page tables agree with the page
    /// allocator.
    pub open spec fn room_for_user_process(k: &Kernel, func: u64, ra: u64) -> bool {
        &&& k.procs.spec_next_pid() < u16::MAX
        &&& has_window(k.pages.flags(), Self::user_need(func, ra))
        &&& k.tables.in_sync(&k.pages)
    }

    /// Creates a process: a stack of `STACK_PAGES` pages, a root page table
    /// and a frame that starts at `func` and returns to `ra`. A user process
    /// gets its code window, the system-call trampoline, the page of `ra`
    /// and its stack (at `STACK_ADDR`) mapped in its tables. Returns the
    /// pid, or 0 where memory or pids ran out; nothing is kept then.
    fn add_process(&mut self, func: u64, ra: u64, arg: Option<u64>, user: bool) -> (r: u16)
        requires
            old(self).wf(),
            user ==> func + CODE_PAGES * 4096 <= VA_LIMIT,
            user ==> ra < VA_LIMIT,
        ensures
            final(self).inode_reader == old(self).inode_reader,
            final(self).exit_stub == old(self).exit_stub,
            final(self).inode_requests == old(self).inode_requests,
            r != 0 ==> final(self).procs.view_procs().len() == old(self).procs.view_procs().len() + 1,
            final(self).wf(),
            final(self).blocks@ == old(self).blocks@,
            final(self).console == old(self).console,
            final(self).heap == old(self).heap,
            r == 0 ==> final(self).procs.view_procs() == old(self).procs.view_procs(),
            r != 0 ==> final(self).procs.spec_next_pid() == old(self).procs.spec_next_pid() + 1 && r == old(self).procs.spec_next_pid(),
            !user && Self::room_for_kernel_process(old(self)) ==> r != 0,
            user && Self::room_for_user_process(old(self), func, ra) ==> r != 0,
            r != 0 ==> {
                let s = final(self).procs.view_procs();
                let p = s.last();
                &&& s.drop_last() == old(self).procs.view_procs()
                &&& Self::new_process(
                    p,
                    r,
                    func,
                    ra,
                    if user { (STACK_ADDR + 8192) as u64 } else { (p.stack + 8192) as u64 },
                    if user { 0 } else { 3 },
                )
                &&& arg.is_some() ==> p.frame.regs@[REG_A0 as int] == arg->0
                &&& final(self).tables.is_root(p.root_table)
                &&& user ==> forall|off: u64|
                    off < 8192 ==> #[trigger] final(self).tables.translate(p.root_table, (STACK_ADDR + off) as u64)
                        == Some((p.stack + off) as u64)
                &&& user ==> forall|va: u64|
                    va < VA_LIMIT && user_window(func, ra, va) && !(STACK_ADDR <= va < STACK_ADDR + 8192) ==> #[trigger] final(self).tables.translate(p.root_table, va) == Some(va)
                &&& user ==> forall|va: u64|
                    va < VA_LIMIT && user_window(func, ra, va) && !(STACK_ADDR <= va < STACK_ADDR + 8192) ==> #[trigger] final(self).tables.perm(p.root_table, va) == Some(USER_RX_LEAF)
                &&& user ==> forall|off: u64|
                    off < 8192 ==> #[trigger] final(self).tables.perm(p.root_table, (STACK_ADDR + off) as u64) == Some(USER_RW_LEAF)
            },
    {
        proof {
            if user {
                crate::mmu::lemma_id_need_nonneg(func, (func + CODE_PAGES * 4096) as u64);
                crate::mmu::lemma_id_need_nonneg(TRAMPOLINE_ADDR, (TRAMPOLINE_ADDR + 1) as u64);
                crate::mmu::lemma_id_need_nonneg(ra, (ra + 1) as u64);
            }
            if user && Self::room_for_user_process(old(self), func, ra) {
                crate::mmu::lemma_window_shrink_to(old(self).pages.flags(), Self::user_need(func, ra), 2);
            }
        }
        let stack = self.pages.alloc_pages(STACK_PAGES);
        proof {
            if !user && Self::room_for_kernel_process(old(self)) {
                let j = choose|j: int| #[trigger] window_free(old(self).pages.flags(), j, 3);
                assert(window_free(old(self).pages.flags(), j, 2));
            }
        }
        if stack == 0 {
            return 0;
        }
        proof {
            let i = choose|i: int| first_fit(old(self).pages.flags(), i, 2) && stack == old(self).pages.page_addr(i);
            let st = old(self).pages.start() as int;
            let len = old(self).pages.flags().len() as int;
            assert(stack + 8192 <= PHYS_LIMIT) by (nonlinear_arith)
                requires
                    stack == st + i * 4096,
                    i + 2 <= len,
                    st + len * 4096 <= PHYS_LIMIT,
            ;
            assert(26u64 & 0xe != 0 && 22u64 & 0xe != 0) by (bit_vector);
        }
        proof {
            if !user && Self::room_for_kernel_process(old(self)) {
                let j = choose|j: int| #[trigger] window_free(old(self).pages.flags(), j, 3);
                assert(window_free(old(self).pages.flags(), j, 2));
                let i = choose|i: int| first_fit(old(self).pages.flags(), i, 2) && stack == old(self).pages.page_addr(i)
                    && self.pages.flags() == mark_run(old(self).pages.flags(), i, 2);
                lemma_page_left(old(self).pages.flags(), i, j);
                lemma_sync_after_alloc(&self.tables, &old(self).pages, &self.pages, i, 2);
            }
            if user && Self::room_for_user_process(old(self), func, ra) {
                let n = Self::user_need(func, ra);
                let j = choose|j: int| #[trigger] window_free(old(self).pages.flags(), j, n);
                let i = choose|i: int| first_fit(old(self).pages.flags(), i, 2) && stack == old(self).pages.page_addr(i)
                    && self.pages.flags() == mark_run(old(self).pages.flags(), i, 2);
                lemma_window_after_alloc(old(self).pages.flags(), j, n, i, 2);
                lemma_sync_after_alloc(&self.tables, &old(self).pages, &self.pages, i, 2);
                crate::mmu::lemma_window_shrink_to(self.pages.flags(), n - 2, 1);
            }
        }
        let ghost pa = self.pages.flags();
        let root = self.tables.new_root(&mut self.pages);
        if root == 0 {
            let _ = self.pages.dealloc(stack);
            return 0;
        }
        if user {
            let ghost room = Self::room_for_user_process(old(self), func, ra);
            let ghost n = Self::user_need(func, ra);
            let ghost c1 = crate::mmu::id_need(func, (func + CODE_PAGES * 4096) as u64);
            let ghost c2 = crate::mmu::id_need(TRAMPOLINE_ADDR, (TRAMPOLINE_ADDR + 1) as u64);
            let ghost c3 = crate::mmu::id_need(ra, (ra + 1) as u64);
            proof {
                crate::mmu::lemma_id_need_nonneg(func, (func + CODE_PAGES * 4096) as u64);
                crate::mmu::lemma_id_need_nonneg(TRAMPOLINE_ADDR, (TRAMPOLINE_ADDR + 1) as u64);
                crate::mmu::lemma_id_need_nonneg(ra, (ra + 1) as u64);
                if room {
                    assert(has_window(pa, n - 2));
                    assert(has_window(self.pages.flags(), n - 3));
                }
            }
            let ghost t0 = self.tables;
            let ghost q0 = self.pages.flags();
            let mut ok = self.tables.id_map_range(root, func, func + CODE_PAGES * 4096, EntryBits::UserReadExecute.val(), &mut self.pages);
            proof {
                if room {
                    crate::mmu::lemma_window_shrink_to(q0, n - 3, c1);
                    assert(has_window(q0, n - 3));
                    assert(n - 3 >= c1);
                    assert(c1 == crate::mmu::id_need(func, (func + CODE_PAGES * 4096) as u64));
                    assert(has_window(self.pages.flags(), n - 3 - c1));
                }
            }
            let ghost t1 = self.tables;
            let ghost q1 = self.pages.flags();
            if ok {
                ok = self.tables.id_map_range(root, TRAMPOLINE_ADDR, TRAMPOLINE_ADDR + 1, EntryBits::UserReadExecute.val(), &mut self.pages);
                proof {
                    if room {
                        crate::mmu::lemma_window_shrink_to(q1, n - 3 - c1, c2);
                        assert(has_window(q1, n - 3 - c1));
                        assert(has_window(self.pages.flags(), n - 3 - c1 - c2));
                    }
                }
            }
            let ghost t2 = self.tables;
            let ghost q2 = self.pages.flags();
            if ok {
                ok = self.tables.id_map_range(root, ra, ra + 1, EntryBits::UserReadExecute.val(), &mut self.pages);
                proof {
                    if room {
                        crate::mmu::lemma_window_shrink_to(q2, n - 3 - c1 - c2, c3);
                        assert(has_window(q2, n - 3 - c1 - c2));
                        assert(has_window(self.pages.flags(), 4));
                    }
                }
            }
            let ghost t3 = self.tables;
            let ghost q3 = self.pages.flags();
            if ok {
                ok = self.tables.map(root, STACK_ADDR, stack, EntryBits::UserReadWrite.val(), 0, &mut self.pages);
                proof {
                    if room {
                        crate::mmu::lemma_window_shrink_to(q3, 4, 2);
                        assert(has_window(q3, 4));
                        assert(has_window(self.pages.flags(), 2));
                    }
                }
            }
            let ghost mid = self.tables;
            if ok {
                ok = self.tables.map(root, STACK_ADDR + 4096, stack + 4096, EntryBits::UserReadWrite.val(), 0, &mut self.pages);
            }
            proof {
                if room {
                    assert(ok);
                }
            }
            if !ok {
                self.tables.free_root(root, &mut self.pages);
                let _ = self.pages.dealloc(stack);
                return 0;
            }
            proof {
                assert(0xf_0000_0000u64 & 0xfff == 0 && 0xf_0000_1000u64 & 0xfff == 0) by (bit_vector);
                assert forall|off: u64| off < 8192 implies #[trigger] self.tables.translate(root, (STACK_ADDR + off) as u64)
                    == Some((stack + off) as u64) by {
                    let va = (STACK_ADDR + off) as u64;
                    lemma_stack_bits(stack, off);
                    if off < 4096 {
                        crate::mmu::lemma_in_page(va, STACK_ADDR);
                        lemma_other_page(va, (STACK_ADDR + 4096) as u64);
                        assert(mid.translate(root, va) == Some((stack & !0xfffu64) | (va & 0xfff)));
                    } else {
                        crate::mmu::lemma_in_page(va, (STACK_ADDR + 4096) as u64);
                    }
                }
                assert forall|va: u64|
                    va < VA_LIMIT && user_window(func, ra, va) && !(STACK_ADDR <= va < STACK_ADDR + 8192) implies #[trigger] self.tables.translate(
                        root,
                        va,
                    ) == Some(va) by {
                    if crate::mmu::same_page(va, STACK_ADDR) {
                        crate::mmu::lemma_same_page_range(va, STACK_ADDR);
                    }
                    if crate::mmu::same_page(va, (STACK_ADDR + 4096) as u64) {
                        crate::mmu::lemma_same_page_range(va, (STACK_ADDR + 4096) as u64);
                    }
                    assert(self.tables.translate(root, va) == t3.translate(root, va));
                    let in_code = (func & !0xfffu64) <= va < crate::mmu::page_end((func + CODE_PAGES * 4096) as u64);
                    let in_tramp = (TRAMPOLINE_ADDR & !0xfffu64) <= va < crate::mmu::page_end((TRAMPOLINE_ADDR + 1) as u64);
                    let in_ra = (ra & !0xfffu64) <= va < crate::mmu::page_end((ra + 1) as u64);
                    if in_ra {
                    } else if in_tramp {
                        assert(t3.translate(root, va) == t2.translate(root, va));
                    } else {
                        assert(t3.translate(root, va) == t2.translate(root, va));
                        assert(t2.translate(root, va) == t1.translate(root, va));
                    }
                }
                assert(26u64 | 1 == 27 && 22u64 | 1 == 23) by (bit_vector);
                assert forall|va: u64|
                    va < VA_LIMIT && user_window(func, ra, va) && !(STACK_ADDR <= va < STACK_ADDR + 8192) implies #[trigger] self.tables.perm(
                        root,
                        va,
                    ) == Some(USER_RX_LEAF) by {
                    if crate::mmu::same_page(va, STACK_ADDR) {
                        crate::mmu::lemma_same_page_range(va, STACK_ADDR);
                    }
                    if crate::mmu::same_page(va, (STACK_ADDR + 4096) as u64) {
                        crate::mmu::lemma_same_page_range(va, (STACK_ADDR + 4096) as u64);
                    }
                    assert(self.tables.leaf_of(root, va) == mid.leaf_of(root, va));
                    assert(mid.leaf_of(root, va) == t3.leaf_of(root, va));
                    let in_tramp = (TRAMPOLINE_ADDR & !0xfffu64) <= va < crate::mmu::page_end((TRAMPOLINE_ADDR + 1) as u64);
                    let in_ra = (ra & !0xfffu64) <= va < crate::mmu::page_end((ra + 1) as u64);
                    if in_ra {
                    } else if in_tramp {
                        assert(t3.perm(root, va) == t2.perm(root, va));
                    } else {
                        assert(t3.perm(root, va) == t2.perm(root, va));
                        assert(t2.perm(root, va) == t1.perm(root, va));
                    }
                }
                assert forall|off: u64| off < 8192 implies #[trigger] self.tables.perm(root, (STACK_ADDR + off) as u64)
                    == Some(USER_RW_LEAF) by {
                    let va = (STACK_ADDR + off) as u64;
                    if off < 4096 {
                        crate::mmu::lemma_in_page(va, STACK_ADDR);
                        lemma_other_page(va, (STACK_ADDR + 4096) as u64);
                        assert(self.tables.leaf_of(root, va) == mid.leaf_of(root, va));
                        assert(mid.perm(root, va) == Some(USER_RW_LEAF));
                    } else {
                        crate::mmu::lemma_in_page(va, (STACK_ADDR + 4096) as u64);
                    }
                }
            }
        }
        let sp = if user {
            STACK_ADDR + 8192
        } else {
            stack + 8192
        };
        let pid = self.procs.next_pid();
        let mut frame = TrapFrame::zero();
        frame.pc = func;
        frame.set_reg(REG_RA, ra);
        frame.set_reg(REG_SP, sp);
        match arg {
            Some(a) => frame.set_reg(REG_A0, a),
            None => {},
        }
        frame.mode = if user {
            CpuMode::User.val()
        } else {
            CpuMode::Machine.val()
        };
        frame.pid = pid as u64;
        let p = Process {
            frame,
            stack,
            pid,
            root_table: root,
            state: ProcessState::Running,
            data: ProcessData::zero(),
            sleep_until: MachineTime::zero(),
        };
        match self.procs.push(p) {
            Some(_) => {},
            None => {
                self.tables.free_root(root, &mut self.pages);
                let _ = self.pages.dealloc(stack);
                return 0;
            },
        }
        pid
    }

    /// Starts a kernel process at `func` that returns to `ra`; its pid, or 0
    /// where memory or pids ran out.
    pub fn add_kernel_process(&mut self, func: u64, ra: u64) -> (r: u16)
        requires
            old(self).wf(),
        ensures
            final(self).inode_reader == old(self).inode_reader,
            final(self).exit_stub == old(self).exit_stub,
            final(self).inode_requests == old(self).inode_requests,
            r != 0 ==> final(self).procs.view_procs().len() == old(self).procs.view_procs().len() + 1,
            final(self).wf(),
            Self::room_for_kernel_process(old(self)) ==> r != 0,
            r != 0 ==> final(self).procs.spec_next_pid() == old(self).procs.spec_next_pid() + 1 && r == old(self).procs.spec_next_pid(),
            final(self).console == old(self).console,
            final(self).blocks@ == old(self).blocks@,
            r == 0 ==> final(self).procs.view_procs() == old(self).procs.view_procs(),
            r != 0 ==> {
                let s = final(self).procs.view_procs();
                let p = s.last();
                &&& s.drop_last() == old(self).procs.view_procs()
                &&& Self::new_process(p, r, func, ra, (p.stack + 8192) as u64, 3)
            },
    {
        self.add_process(func, ra, None, false)
    }

    /// Starts a kernel process at `func` with `args` in A0 that returns to
    /// `ra`; its pid, or 0 where memory or pids ran out.
    pub fn add_kernel_process_args(&mut self, func: u64, args: u64, ra: u64) -> (r: u16)
        requires
            old(self).wf(),
        ensures
            final(self).inode_reader == old(self).inode_reader,
            final(self).exit_stub == old(self).exit_stub,
            final(self).inode_requests == old(self).inode_requests,
            r != 0 ==> final(self).procs.view_procs().len() == old(self).procs.view_procs().len() + 1,
            final(self).wf(),
            Self::room_for_kernel_process(old(self)) ==> r != 0,
            r != 0 ==> final(self).procs.spec_next_pid() == old(self).procs.spec_next_pid() + 1 && r == old(self).procs.spec_next_pid(),
            final(self).console == old(self).console,
            final(self).blocks@ == old(self).blocks@,
            r == 0 ==> final(self).procs.view_procs() == old(self).procs.view_procs(),
            r != 0 ==> {
                let s = final(self).procs.view_procs();
                let p = s.last();
                &&& s.drop_last() == old(self).procs.view_procs()
                &&& Self::new_process(p, r, func, ra, (p.stack + 8192) as u64, 3)
                &&& p.frame.regs@[REG_A0 as int] == args
            },
    {
        self.add_process(func, ra, Some(args), false)
    }

    /// Starts a user process at `func` that returns to `ra`, with its code
    /// window, the trampoline, the page of `ra` and its stack mapped; its
    /// pid, or 0 where memory or pids ran out.
    pub fn add_user_process(&mut self, func: u64, ra: u64) -> (r: u16)
        requires
            old(self).wf(),
            func + CODE_PAGES * 4096 <= VA_LIMIT,
            ra < VA_LIMIT,
        ensures
            final(self).inode_reader == old(self).inode_reader,
            final(self).exit_stub == old(self).exit_stub,
            final(self).inode_requests == old(self).inode_requests,
            r != 0 ==> final(self).procs.view_procs().len() == old(self).procs.view_procs().len() + 1,
            final(self).wf(),
            r == 0 ==> final(self).procs.view_procs() == old(self).procs.view_procs(),
            r != 0 ==> {
                let s = final(self).procs.view_procs();
                let p = s.last();
                &&& s.drop_last() == old(self).procs.view_procs()
                &&& Self::new_process(p, r, func, ra, (STACK_ADDR + 8192) as u64, 0)
                &&& final(self).tables.is_root(p.root_table)
                &&& forall|off: u64|
                    off < 8192 ==> #[trigger] final(self).tables.translate(p.root_table, (STACK_ADDR + off) as u64)
                        == Some((p.stack + off) as u64)
                &&& forall|va: u64|
                    va < VA_LIMIT && user_window(func, ra, va) && !(STACK_ADDR <= va < STACK_ADDR + 8192) ==> #[trigger] final(self).tables.translate(p.root_table, va) == Some(va)
                &&& forall|va: u64|
                    va < VA_LIMIT && user_window(func, ra, va) && !(STACK_ADDR <= va < STACK_ADDR + 8192) ==> #[trigger] final(self).tables.perm(p.root_table, va) == Some(USER_RX_LEAF)
                &&& forall|off: u64|
                    off < 8192 ==> #[trigger] final(self).tables.perm(p.root_table, (STACK_ADDR + off) as u64) == Some(USER_RW_LEAF)
            },
            Self::room_for_user_process(old(self), func, ra) ==> r != 0,
    {
        self.add_process(func, ra, None, true)
    }

    /// A byte typed at the console: keeps it for readers and wakes the
    /// processes that wait for input.
    pub fn stdin_input(&mut self, c: u8) -> (r: Vec<u16>)
        requires
            old(self).wf(),
        ensures
            final(self).wf(),
            final(self).console.in_buffer@ == old(self).console.in_buffer@.push(c),
            final(self).console.waiters@.len() == 0,
            r@ == old(self).console.waiters@,
            forall|k: int|
                0 <= k < r@.len() && has_pid(old(self).procs.view_procs(), #[trigger] r@[k]) ==> find_proc(
                    final(self).procs.view_procs(),
                    r@[k],
                ).is_some() && find_proc(final(self).procs.view_procs(), r@[k])->0.state == ProcessState::Running,
            forall|q: u16|
                (forall|k: int| 0 <= k < r@.len() ==> #[trigger] r@[k] != q) ==> find_proc(final(self).procs.view_procs(), q)
                    == find_proc(old(self).procs.view_procs(), q),
            final(self).pages == old(self).pages && final(self).tables == old(self).tables && final(self).heap
                == old(self).heap && final(self).blocks@ == old(self).blocks@,
    {
        self.console.push_stdin(c);
        let waiters = self.console.take_waiters();
        let mut i: usize = 0;
        while i < waiters.len()
            invariant
                self.wf(),
                self.console.in_buffer@ == old(self).console.in_buffer@.push(c),
                self.console.waiters@.len() == 0,
                i <= waiters@.len(),
                self.pages == old(self).pages && self.tables == old(self).tables && self.heap == old(self).heap
                    && self.blocks@ == old(self).blocks@,
                forall|k: int|
                    0 <= k < i && has_pid(old(self).procs.view_procs(), #[trigger] waiters@[k]) ==> find_proc(
                        self.procs.view_procs(),
                        waiters@[k],
                    ).is_some() && find_proc(self.procs.view_procs(), waiters@[k])->0.state == ProcessState::Running,
                forall|q: u16|
                    (forall|k: int| 0 <= k < i ==> #[trigger] waiters@[k] != q) ==> find_proc(self.procs.view_procs(), q)
                        == find_proc(old(self).procs.view_procs(), q),
            decreases waiters@.len() - i,
        {
            let w = waiters[i];
            let ghost before = self.procs.view_procs();
            self.wake(w);
            proof {
                if has_pid(old(self).procs.view_procs(), w) && !has_pid(before, w) {
                    if exists|k: int| 0 <= k < i && waiters@[k] == w {
                        let k = choose|k: int| 0 <= k < i && waiters@[k] == w;
                        assert(find_proc(before, waiters@[k]).is_some());
                    } else {
                        assert forall|k: int| 0 <= k < i implies #[trigger] waiters@[k] != w by {}
                        assert(find_proc(before, w) == find_proc(old(self).procs.view_procs(), w));
                    }
                }
                assert forall|k: int|
                    0 <= k < i + 1 && has_pid(old(self).procs.view_procs(), #[trigger] waiters@[k]) implies find_proc(
                        self.procs.view_procs(),
                        waiters@[k],
                    ).is_some() && find_proc(self.procs.view_procs(), waiters@[k])->0.state == ProcessState::Running by {
                    if waiters@[k] != w {
                        assert(find_proc(self.procs.view_procs(), waiters@[k]) == find_proc(before, waiters@[k]));
                    }
                }
                assert forall|q: u16| (forall|k: int| 0 <= k < i + 1 ==> #[trigger] waiters@[k] != q) implies find_proc(
                    self.procs.view_procs(),
                    q,
                ) == find_proc(old(self).procs.view_procs(), q) by {
                    assert(waiters@[i as int] != q);
                }
            }
            i = i + 1;
        }
        waiters
    }

    /// Marks process `pid` running, keeping the kernel well formed.
    pub fn wake(&mut self, pid: u16)
        requires
            old(self).wf(),
        ensures
            final(self).wf(),
            final(self).pages == old(self).pages && final(self).tables == old(self).tables && final(self).heap == old(self).heap,
            final(self).console == old(self).console,
            final(self).blocks@ == old(self).blocks@,
            has_pid(old(self).procs.view_procs(), pid) ==> find_proc(final(self).procs.view_procs(), pid)
                == Some(with_state(find_proc(old(self).procs.view_procs(), pid)->0, ProcessState::Running)),
            !has_pid(old(self).procs.view_procs(), pid) ==> final(self).procs.view_procs() == old(self).procs.view_procs(),
            forall|q: u16| q != pid ==> #[trigger] find_proc(final(self).procs.view_procs(), q) == find_proc(old(self).procs.view_procs(), q),
    {
        let ghost s = self.procs.view_procs();
        if self.procs.set_running(pid) {
            proof {
                let i = choose|i: int|
                    first_pid(s, pid, i) && self.procs.view_procs() == s.update(i, with_state(s[i], ProcessState::Running));
                lemma_frames_update(s, i, with_state(s[i], ProcessState::Running));
                lemma_find_proc(&self.procs, pid, i);
                lemma_find_proc(&old(self).procs, pid, i);
                assert forall|q: u16| q != pid implies #[trigger] find_proc(self.procs.view_procs(), q) == find_proc(s, q) by {
                    lemma_find_other(&old(self).procs, &self.procs, i, pid, q);
                }
            }
        }
    }

    /// Ends a read of an inode for process `pid`: puts the count of bytes
    /// read in its A0 and wakes it.
    pub fn complete_inode_read(&mut self, pid: u16, bytes: u32)
        requires
            old(self).wf(),
        ensures
            final(self).wf(),
            has_pid(old(self).procs.view_procs(), pid) ==> {
                let p = find_proc(final(self).procs.view_procs(), pid)->0;
                &&& find_proc(final(self).procs.view_procs(), pid).is_some()
                &&& p.state == ProcessState::Running
                &&& p.frame.regs@[REG_A0 as int] == bytes
            },
            forall|q: u16| q != pid ==> #[trigger] find_proc(final(self).procs.view_procs(), q) == find_proc(old(self).procs.view_procs(), q),
            final(self).blocks@ == old(self).blocks@,
    {
        let ghost s = self.procs.view_procs();
        if self.procs.set_reg(pid, REG_A0, bytes as u64) {
            proof {
                let i = choose|i: int|
                    first_pid(s, pid, i) && self.procs.view_procs() == s.update(i, self.procs.view_procs()[i])
                        && reg_set(s[i], self.procs.view_procs()[i], REG_A0 as int, bytes as u64);
                lemma_find_proc(&self.procs, pid, i);
                assert forall|q: u16| q != pid implies #[trigger] find_proc(self.procs.view_procs(), q) == find_proc(s, q) by {
                    lemma_find_other(&old(self).procs, &self.procs, i, pid, q);
                }
            }
            self.wake(pid);
        }
    }

    /// Adds block device number `id`.
    pub fn register_block_device(&mut self, id: u64, dev: BlockDevice)
        requires
            old(self).wf(),
            dev.wf(),
        ensures
            final(self).wf(),
            final(self).blocks@ == old(self).blocks@.push(BlockSlot { id, dev }),
            final(self).procs == old(self).procs,
    {
        self.blocks.push(BlockSlot { id, dev });
    }

    /// Handles an interrupt of block device number `id`: each request the
    /// device finished wakes its process with the data length in A0, and
    /// its request object goes back to the heap. The woken pids.
    pub fn handle_block_interrupt(&mut self, id: u64) -> (r: Vec<u16>)
        requires
            old(self).wf(),
        ensures
            final(self).wf(),
            forall|k: int|
                0 <= k < r@.len() && has_pid(old(self).procs.view_procs(), #[trigger] r@[k]) ==> find_proc(
                    final(self).procs.view_procs(),
                    r@[k],
                ).is_some() && find_proc(final(self).procs.view_procs(), r@[k])->0.state == ProcessState::Running,
            forall|q: u16|
                (forall|k: int| 0 <= k < r@.len() ==> #[trigger] r@[k] != q) ==> find_proc(final(self).procs.view_procs(), q)
                    == find_proc(old(self).procs.view_procs(), q),
            (forall|j: int| 0 <= j < old(self).blocks@.len() ==> (#[trigger] old(self).blocks@[j]).id != id) ==> r@.len()
                == 0 && final(self).procs == old(self).procs && final(self).blocks == old(self).blocks,
            (exists|j: int| 0 <= j < old(self).blocks@.len() && (#[trigger] old(self).blocks@[j]).id == id) ==> exists|j: int|
                0 <= j < old(self).blocks@.len() && (#[trigger] old(self).blocks@[j]).id == id && (forall|j2: int|
                    0 <= j2 < j ==> (#[trigger] old(self).blocks@[j2]).id != id) && {
                    let d = drain(old(self).blocks@[j].dev.pending@, used_ids(&old(self).blocks@[j].dev));
                    &&& r@ == d.0.map_values(|c: Completion| c.pid)
                    &&& final(self).blocks@[j].dev.pending@ == d.1
                    &&& forall|t: int|
                        0 <= t < d.0.len() && has_pid(old(self).procs.view_procs(), (#[trigger] d.0[t]).pid) && (forall|t2: int|
                            t < t2 < d.0.len() ==> d.0[t2].pid != d.0[t].pid) ==> find_proc(final(self).procs.view_procs(), d.0[t].pid)->0.frame.regs@[REG_A0 as int]
                            == d.0[t].size
                    &&& final(self).blocks@[j].dev.ack_used_idx == old(self).blocks@[j].dev.queue.used.idx
                },
    {
        let mut woken: Vec<u16> = Vec::new();
        let mut k: usize = 0;
        while k < self.blocks.len()
            invariant
                self.wf(),
                woken@.len() == 0,
                self.procs == old(self).procs,
                self.blocks == old(self).blocks,
                k <= self.blocks@.len(),
                forall|j2: int| 0 <= j2 < k ==> (#[trigger] self.blocks@[j2]).id != id,
            decreases self.blocks@.len() - k,
        {
            if self.blocks[k].id == id {
                let ghost before = self.blocks@;
                let mut slot = self.blocks.remove(k);
                let ghost od = slot.dev;
                let done = slot.dev.pending();
                self.blocks.insert(k, slot);
                let ghost after_blocks = self.blocks@;
                proof {
                    assert forall|j: int| 0 <= j < self.blocks@.len() implies (#[trigger] self.blocks@[j]).dev.wf() by {
                        if j != k {
                            assert(self.blocks@[j] == before[j]);
                        }
                    }
                }
                let mut i: usize = 0;
                while i < done.len()
                    invariant
                        self.wf(),
                        self.blocks@ == after_blocks,
                        i <= done@.len(),
                        woken@ == done@.subrange(0, i as int).map_values(|c: Completion| c.pid),
                        forall|t: int|
                            0 <= t < i && has_pid(old(self).procs.view_procs(), (#[trigger] done@[t]).pid) && (forall|t2: int|
                                t < t2 < i ==> done@[t2].pid != done@[t].pid) ==> find_proc(self.procs.view_procs(), done@[t].pid)->0.frame.regs@[REG_A0 as int]
                                == done@[t].size,
                        forall|j: int|
                            0 <= j < woken@.len() && has_pid(old(self).procs.view_procs(), #[trigger] woken@[j]) ==> find_proc(
                                self.procs.view_procs(),
                                woken@[j],
                            ).is_some() && find_proc(self.procs.view_procs(), woken@[j])->0.state == ProcessState::Running,
                        forall|q: u16|
                            (forall|j: int| 0 <= j < woken@.len() ==> #[trigger] woken@[j] != q) ==> find_proc(
                                self.procs.view_procs(),
                                q,
                            ) == find_proc(old(self).procs.view_procs(), q),
                    decreases done@.len() - i,
                {
                    let c = done[i];
                    let ghost before = self.procs.view_procs();
                    let ghost prev = woken@;
                    self.complete_inode_read(c.pid, c.size);
                    self.heap.kfree(c.addr);
                    woken.push(c.pid);
                    proof {
                        assert(woken@ =~= done@.subrange(0, i + 1).map_values(|c: Completion| c.pid));
                        assert(woken@[i as int] == c.pid);
                        if has_pid(old(self).procs.view_procs(), c.pid) {
                            if exists|j: int| 0 <= j < prev.len() && prev[j] == c.pid {
                                let j = choose|j: int| 0 <= j < prev.len() && prev[j] == c.pid;
                                assert(woken@[j] == prev[j]);
                            } else {
                                assert forall|j: int| 0 <= j < prev.len() implies #[trigger] prev[j] != c.pid by {}
                            }
                        }
                        assert forall|t: int|
                            0 <= t < i + 1 && has_pid(old(self).procs.view_procs(), (#[trigger] done@[t]).pid) && (forall|t2: int|
                                t < t2 < i + 1 ==> done@[t2].pid != done@[t].pid) implies find_proc(self.procs.view_procs(), done@[t].pid)->0.frame.regs@[REG_A0 as int]
                                == done@[t].size by {
                            if t < i {
                                assert(done@[t].pid != c.pid);
                            }
                        }
                        assert forall|q: u16|
                            (forall|j: int| 0 <= j < woken@.len() ==> #[trigger] woken@[j] != q) implies find_proc(
                                self.procs.view_procs(),
                                q,
                            ) == find_proc(old(self).procs.view_procs(), q) by {
                            assert(woken@[woken@.len() - 1] != q);
                            assert forall|j: int| 0 <= j < prev.len() implies #[trigger] prev[j] != q by {
                                assert(woken@[j] == prev[j]);
                            }
                        }
                        assert forall|j: int|
                            0 <= j < woken@.len() && has_pid(old(self).procs.view_procs(), #[trigger] woken@[j]) implies find_proc(
                                self.procs.view_procs(),
                                woken@[j],
                            ).is_some() && find_proc(self.procs.view_procs(), woken@[j])->0.state == ProcessState::Running by {
                            if woken@[j] == c.pid {
                                if !has_pid(before, c.pid) {
                                    assert(find_proc(before, c.pid) == find_proc(old(self).procs.view_procs(), c.pid));
                                    assert(false);
                                }
                            }
                        }
                    }
                    i = i + 1;
                }
                proof {
                    assert(done@.subrange(0, done@.len() as int) =~= done@);
                    assert(old(self).blocks@[k as int].dev == od);
                    assert(self.blocks@[k as int].dev == after_blocks[k as int].dev);
                }
                return woken;
            }
            k = k + 1;
        }
        woken
    }

    /// Builds the kernel's address space: a root table that maps each region
    /// to itself, a fresh page for the trap stack and the trap frame at
    /// `trap_frame`, and the Sv39 `satp` value of the root. `None` where a
    /// page could not be had or mapped.
    pub fn map_kernel(&mut self, regions: &Vec<Region>, trap_frame: u64, trap_frame_size: u64) -> (r: Option<KernelMap>)
        requires
            old(self).wf(),
            forall|i: int|
                0 <= i < regions@.len() ==> (#[trigger] regions@[i]).start <= regions@[i].end <= VA_LIMIT
                    && regions@[i].bits & 0xe != 0 && regions@[i].bits <= 0x3ff,
            trap_frame + trap_frame_size <= VA_LIMIT,
        ensures
            final(self).wf(),
            final(self).procs == old(self).procs,
            r.is_none() ==> (forall|i: int|
                #[trigger] window_free(final(self).pages.flags(), i, 1) ==> final(self).pages.page_addr(i) > VA_LIMIT
                    - 4096) || !old(self).tables.in_sync(&old(self).pages),
            r.is_some() ==> {
                let m = r->0;
                &&& final(self).tables.is_root(m.root)
                &&& m.satp == crate::cpu::satp_spec(8, 0, m.root)
                &&& forall|i: int| 0 <= i < regions@.len() ==> region_mapped(&final(self).tables, m.root, #[trigger] regions@[i])
                &&& (forall|i: int| 0 <= i < regions@.len() ==> (#[trigger] regions@[i]).bits & 0x10 == 0) ==> forall|i: int|
                    0 <= i < regions@.len() ==> kernel_only(&final(self).tables, m.root, #[trigger] regions@[i])
                &&& region_mapped(&final(self).tables, m.root, Region { start: (m.trap_stack - 4096) as u64, end: m.trap_stack, bits: BITS_RW })
                &&& region_mapped(&final(self).tables, m.root, Region { start: trap_frame, end: (trap_frame + trap_frame_size) as u64, bits: BITS_RW })
            },
    {
        let root = self.tables.new_root(&mut self.pages);
        if root == 0 {
            return None;
        }
        let mut i: usize = 0;
        while i < regions.len()
            invariant
                self.wf(),
                self.procs == old(self).procs,
                self.pages.start() == old(self).pages.start(),
                old(self).tables.in_sync(&old(self).pages) ==> self.tables.in_sync(&self.pages),
                self.tables.is_root(root),
                i <= regions@.len(),
                forall|j: int|
                    0 <= j < regions@.len() ==> (#[trigger] regions@[j]).start <= regions@[j].end <= VA_LIMIT
                        && regions@[j].bits & 0xe != 0 && regions@[j].bits <= 0x3ff,
                forall|j: int| 0 <= j < i ==> region_mapped(&self.tables, root, #[trigger] regions@[j]),
                (forall|j: int| 0 <= j < regions@.len() ==> (#[trigger] regions@[j]).bits & 0x10 == 0) ==> forall|j: int|
                    0 <= j < i ==> kernel_only(&self.tables, root, #[trigger] regions@[j]),
            decreases regions@.len() - i,
        {
            let g = regions[i];
            let ghost before = self.tables;
            if !self.tables.id_map_range(root, g.start, g.end, g.bits, &mut self.pages) {
                return None;
            }
            proof {
                assert forall|j: int| 0 <= j < i + 1 implies region_mapped(&self.tables, root, #[trigger] regions@[j]) by {
                    if j < i {
                        assert forall|va: u64| (regions@[j].start & !0xfffu64) <= va < regions@[j].end implies #[trigger] self.tables.translate(root, va)
                            == Some(va) by {
                            assert(before.translate(root, va) == Some(va));
                        }
                    }
                }
                if forall|j: int| 0 <= j < regions@.len() ==> (#[trigger] regions@[j]).bits & 0x10 == 0 {
                    lemma_valid_keeps_user(g.bits);
                    assert forall|j: int| 0 <= j < i + 1 implies kernel_only(&self.tables, root, #[trigger] regions@[j]) by {
                        assert forall|va: u64| (regions@[j].start & !0xfffu64) <= va < regions@[j].end implies #[trigger] self.tables.perm(root, va).is_some()
                            && self.tables.perm(root, va)->0 & 0x10 == 0 by {
                            if (g.start & !0xfffu64) <= va < crate::mmu::page_end(g.end) {
                            } else {
                                assert(self.tables.perm(root, va) == before.perm(root, va));
                            }
                        }
                    }
                }
            }
            i = i + 1;
        }
        let ghost pre = self.pages;
        let page = self.pages.alloc_pages(1);
        if page == 0 {
            return None;
        }
        if page > VA_LIMIT - 4096 {
            let _ = self.pages.dealloc(page);
            proof {
                let j = choose|j: int| first_fit(pre.flags(), j, 1) && page == pre.page_addr(j);
                crate::page::lemma_alloc_then_free(pre.flags(), j, 1);
                assert(self.pages.flags() == pre.flags());
                assert forall|m: int| #[trigger] window_free(self.pages.flags(), m, 1) implies self.pages.page_addr(m)
                    > VA_LIMIT - 4096 by {
                    assert(!window_free(pre.flags(), m, 1) || m >= j);
                    assert(self.pages.page_addr(m) >= self.pages.page_addr(j)) by (nonlinear_arith)
                        requires
                            m >= j,
                            self.pages.page_addr(m) == self.pages.start() + m * 4096,
                            self.pages.page_addr(j) == self.pages.start() + j * 4096,
                    ;
                }
            }
            return None;
        }
        proof {
            let j = choose|j: int| first_fit(pre.flags(), j, 1) && page == pre.page_addr(j);
            if old(self).tables.in_sync(&old(self).pages) {
                lemma_sync_after_alloc(&self.tables, &pre, &self.pages, j, 1);
            }
        }
        let trap_stack = page + 4096;
        assert(6u64 & 0xe != 0) by (bit_vector);
        let ghost before1 = self.tables;
        if !self.tables.id_map_range(root, page, trap_stack, BITS_RW, &mut self.pages) {
            return None;
        }
        let ghost before2 = self.tables;
        if !self.tables.id_map_range(root, trap_frame, trap_frame + trap_frame_size, BITS_RW, &mut self.pages) {
            return None;
        }
        proof {
            assert((page & !0xfffu64) == page) by (bit_vector)
                requires
                    page & 0xfff == 0,
            ;
            assert forall|j: int| 0 <= j < regions@.len() implies region_mapped(&self.tables, root, #[trigger] regions@[j]) by {
                assert forall|va: u64| (regions@[j].start & !0xfffu64) <= va < regions@[j].end implies #[trigger] self.tables.translate(root, va)
                    == Some(va) by {
                    assert(before1.translate(root, va) == Some(va));
                    assert(before2.translate(root, va) == Some(va));
                }
            }
            lemma_valid_keeps_user(BITS_RW);
            assert(BITS_RW & 0x10 == 0) by (bit_vector);
            if forall|j: int| 0 <= j < regions@.len() ==> (#[trigger] regions@[j]).bits & 0x10 == 0 {
                assert forall|j: int| 0 <= j < regions@.len() implies kernel_only(&self.tables, root, #[trigger] regions@[j]) by {
                    assert forall|va: u64| (regions@[j].start & !0xfffu64) <= va < regions@[j].end implies #[trigger] self.tables.perm(root, va).is_some()
                        && self.tables.perm(root, va)->0 & 0x10 == 0 by {
                        assert(before1.perm(root, va).is_some() && before1.perm(root, va)->0 & 0x10 == 0);
                        if !((page & !0xfffu64) <= va < crate::mmu::page_end(trap_stack)) {
                            assert(before2.perm(root, va) == before1.perm(root, va));
                        }
                        if !((trap_frame & !0xfffu64) <= va < crate::mmu::page_end((trap_frame + trap_frame_size) as u64)) {
                            assert(self.tables.perm(root, va) == before2.perm(root, va));
                        }
                    }
                }
            }
            assert forall|va: u64| ((trap_stack - 4096) as u64 & !0xfffu64) <= va < trap_stack implies #[trigger] self.tables.translate(root, va)
                == Some(va) by {
                assert(before2.translate(root, va) == Some(va));
            }
        }
        let satp = crate::cpu::build_satp(crate::cpu::SatpMode::Sv39, 0, root);
        Some(KernelMap { root, satp, trap_stack })
    }

    /// Starts the first processes: the kernel process at `entry`, which
    /// returns to `ra`. Its pid, or 0 where it could not start.
    pub fn init_processes(&mut self, entry: u64, ra: u64) -> (r: u16)
        requires
            old(self).wf(),
        ensures
            final(self).inode_reader == old(self).inode_reader,
            final(self).exit_stub == old(self).exit_stub,
            final(self).inode_requests == old(self).inode_requests,
            r != 0 ==> final(self).procs.view_procs().len() == old(self).procs.view_procs().len() + 1,
            final(self).wf(),
            Self::room_for_kernel_process(old(self)) ==> r != 0,
            r != 0 ==> final(self).procs.spec_next_pid() == old(self).procs.spec_next_pid() + 1 && r == old(self).procs.spec_next_pid(),
            final(self).console == old(self).console,
            final(self).blocks@ == old(self).blocks@,
            r == 0 ==> final(self).procs.view_procs() == old(self).procs.view_procs(),
            r != 0 ==> final(self).procs.view_procs().drop_last() == old(self).procs.view_procs()
                && Self::new_process(
                final(self).procs.view_procs().last(),
                r,
                entry,
                ra,
                (final(self).procs.view_procs().last().stack + 8192) as u64,
                3,
            ),
    {
        self.add_kernel_process(entry, ra)
    }

    /// Takes the inode read whose arguments are at `args` out of the queue of
    /// reads handed to helpers; `None` where there is none.
    pub fn take_inode_request(&mut self, args: u64) -> (r: Option<InodeRequest>)
        requires
            old(self).wf(),
        ensures
            final(self).wf(),
            final(self).procs == old(self).procs,
            r.is_none() <==> forall|j: int|
                0 <= j < old(self).inode_requests@.len() ==> (#[trigger] old(self).inode_requests@[j]).args != args,
            r.is_none() ==> final(self).inode_requests@ == old(self).inode_requests@,
            r.is_some() ==> exists|j: int|
                0 <= j < old(self).inode_requests@.len() && r->0 == old(self).inode_requests@[j] && r->0.args == args
                    && final(self).inode_requests@ == old(self).inode_requests@.remove(j),
    {
        let mut j: usize = 0;
        while j < self.inode_requests.len()
            invariant
                self.wf(),
                self.procs == old(self).procs,
                self.inode_requests@ == old(self).inode_requests@,
                j <= self.inode_requests@.len(),
                forall|k: int| 0 <= k < j ==> (#[trigger] self.inode_requests@[k]).args != args,
            decreases self.inode_requests@.len() - j,
        {
            if self.inode_requests[j].args == args {
                let q = self.inode_requests.remove(j);
                return Some(q);
            }
            j = j + 1;
        }
        None
    }

    /// Removes process `pid`: takes it out of the list, gives its stack
    /// back and frees its page tables. False where there is no such process.
    pub fn delete_process(&mut self, pid: u16) -> (r: bool)
        requires
            old(self).wf(),
        ensures
            final(self).wf(),
            r == has_pid(old(self).procs.view_procs(), pid),
            !has_pid(final(self).procs.view_procs(), pid),
            final(self).procs.spec_next_pid() == old(self).procs.spec_next_pid(),
            r ==> exists|i: int|
                first_pid(old(self).procs.view_procs(), pid, i) && final(self).procs.view_procs()
                    == old(self).procs.view_procs().remove(i) && released(old(self), final(self), old(self).procs.view_procs()[i]),
            !r ==> final(self).procs.view_procs() == old(self).procs.view_procs(),
            !r ==> final(self).pages == old(self).pages && final(self).tables == old(self).tables,
            forall|q: u16| q != pid ==> #[trigger] find_proc(final(self).procs.view_procs(), q) == find_proc(old(self).procs.view_procs(), q),
            final(self).heap == old(self).heap,
            final(self).console == old(self).console,
            final(self).blocks == old(self).blocks,
    {
        let ghost s = self.procs.view_procs();
        match self.procs.delete_process(pid) {
            None => {
                false
            },
            Some(p) => {
                if self.tables.is_root_table(p.root_table) {
                    self.tables.free_root(p.root_table, &mut self.pages);
                }
                let ghost mid = self.pages;
                let freed = self.pages.dealloc(p.stack);
                proof {
                    let idx = mid.page_index(p.stack);
                    if freed {
                        let e = choose|e: int| run_ends_at(mid.flags(), idx, e) && self.pages.flags() == clear_range(mid.flags(), idx, e + 1);
                        assert(self.pages.flags()[idx] == FLAGS_FREE);
                    }
                    assert(!self.pages.live_at(p.stack));
                }
                proof {
                    let i = choose|i: int| first_pid(s, pid, i) && p == s[i] && self.procs.view_procs() == s.remove(i);
                    assert forall|q: u16| q != pid implies #[trigger] find_proc(self.procs.view_procs(), q) == find_proc(s, q) by {
                        lemma_find_remove(&old(self).procs, &self.procs, i, q);
                    }
                    assert forall|j: int| 0 <= j < self.procs.view_procs().len() implies #[trigger] self.procs.view_procs()[j].pid != pid by {
                        if j < i {
                            assert(self.procs.view_procs()[j] == s[j]);
                        } else {
                            assert(self.procs.view_procs()[j] == s[j + 1]);
                            assert(s[j + 1].pid != s[i].pid);
                        }
                    }
                    assert forall|j: int| 0 <= j < self.procs.view_procs().len() implies (#[trigger] self.procs.view_procs()[j]).frame.wf() by {
                        if j < i {
                            assert(self.procs.view_procs()[j] == s[j]);
                        } else {
                            assert(self.procs.view_procs()[j] == s[j + 1]);
                        }
                    }
                }
                true
            },
        }
    }
}

/// `va` lies in a page that a user process at `func` returning to `ra`
/// sees mapped to itself: its code window, the system-call trampoline, or
/// the page of `ra`.
pub open spec fn user_window(func: u64, ra: u64, va: u64) -> bool {
    ||| (func & !0xfffu64) <= va < crate::mmu::page_end((func + CODE_PAGES * 4096) as u64)
    ||| (TRAMPOLINE_ADDR & !0xfffu64) <= va < crate::mmu::page_end((TRAMPOLINE_ADDR + 1) as u64)
    ||| (ra & !0xfffu64) <= va < crate::mmu::page_end((ra + 1) as u64)
}

/// Leaf bits of a user code page: valid, read, execute, user.
pub const USER_RX_LEAF: u64 = 27;

/// Leaf bits of a user stack page: valid, read, write, user.
pub const USER_RW_LEAF: u64 = 23;

/// Offsets into a process stack keep their place under the stack mapping.
pub proof fn lemma_stack_bits(stack: u64, off: u64)
    requires
        stack & 0xfff == 0,
        off < 8192,
        stack + 8192 <= u64::MAX,
    ensures
        off < 4096 ==> (stack & !0xfffu64) | (((STACK_ADDR + off) as u64) & 0xfff) == stack + off,
        off >= 4096 ==> (((stack + 4096) as u64) & !0xfffu64) | (((STACK_ADDR + off) as u64) & 0xfff)
            == stack + off,
{
    let va = (STACK_ADDR + off) as u64;
    let s1 = (stack + 4096) as u64;
    let e = (stack + off) as u64;
    assert(off < 4096 ==> (stack & !0xfffu64) | (va & 0xfff) == e) by (bit_vector)
        requires
            stack & 0xfff == 0,
            off < 8192,
            va == 0xf_0000_0000u64 + off,
            e == stack + off,
            stack <= 0xffff_ffff_ffff_dfffu64,
    ;
    assert(off >= 4096 ==> (s1 & !0xfffu64) | (va & 0xfff) == e) by (bit_vector)
        requires
            stack & 0xfff == 0,
            off < 8192,
            va == 0xf_0000_0000u64 + off,
            e == stack + off,
            s1 == stack + 4096,
            stack <= 0xffff_ffff_ffff_dfffu64,
    ;
}

/// Replacing the process of pid `pid` leaves what any other pid finds.
pub proof fn lemma_find_other(a: &ProcessList, b: &ProcessList, i: int, pid: u16, q: u16)
    requires
        a.wf(),
        b.wf(),
        0 <= i < a.view_procs().len(),
        a.view_procs()[i].pid == pid,
        b.view_procs() == a.view_procs().update(i, b.view_procs()[i]),
        b.view_procs()[i].pid == pid,
        q != pid,
    ensures
        find_proc(b.view_procs(), q) == find_proc(a.view_procs(), q),
{
    if has_pid(a.view_procs(), q) {
        let j = choose|j: int| 0 <= j < a.view_procs().len() && #[trigger] a.view_procs()[j].pid == q;
        assert(j != i);
        assert(b.view_procs()[j] == a.view_procs()[j]);
        lemma_find_proc(a, q, j);
        lemma_find_proc(b, q, j);
    } else {
        assert forall|j: int| 0 <= j < b.view_procs().len() implies #[trigger] b.view_procs()[j].pid != q by {
            if j != i {
                assert(b.view_procs()[j] == a.view_procs()[j]);
            }
        }
    }
}

/// Taking a process out of the list leaves what any other pid finds.
pub proof fn lemma_find_remove(a: &ProcessList, b: &ProcessList, i: int, q: u16)
    requires
        a.wf(),
        b.wf(),
        0 <= i < a.view_procs().len(),
        b.view_procs() == a.view_procs().remove(i),
        a.view_procs()[i].pid != q,
    ensures
        find_proc(b.view_procs(), q) == find_proc(a.view_procs(), q),
{
    if has_pid(a.view_procs(), q) {
        let j = choose|j: int| 0 <= j < a.view_procs().len() && #[trigger] a.view_procs()[j].pid == q;
        lemma_find_proc(a, q, j);
        if j < i {
            assert(b.view_procs()[j] == a.view_procs()[j]);
            lemma_find_proc(b, q, j);
        } else {
            assert(b.view_procs()[j - 1] == a.view_procs()[j]);
            lemma_find_proc(b, q, j - 1);
        }
    } else {
        assert forall|j: int| 0 <= j < b.view_procs().len() implies #[trigger] b.view_procs()[j].pid != q by {
            if j < i {
                assert(b.view_procs()[j] == a.view_procs()[j]);
            } else {
                assert(b.view_procs()[j] == a.view_procs()[j + 1]);
            }
        }
    }
}

/// Appending a process leaves what any pid already in the list finds.
pub proof fn lemma_find_push(a: &ProcessList, b: &ProcessList, q: u16)
    requires
        a.wf(),
        b.wf(),
        b.view_procs().len() == a.view_procs().len() + 1,
        b.view_procs().drop_last() == a.view_procs(),
        has_pid(a.view_procs(), q),
    ensures
        find_proc(b.view_procs(), q) == find_proc(a.view_procs(), q),
{
    let j = choose|j: int| 0 <= j < a.view_procs().len() && #[trigger] a.view_procs()[j].pid == q;
    assert(b.view_procs().drop_last()[j] == b.view_procs()[j]);
    lemma_find_proc(a, q, j);
    lemma_find_proc(b, q, j);
}

/// Replacing one process by one with full register files keeps every frame
/// full.
pub proof fn lemma_frames_update(s: Seq<Process>, i: int, q: Process)
    requires
        0 <= i < s.len(),
        forall|j: int| 0 <= j < s.len() ==> (#[trigger] s[j]).frame.wf(),
        q.frame.wf(),
    ensures
        forall|j: int| 0 <= j < s.update(i, q).len() ==> (#[trigger] s.update(i, q)[j]).frame.wf(),
{
    assert forall|j: int| 0 <= j < s.update(i, q).len() implies (#[trigger] s.update(i, q)[j]).frame.wf() by {
        if j != i {
            assert(s.update(i, q)[j] == s[j]);
        }
    }
}

/// After two pages of a three-page free window may have been taken, a free
/// page is left.
pub proof fn lemma_page_left(s: Seq<u8>, i: int, j: int)
    requires
        window_free(s, j, 3),
        first_fit(s, i, 2),
    ensures
        exists|k: int| #[trigger] window_free(mark_run(s, i, 2), k, 1),
{
    assert(window_free(s, j, 2));
    assert(i <= j);
    if i + 2 <= j {
        assert(window_free(mark_run(s, i, 2), j, 1));
    } else {
        assert(window_free(mark_run(s, i, 2), j + 2, 1));
    }
}

/// Taking pages keeps the page tables in step with the page allocator.
pub proof fn lemma_sync_after_alloc(t: &PageTables, a: &PageAllocator, b: &PageAllocator, i: int, n: int)
    requires
        t.in_sync(a),
        b.start() == a.start(),
        b.flags() == mark_run(a.flags(), i, n),
    ensures
        t.in_sync(b),
{
    assert forall|m: int| 0 <= m < b.flags().len() && #[trigger] b.flags()[m] == FLAGS_FREE implies t.lookup(
        b.page_addr(m) as u64,
    ).is_none() by {
        assert(a.flags()[m] == FLAGS_FREE);
    }
}

} // verus!
