use peetos::block::{BlockDevice, BlockOpResult};
use peetos::kernel::{kernel_regions, Kernel, KernelLayout, BITS_RW, BITS_RX};
use peetos::plic::{enable, handle_interrupt, is_pending, next, priority_register, set_priority, set_threshold, InterruptSource};

fn layout() -> KernelLayout {
    KernelLayout {
        text_start: 0x8000_0000,
        text_end: 0x8000_5000,
        rodata_start: 0x8000_5000,
        rodata_end: 0x8000_6800,
        data_start: 0x8000_7000,
        data_end: 0x8000_8000,
        bss_start: 0x8000_8000,
        bss_end: 0x8000_9000,
        stack_start: 0x8000_9000,
        stack_end: 0x8008_9000,
        heap_start: 0x8020_0000,
        heap_size: 0x100_0000,
    }
}

#[test]
fn kernel_map_covers_every_region() {
    let l = layout();
    let mut k = Kernel::new(l.heap_start, l.heap_size).unwrap();
    let regions = kernel_regions(&l, k.heap.get_head());
    assert_eq!(regions.len(), 11);
    assert_eq!(regions[2].bits, BITS_RX);
    assert_eq!(regions[0].bits, BITS_RW);
    assert_eq!(regions[1].end, l.heap_start + 4096);
    let m = k.map_kernel(&regions, 0x8008_a000, 568).unwrap();
    assert_eq!(m.satp, (8u64 << 60) | (m.root >> 12));
    for g in &regions {
        for a in [g.start, g.end - 1] {
            assert_eq!(k.tables.virt_to_phys(m.root, a), Some(a));
        }
    }
    assert_eq!(k.tables.virt_to_phys(m.root, m.trap_stack - 1), Some(m.trap_stack - 1));
    assert_eq!(k.tables.virt_to_phys(m.root, 0x8008_a000 + 567), Some(0x8008_a000 + 567));
    assert_eq!(k.tables.virt_to_phys(m.root, 0x4000_0000), None);
}

#[test]
fn first_process_starts() {
    let mut k = Kernel::new(0x8020_0000, 0x100_0000).unwrap();
    let p = k.init_processes(0x8000_4000, 0x8000_0100);
    assert_eq!(p, 1);
    assert_eq!(k.procs.get(0).frame.pc, 0x8000_4000);
}

#[test]
fn plic_values_and_routing() {
    assert_eq!(enable(0b10, 3), 0b1010);
    assert_eq!(priority_register(10), 0x0c00_0028);
    assert_eq!(set_priority(9), 1);
    assert_eq!(set_threshold(7), 7);
    assert_eq!(next(0), None);
    assert_eq!(next(10), Some(10));
    assert!(is_pending(1 << 5, 5));
    assert!(!is_pending(1 << 5, 4));
    assert_eq!(handle_interrupt(1), InterruptSource::Virtio(0));
    assert_eq!(handle_interrupt(8), InterruptSource::Virtio(7));
    assert_eq!(handle_interrupt(10), InterruptSource::Uart);
    assert_eq!(handle_interrupt(9), InterruptSource::Unknown(9));
}

#[test]
fn read_and_write_requests() {
    let mut k = Kernel::new(0x8020_0000, 0x100_0000).unwrap();
    let mut d = BlockDevice::setup_block_device(0x1000_8000, 0, 0xf, 128, &mut k.pages).unwrap();
    assert!(matches!(peetos::block::read(&mut d, &mut k.heap, 0x9000_0000, 1024, 512, 1), BlockOpResult::Submitted(1)));
    assert_eq!(d.pending[0].request.header.sector, 1);
    assert!(matches!(peetos::block::write(&mut d, &mut k.heap, 0x9000_0000, 512, 0, 1), BlockOpResult::Submitted(4)));
    assert_eq!(d.pending[1].request.header.blktype, 1);
    assert_eq!(d.queue_pfn(), d.queue_addr / 4096);
}

#[test]
fn kernel_needs_room_for_its_heap() {
    assert!(Kernel::new(0x8020_0000, 63 * 4096).is_none());
    assert!(Kernel::new(0x8020_0000, 0x10_0000).is_some());
}

#[test]
fn completions_come_in_used_ring_order() {
    let mut k = Kernel::new(0x8020_0000, 0x100_0000).unwrap();
    let a = k.add_kernel_process(0x8000_1000, 0x8000_0100);
    let b = k.add_kernel_process(0x8000_2000, 0x8000_0100);
    let mut d = BlockDevice::setup_block_device(0x1000_8000, 0, 0xf, 128, &mut k.pages).unwrap();
    assert!(matches!(peetos::block::read(&mut d, &mut k.heap, 0x9000_0000, 512, 0, a), BlockOpResult::Submitted(1)));
    assert!(matches!(peetos::block::read(&mut d, &mut k.heap, 0x9000_1000, 256, 512, b), BlockOpResult::Submitted(4)));
    d.queue.used.ring[0] = peetos::virtio::UsedElem { id: 4, len: 257 };
    d.queue.used.ring[1] = peetos::virtio::UsedElem { id: 1, len: 513 };
    d.queue.used.idx = 2;
    let done = d.pending();
    assert_eq!(done.iter().map(|c| (c.pid, c.size)).collect::<Vec<_>>(), vec![(b, 256), (a, 512)]);
    assert!(d.pending.is_empty());
    assert_eq!(d.ack_used_idx, 2);
    assert!(d.pending().is_empty());
}
