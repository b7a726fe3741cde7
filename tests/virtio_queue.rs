use peetos::block::{negotiate_features, BlockDevice, BlockOpResult, SetupError, VIRTIO_BLK_T_IN};
use peetos::cpu::{MachineTime, REG_A0, REG_A1, REG_A2, REG_A3, REG_A7};
use peetos::kernel::Kernel;
use peetos::kmem::KernelHeap;
use peetos::page::PageAllocator;
use peetos::process::ProcessState;
use peetos::syscall::{SyscallAction, SYSCALL_BLOCK_READ};
use peetos::virtio::{
    device_index, probe, DeviceTypes, MmioOffsets, ProbeResult, StatusField, UsedElem, VirtioDevice,
    VIRTIO_DESC_F_NEXT, VIRTIO_DESC_F_WRITE, MMIO_VIRTIO_MAGIC,
};

fn device(pages: &mut PageAllocator, host: u32) -> BlockDevice {
    BlockDevice::setup_block_device(0x1000_8000, host, 0xf, 256, pages).unwrap()
}

#[test]
fn submissions_advance_ring_and_descriptors() {
    let mut pages = PageAllocator::init(0x8000_0000, 0x40_0000);
    let mut heap = KernelHeap::init(&mut pages).unwrap();
    let mut d = device(&mut pages, 0);
    for n in 1..=50u32 {
        let r = d.block_op(&mut heap, 0x9000_0000, 512, 0, false, 4);
        assert!(matches!(r, BlockOpResult::Submitted(_)));
        assert_eq!(d.queue.avail.idx as u32, n);
        assert_eq!(d.idx as u32, (3 * n) % 128);
    }
    assert_eq!(d.pending.len(), 50);
}

#[test]
fn request_is_three_chained_descriptors() {
    let mut pages = PageAllocator::init(0x8000_0000, 0x40_0000);
    let mut heap = KernelHeap::init(&mut pages).unwrap();
    let mut d = device(&mut pages, 0);
    let r = d.block_op(&mut heap, 0x9000_0000, 512, 1024, false, 4);
    assert_eq!(r, BlockOpResult::Submitted(1));
    let h = d.queue.desc[1];
    let data = d.queue.desc[2];
    let st = d.queue.desc[3];
    assert_eq!((h.len, h.flags, h.next), (16, VIRTIO_DESC_F_NEXT, 2));
    assert_eq!((data.addr, data.len, data.flags, data.next), (0x9000_0000, 512, VIRTIO_DESC_F_NEXT | VIRTIO_DESC_F_WRITE, 3));
    assert_eq!((st.addr, st.len, st.flags), (h.addr + 24, 1, VIRTIO_DESC_F_WRITE));
    assert_eq!(d.queue.avail.ring[0], 1);
    let p = d.pending[0];
    assert_eq!(p.request.header.sector, 2);
    assert_eq!(p.request.header.blktype, VIRTIO_BLK_T_IN);
}

#[test]
fn read_only_device_refuses_writes() {
    let mut pages = PageAllocator::init(0x8000_0000, 0x40_0000);
    let mut heap = KernelHeap::init(&mut pages).unwrap();
    let mut d = device(&mut pages, 1 << 5);
    assert!(d.read_only);
    assert_eq!(d.block_op(&mut heap, 0x9000_0000, 512, 0, true, 4), BlockOpResult::ReadOnly);
    assert_eq!(d.queue.avail.idx, 0);
    assert!(matches!(d.block_op(&mut heap, 0x9000_0000, 512, 0, false, 4), BlockOpResult::Submitted(_)));
}

#[test]
fn setup_checks_features_and_queue_size() {
    let mut pages = PageAllocator::init(0x8000_0000, 0x40_0000);
    assert_eq!(
        BlockDevice::setup_block_device(0x1000_8000, 0, 0x7, 256, &mut pages).err(),
        Some(SetupError::FeaturesRejected)
    );
    assert_eq!(
        BlockDevice::setup_block_device(0x1000_8000, 0, 0xf, 64, &mut pages).err(),
        Some(SetupError::QueueTooSmall)
    );
    let mut tiny = PageAllocator::init(0x8000_0000, 0x1000);
    assert_eq!(
        BlockDevice::setup_block_device(0x1000_8000, 0, 0xf, 256, &mut tiny).err(),
        Some(SetupError::OutOfMemory)
    );
    assert_eq!(negotiate_features(0xff), (0xdf, true));
    assert_eq!(negotiate_features(0x0f), (0x0f, false));
}

#[test]
fn block_read_resumes_the_caller_with_the_length() {
    let mut k = Kernel::new(0x8020_0000, 0x100_0000).unwrap();
    let p = k.add_kernel_process(0x8000_1000, 0x8000_0100);
    let d = BlockDevice::setup_block_device(0x1000_8000, 0, 0xf, 256, &mut k.pages).unwrap();
    k.register_block_device(8, d);
    for (r, v) in [(REG_A7, SYSCALL_BLOCK_READ), (REG_A0, 8), (REG_A1, 0x9000_0000), (REG_A2, 512), (REG_A3, 0)] {
        k.procs.set_reg(p, r, v);
    }
    let out = k.do_syscall(p, 0x2000, MachineTime::zero());
    assert!(out.reschedule);
    assert!(matches!(out.action, SyscallAction::Notify(0x1000_8000)));
    assert_eq!(k.procs.get(0).state, ProcessState::Waiting);
    let dev = &mut k.blocks[0].dev;
    let data = dev.queue.desc[2];
    assert_eq!((data.addr, data.len, data.flags & VIRTIO_DESC_F_WRITE), (0x9000_0000, 512, VIRTIO_DESC_F_WRITE));
    assert_eq!(dev.pending[0].request.header.sector, 0);
    dev.queue.used.ring[0] = UsedElem { id: 1, len: 513 };
    dev.queue.used.idx = 1;
    assert_eq!(k.handle_block_interrupt(8), vec![p]);
    assert_eq!(k.procs.get(0).state, ProcessState::Running);
    assert_eq!(k.procs.get(0).frame.regs[REG_A0], 512);
    assert_eq!(k.blocks[0].dev.ack_used_idx, 1);
    assert_eq!(k.blocks[0].dev.pending.len(), 0);
}

#[test]
fn probe_tells_devices_apart() {
    assert_eq!(probe(0, 2), ProbeResult::NoVirtio);
    assert_eq!(probe(MMIO_VIRTIO_MAGIC, 0), ProbeResult::NotConnected);
    assert_eq!(probe(MMIO_VIRTIO_MAGIC, 2), ProbeResult::Device(DeviceTypes::Block));
    assert_eq!(probe(MMIO_VIRTIO_MAGIC, 4), ProbeResult::Device(DeviceTypes::Entropy));
    assert_eq!(probe(MMIO_VIRTIO_MAGIC, 99), ProbeResult::Unknown);
    assert_eq!(device_index(0x1000_1000), Some(0));
    assert_eq!(device_index(0x1000_8000), Some(7));
    assert_eq!(device_index(0x1000_9000), None);
    assert_eq!(VirtioDevice::new_with(DeviceTypes::Block).devtype, DeviceTypes::Block);
    assert_eq!(VirtioDevice::new().devtype, DeviceTypes::Nothing);
}

#[test]
fn register_offsets_and_status_bits() {
    assert_eq!(MmioOffsets::QueueNotify.val(), 0x50);
    assert_eq!(MmioOffsets::Status.scale32(), 0x1c);
    assert_eq!(MmioOffsets::QueuePfn.scaled(8), 8);
    assert!(StatusField::features_ok(8));
    assert!(!StatusField::features_ok(7));
    assert!(StatusField::is_failed(128));
    assert!(StatusField::driver_ok(4));
    assert!(StatusField::needs_reset(64));
    assert_eq!(StatusField::Acknowledge.val32(), 1);
    assert_eq!(StatusField::Driver.val(), 2);
}
