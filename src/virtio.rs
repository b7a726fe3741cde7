//! Virtio MMIO: register offsets, status bits, device types and the split
//! virtqueue laid out the way the device reads it.
use vstd::prelude::*;

verus! {

/// The descriptor continues in `next`.
pub const VIRTIO_DESC_F_NEXT: u16 = 1;

/// The device writes the descriptor's buffer.
pub const VIRTIO_DESC_F_WRITE: u16 = 2;

/// The descriptor holds a table of descriptors.
pub const VIRTIO_DESC_F_INDIRECT: u16 = 4;

/// The driver asks not to be interrupted.
pub const VIRTIO_AVAIL_F_NO_INTERRUPT: u16 = 1;

/// The device asks not to be notified.
pub const VIRTIO_USED_F_NO_NOTIFY: u16 = 1;

/// Entries of each ring of the queue.
pub const VIRTIO_RING_SIZE: usize = 128;

/// First virtio MMIO bank.
pub const MMIO_VIRTIO_START: u64 = 0x1000_1000;

/// Last virtio MMIO bank.
pub const MMIO_VIRTIO_END: u64 = 0x1000_8000;

/// Distance between two MMIO banks.
pub const MMIO_VIRTIO_STRIDE: u64 = 0x1000;

/// Magic value of a virtio MMIO bank: "virt" read little-endian.
pub const MMIO_VIRTIO_MAGIC: u32 = 0x74_72_69_76;

/// Pages that a queue takes.
pub const QUEUE_PAGES: usize = 2;

/// A descriptor of the queue.
#[derive(Clone, Copy, Debug, PartialEq, Eq, Structural)]
pub struct Descriptor {
    pub addr: u64,
    pub len: u32,
    pub flags: u16,
    pub next: u16,
}

/// The available ring: heads of the chains the driver offers.
#[derive(Clone, Debug)]
pub struct Available {
    pub flags: u16,
    pub idx: u16,
    pub ring: Vec<u16>,
    pub event: u16,
}

/// An entry of the used ring.
#[derive(Clone, Copy, Debug, PartialEq, Eq, Structural)]
pub struct UsedElem {
    pub id: u32,
    pub len: u32,
}

/// The used ring: heads of the chains the device finished.
#[derive(Clone, Debug)]
pub struct Used {
    pub flags: u16,
    pub idx: u16,
    pub ring: Vec<UsedElem>,
    pub event: u16,
}

/// A split virtqueue: descriptors, available ring, used ring.
#[derive(Clone, Debug)]
pub struct Queue {
    pub desc: Vec<Descriptor>,
    pub avail: Available,
    pub used: Used,
}

impl Queue {
    /// Each ring holds `VIRTIO_RING_SIZE` entries.
    pub open spec fn wf(&self) -> bool {
        &&& self.desc@.len() == VIRTIO_RING_SIZE
        &&& self.avail.ring@.len() == VIRTIO_RING_SIZE
        &&& self.used.ring@.len() == VIRTIO_RING_SIZE
    }

    /// A queue with every ring clear.
    pub fn new() -> (r: Queue)
        ensures
            r.wf(),
            r.avail.idx == 0,
            r.used.idx == 0,
            r.avail.flags == 0,
            r.used.flags == 0,
    {
        let mut desc: Vec<Descriptor> = Vec::new();
        let mut ring: Vec<u16> = Vec::new();
        let mut uring: Vec<UsedElem> = Vec::new();
        let mut i: usize = 0;
        while i < VIRTIO_RING_SIZE
            invariant
                i <= VIRTIO_RING_SIZE,
                desc@.len() == i,
                ring@.len() == i,
                uring@.len() == i,
            decreases VIRTIO_RING_SIZE - i,
        {
            desc.push(Descriptor { addr: 0, len: 0, flags: 0, next: 0 });
            ring.push(0);
            uring.push(UsedElem { id: 0, len: 0 });
            i = i + 1;
        }
        Queue {
            desc,
            avail: Available { flags: 0, idx: 0, ring, event: 0 },
            used: Used { flags: 0, idx: 0, ring: uring, event: 0 },
        }
    }
}

/// Registers of a virtio MMIO bank.
#[derive(Clone, Copy, Debug, PartialEq, Eq, Structural)]
pub enum MmioOffsets {
    MagicValue,
    Version,
    DeviceId,
    VendorId,
    HostFeatures,
    HostFeaturesSel,
    GuestFeatures,
    GuestFeaturesSel,
    GuestPageSize,
    QueueSel,
    QueueNumMax,
    QueueNum,
    QueueAlign,
    QueuePfn,
    QueueNotify,
    InterruptStatus,
    InterruptAck,
    Status,
    Config,
}

impl MmioOffsets {
    pub open spec fn spec_val(&self) -> u64 {
        match self {
            MmioOffsets::MagicValue => 0x000,
            MmioOffsets::Version => 0x004,
            MmioOffsets::DeviceId => 0x008,
            MmioOffsets::VendorId => 0x00c,
            MmioOffsets::HostFeatures => 0x010,
            MmioOffsets::HostFeaturesSel => 0x014,
            MmioOffsets::GuestFeatures => 0x020,
            MmioOffsets::GuestFeaturesSel => 0x024,
            MmioOffsets::GuestPageSize => 0x028,
            MmioOffsets::QueueSel => 0x030,
            MmioOffsets::QueueNumMax => 0x034,
            MmioOffsets::QueueNum => 0x038,
            MmioOffsets::QueueAlign => 0x03c,
            MmioOffsets::QueuePfn => 0x040,
            MmioOffsets::QueueNotify => 0x050,
            MmioOffsets::InterruptStatus => 0x060,
            MmioOffsets::InterruptAck => 0x064,
            MmioOffsets::Status => 0x070,
            MmioOffsets::Config => 0x100,
        }
    }

    /// Byte offset of the register.
    pub fn val(&self) -> (r: u64)
        ensures
            r == self.spec_val(),
    {
        match self {
            MmioOffsets::MagicValue => 0x000,
            MmioOffsets::Version => 0x004,
            MmioOffsets::DeviceId => 0x008,
            MmioOffsets::VendorId => 0x00c,
            MmioOffsets::HostFeatures => 0x010,
            MmioOffsets::HostFeaturesSel => 0x014,
            MmioOffsets::GuestFeatures => 0x020,
            MmioOffsets::GuestFeaturesSel => 0x024,
            MmioOffsets::GuestPageSize => 0x028,
            MmioOffsets::QueueSel => 0x030,
            MmioOffsets::QueueNumMax => 0x034,
            MmioOffsets::QueueNum => 0x038,
            MmioOffsets::QueueAlign => 0x03c,
            MmioOffsets::QueuePfn => 0x040,
            MmioOffsets::QueueNotify => 0x050,
            MmioOffsets::InterruptStatus => 0x060,
            MmioOffsets::InterruptAck => 0x064,
            MmioOffsets::Status => 0x070,
            MmioOffsets::Config => 0x100,
        }
    }

    /// Offset of the register in units of `scale` bytes.
    pub fn scaled(&self, scale: u64) -> (r: u64)
        requires
            scale > 0,
        ensures
            r == self.spec_val() / scale,
    {
        self.val() / scale
    }

    /// Offset of the register in 32-bit words.
    pub fn scale32(&self) -> (r: u64)
        ensures
            r == self.spec_val() / 4,
    {
        self.scaled(4)
    }
}

/// Kinds of virtio devices.
#[derive(Clone, Copy, Debug, PartialEq, Eq, Structural)]
pub enum DeviceTypes {
    Nothing,
    Network,
    Block,
    Console,
    Entropy,
    Gpu,
    Input,
    Memory,
}

/// Bits of the device status register.
#[derive(Clone, Copy, Debug, PartialEq, Eq, Structural)]
pub enum StatusField {
    Acknowledge,
    Driver,
    Failed,
    FeaturesOk,
    DriverOk,
    DeviceNeedsReset,
}

impl StatusField {
    pub open spec fn spec_val(&self) -> u32 {
        match self {
            StatusField::Acknowledge => 1,
            StatusField::Driver => 2,
            StatusField::Failed => 128,
            StatusField::FeaturesOk => 8,
            StatusField::DriverOk => 4,
            StatusField::DeviceNeedsReset => 64,
        }
    }

    /// The bit, as a 64-bit value.
    pub fn val(&self) -> (r: u64)
        ensures
            r == self.spec_val(),
    {
        self.val32() as u64
    }

    /// The bit.
    pub fn val32(&self) -> (r: u32)
        ensures
            r == self.spec_val(),
    {
        match self {
            StatusField::Acknowledge => 1,
            StatusField::Driver => 2,
            StatusField::Failed => 128,
            StatusField::FeaturesOk => 8,
            StatusField::DriverOk => 4,
            StatusField::DeviceNeedsReset => 64,
        }
    }

    /// Whether status `sf` has bit `bit`.
    pub fn test(sf: u32, bit: StatusField) -> (r: bool)
        ensures
            r == (sf & bit.spec_val() != 0),
    {
        sf & bit.val32() != 0
    }

    /// Whether the device failed.
    pub fn is_failed(sf: u32) -> (r: bool)
        ensures
            r == (sf & 128 != 0),
    {
        StatusField::test(sf, StatusField::Failed)
    }

    /// Whether the device needs a reset.
    pub fn needs_reset(sf: u32) -> (r: bool)
        ensures
            r == (sf & 64 != 0),
    {
        StatusField::test(sf, StatusField::DeviceNeedsReset)
    }

    /// Whether the driver is set up.
    pub fn driver_ok(sf: u32) -> (r: bool)
        ensures
            r == (sf & 4 != 0),
    {
        StatusField::test(sf, StatusField::DriverOk)
    }

    /// Whether the device took the features.
    pub fn features_ok(sf: u32) -> (r: bool)
        ensures
            r == (sf & 8 != 0),
    {
        StatusField::test(sf, StatusField::FeaturesOk)
    }
}

/// A probed virtio device.
#[derive(Clone, Copy, Debug, PartialEq, Eq, Structural)]
pub struct VirtioDevice {
    pub devtype: DeviceTypes,
}

impl VirtioDevice {
    /// A slot with no device.
    pub fn new() -> (r: VirtioDevice)
        ensures
            r.devtype == DeviceTypes::Nothing,
    {
        VirtioDevice { devtype: DeviceTypes::Nothing }
    }

    /// A device of the given type.
    pub fn new_with(devtype: DeviceTypes) -> (r: VirtioDevice)
        ensures
            r.devtype == devtype,
    {
        VirtioDevice { devtype }
    }
}

/// What a probed MMIO bank holds.
#[derive(Clone, Copy, Debug, PartialEq, Eq, Structural)]
pub enum ProbeResult {
    NoVirtio,
    NotConnected,
    Device(DeviceTypes),
    Unknown,
}

/// The device type of a device id.
pub open spec fn device_type_of(id: u32) -> Option<DeviceTypes> {
    if id == 1 {
        Some(DeviceTypes::Network)
    } else if id == 2 {
        Some(DeviceTypes::Block)
    } else if id == 3 {
        Some(DeviceTypes::Console)
    } else if id == 4 {
        Some(DeviceTypes::Entropy)
    } else if id == 16 {
        Some(DeviceTypes::Gpu)
    } else if id == 18 {
        Some(DeviceTypes::Input)
    } else if id == 24 {
        Some(DeviceTypes::Memory)
    } else {
        None
    }
}

/// Tells what an MMIO bank holds from its magic value and device id.
pub fn probe(magic: u32, device_id: u32) -> (r: ProbeResult)
    ensures
        magic != MMIO_VIRTIO_MAGIC ==> r == ProbeResult::NoVirtio,
        magic == MMIO_VIRTIO_MAGIC && device_id == 0 ==> r == ProbeResult::NotConnected,
        magic == MMIO_VIRTIO_MAGIC && device_id != 0 ==> r == match device_type_of(device_id) {
            Some(t) => ProbeResult::Device(t),
            None => ProbeResult::Unknown,
        },
{
    if magic != MMIO_VIRTIO_MAGIC {
        ProbeResult::NoVirtio
    } else if device_id == 0 {
        ProbeResult::NotConnected
    } else if device_id == 1 {
        ProbeResult::Device(DeviceTypes::Network)
    } else if device_id == 2 {
        ProbeResult::Device(DeviceTypes::Block)
    } else if device_id == 3 {
        ProbeResult::Device(DeviceTypes::Console)
    } else if device_id == 4 {
        ProbeResult::Device(DeviceTypes::Entropy)
    } else if device_id == 16 {
        ProbeResult::Device(DeviceTypes::Gpu)
    } else if device_id == 18 {
        ProbeResult::Device(DeviceTypes::Input)
    } else if device_id == 24 {
        ProbeResult::Device(DeviceTypes::Memory)
    } else {
        ProbeResult::Unknown
    }
}

/// Slot of the MMIO bank at `addr`; `None` outside the banks.
pub fn device_index(addr: u64) -> (r: Option<usize>)
    ensures
        (MMIO_VIRTIO_START <= addr <= MMIO_VIRTIO_END) ==> r == Some(((addr - MMIO_VIRTIO_START) / 4096) as usize),
        !(MMIO_VIRTIO_START <= addr <= MMIO_VIRTIO_END) ==> r.is_none(),
{
    if addr < MMIO_VIRTIO_START || addr > MMIO_VIRTIO_END {
        None
    } else {
        Some(((addr - MMIO_VIRTIO_START) / 4096) as usize)
    }
}

} // verus!
