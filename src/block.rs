//! Virtio block driver: feature negotiation, request submission as three
//! chained descriptors, and completion.
use vstd::prelude::*;
use vstd::arithmetic::div_mod::{lemma_add_mod_noop, lemma_small_mod};
use crate::kmem::{KernelHeap, need_of, first_free_fit};
use crate::page::{PageAllocator, window_free, first_fit, mark_run};
use crate::virtio::{
    Descriptor, Queue, StatusField, UsedElem, QUEUE_PAGES, VIRTIO_DESC_F_NEXT, VIRTIO_DESC_F_WRITE,
    VIRTIO_RING_SIZE,
};

verus! {

/// Request type of a read.
pub const VIRTIO_BLK_T_IN: u32 = 0;

/// Request type of a write.
pub const VIRTIO_BLK_T_OUT: u32 = 1;

/// Request type of a flush.
pub const VIRTIO_BLK_T_FLUSH: u32 = 4;

/// Request type of a discard.
pub const VIRTIO_BLK_T_DISCARD: u32 = 11;

/// Request type of a zeroing write.
pub const VIRTIO_BLK_T_WRITE_ZEROES: u32 = 13;

/// Feature bit: maximum segment size.
pub const VIRTIO_BLK_F_SIZE_MAX: u32 = 1;

/// Feature bit: maximum segment count.
pub const VIRTIO_BLK_F_SEG_MAX: u32 = 2;

/// Feature bit: disk geometry.
pub const VIRTIO_BLK_F_GEOMETRY: u32 = 4;

/// Feature bit: the device is read-only.
pub const VIRTIO_BLK_F_RO: u32 = 5;

/// Feature bit: block size.
pub const VIRTIO_BLK_F_BLK_SIZE: u32 = 6;

/// Feature bit: cache flush.
pub const VIRTIO_BLK_F_FLUSH: u32 = 9;

/// Feature bit: topology.
pub const VIRTIO_BLK_F_TOPOLOGY: u32 = 10;

/// Feature bit: writeback mode in the configuration.
pub const VIRTIO_BLK_F_CONFIG_WCE: u32 = 11;

/// Feature bit: discard.
pub const VIRTIO_BLK_F_DISCARD: u32 = 13;

/// Feature bit: zeroing writes.
pub const VIRTIO_BLK_F_WRITE_ZEROES: u32 = 14;

/// Size of a sector, in bytes.
pub const SECTOR_SIZE: u32 = 512;

/// Size of a request object in the kernel heap.
pub const REQUEST_SIZE: u64 = 32;

/// Length of a request header.
pub const HEADER_LEN: u32 = 16;

/// Offset of the status byte in a request object.
pub const STATUS_OFFSET: u64 = 24;

/// Status a request carries until the device writes it.
pub const STATUS_UNSET: u8 = 111;

/// Header of a block request.
#[derive(Clone, Copy, Debug, PartialEq, Eq, Structural)]
pub struct Header {
    pub blktype: u32,
    pub reserved: u32,
    pub sector: u64,
}

/// The data pointer of a block request.
#[derive(Clone, Copy, Debug, PartialEq, Eq, Structural)]
pub struct Data {
    pub data: u64,
}

/// The status byte of a block request.
#[derive(Clone, Copy, Debug, PartialEq, Eq, Structural)]
pub struct Status {
    pub status: u8,
}

/// A block request: header, data pointer, status and the head descriptor.
#[derive(Clone, Copy, Debug, PartialEq, Eq, Structural)]
pub struct Request {
    pub header: Header,
    pub data: Data,
    pub status: Status,
    pub head: u16,
}

/// A submitted request that the device has not finished: where it lives in
/// the kernel heap, its data length and the process that waits for it.
#[derive(Clone, Copy, Debug, PartialEq, Eq, Structural)]
pub struct PendingRequest {
    pub request: Request,
    pub addr: u64,
    pub size: u32,
    pub pid: u16,
}

/// A block device: its queue, MMIO base, the last descriptor used, how far
/// the used ring was read, whether it is read-only, and its pending
/// requests keyed by head descriptor.
#[derive(Clone, Debug)]
pub struct BlockDevice {
    pub queue: Queue,
    pub queue_addr: u64,
    pub dev: u64,
    pub idx: u16,
    pub ack_used_idx: u16,
    pub read_only: bool,
    pub pending: Vec<PendingRequest>,
}

/// Why a device could not be set up.
#[derive(Clone, Copy, Debug, PartialEq, Eq, Structural)]
pub enum SetupError {
    FeaturesRejected,
    QueueTooSmall,
    OutOfMemory,
}

/// Outcome of a block request.
#[derive(Clone, Copy, Debug, PartialEq, Eq, Structural)]
pub enum BlockOpResult {
    ReadOnly,
    OutOfMemory,
    Submitted(u16),
}

/// A finished request: the process to wake, the request object to free and
/// the data length.
#[derive(Clone, Copy, Debug, PartialEq, Eq, Structural)]
pub struct Completion {
    pub pid: u16,
    pub addr: u64,
    pub size: u32,
    pub status: u8,
}

/// The features the driver takes: all the host offers but read-only, and
/// whether the device is read-only.
pub fn negotiate_features(host_features: u32) -> (r: (u32, bool))
    ensures
        r.0 == host_features & !(1u32 << VIRTIO_BLK_F_RO),
        r.1 == (host_features & (1u32 << VIRTIO_BLK_F_RO) != 0),
{
    (host_features & !(1u32 << VIRTIO_BLK_F_RO), host_features & (1u32 << VIRTIO_BLK_F_RO) != 0)
}

/// The three descriptor slots after `idx`.
pub open spec fn slot(idx: u16, k: int) -> u16 {
    ((idx as int + k) % VIRTIO_RING_SIZE as int) as u16
}

/// `b` is `a` after one more submission: the available index moved on by
/// one (wrapping) and three more descriptors were taken.
pub open spec fn submit_step(a: &BlockDevice, b: &BlockDevice) -> bool {
    &&& b.queue.avail.idx as int == (a.queue.avail.idx as int + 1) % 0x1_0000
    &&& b.idx as int == (a.idx as int + 3) % VIRTIO_RING_SIZE as int
}

impl BlockDevice {
    /// The rings have their sizes, and the descriptor cursor is in range.
    pub open spec fn wf(&self) -> bool {
        &&& self.queue.wf()
        &&& self.idx < VIRTIO_RING_SIZE
    }

    /// Sets the device up once it accepted the negotiated features: checks
    /// that the device kept `FEATURES_OK` in `status_ok` and offers a queue
    /// of at least `VIRTIO_RING_SIZE`, then takes pages for the queue.
    pub fn setup_block_device(
        ptr: u64,
        host_features: u32,
        status_ok: u32,
        queue_num_max: u32,
        pages: &mut PageAllocator,
    ) -> (r: Result<BlockDevice, SetupError>)
        requires
            old(pages).wf(),
        ensures
            final(pages).wf(),
            status_ok & 8 == 0 ==> r == Err::<BlockDevice, SetupError>(SetupError::FeaturesRejected),
            status_ok & 8 != 0 && queue_num_max < VIRTIO_RING_SIZE ==> r == Err::<BlockDevice, SetupError>(
                SetupError::QueueTooSmall,
            ),
            r.is_ok() ==> {
                let d = r->Ok_0;
                &&& d.wf()
                &&& d.dev == ptr
                &&& d.idx == 0
                &&& d.ack_used_idx == 0
                &&& d.queue.avail.idx == 0
                &&& d.queue.used.idx == 0
                &&& d.pending@.len() == 0
                &&& d.read_only == (host_features & (1u32 << VIRTIO_BLK_F_RO) != 0)
                &&& d.queue_addr != 0
            },
            r == Err::<BlockDevice, SetupError>(SetupError::OutOfMemory) ==> final(pages).flags() == old(pages).flags(),
            status_ok & 8 != 0 && queue_num_max >= VIRTIO_RING_SIZE && (exists|i: int|
                #[trigger] window_free(old(pages).flags(), i, QUEUE_PAGES as int)) ==> r.is_ok(),
            r.is_ok() ==> exists|i: int|
                first_fit(old(pages).flags(), i, QUEUE_PAGES as int) && r->Ok_0.queue_addr == old(pages).page_addr(i)
                    && final(pages).flags() == mark_run(old(pages).flags(), i, QUEUE_PAGES as int),
            r.is_err() ==> final(pages).flags() == old(pages).flags(),
    {
        if !StatusField::features_ok(status_ok) {
            return Err(SetupError::FeaturesRejected);
        }
        if (queue_num_max as usize) < VIRTIO_RING_SIZE {
            return Err(SetupError::QueueTooSmall);
        }
        let (_guest, ro) = negotiate_features(host_features);
        let addr = pages.alloc_pages(QUEUE_PAGES);
        if addr == 0 {
            return Err(SetupError::OutOfMemory);
        }
        Ok(
            BlockDevice {
                queue: Queue::new(),
                queue_addr: addr,
                dev: ptr,
                idx: 0,
                ack_used_idx: 0,
                read_only: ro,
                pending: Vec::new(),
            },
        )
    }

    /// Page frame number of the queue, as the device is told it.
    pub fn queue_pfn(&self) -> (r: u64)
        ensures
            r == self.queue_addr / 4096,
    {
        self.queue_addr / 4096
    }

    /// Submits a request for `size` bytes at byte `offset` of the device,
    /// into or out of `buffer`, for process `pid`: a request object from
    /// the heap, three chained descriptors after the last one used (header,
    /// data, status), the head published in the available ring. Writes to a
    /// read-only device are refused.
    pub fn block_op(
        &mut self,
        heap: &mut KernelHeap,
        buffer: u64,
        size: u32,
        offset: u64,
        write: bool,
        pid: u16,
    ) -> (r: BlockOpResult)
        requires
            old(self).wf(),
            old(heap).wf(),
        ensures
            final(self).wf(),
            final(heap).wf(),
            final(heap).head_addr() == old(heap).head_addr(),
            final(self).dev == old(self).dev,
            final(self).read_only == old(self).read_only,
            r == BlockOpResult::ReadOnly <==> old(self).read_only && write,
            old(self).read_only && write ==> r == BlockOpResult::ReadOnly && *final(self) == *old(self)
                && final(heap).view_chunks() == old(heap).view_chunks(),
            r == BlockOpResult::OutOfMemory ==> *final(self) == *old(self) && final(heap).view_chunks()
                == old(heap).view_chunks() && forall|i: int|
                0 <= i < old(heap).view_chunks().len() ==> #[trigger] old(heap).view_chunks()[i].1
                    || old(heap).view_chunks()[i].0 < need_of(REQUEST_SIZE as u64),
            !(old(self).read_only && write) && (exists|i: int|
                #[trigger] first_free_fit(old(heap).view_chunks(), i, need_of(REQUEST_SIZE as u64))) ==> r
                == BlockOpResult::Submitted(slot(old(self).idx, 1)),
            r is Submitted ==> {
                let d1 = slot(old(self).idx, 1);
                let d2 = slot(old(self).idx, 2);
                let d3 = slot(old(self).idx, 3);
                let req = final(self).pending@.last();
                &&& submit_step(old(self), final(self))
                &&& final(self).idx == d3
                &&& final(self).queue.avail.ring@ == old(self).queue.avail.ring@.update(
                    old(self).queue.avail.idx as int % VIRTIO_RING_SIZE as int,
                    d1,
                )
                &&& final(self).queue.desc@ == old(self).queue.desc@.update(
                    d1 as int,
                    Descriptor { addr: req.addr, len: HEADER_LEN, flags: VIRTIO_DESC_F_NEXT, next: d2 },
                ).update(
                    d2 as int,
                    Descriptor {
                        addr: buffer,
                        len: size,
                        flags: if write { VIRTIO_DESC_F_NEXT } else { (VIRTIO_DESC_F_NEXT
                            | VIRTIO_DESC_F_WRITE) as u16 },
                        next: d3,
                    },
                ).update(
                    d3 as int,
                    Descriptor {
                        addr: (req.addr + STATUS_OFFSET) as u64,
                        len: 1,
                        flags: VIRTIO_DESC_F_WRITE,
                        next: 0,
                    },
                )
                &&& final(self).pending@.len() == old(self).pending@.len() + 1
                &&& final(self).pending@.drop_last() == old(self).pending@
                &&& req.pid == pid
                &&& req.size == size
                &&& req.request.head == d1
                &&& req.request.header.sector == offset / 512
                &&& req.request.header.blktype == if write { VIRTIO_BLK_T_OUT } else { VIRTIO_BLK_T_IN }
                &&& req.request.data.data == buffer
                &&& final(self).queue.used == old(self).queue.used
                &&& final(self).ack_used_idx == old(self).ack_used_idx
            },
    {
        if self.read_only && write {
            return BlockOpResult::ReadOnly;
        }
        let req = heap.kmalloc(REQUEST_SIZE);
        if req == 0 {
            return BlockOpResult::OutOfMemory;
        }
        proof {
            assert(req + STATUS_OFFSET <= u64::MAX) by {
                let i = choose|i: int|
                    first_free_fit(old(heap).view_chunks(), i, need_of(REQUEST_SIZE as u64))
                        && req == old(heap).head_addr() + crate::kmem::offset_of(old(heap).view_chunks(), i)
                        + crate::kmem::HEADER_SIZE;
                crate::kmem::lemma_total_split(old(heap).view_chunks(), i);
                crate::kmem::lemma_total_nonneg(old(heap).view_chunks().subrange(i + 1, old(heap).view_chunks().len() as int));
            }
        }
        let d1: u16 = ((self.idx as usize + 1) % VIRTIO_RING_SIZE) as u16;
        let d2: u16 = ((self.idx as usize + 2) % VIRTIO_RING_SIZE) as u16;
        let d3: u16 = ((self.idx as usize + 3) % VIRTIO_RING_SIZE) as u16;
        let data_flags: u16 = if write {
            VIRTIO_DESC_F_NEXT
        } else {
            VIRTIO_DESC_F_NEXT | VIRTIO_DESC_F_WRITE
        };
        self.queue.desc.set(
            d1 as usize,
            Descriptor { addr: req, len: HEADER_LEN, flags: VIRTIO_DESC_F_NEXT, next: d2 },
        );
        self.queue.desc.set(d2 as usize, Descriptor { addr: buffer, len: size, flags: data_flags, next: d3 });
        self.queue.desc.set(
            d3 as usize,
            Descriptor { addr: req + STATUS_OFFSET, len: 1, flags: VIRTIO_DESC_F_WRITE, next: 0 },
        );
        let slot_idx = (self.queue.avail.idx as usize) % VIRTIO_RING_SIZE;
        self.queue.avail.ring.set(slot_idx, d1);
        self.queue.avail.idx = self.queue.avail.idx.wrapping_add(1);
        self.idx = d3;
        let request = Request {
            header: Header {
                blktype: if write {
                    VIRTIO_BLK_T_OUT
                } else {
                    VIRTIO_BLK_T_IN
                },
                reserved: 0,
                sector: offset / 512,
            },
            data: Data { data: buffer },
            status: Status { status: STATUS_UNSET },
            head: d1,
        };
        self.pending.push(PendingRequest { request, addr: req, size, pid });
        proof {
            assert(self.pending@.drop_last() =~= old(self).pending@);
        }
        BlockOpResult::Submitted(d1)
    }

    /// Takes the requests the device finished since the last call: walks the
    /// used ring from where it was read up to the device's index; for each
    /// head found there, the first pending request with that head is handed
    /// back and leaves the pending list.
    pub fn pending(&mut self) -> (r: Vec<Completion>)
        requires
            old(self).wf(),
        ensures
            final(self).wf(),
            final(self).ack_used_idx == old(self).queue.used.idx,
            final(self).queue == old(self).queue,
            final(self).idx == old(self).idx,
            final(self).dev == old(self).dev,
            (r@, final(self).pending@) == drain(old(self).pending@, used_ids(old(self))),
    {
        let mut out: Vec<Completion> = Vec::new();
        let count: u16 = self.queue.used.idx.wrapping_sub(self.ack_used_idx);
        let ghost ids = used_ids(old(self));
        let mut k: u16 = 0;
        proof {
            assert(ids.subrange(0, 0) =~= Seq::<u32>::empty());
        }
        while k < count
            invariant
                self.wf(),
                self.queue == old(self).queue,
                self.idx == old(self).idx,
                self.dev == old(self).dev,
                k <= count,
                ids == used_ids(old(self)),
                count as int == ids.len(),
                count as int == used_count(old(self)),
                self.ack_used_idx as int == wrap_add(old(self).ack_used_idx, k as int),
                (out@, self.pending@) == drain(old(self).pending@, ids.subrange(0, k as int)),
            decreases count - k,
        {
            let elem: UsedElem = self.queue.used.ring[(self.ack_used_idx as usize) % VIRTIO_RING_SIZE];
            self.ack_used_idx = self.ack_used_idx.wrapping_add(1);
            let ghost id = elem.id;
            proof {
                assert(ids[k as int] == id);
                assert(ids.subrange(0, k + 1).drop_last() =~= ids.subrange(0, k as int));
                assert(ids.subrange(0, k + 1).last() == id);
            }
            let ghost before_out = out@;
            let ghost before_p = self.pending@;
            let ghost ack_now = self.ack_used_idx;
            let mut j: usize = 0;
            let mut found = false;
            while j < self.pending.len() && !found
                invariant
                    j <= self.pending@.len(),
                    self.wf(),
                    self.queue == old(self).queue,
                    self.idx == old(self).idx,
                    self.dev == old(self).dev,
                    self.ack_used_idx == ack_now,
                    id == elem.id,
                    !found ==> self.pending@ == before_p && out@ == before_out,
                    !found ==> forall|i: int| 0 <= i < j ==> (#[trigger] before_p[i]).request.head as u32 != id,
                    found ==> exists|i: int|
                        first_with_head(before_p, id, i) && self.pending@ == before_p.remove(i) && out@
                            == before_out.push(completion_of(before_p[i])),
                decreases self.pending@.len() - j + if found { 0int } else { 1int },
            {
                let h = self.pending[j].request.head;
                if h as u32 == elem.id {
                    let p = self.pending.remove(j);
                    out.push(Completion { pid: p.pid, addr: p.addr, size: p.size, status: p.request.status.status });
                    proof {
                        assert(first_with_head(before_p, id, j as int));
                        assert(self.pending@ == before_p.remove(j as int));
                        assert(out@ == before_out.push(completion_of(before_p[j as int])));
                    }
                    found = true;
                } else {
                    j = j + 1;
                }
            }
            proof {
                let pre = ids.subrange(0, k as int);
                let nxt = ids.subrange(0, k + 1);
                assert(nxt.drop_last() =~= pre);
                assert(nxt.last() == id);
                assert(drain(old(self).pending@, pre) == (before_out, before_p));
                if found {
                    let i = choose|i: int|
                        first_with_head(before_p, id, i) && self.pending@ == before_p.remove(i) && out@
                            == before_out.push(completion_of(before_p[i]));
                    lemma_first_with_head_unique(before_p, id, i);
                    lemma_first_with_head_unique(drain(old(self).pending@, nxt.drop_last()).1, nxt.last(), i);
                    assert(drain(old(self).pending@, nxt) == (before_out.push(completion_of(before_p[i])), before_p.remove(i)));
                } else {
                    assert(!exists|i: int| first_with_head(before_p, id, i));
                    assert(drain(old(self).pending@, nxt) == (before_out, before_p));
                }
            }
            k = k + 1;
        }
        proof {
            assert(ids.subrange(0, count as int) =~= ids);
        }
        out
    }
}

/// Number of used entries between the driver's and the device's index.
pub open spec fn used_count(d: &BlockDevice) -> int {
    if d.queue.used.idx >= d.ack_used_idx {
        d.queue.used.idx as int - d.ack_used_idx as int
    } else {
        d.queue.used.idx as int - d.ack_used_idx as int + 0x1_0000
    }
}

/// `a + k` on 16-bit indices, wrapping.
pub open spec fn wrap_add(a: u16, k: int) -> int {
    if a as int + k < 0x1_0000 {
        a as int + k
    } else {
        a as int + k - 0x1_0000
    }
}

/// The heads that the device finished since the driver last read the used
/// ring, in order.
pub open spec fn used_ids(d: &BlockDevice) -> Seq<u32> {
    Seq::new(
        used_count(d) as nat,
        |k: int| d.queue.used.ring@[wrap_add(d.ack_used_idx, k) % VIRTIO_RING_SIZE as int].id,
    )
}

/// Entry `i` is the first pending request whose head is `id`.
pub open spec fn first_with_head(p: Seq<PendingRequest>, id: u32, i: int) -> bool {
    &&& 0 <= i < p.len()
    &&& p[i].request.head as u32 == id
    &&& forall|j: int| 0 <= j < i ==> (#[trigger] p[j]).request.head as u32 != id
}

/// The first pending request with a given head is unique.
pub proof fn lemma_first_with_head_unique(p: Seq<PendingRequest>, id: u32, i: int)
    requires
        first_with_head(p, id, i),
    ensures
        (choose|j: int| first_with_head(p, id, j)) == i,
{
    let c = choose|j: int| first_with_head(p, id, j);
    if c < i {
        assert(p[c].request.head as u32 != id);
    } else if c > i {
        assert(p[i].request.head as u32 != id);
    }
}

/// Completions and pending list after the heads `ids` were finished, one
/// after another.
pub open spec fn drain(p: Seq<PendingRequest>, ids: Seq<u32>) -> (Seq<Completion>, Seq<PendingRequest>)
    decreases ids.len(),
{
    if ids.len() == 0 {
        (Seq::empty(), p)
    } else {
        let prev = drain(p, ids.drop_last());
        let q = prev.1;
        let id = ids.last();
        if exists|i: int| first_with_head(q, id, i) {
            let i = choose|i: int| first_with_head(q, id, i);
            (prev.0.push(completion_of(q[i])), q.remove(i))
        } else {
            prev
        }
    }
}

/// Reads `size` bytes at byte `offset` of the device into `buffer` for
/// process `pid`.
pub fn read(dev: &mut BlockDevice, heap: &mut KernelHeap, buffer: u64, size: u32, offset: u64, pid: u16) -> (r: BlockOpResult)
    requires
        old(dev).wf(),
        old(heap).wf(),
    ensures
        final(dev).wf(),
        final(heap).wf(),
        final(heap).head_addr() == old(heap).head_addr(),
        final(dev).dev == old(dev).dev,
        final(dev).read_only == old(dev).read_only,
        r != BlockOpResult::ReadOnly,
        r == BlockOpResult::OutOfMemory ==> *final(dev) == *old(dev) && final(heap).view_chunks()
        == old(heap).view_chunks() && forall|i: int|
        0 <= i < old(heap).view_chunks().len() ==> #[trigger] old(heap).view_chunks()[i].1
            || old(heap).view_chunks()[i].0 < need_of(REQUEST_SIZE as u64),
        (exists|i: int|
        #[trigger] first_free_fit(old(heap).view_chunks(), i, need_of(REQUEST_SIZE as u64))) ==> r
        == BlockOpResult::Submitted(slot(old(dev).idx, 1)),
        r is Submitted ==> {
        let d1 = slot(old(dev).idx, 1);
        let d2 = slot(old(dev).idx, 2);
        let d3 = slot(old(dev).idx, 3);
        let req = final(dev).pending@.last();
        &&& submit_step(old(dev), final(dev))
        &&& final(dev).idx == d3
        &&& final(dev).queue.avail.ring@ == old(dev).queue.avail.ring@.update(
            old(dev).queue.avail.idx as int % VIRTIO_RING_SIZE as int,
            d1,
        )
        &&& final(dev).queue.desc@ == old(dev).queue.desc@.update(
            d1 as int,
            Descriptor { addr: req.addr, len: HEADER_LEN, flags: VIRTIO_DESC_F_NEXT, next: d2 },
        ).update(
            d2 as int,
            Descriptor {
                addr: buffer,
                len: size,
                flags: (VIRTIO_DESC_F_NEXT | VIRTIO_DESC_F_WRITE) as u16,
                next: d3,
            },
        ).update(
            d3 as int,
            Descriptor {
                addr: (req.addr + STATUS_OFFSET) as u64,
                len: 1,
                flags: VIRTIO_DESC_F_WRITE,
                next: 0,
            },
        )
        &&& final(dev).pending@.len() == old(dev).pending@.len() + 1
        &&& final(dev).pending@.drop_last() == old(dev).pending@
        &&& req.pid == pid
        &&& req.size == size
        &&& req.request.head == d1
        &&& req.request.header.sector == offset / 512
        &&& req.request.header.blktype == VIRTIO_BLK_T_IN
        &&& req.request.data.data == buffer
        &&& final(dev).queue.used == old(dev).queue.used
        &&& final(dev).ack_used_idx == old(dev).ack_used_idx
        },
{
    dev.block_op(heap, buffer, size, offset, false, pid)
}

/// Writes `size` bytes of `buffer` at byte `offset` of the device for
/// process `pid`; refused on a read-only device.
pub fn write(dev: &mut BlockDevice, heap: &mut KernelHeap, buffer: u64, size: u32, offset: u64, pid: u16) -> (r: BlockOpResult)
    requires
        old(dev).wf(),
        old(heap).wf(),
    ensures
        final(dev).wf(),
        final(heap).wf(),
        final(heap).head_addr() == old(heap).head_addr(),
        final(dev).dev == old(dev).dev,
        final(dev).read_only == old(dev).read_only,
        r == BlockOpResult::ReadOnly <==> old(dev).read_only,
        old(dev).read_only ==> r == BlockOpResult::ReadOnly && *final(dev) == *old(dev)
        && final(heap).view_chunks() == old(heap).view_chunks(),
        r == BlockOpResult::OutOfMemory ==> *final(dev) == *old(dev) && final(heap).view_chunks()
        == old(heap).view_chunks() && forall|i: int|
        0 <= i < old(heap).view_chunks().len() ==> #[trigger] old(heap).view_chunks()[i].1
            || old(heap).view_chunks()[i].0 < need_of(REQUEST_SIZE as u64),
        !old(dev).read_only && (exists|i: int|
        #[trigger] first_free_fit(old(heap).view_chunks(), i, need_of(REQUEST_SIZE as u64))) ==> r
        == BlockOpResult::Submitted(slot(old(dev).idx, 1)),
        r is Submitted ==> {
        let d1 = slot(old(dev).idx, 1);
        let d2 = slot(old(dev).idx, 2);
        let d3 = slot(old(dev).idx, 3);
        let req = final(dev).pending@.last();
        &&& submit_step(old(dev), final(dev))
        &&& final(dev).idx == d3
        &&& final(dev).queue.avail.ring@ == old(dev).queue.avail.ring@.update(
            old(dev).queue.avail.idx as int % VIRTIO_RING_SIZE as int,
            d1,
        )
        &&& final(dev).queue.desc@ == old(dev).queue.desc@.update(
            d1 as int,
            Descriptor { addr: req.addr, len: HEADER_LEN, flags: VIRTIO_DESC_F_NEXT, next: d2 },
        ).update(
            d2 as int,
            Descriptor {
                addr: buffer,
                len: size,
                flags: VIRTIO_DESC_F_NEXT,
                next: d3,
            },
        ).update(
            d3 as int,
            Descriptor {
                addr: (req.addr + STATUS_OFFSET) as u64,
                len: 1,
                flags: VIRTIO_DESC_F_WRITE,
                next: 0,
            },
        )
        &&& final(dev).pending@.len() == old(dev).pending@.len() + 1
        &&& final(dev).pending@.drop_last() == old(dev).pending@
        &&& req.pid == pid
        &&& req.size == size
        &&& req.request.head == d1
        &&& req.request.header.sector == offset / 512
        &&& req.request.header.blktype == VIRTIO_BLK_T_OUT
        &&& req.request.data.data == buffer
        &&& final(dev).queue.used == old(dev).queue.used
        &&& final(dev).ack_used_idx == old(dev).ack_used_idx
        },
{
    dev.block_op(heap, buffer, size, offset, true, pid)
}

/// What a finished request hands back.
pub open spec fn completion_of(p: PendingRequest) -> Completion {
    Completion { pid: p.pid, addr: p.addr, size: p.size, status: p.request.status.status }
}

/// Submissions without completions: after `n` of them from a fresh device
/// the available index is `n mod 2^16` and `3n` descriptors were taken from
/// the ring (the cursor stands at `3n mod VIRTIO_RING_SIZE`).
pub proof fn lemma_submissions(devs: Seq<BlockDevice>, n: nat)
    requires
        devs.len() == n + 1,
        devs[0].queue.avail.idx == 0,
        devs[0].idx == 0,
        forall|k: int| 0 <= k < n ==> #[trigger] submit_step(&devs[k], &devs[k + 1]),
    ensures
        devs[n as int].queue.avail.idx as int == n as int % 0x1_0000,
        devs[n as int].idx as int == (3 * n) as int % VIRTIO_RING_SIZE as int,
    decreases n,
{
    if n > 0 {
        lemma_submissions(devs.subrange(0, n as int), (n - 1) as nat);
        assert(devs.subrange(0, n as int)[n - 1] == devs[n - 1]);
        assert(submit_step(&devs[n - 1], &devs[n as int]));
        lemma_add_mod_noop((n - 1) as int, 1, 0x1_0000);
        lemma_small_mod(1, 0x1_0000);
        lemma_add_mod_noop((3 * (n - 1)) as int, 3, 128);
        lemma_small_mod(3, 128);
    }
}

} // verus!
