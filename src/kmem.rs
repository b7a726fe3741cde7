//! Sub-page heap: a first-fit list of chunks over a fixed run of pages, each
//! chunk led by a one-word header that packs its size and a taken bit.
use vstd::prelude::*;
use crate::page::{PageAllocator, first_fit, window_free, PAGE_SIZE};

verus! {

/// Pages that the heap takes from the page allocator.
pub const KMEM_PAGES: usize = 64;

/// Bytes that the heap spans.
pub const KMEM_SPAN: u64 = 262144;

/// Size of a chunk header, in bytes.
pub const HEADER_SIZE: u64 = 8;

/// The taken bit of a header.
pub const TAKEN_BIT: u64 = 0x8000_0000_0000_0000;

/// Largest chunk size that a header can hold.
pub const MAX_CHUNK: u64 = 0x7fff_ffff_ffff_ffff;

/// The flag bits of a chunk header.
#[derive(Clone, Copy, Debug, PartialEq, Eq, Structural)]
pub enum AllocListFlags {
    Taken,
}

impl AllocListFlags {
    /// The bit of the flag.
    pub fn val(&self) -> (r: u64)
        ensures
            r == TAKEN_BIT,
    {
        TAKEN_BIT
    }
}

/// A chunk header: the size in the low 63 bits, the taken bit on top.
#[derive(Clone, Copy, Debug)]
pub struct AllocList {
    pub flags_size: u64,
}

/// A header word with the given size and taken bit, for a size that fits.
pub open spec fn header_word(size: u64, taken: bool) -> u64 {
    if taken {
        (size | TAKEN_BIT) as u64
    } else {
        size
    }
}

/// How a header word reads back.
pub proof fn lemma_header_bits(f: u64, size: u64)
    ensures
        size <= MAX_CHUNK ==> (size & !TAKEN_BIT) == size && (size & TAKEN_BIT) == 0,
        size <= MAX_CHUNK ==> ((size | TAKEN_BIT) & !TAKEN_BIT) == size && ((size | TAKEN_BIT)
            & TAKEN_BIT) != 0,
        ((f | TAKEN_BIT) & !TAKEN_BIT) == (f & !TAKEN_BIT),
        ((f | TAKEN_BIT) & TAKEN_BIT) != 0,
        ((f & !TAKEN_BIT) & !TAKEN_BIT) == (f & !TAKEN_BIT),
        ((f & !TAKEN_BIT) & TAKEN_BIT) == 0,
        (f & !TAKEN_BIT) <= MAX_CHUNK,
{
    assert(size <= 0x7fff_ffff_ffff_ffffu64 ==> (size & !0x8000_0000_0000_0000u64) == size && (size
        & 0x8000_0000_0000_0000u64) == 0) by (bit_vector);
    assert(size <= 0x7fff_ffff_ffff_ffffu64 ==> ((size | 0x8000_0000_0000_0000u64)
        & !0x8000_0000_0000_0000u64) == size && ((size | 0x8000_0000_0000_0000u64)
        & 0x8000_0000_0000_0000u64) != 0) by (bit_vector);
    assert(((f | 0x8000_0000_0000_0000u64) & !0x8000_0000_0000_0000u64) == (f
        & !0x8000_0000_0000_0000u64)) by (bit_vector);
    assert(((f | 0x8000_0000_0000_0000u64) & 0x8000_0000_0000_0000u64) != 0) by (bit_vector);
    assert(((f & !0x8000_0000_0000_0000u64) & !0x8000_0000_0000_0000u64) == (f
        & !0x8000_0000_0000_0000u64)) by (bit_vector);
    assert(((f & !0x8000_0000_0000_0000u64) & 0x8000_0000_0000_0000u64) == 0) by (bit_vector);
    assert((f & !0x8000_0000_0000_0000u64) <= 0x7fff_ffff_ffff_ffffu64) by (bit_vector);
}

impl AllocList {
    /// The chunk size that the header holds.
    pub open spec fn size(&self) -> u64 {
        self.flags_size & !TAKEN_BIT
    }

    /// Whether the chunk is taken.
    pub open spec fn taken(&self) -> bool {
        self.flags_size & TAKEN_BIT != 0
    }

    /// A header with the given size and taken bit.
    pub fn new(size: u64, taken: bool) -> (r: AllocList)
        requires
            size <= MAX_CHUNK,
        ensures
            r.size() == size,
            r.taken() == taken,
    {
        proof {
            lemma_header_bits(0, size);
        }
        if taken {
            AllocList { flags_size: size | TAKEN_BIT }
        } else {
            AllocList { flags_size: size }
        }
    }

    /// Whether the chunk is taken.
    pub fn is_taken(&self) -> (r: bool)
        ensures
            r == self.taken(),
    {
        self.flags_size & AllocListFlags::Taken.val() != 0
    }

    /// Whether the chunk is free.
    pub fn is_free(&self) -> (r: bool)
        ensures
            r == !self.taken(),
    {
        !self.is_taken()
    }

    /// Marks the chunk taken; its size stays.
    pub fn set_taken(&mut self)
        ensures
            final(self).taken(),
            final(self).size() == old(self).size(),
    {
        proof {
            lemma_header_bits(self.flags_size, 0);
        }
        self.flags_size = self.flags_size | AllocListFlags::Taken.val();
    }

    /// Marks the chunk free; its size stays.
    pub fn set_free(&mut self)
        ensures
            !final(self).taken(),
            final(self).size() == old(self).size(),
    {
        proof {
            lemma_header_bits(self.flags_size, 0);
        }
        self.flags_size = self.flags_size & !AllocListFlags::Taken.val();
    }

    /// Sets the size, keeping the taken bit.
    pub fn set_size(&mut self, size: u64)
        ensures
            final(self).size() == size & !TAKEN_BIT,
            size <= MAX_CHUNK ==> final(self).size() == size,
            final(self).taken() == old(self).taken(),
    {
        proof {
            lemma_header_bits(self.flags_size, size);
            lemma_header_bits(size, 0);
            lemma_header_bits(size & !TAKEN_BIT, 0);
        }
        let k = self.is_taken();
        self.flags_size = size & !AllocListFlags::Taken.val();
        if k {
            self.flags_size = self.flags_size | AllocListFlags::Taken.val();
        }
    }

    /// The chunk size.
    pub fn get_size(&self) -> (r: u64)
        ensures
            r == self.size(),
    {
        self.flags_size & !AllocListFlags::Taken.val()
    }
}

/// A chunk as the heap's contracts see it: its size and whether it is taken.
pub open spec fn chunk_of(c: AllocList) -> (int, bool) {
    (c.size() as int, c.taken())
}

/// Sum of the chunk sizes.
pub open spec fn total(s: Seq<(int, bool)>) -> int
    decreases s.len(),
{
    if s.len() == 0 {
        0
    } else {
        s[0].0 + total(s.drop_first())
    }
}

/// Offset of chunk `i` from the start of the heap: the sum of the sizes
/// before it.
pub open spec fn offset_of(s: Seq<(int, bool)>, i: int) -> int {
    total(s.subrange(0, i))
}

/// Chunk sizes of a well-formed heap: at least a header, a multiple of 8.
pub open spec fn chunks_wf(s: Seq<(int, bool)>) -> bool {
    &&& s.len() > 0
    &&& forall|i: int| 0 <= i < s.len() ==> #[trigger] s[i].0 >= HEADER_SIZE && s[i].0 % 8 == 0
    &&& total(s) == KMEM_SPAN
}

/// No two neighbouring chunks are both free.
pub open spec fn no_free_neighbours(s: Seq<(int, bool)>) -> bool {
    forall|i: int| 0 <= i < s.len() - 1 ==> #[trigger] s[i].1 || s[i + 1].1
}

/// The taken chunks, each as its offset and size, in order; `off` is the
/// offset of the first chunk of `s`.
pub open spec fn taken_chunks(s: Seq<(int, bool)>, off: int) -> Seq<(int, int)>
    decreases s.len(),
{
    if s.len() == 0 {
        Seq::empty()
    } else if s[0].1 {
        seq![(off, s[0].0)] + taken_chunks(s.drop_first(), off + s[0].0)
    } else {
        taken_chunks(s.drop_first(), off + s[0].0)
    }
}

/// Size of the chunk that a request of `size` bytes needs: the size rounded
/// up to 8 bytes, plus a header.
pub open spec fn need_of(size: u64) -> int {
    (size + 7) / 8 * 8 + HEADER_SIZE
}

/// Chunk `i` is the first free chunk that holds `need` bytes.
pub open spec fn first_free_fit(s: Seq<(int, bool)>, i: int, need: int) -> bool {
    &&& 0 <= i < s.len()
    &&& !s[i].1 && s[i].0 >= need
    &&& forall|j: int| 0 <= j < i ==> #[trigger] s[j].1 || s[j].0 < need
}

/// The chunks after chunk `i` was taken for `need` bytes: split where the
/// rest is larger than a header, whole otherwise.
pub open spec fn take_chunk(s: Seq<(int, bool)>, i: int, need: int) -> Seq<(int, bool)> {
    if s[i].0 - need > HEADER_SIZE {
        s.subrange(0, i) + seq![(need, true), (s[i].0 - need, false)] + s.subrange(i + 1, s.len() as int)
    } else {
        s.update(i, (s[i].0, true))
    }
}

/// The kernel heap: the address of its first header and its chunks in
/// address order.
pub struct KernelHeap {
    head: u64,
    chunks: Vec<AllocList>,
}

impl KernelHeap {
    /// The chunks, in address order.
    pub closed spec fn view_chunks(&self) -> Seq<(int, bool)> {
        self.chunks@.map_values(|c: AllocList| chunk_of(c))
    }

    /// Address of the first header.
    pub closed spec fn head_addr(&self) -> u64 {
        self.head
    }

    /// Well formed: the chunks cover the span exactly, which fits in the
    /// address space.
    pub open spec fn wf(&self) -> bool {
        &&& chunks_wf(self.view_chunks())
        &&& self.head_addr() + KMEM_SPAN <= u64::MAX
    }

    /// Takes the heap's pages from the page allocator and makes one free
    /// chunk of them; `None` where the allocator has no run that long.
    pub fn init(pages: &mut PageAllocator) -> (r: Option<KernelHeap>)
        requires
            old(pages).wf(),
        ensures
            final(pages).wf(),
            final(pages).start() == old(pages).start(),
            final(pages).flags().len() == old(pages).flags().len(),
            r.is_none() <==> forall|i: int| !#[trigger] window_free(old(pages).flags(), i, KMEM_PAGES as int),
            r.is_some() ==> r->0.wf() && r->0.view_chunks() == seq![(KMEM_SPAN as int, false)]
                && exists|i: int| first_fit(old(pages).flags(), i, KMEM_PAGES as int)
                    && r->0.head_addr() == old(pages).page_addr(i),
    {
        let addr = pages.alloc_pages(KMEM_PAGES);
        if addr == 0 {
            return None;
        }
        let ghost i = choose|i: int| first_fit(old(pages).flags(), i, KMEM_PAGES as int)
            && addr == old(pages).page_addr(i);
        let ghost st = old(pages).start() as int;
        let ghost len = old(pages).flags().len() as int;
        assert(addr + KMEM_SPAN <= u64::MAX) by (nonlinear_arith)
            requires
                addr == st + i * 4096,
                i + 64 <= len,
                st + len * 4096 <= u64::MAX,
        ;
        let mut chunks: Vec<AllocList> = Vec::new();
        chunks.push(AllocList::new(KMEM_SPAN, false));
        let h = KernelHeap { head: addr, chunks };
        assert(h.view_chunks() =~= seq![(KMEM_SPAN as int, false)]);
        assert(total(h.view_chunks()) == KMEM_SPAN) by {
            reveal_with_fuel(total, 2);
        }
        Some(h)
    }

    /// The chunks after header `i` was replaced.
    proof fn lemma_view_set(h: &KernelHeap, bc: Seq<AllocList>, i: int, c: AllocList)
        requires
            0 <= i < bc.len(),
            h.chunks@ == bc.update(i, c),
        ensures
            h.view_chunks() == bc.map_values(|c: AllocList| chunk_of(c)).update(i, chunk_of(c)),
    {
        let v = bc.map_values(|c: AllocList| chunk_of(c));
        assert forall|m: int| 0 <= m < v.len() implies h.view_chunks()[m] == v.update(i, chunk_of(c))[m] by {
            if m != i {
                assert(h.chunks@[m] == bc[m]);
            }
        }
        assert(h.view_chunks() =~= v.update(i, chunk_of(c)));
    }

    /// The chunks after a header was put in at `i`.
    proof fn lemma_view_insert(h: &KernelHeap, bc: Seq<AllocList>, i: int, c: AllocList)
        requires
            0 <= i <= bc.len(),
            h.chunks@ == bc.insert(i, c),
        ensures
            h.view_chunks() == bc.map_values(|c: AllocList| chunk_of(c)).insert(i, chunk_of(c)),
    {
        let v = bc.map_values(|c: AllocList| chunk_of(c));
        assert forall|m: int| 0 <= m < v.len() + 1 implies h.view_chunks()[m] == v.insert(i, chunk_of(c))[m] by {
            if m < i {
                assert(h.chunks@[m] == bc[m]);
            } else if m > i {
                assert(h.chunks@[m] == bc[m - 1]);
            }
        }
        assert(h.view_chunks() =~= v.insert(i, chunk_of(c)));
    }

    /// The chunks after header `i` was taken out.
    proof fn lemma_view_remove(h: &KernelHeap, bc: Seq<AllocList>, i: int)
        requires
            0 <= i < bc.len(),
            h.chunks@ == bc.remove(i),
        ensures
            h.view_chunks() == bc.map_values(|c: AllocList| chunk_of(c)).remove(i),
    {
        let v = bc.map_values(|c: AllocList| chunk_of(c));
        assert forall|m: int| 0 <= m < v.len() - 1 implies h.view_chunks()[m] == v.remove(i)[m] by {
            if m < i {
                assert(h.chunks@[m] == bc[m]);
            } else {
                assert(h.chunks@[m] == bc[m + 1]);
            }
        }
        assert(h.view_chunks() =~= v.remove(i));
    }

    /// Takes the first free chunk that holds `size` bytes (rounded up to 8)
    /// and a header, splitting off the rest where it is larger than a header.
    /// Returns the address just past the chunk's header, or 0 where no free
    /// chunk is large enough.
    pub fn kmalloc(&mut self, size: u64) -> (r: u64)
        requires
            old(self).wf(),
            size <= MAX_CHUNK - 16,
        ensures
            final(self).wf(),
            final(self).head_addr() == old(self).head_addr(),
            r == 0 <==> forall|i: int|
                0 <= i < old(self).view_chunks().len() ==> #[trigger] old(self).view_chunks()[i].1
                    || old(self).view_chunks()[i].0 < need_of(size),
            r == 0 ==> final(self).view_chunks() == old(self).view_chunks(),
            r != 0 ==> exists|i: int|
                first_free_fit(old(self).view_chunks(), i, need_of(size)) && r == old(self).head_addr()
                    + offset_of(old(self).view_chunks(), i) + HEADER_SIZE && final(self).view_chunks()
                    == take_chunk(old(self).view_chunks(), i, need_of(size)),
    {
        let ghost s = self.view_chunks();
        let need: u64 = (size + 7) / 8 * 8 + HEADER_SIZE;
        let mut off: u64 = 0;
        let mut i: usize = 0;
        proof {
            assert(s.subrange(0, 0) =~= Seq::<(int, bool)>::empty());
        }
        while i < self.chunks.len()
            invariant
                0 <= i <= s.len(),
                self.chunks@.len() == s.len(),
                self.view_chunks() == s,
                s == old(self).view_chunks(),
                self.head == old(self).head_addr(),
                self.wf(),
                need == need_of(size),
                off == offset_of(s, i as int),
                off <= KMEM_SPAN,
                forall|j: int| 0 <= j < i ==> #[trigger] s[j].1 || s[j].0 < need,
            decreases s.len() - i,
        {
            let c = self.chunks[i];
            proof {
                lemma_total_split(s, i as int);
                assert(s[i as int] == chunk_of(c));
                lemma_total_nonneg(s.subrange(i + 1, s.len() as int));
            }
            if c.is_free() && need <= c.get_size() {
                let chunk_size = c.get_size();
                let rem = chunk_size - need;
                let mut c2 = c;
                c2.set_taken();
                let ghost bc = self.chunks@;
                let ghost pre = s.subrange(0, i as int);
                let ghost post = s.subrange(i + 1, s.len() as int);
                if rem > HEADER_SIZE {
                    c2.set_size(need);
                    self.chunks.set(i, c2);
                    proof {
                        Self::lemma_view_set(self, bc, i as int, c2);
                    }
                    let ghost bc2 = self.chunks@;
                    let n = AllocList::new(rem, false);
                    self.chunks.insert(i + 1, n);
                    proof {
                        Self::lemma_view_insert(self, bc2, i + 1, n);
                        let t = take_chunk(s, i as int, need as int);
                        assert(self.view_chunks() =~= t);
                        assert(t =~= pre + (seq![(need as int, true)] + seq![(rem as int, false)]) + post);
                        lemma_total_concat(pre + (seq![(need as int, true)] + seq![(rem as int, false)]), post);
                        lemma_total_concat(pre, seq![(need as int, true)] + seq![(rem as int, false)]);
                        lemma_total_concat(seq![(need as int, true)], seq![(rem as int, false)]);
                        lemma_total_one((need as int, true));
                        lemma_total_one((rem as int, false));
                        assert(s.subrange(0, i as int + 1) =~= pre + seq![s[i as int]]);
                        lemma_total_concat(pre, seq![s[i as int]]);
                        lemma_total_one(s[i as int]);
                        assert forall|j: int| 0 <= j < t.len() implies #[trigger] t[j].0 >= HEADER_SIZE
                            && t[j].0 % 8 == 0 by {
                            if j < i {
                                assert(t[j] == s[j]);
                            } else if j > i + 1 {
                                assert(t[j] == s[j - 1]);
                            }
                        }
                    }
                } else {
                    c2.set_size(chunk_size);
                    self.chunks.set(i, c2);
                    proof {
                        Self::lemma_view_set(self, bc, i as int, c2);
                        let t = take_chunk(s, i as int, need as int);
                        assert(self.view_chunks() =~= t);
                        assert(t =~= pre + seq![t[i as int]] + post);
                        assert(s =~= pre + seq![s[i as int]] + post);
                        lemma_total_concat(pre + seq![t[i as int]], post);
                        lemma_total_concat(pre, seq![t[i as int]]);
                        lemma_total_concat(pre + seq![s[i as int]], post);
                        lemma_total_concat(pre, seq![s[i as int]]);
                        lemma_total_one(t[i as int]);
                        lemma_total_one(s[i as int]);
                        assert forall|j: int| 0 <= j < t.len() implies #[trigger] t[j].0 >= HEADER_SIZE
                            && t[j].0 % 8 == 0 by {
                            if j != i {
                                assert(t[j] == s[j]);
                            }
                        }
                    }
                }
                let r = self.head + off + HEADER_SIZE;
                assert(first_free_fit(s, i as int, need as int));
                return r;
            }
            off = off + c.get_size();
            i = i + 1;
        }
        0
    }

    /// Frees the chunk whose data starts at `ptr`, then merges free
    /// neighbours. A null pointer changes nothing.
    pub fn kfree(&mut self, ptr: u64)
        requires
            old(self).wf(),
        ensures
            final(self).wf(),
            final(self).head_addr() == old(self).head_addr(),
            ptr == 0 ==> final(self).view_chunks() == old(self).view_chunks(),
            ptr != 0 ==> coalesced(
                freed(old(self).view_chunks(), old(self).head_addr(), ptr),
                final(self).view_chunks(),
            ),
    {
        if ptr == 0 {
            return;
        }
        let ghost s = self.view_chunks();
        let mut off: u64 = 0;
        let mut i: usize = 0;
        proof {
            assert(s.subrange(0, 0) =~= Seq::<(int, bool)>::empty());
        }
        let mut done = false;
        while i < self.chunks.len() && !done
            invariant
                0 <= i <= s.len(),
                self.chunks@.len() == s.len(),
                s == old(self).view_chunks(),
                self.head == old(self).head_addr(),
                self.wf(),
                off == offset_of(s, i as int),
                off <= KMEM_SPAN,
                !done ==> self.view_chunks() == s,
                done ==> self.view_chunks() == freed(s, self.head, ptr),
                !done ==> forall|j: int| 0 <= j < i ==> #[trigger] offset_of(s, j) + self.head + HEADER_SIZE != ptr,
            decreases s.len() - i + if done { 0int } else { 1int },
        {
            let c = self.chunks[i];
            proof {
                lemma_total_split(s, i as int);
                assert(s[i as int] == chunk_of(c));
                lemma_total_nonneg(s.subrange(i + 1, s.len() as int));
            }
            if self.head + off + HEADER_SIZE == ptr {
                let mut c2 = c;
                if c2.is_taken() {
                    c2.set_free();
                }
                let ghost bc = self.chunks@;
                self.chunks.set(i, c2);
                proof {
                    Self::lemma_view_set(self, bc, i as int, c2);
                    let t = s.update(i as int, (s[i as int].0, false));
                    assert(self.view_chunks() =~= t);
                    assert(forall|j: int| 0 <= j < t.len() && j != i ==> t[j] == s[j]);
                    let k = choose|k: int| 0 <= k < s.len() && self.head + offset_of(s, k) + HEADER_SIZE == ptr;
                    if k < i {
                        assert(offset_of(s, k) + self.head + HEADER_SIZE != ptr);
                    } else if k > i {
                        lemma_offsets_increase(s, i as int, k);
                    }
                    assert(freed(s, self.head, ptr) == t);
                    lemma_chunks_wf_update(s, i as int);
                }
                done = true;
            } else {
                off = off + c.get_size();
                i = i + 1;
            }
        }
        proof {
            if !done {
                assert(freed(s, self.head, ptr) == s);
            }
        }
        self.coalesce();
    }

    /// Merges every run of neighbouring free chunks into one, left to right.
    pub fn coalesce(&mut self)
        requires
            old(self).wf(),
        ensures
            final(self).wf(),
            final(self).head_addr() == old(self).head_addr(),
            coalesced(old(self).view_chunks(), final(self).view_chunks()),
    {
        let ghost s = self.view_chunks();
        let mut i: usize = 0;
        while i < self.chunks.len() - 1
            invariant
                self.wf(),
                self.head == old(self).head_addr(),
                s == old(self).view_chunks(),
                i < self.chunks@.len(),
                self.chunks@.len() == self.view_chunks().len(),
                forall|j: int| 0 <= j < i ==> #[trigger] self.view_chunks()[j].1 || self.view_chunks()[j + 1].1,
                taken_chunks(self.view_chunks(), 0) == taken_chunks(s, 0),
                no_free_neighbours(s) ==> self.view_chunks() == s,
            decreases 2 * self.chunks@.len() - i,
        {
            let a = self.chunks[i];
            let b = self.chunks[i + 1];
            let ghost v = self.view_chunks();
            proof {
                assert(v[i as int] == chunk_of(a));
                assert(v[i + 1] == chunk_of(b));
            }
            if a.is_free() && b.is_free() {
                proof {
                    lemma_total_split(v, i as int);
                    lemma_total_split(v, i + 1);
                    lemma_total_nonneg(v.subrange(0, i as int));
                    lemma_total_nonneg(v.subrange(i + 2, v.len() as int));
                }
                let mut c = a;
                c.set_size(a.get_size() + b.get_size());
                let ghost bc = self.chunks@;
                self.chunks.set(i, c);
                proof {
                    Self::lemma_view_set(self, bc, i as int, c);
                }
                let ghost bc2 = self.chunks@;
                self.chunks.remove(i + 1);
                proof {
                    Self::lemma_view_remove(self, bc2, i + 1);
                    let pre = v.subrange(0, i as int);
                    let post = v.subrange(i + 2, v.len() as int);
                    let merged = (v[i as int].0 + v[i + 1].0, false);
                    let t = self.view_chunks();
                    assert(t =~= pre + seq![merged] + post);
                    lemma_merge_keeps_taken(v, i as int, 0);
                    assert(v =~= pre + (seq![v[i as int]] + seq![v[i + 1]]) + post);
                    lemma_total_concat(pre + (seq![v[i as int]] + seq![v[i + 1]]), post);
                    lemma_total_concat(pre, seq![v[i as int]] + seq![v[i + 1]]);
                    lemma_total_concat(seq![v[i as int]], seq![v[i + 1]]);
                    lemma_total_concat(pre + seq![merged], post);
                    lemma_total_concat(pre, seq![merged]);
                    lemma_total_one(merged);
                    lemma_total_one(v[i as int]);
                    lemma_total_one(v[i + 1]);
                    assert forall|j: int| 0 <= j < t.len() implies #[trigger] t[j].0 >= HEADER_SIZE
                        && t[j].0 % 8 == 0 by {
                        if j < i {
                            assert(t[j] == v[j]);
                        } else if j > i {
                            assert(t[j] == v[j + 1]);
                        }
                    }
                    assert forall|j: int| 0 <= j < i implies #[trigger] t[j].1 || t[j + 1].1 by {
                        assert(t[j] == v[j]);
                        if j + 1 < i {
                            assert(t[j + 1] == v[j + 1]);
                        } else {
                            assert(v[j].1 || v[j + 1].1);
                        }
                    }
                    if no_free_neighbours(s) {
                        assert(v[i as int].1 || v[i + 1].1);
                    }
                }
            } else {
                i = i + 1;
            }
        }
        proof {
            let t = self.view_chunks();
            assert forall|j: int| 0 <= j < t.len() - 1 implies #[trigger] t[j].1 || t[j + 1].1 by {}
        }
    }

    /// The chunks in address order, as size and taken bit, read by walking
    /// the headers.
    pub fn walk(&self) -> (r: Vec<(u64, bool)>)
        ensures
            r@.len() == self.view_chunks().len(),
            forall|i: int|
                0 <= i < r@.len() ==> (#[trigger] r@[i]).0 as int == self.view_chunks()[i].0 && r@[i].1
                    == self.view_chunks()[i].1,
    {
        let mut out: Vec<(u64, bool)> = Vec::new();
        let mut i: usize = 0;
        while i < self.chunks.len()
            invariant
                i <= self.chunks@.len(),
                out@.len() == i,
                forall|j: int|
                    0 <= j < i ==> (#[trigger] out@[j]).0 as int == self.view_chunks()[j].0 && out@[j].1
                        == self.view_chunks()[j].1,
            decreases self.chunks@.len() - i,
        {
            let c = self.chunks[i];
            out.push((c.get_size(), c.is_taken()));
            i = i + 1;
        }
        out
    }

    /// Address of the first header.
    pub fn get_head(&self) -> (r: u64)
        ensures
            r == self.head_addr(),
    {
        self.head
    }

    /// Number of pages that the heap spans.
    pub fn get_num_allocations(&self) -> (r: usize)
        ensures
            r == KMEM_PAGES,
    {
        KMEM_PAGES
    }
}

/// Sum of the sizes of two chunk lists one after the other.
pub proof fn lemma_total_concat(a: Seq<(int, bool)>, b: Seq<(int, bool)>)
    ensures
        total(a + b) == total(a) + total(b),
    decreases a.len(),
{
    if a.len() == 0 {
        assert(a + b =~= b);
    } else {
        assert((a + b).drop_first() =~= a.drop_first() + b);
        lemma_total_concat(a.drop_first(), b);
    }
}

/// Sum of the sizes of a single chunk.
pub proof fn lemma_total_one(c: (int, bool))
    ensures
        total(seq![c]) == c.0,
{
    assert(seq![c].drop_first() =~= Seq::<(int, bool)>::empty());
    reveal_with_fuel(total, 2);
}

/// A sum of sizes of chunks that hold a header is not negative.
pub proof fn lemma_total_nonneg(s: Seq<(int, bool)>)
    requires
        forall|i: int| 0 <= i < s.len() ==> #[trigger] s[i].0 >= HEADER_SIZE,
    ensures
        total(s) >= 0,
    decreases s.len(),
{
    if s.len() > 0 {
        assert forall|i: int| 0 <= i < s.drop_first().len() implies #[trigger] s.drop_first()[i].0
            >= HEADER_SIZE by {
            assert(s.drop_first()[i] == s[i + 1]);
        }
        lemma_total_nonneg(s.drop_first());
    }
}

/// The sum of the sizes split around chunk `i`.
pub proof fn lemma_total_split(s: Seq<(int, bool)>, i: int)
    requires
        0 <= i < s.len(),
    ensures
        total(s) == offset_of(s, i) + s[i].0 + total(s.subrange(i + 1, s.len() as int)),
        offset_of(s, i + 1) == offset_of(s, i) + s[i].0,
{
    let pre = s.subrange(0, i);
    let post = s.subrange(i + 1, s.len() as int);
    assert(s =~= pre + seq![s[i]] + post);
    assert(s.subrange(0, i + 1) =~= pre + seq![s[i]]);
    lemma_total_concat(pre + seq![s[i]], post);
    lemma_total_concat(pre, seq![s[i]]);
    lemma_total_one(s[i]);
}

/// Merging two neighbouring free chunks leaves the taken chunks as they were.
pub proof fn lemma_merge_keeps_taken(s: Seq<(int, bool)>, i: int, off: int)
    requires
        0 <= i,
        i + 1 < s.len(),
        !s[i].1,
        !s[i + 1].1,
    ensures
        taken_chunks(s, off) == taken_chunks(
            s.subrange(0, i) + seq![(s[i].0 + s[i + 1].0, false)] + s.subrange(i + 2, s.len() as int),
            off,
        ),
    decreases i,
{
    let m = s.subrange(0, i) + seq![(s[i].0 + s[i + 1].0, false)] + s.subrange(i + 2, s.len() as int);
    if i == 0 {
        assert(m.drop_first() =~= s.subrange(2, s.len() as int));
        assert(s.drop_first().drop_first() =~= s.subrange(2, s.len() as int));
        assert(taken_chunks(s, off) == taken_chunks(s.drop_first(), off + s[0].0));
        assert(taken_chunks(s.drop_first(), off + s[0].0) == taken_chunks(
            s.drop_first().drop_first(),
            off + s[0].0 + s[1].0,
        ));
        assert(taken_chunks(m, off) == taken_chunks(m.drop_first(), off + s[0].0 + s[1].0));
    } else {
        let t = s.drop_first();
        lemma_merge_keeps_taken(t, i - 1, off + s[0].0);
        assert(m.drop_first() =~= t.subrange(0, i - 1) + seq![(t[i - 1].0 + t[i].0, false)]
            + t.subrange(i + 1, t.len() as int));
        assert(m[0] == s[0]);
    }
}

/// What a pass of `coalesce` leaves: a well-formed heap with no two free
/// neighbours, the same taken chunks at the same offsets, and nothing changed
/// where there was nothing to merge.
pub open spec fn coalesced(before: Seq<(int, bool)>, after: Seq<(int, bool)>) -> bool {
    &&& chunks_wf(after)
    &&& no_free_neighbours(after)
    &&& taken_chunks(after, 0) == taken_chunks(before, 0)
    &&& no_free_neighbours(before) ==> after == before
}

/// `coalesce` run twice in a row: the second pass changes nothing.
pub proof fn lemma_coalesce_idempotent(
    s0: Seq<(int, bool)>,
    s1: Seq<(int, bool)>,
    s2: Seq<(int, bool)>,
)
    requires
        coalesced(s0, s1),
        coalesced(s1, s2),
    ensures
        s2 == s1,
{
}

/// The chunks after the chunk whose data starts at `ptr` was marked free;
/// unchanged where no chunk's data starts there.
pub open spec fn freed(s: Seq<(int, bool)>, head: u64, ptr: u64) -> Seq<(int, bool)> {
    if exists|i: int| 0 <= i < s.len() && head + offset_of(s, i) + HEADER_SIZE == ptr {
        let i = choose|i: int| 0 <= i < s.len() && head + offset_of(s, i) + HEADER_SIZE == ptr;
        s.update(i, (s[i].0, false))
    } else {
        s
    }
}

/// Offsets grow with the chunk index.
pub proof fn lemma_offsets_increase(s: Seq<(int, bool)>, i: int, k: int)
    requires
        chunks_wf(s),
        0 <= i < k < s.len(),
    ensures
        offset_of(s, i) < offset_of(s, k),
    decreases k - i,
{
    lemma_total_split(s, k - 1);
    if i < k - 1 {
        lemma_offsets_increase(s, i, k - 1);
    }
}

/// Marking a chunk free keeps the sizes well formed.
pub proof fn lemma_chunks_wf_update(s: Seq<(int, bool)>, i: int)
    requires
        chunks_wf(s),
        0 <= i < s.len(),
    ensures
        chunks_wf(s.update(i, (s[i].0, false))),
{
    let t = s.update(i, (s[i].0, false));
    let pre = s.subrange(0, i);
    let post = s.subrange(i + 1, s.len() as int);
    assert(t =~= pre + seq![t[i]] + post);
    assert(s =~= pre + seq![s[i]] + post);
    lemma_total_concat(pre + seq![t[i]], post);
    lemma_total_concat(pre, seq![t[i]]);
    lemma_total_concat(pre + seq![s[i]], post);
    lemma_total_concat(pre, seq![s[i]]);
    lemma_total_one(t[i]);
    lemma_total_one(s[i]);
    assert forall|j: int| 0 <= j < t.len() implies #[trigger] t[j].0 >= HEADER_SIZE && t[j].0 % 8
        == 0 by {
        assert(s[j].0 >= HEADER_SIZE);
    }
}

} // verus!
