//! Physical page allocator: one descriptor byte per page of the heap region,
//! contiguous runs of pages handed out first-fit.
use vstd::prelude::*;

verus! {

/// log2 of the page size.
pub const PAGE_ORDER: u64 = 12;

/// Size of a page, in bytes.
pub const PAGE_SIZE: u64 = 4096;

/// Flags of a free descriptor.
pub const FLAGS_FREE: u8 = 0;

/// Flags of a taken descriptor that a later one of its run follows.
pub const FLAGS_TAKEN: u8 = 1;

/// Flags of the last descriptor of a run.
pub const FLAGS_LAST: u8 = 3;

/// `val` rounded up to a multiple of `2^order`.
pub open spec fn align_spec(val: u64, order: u64) -> u64 {
    ((val + ((1u64 << order) - 1)) as u64) & !(((1u64 << order) - 1) as u64)
}

/// Rounds `val` up to a multiple of `2^order`.
pub fn align_val(val: u64, order: u64) -> (r: u64)
    requires
        order < 64,
        val + ((1u64 << order) - 1) <= u64::MAX,
    ensures
        r == align_spec(val, order),
{
    assert(1u64 << order >= 1) by (bit_vector)
        requires
            order < 64,
    ;
    let o = (1u64 << order) - 1;
    (val + o) & !o
}

/// The flag bits of a page descriptor.
#[derive(Clone, Copy, Debug, PartialEq, Eq, Structural)]
pub enum PageBits {
    Empty,
    Taken,
    Last,
}

impl PageBits {
    pub open spec fn spec_val(&self) -> u8 {
        match self {
            PageBits::Empty => 0,
            PageBits::Taken => 1,
            PageBits::Last => 2,
        }
    }

    /// The bit of the flag.
    pub fn val(&self) -> (r: u8)
        ensures
            r == self.spec_val(),
    {
        match self {
            PageBits::Empty => 0,
            PageBits::Taken => 1,
            PageBits::Last => 2,
        }
    }
}

/// The descriptor of one physical page.
#[derive(Clone, Copy, Debug)]
pub struct Page {
    flags: u8,
}

impl View for Page {
    type V = u8;

    closed spec fn view(&self) -> u8 {
        self.flags
    }
}

impl Page {
    /// A descriptor with the given flags.
    pub fn from_flags(flags: u8) -> (r: Page)
        ensures
            r@ == flags,
    {
        Page { flags }
    }

    /// The flag byte.
    pub fn flags(&self) -> (r: u8)
        ensures
            r == self@,
    {
        self.flags
    }

    /// Whether the page ends its run.
    pub fn is_last(&self) -> (r: bool)
        ensures
            r == (self@ & 2 != 0),
    {
        self.flags & PageBits::Last.val() != 0
    }

    /// Whether the page belongs to a run.
    pub fn is_taken(&self) -> (r: bool)
        ensures
            r == (self@ & 1 != 0),
    {
        self.flags & PageBits::Taken.val() != 0
    }

    /// Whether the page is free.
    pub fn is_free(&self) -> (r: bool)
        ensures
            r == (self@ & 1 == 0),
    {
        !self.is_taken()
    }

    /// Clears every flag.
    pub fn clear(&mut self)
        ensures
            final(self)@ == 0,
    {
        self.flags = PageBits::Empty.val();
    }

    /// Sets one flag.
    pub fn set_flag(&mut self, flag: PageBits)
        ensures
            final(self)@ == old(self)@ | flag.spec_val(),
    {
        self.flags = self.flags | flag.val();
    }

    /// Clears one flag.
    pub fn clear_flag(&mut self, flag: PageBits)
        ensures
            final(self)@ == old(self)@ & !flag.spec_val(),
    {
        self.flags = self.flags & !flag.val();
    }
}

/// Descriptors whose flags are those of the allocator: free, taken, or last
/// of a run; a taken page that is not last is followed by a taken page.
pub open spec fn runs_wf(s: Seq<u8>) -> bool {
    &&& forall|k: int| 0 <= k < s.len() ==> #[trigger] s[k] == FLAGS_FREE || s[k] == FLAGS_TAKEN || s[k] == FLAGS_LAST
    &&& forall|k: int| 0 <= k < s.len() && #[trigger] s[k] == FLAGS_TAKEN ==> k + 1 < s.len() && s[k + 1] != FLAGS_FREE
}

/// Pages `[i, i + n)` exist and are free.
pub open spec fn window_free(s: Seq<u8>, i: int, n: int) -> bool {
    &&& 0 <= i
    &&& i + n <= s.len()
    &&& forall|k: int| i <= k < i + n ==> #[trigger] s[k] == FLAGS_FREE
}

/// Somewhere `n` free pages follow one another.
pub open spec fn has_window(s: Seq<u8>, n: int) -> bool {
    exists|j: int| #[trigger] window_free(s, j, n)
}

/// `i` is the lowest page at which `n` free pages start.
pub open spec fn first_fit(s: Seq<u8>, i: int, n: int) -> bool {
    &&& window_free(s, i, n)
    &&& forall|j: int| 0 <= j < i ==> !#[trigger] window_free(s, j, n)
}

/// The descriptors after pages `[i, i + n)` became one run.
pub open spec fn mark_run(s: Seq<u8>, i: int, n: int) -> Seq<u8> {
    Seq::new(
        s.len(),
        |k: int|
            if i <= k < i + n - 1 {
                FLAGS_TAKEN
            } else if k == i + n - 1 {
                FLAGS_LAST
            } else {
                s[k]
            },
    )
}

/// The descriptors after pages `[i, e)` were freed.
pub open spec fn clear_range(s: Seq<u8>, i: int, e: int) -> Seq<u8> {
    Seq::new(s.len(), |k: int| if i <= k < e { FLAGS_FREE } else { s[k] })
}

/// A run starts at page `i`: it is taken, and no run goes on into it.
pub open spec fn run_start(s: Seq<u8>, i: int) -> bool {
    &&& 0 <= i < s.len()
    &&& s[i] != FLAGS_FREE
    &&& (i == 0 || s[i - 1] != FLAGS_TAKEN)
}

/// The run that starts at `i` ends at page `e`.
pub open spec fn run_ends_at(s: Seq<u8>, i: int, e: int) -> bool {
    &&& i <= e < s.len()
    &&& s[e] == FLAGS_LAST
    &&& forall|k: int| i <= k < e ==> #[trigger] s[k] == FLAGS_TAKEN
}

/// The physical page allocator: a descriptor per page and the address of the
/// first page.
pub struct PageAllocator {
    pages: Vec<Page>,
    alloc_start: u64,
}

impl PageAllocator {
    /// The flag byte of each descriptor.
    pub closed spec fn flags(&self) -> Seq<u8> {
        self.pages@.map_values(|p: Page| p@)
    }

    /// Address of the first page that is handed out.
    pub closed spec fn start(&self) -> u64 {
        self.alloc_start
    }

    /// Well-formed: the descriptors form runs, and every page address fits.
    pub open spec fn wf(&self) -> bool {
        &&& runs_wf(self.flags())
        &&& self.start() > 0
        &&& self.start() & 0xfff == 0
        &&& self.start() + self.flags().len() * PAGE_SIZE <= u64::MAX
    }

    /// Address of page `i`.
    pub open spec fn page_addr(&self, i: int) -> int {
        self.start() + i * PAGE_SIZE
    }

    /// Sets up the allocator over the heap region `[heap_start, heap_start +
    /// heap_size)`: a descriptor per page at its start, every page free, the
    /// pages themselves from the first page boundary past the descriptors.
    pub fn init(heap_start: u64, heap_size: u64) -> (r: PageAllocator)
        requires
            heap_start > 0,
            heap_start + 2 * heap_size + PAGE_SIZE <= u64::MAX,
        ensures
            r.wf(),
            r.flags().len() == heap_size / PAGE_SIZE,
            forall|k: int| 0 <= k < r.flags().len() ==> #[trigger] r.flags()[k] == FLAGS_FREE,
            r.start() == align_spec((heap_start + heap_size / PAGE_SIZE) as u64, PAGE_ORDER),
            r.start() <= heap_start + heap_size / PAGE_SIZE + 4095,
    {
        let num_pages: u64 = heap_size / PAGE_SIZE;
        let mut pages: Vec<Page> = Vec::new();
        let mut i: u64 = 0;
        while i < num_pages
            invariant
                i <= num_pages,
                pages@.len() == i,
                forall|k: int| 0 <= k < i ==> (#[trigger] pages@[k])@ == FLAGS_FREE,
            decreases num_pages - i,
        {
            pages.push(Page { flags: FLAGS_FREE });
            i = i + 1;
        }
        let end = heap_start + num_pages;
        assert(1u64 << 12u64 == 4096) by (bit_vector);
        let alloc_start = align_val(end, PAGE_ORDER);
        assert(alloc_start >= end && alloc_start <= end + 4095 && alloc_start & 0xfff == 0)
            by (bit_vector)
            requires
                alloc_start == ((end + 4095) as u64) & !4095u64,
                end <= u64::MAX - 4095,
        ;
        let r = PageAllocator { pages, alloc_start };
        assert(r.flags().len() == num_pages);
        assert(num_pages * PAGE_SIZE <= heap_size) by (nonlinear_arith)
            requires
                num_pages == heap_size / PAGE_SIZE,
        ;
        r
    }

    /// Allocates `pages` contiguous pages at the lowest place where that many
    /// free pages follow one another; 0 where there is none.
    pub fn alloc_pages(&mut self, pages: usize) -> (r: u64)
        requires
            old(self).wf(),
            pages > 0,
        ensures
            final(self).wf(),
            final(self).start() == old(self).start(),
            final(self).flags().len() == old(self).flags().len(),
            r == 0 <==> forall|i: int| !#[trigger] window_free(old(self).flags(), i, pages as int),
            r == 0 ==> final(self).flags() == old(self).flags(),
            r != 0 ==> r & 0xfff == 0,
            r != 0 ==> exists|i: int|
                first_fit(old(self).flags(), i, pages as int) && r == old(self).page_addr(i)
                    && final(self).flags() == mark_run(old(self).flags(), i, pages as int),
    {
        let ghost s = self.flags();
        let ghost st = self.start();
        let num = self.pages.len();
        if pages > num {
            assert forall|i: int| !#[trigger] window_free(s, i, pages as int) by {}
            return 0;
        }
        let mut i: usize = 0;
        while i <= num - pages
            invariant
                num == s.len(),
                self.pages@.len() == num,
                0 < pages <= num,
                i <= num - pages + 1,
                self.start() == st,
                st == old(self).start(),
                s == old(self).flags(),
                self.flags() == s,
                self.wf(),
                forall|j: int| 0 <= j < i ==> !#[trigger] window_free(s, j, pages as int),
            decreases num - pages + 1 - i,
        {
            let mut found = self.pages[i].is_free();
            proof {
                lemma_flag_bits(s[i as int]);
            }
            if found {
                let mut j: usize = i;
                while j < i + pages
                    invariant_except_break
                        i <= j <= i + pages,
                        i + pages <= num,
                        self.pages@.len() == num,
                        self.flags() == s,
                        self.start() == st,
                st == old(self).start(),
                s == old(self).flags(),
                        runs_wf(s),
                        found,
                        forall|k: int| i <= k < j ==> #[trigger] s[k] == FLAGS_FREE,
                    ensures
                        self.pages@.len() == num,
                        self.start() == st,
                st == old(self).start(),
                s == old(self).flags(),
                        self.flags() == s,
                        found <==> window_free(s, i as int, pages as int),
                    decreases i + pages - j,
                {
                    proof {
                        lemma_flag_bits(s[j as int]);
                    }
                    if self.pages[j].is_taken() {
                        found = false;
                        break;
                    }
                    j = j + 1;
                }
            }
            if found {
                assert(first_fit(s, i as int, pages as int));
                let mut k: usize = i;
                while k < i + pages - 1
                    invariant
                        i <= k <= i + pages - 1,
                        i + pages <= num,
                        num == s.len(),
                        self.pages@.len() == num,
                        self.start() == st,
                st == old(self).start(),
                s == old(self).flags(),
                        self.flags().len() == num,
                        forall|m: int|
                            0 <= m < num ==> #[trigger] self.flags()[m] == if i <= m < k {
                                FLAGS_TAKEN
                            } else {
                                s[m]
                            },
                        window_free(s, i as int, pages as int),
                        runs_wf(s),
                    decreases i + pages - 1 - k,
                {
                    let mut pg = self.pages[k];
                    assert(self.flags()[k as int] == s[k as int]);
                    assert(pg@ == FLAGS_FREE);
                    pg.set_flag(PageBits::Taken);
                    assert(pg@ == FLAGS_TAKEN) by {
                        lemma_set_flag_bits();
                    }
                    let ghost bp = self.pages@;
                    self.pages.set(k, pg);
                    proof {
                        Self::lemma_flags_update(self, bp, k as int, pg);
                    }
                    k = k + 1;
                }
                let last = i + pages - 1;
                let mut pg = self.pages[last];
                assert(self.flags()[last as int] == s[last as int]);
                assert(pg@ == FLAGS_FREE);
                pg.set_flag(PageBits::Taken);
                assert(pg@ == FLAGS_TAKEN) by {
                    lemma_set_flag_bits();
                }
                pg.set_flag(PageBits::Last);
                assert(pg@ == FLAGS_LAST) by {
                    lemma_set_flag_bits();
                }
                let ghost bp = self.pages@;
                self.pages.set(last, pg);
                proof {
                    Self::lemma_flags_update(self, bp, last as int, pg);
                }
                assert(self.flags() =~= mark_run(s, i as int, pages as int));
                proof {
                    lemma_mark_run_wf(s, i as int, pages as int);
                }
                assert((i as int) * 4096 <= (num as int) * 4096) by (nonlinear_arith)
                    requires
                        i <= num,
                ;
                let r = self.alloc_start + PAGE_SIZE * (i as u64);
                proof {
                    lemma_page_aligned(self.alloc_start, i as u64);
                }
                assert(first_fit(s, i as int, pages as int) && r == old(self).page_addr(i as int)
                    && self.flags() == mark_run(s, i as int, pages as int));
                return r;
            }
            i = i + 1;
        }
        0
    }

    /// The flags after descriptor `k` was replaced.
    proof fn lemma_flags_update(a: &PageAllocator, bp: Seq<Page>, k: int, pg: Page)
        requires
            0 <= k < bp.len(),
            a.pages@ == bp.update(k, pg),
        ensures
            a.flags() == bp.map_values(|p: Page| p@).update(k, pg@),
    {
        let before = bp.map_values(|p: Page| p@);
        assert forall|m: int| 0 <= m < before.len() implies a.flags()[m] == before.update(k, pg@)[m] by {
            if m != k {
                assert(a.pages@[m] == bp[m]);
            }
        }
        assert(a.flags() =~= before.update(k, pg@));
    }

    /// Descriptor index of address `ptr`.
    pub open spec fn page_index(&self, ptr: u64) -> int {
        (ptr - self.start()) / PAGE_SIZE as int
    }

    /// A run of this allocator starts at address `ptr`.
    pub open spec fn live_at(&self, ptr: u64) -> bool {
        &&& ptr >= self.start()
        &&& run_start(self.flags(), self.page_index(ptr))
    }

    /// Frees the run that starts at address `ptr`. Where no run starts there
    /// (a second free of it, an address inside a run or outside the pages)
    /// nothing changes and the result is false.
    #[verifier::rlimit(40)]
    pub fn dealloc(&mut self, ptr: u64) -> (r: bool)
        requires
            old(self).wf(),
        ensures
            final(self).wf(),
            final(self).start() == old(self).start(),
            final(self).flags().len() == old(self).flags().len(),
            r == old(self).live_at(ptr),
            r ==> exists|e: int|
                run_ends_at(old(self).flags(), old(self).page_index(ptr), e) && final(self).flags()
                    == clear_range(old(self).flags(), old(self).page_index(ptr), e + 1),
            !r ==> final(self).flags() == old(self).flags(),
            !final(self).live_at(ptr),
            forall|p: u64| #[trigger] final(self).live_at(p) ==> old(self).live_at(p),
    {
        let ghost s = self.flags();
        let ghost st = self.start();
        if ptr < self.alloc_start {
            return false;
        }
        let idx: u64 = (ptr - self.alloc_start) / PAGE_SIZE;
        let num = self.pages.len();
        if idx >= num as u64 {
            return false;
        }
        let i = idx as usize;
        proof {
            lemma_flag_bits(s[i as int]);
        }
        if !self.pages[i].is_taken() {
            return false;
        }
        if i > 0 {
            proof {
                lemma_flag_bits(s[i - 1]);
            }
            if self.pages[i - 1].is_taken() && !self.pages[i - 1].is_last() {
                return false;
            }
        }
        assert(run_start(s, i as int));
        let mut j: usize = i;
        proof {
            lemma_flag_bits(s[j as int]);
        }
        while !self.pages[j].is_last()
            invariant
                i <= j < num,
                num == s.len(),
                self.pages@.len() == num,
                self.flags() == s,
                runs_wf(s),
                s[j as int] != FLAGS_FREE,
                forall|k: int| i <= k < j ==> #[trigger] s[k] == FLAGS_TAKEN,
            decreases num - j,
        {
            proof {
                lemma_flag_bits(s[j as int]);
            }
            j = j + 1;
            proof {
                lemma_flag_bits(s[j as int]);
            }
        }
        proof {
            lemma_flag_bits(s[j as int]);
        }
        assert(run_ends_at(s, i as int, j as int));
        let mut k: usize = i;
        while k <= j
            invariant
                i <= k <= j + 1,
                j < num,
                num == s.len(),
                self.pages@.len() == num,
                self.start() == st,
                st == old(self).start(),
                s == old(self).flags(),
                self.flags() == clear_range(s, i as int, k as int),
            decreases j + 1 - k,
        {
            let mut pg = self.pages[k];
            pg.clear();
            let ghost bp = self.pages@;
            self.pages.set(k, pg);
            proof {
                Self::lemma_flags_update(self, bp, k as int, pg);
                assert(self.flags() =~= clear_range(s, i as int, k + 1));
            }
            k = k + 1;
        }
        proof {
            lemma_clear_run_wf(s, i as int, j as int);
        }
        assert(i as int == old(self).page_index(ptr));
        proof {
            assert forall|p: u64| #[trigger] self.live_at(p) implies old(self).live_at(p) by {
                lemma_free_run_starts(s, i as int, j as int, self.page_index(p));
            }
            lemma_free_run_starts(s, i as int, j as int, i as int);
        }
        assert(run_ends_at(s, i as int, j as int) && self.flags() == clear_range(
            s,
            i as int,
            j + 1,
        ));
        true
    }

    /// Indices of the taken pages, in order.
    pub fn allocated_pages(&self) -> (r: Vec<usize>)
        requires
            self.wf(),
        ensures
            forall|i: int| 0 <= i < r@.len() ==> (#[trigger] r@[i]) < self.flags().len() && self.flags()[r@[i] as int] != FLAGS_FREE,
            forall|i: int, j: int| 0 <= i < j < r@.len() ==> #[trigger] r@[i] < #[trigger] r@[j],
            forall|k: int| 0 <= k < self.flags().len() && #[trigger] self.flags()[k] != FLAGS_FREE ==> r@.contains(k as usize),
    {
        let mut r: Vec<usize> = Vec::new();
        let mut i: usize = 0;
        while i < self.pages.len()
            invariant
                self.wf(),
                i <= self.flags().len(),
                forall|a: int| 0 <= a < r@.len() ==> (#[trigger] r@[a]) < i && self.flags()[r@[a] as int] != FLAGS_FREE,
                forall|a: int, b: int| 0 <= a < b < r@.len() ==> #[trigger] r@[a] < #[trigger] r@[b],
                forall|k: int| 0 <= k < i && #[trigger] self.flags()[k] != FLAGS_FREE ==> r@.contains(k as usize),
            decreases self.flags().len() - i,
        {
            proof {
                lemma_flag_bits(self.flags()[i as int]);
            }
            let ghost prev = r@;
            if self.pages[i].is_taken() {
                r.push(i);
                proof {
                    assert forall|k: int| 0 <= k < i + 1 && #[trigger] self.flags()[k] != FLAGS_FREE implies r@.contains(k as usize) by {
                        if k < i {
                            let a = choose|a: int| 0 <= a < prev.len() && prev[a] == k as usize;
                            assert(r@[a] == prev[a]);
                        } else {
                            assert(r@[r@.len() - 1] == i);
                        }
                    }
                }
            }
            i = i + 1;
        }
        r
    }

    /// Number of pages that the allocator manages.
    pub fn num_pages(&self) -> (r: usize)
        ensures
            r == self.flags().len(),
    {
        self.pages.len()
    }

    /// Address of the first page.
    pub fn alloc_start(&self) -> (r: u64)
        ensures
            r == self.start(),
    {
        self.alloc_start
    }

    /// The descriptor of page `i`.
    pub fn page(&self, i: usize) -> (r: Page)
        requires
            i < self.flags().len(),
        ensures
            r@ == self.flags()[i as int],
    {
        self.pages[i]
    }
}

/// Pages start on page boundaries.
pub proof fn lemma_page_aligned(start: u64, i: u64)
    requires
        start & 0xfff == 0,
        start + i * 4096 <= u64::MAX,
    ensures
        ((start + i * 4096) as u64) & 0xfff == 0,
{
    assert(start & 0xfff == 0 && start + i * 4096 <= 0xffff_ffff_ffff_ffffu64 ==> ((start + i
        * 4096) as u64) & 0xfff == 0) by (bit_vector);
}

/// What the flag bits of an allocator's descriptor say.
pub proof fn lemma_flag_bits(f: u8)
    requires
        f == FLAGS_FREE || f == FLAGS_TAKEN || f == FLAGS_LAST,
    ensures
        (f & 1 == 0) == (f == FLAGS_FREE),
        (f & 2 != 0) == (f == FLAGS_LAST),
{
    assert(f == 0u8 || f == 1u8 || f == 3u8 ==> (((f & 1) == 0) == (f == 0u8)) && (((f & 2)
        != 0) == (f == 3u8))) by (bit_vector);
}

/// Setting the flags of a run on a free descriptor.
pub proof fn lemma_set_flag_bits()
    ensures
        FLAGS_FREE | PageBits::Taken.spec_val() == FLAGS_TAKEN,
        FLAGS_TAKEN | PageBits::Last.spec_val() == FLAGS_LAST,
{
    assert(0u8 | 1u8 == 1u8) by (bit_vector);
    assert(1u8 | 2u8 == 3u8) by (bit_vector);
}

/// Marking a free window as a run keeps the descriptors well formed.
pub proof fn lemma_mark_run_wf(s: Seq<u8>, i: int, n: int)
    requires
        runs_wf(s),
        window_free(s, i, n),
        n > 0,
    ensures
        runs_wf(mark_run(s, i, n)),
{
    let t = mark_run(s, i, n);
    assert forall|k: int| 0 <= k < t.len() && #[trigger] t[k] == FLAGS_TAKEN implies k + 1 < t.len()
        && t[k + 1] != FLAGS_FREE by {
        if i <= k < i + n {
        } else {
            assert(s[k] == FLAGS_TAKEN);
        }
    }
}

/// Freeing a whole run keeps the descriptors well formed.
pub proof fn lemma_clear_run_wf(s: Seq<u8>, i: int, e: int)
    requires
        runs_wf(s),
        run_start(s, i),
        run_ends_at(s, i, e),
    ensures
        runs_wf(clear_range(s, i, e + 1)),
{
    let t = clear_range(s, i, e + 1);
    assert forall|k: int| 0 <= k < t.len() && #[trigger] t[k] == FLAGS_TAKEN implies k + 1 < t.len()
        && t[k + 1] != FLAGS_FREE by {
        assert(s[k] == FLAGS_TAKEN);
        if k + 1 == i {
        } else {
        }
    }
}

/// Allocation round trip: marking a free window as a run and then freeing the
/// run that starts there gives back the descriptors as they were; the new run
/// starts at the window and ends at its last page.
pub proof fn lemma_alloc_then_free(s: Seq<u8>, i: int, n: int)
    requires
        runs_wf(s),
        window_free(s, i, n),
        n > 0,
    ensures
        run_start(mark_run(s, i, n), i),
        run_ends_at(mark_run(s, i, n), i, i + n - 1),
        forall|e: int|
            run_ends_at(mark_run(s, i, n), i, e) ==> clear_range(mark_run(s, i, n), i, e + 1) == s,
{
    let t = mark_run(s, i, n);
    if i > 0 {
        if s[i - 1] == FLAGS_TAKEN {
            assert(s[i] != FLAGS_FREE);
        }
    }
    assert(run_ends_at(t, i, i + n - 1));
    assert forall|e: int| run_ends_at(t, i, e) implies clear_range(t, i, e + 1) == s by {
        if e < i + n - 1 {
            assert(t[e] == FLAGS_TAKEN);
        } else if e > i + n - 1 {
            assert(t[i + n - 1] == FLAGS_TAKEN);
        }
        assert(clear_range(t, i, e + 1) =~= s);
    }
}

/// Live runs do not overlap: a run that starts before another one ends
/// before it.
pub proof fn lemma_runs_disjoint(s: Seq<u8>, i: int, e: int, j: int)
    requires
        runs_wf(s),
        run_start(s, i),
        run_ends_at(s, i, e),
        run_start(s, j),
        i < j,
    ensures
        e < j,
{
    if e >= j {
        assert(s[j - 1] == FLAGS_TAKEN);
    }
}

/// Marking a free window as a run adds its first page to the run starts
/// and no other.
pub proof fn lemma_alloc_run_starts(s: Seq<u8>, i: int, n: int, j: int)
    requires
        runs_wf(s),
        window_free(s, i, n),
        n > 0,
    ensures
        run_start(mark_run(s, i, n), j) <==> (run_start(s, j) || j == i),
{
    if i > 0 && s[i - 1] == FLAGS_TAKEN {
        assert(s[i] != FLAGS_FREE);
    }
}

/// Freeing the run that starts at `i` removes `i` from the run starts and
/// no other.
pub proof fn lemma_free_run_starts(s: Seq<u8>, i: int, e: int, j: int)
    requires
        runs_wf(s),
        run_start(s, i),
        run_ends_at(s, i, e),
    ensures
        run_start(clear_range(s, i, e + 1), j) <==> (run_start(s, j) && j != i),
{
    if 0 <= j < s.len() && i < j <= e {
        assert(s[j - 1] == FLAGS_TAKEN);
    }
}

/// Descriptors with no run left are all free: once every allocation was
/// freed, the descriptors are as `init` left them.
pub proof fn lemma_no_runs_all_free(s: Seq<u8>)
    requires
        runs_wf(s),
        forall|j: int| !#[trigger] run_start(s, j),
    ensures
        forall|k: int| 0 <= k < s.len() ==> #[trigger] s[k] == FLAGS_FREE,
{
    assert forall|k: int| 0 <= k < s.len() implies #[trigger] s[k] == FLAGS_FREE by {
        if s[k] != FLAGS_FREE {
            lemma_run_start_before(s, k);
        }
    }
}

/// A taken page has a run start at or before it.
proof fn lemma_run_start_before(s: Seq<u8>, k: int)
    requires
        runs_wf(s),
        0 <= k < s.len(),
        s[k] != FLAGS_FREE,
    ensures
        exists|j: int| 0 <= j <= k && run_start(s, j),
    decreases k,
{
    if k == 0 || s[k - 1] != FLAGS_TAKEN {
        assert(run_start(s, k));
    } else {
        lemma_run_start_before(s, k - 1);
    }
}

/// Taking `n` pages by first fit from descriptors with `w >= n` free pages
/// in a row leaves `w - n` free pages in a row.
pub proof fn lemma_window_after_alloc(s: Seq<u8>, j: int, w: int, i: int, n: int)
    requires
        window_free(s, j, w),
        first_fit(s, i, n),
        0 < n <= w,
    ensures
        exists|j2: int| #[trigger] window_free(mark_run(s, i, n), j2, w - n),
{
    assert(window_free(s, j, n));
    assert(i <= j);
    if i + n <= j {
        assert(window_free(mark_run(s, i, n), j, w - n));
    } else {
        assert(window_free(mark_run(s, i, n), i + n, w - n));
    }
}

/// One step on the descriptors: `n` pages taken as a run at `i`, or the run
/// from `i` to `e` freed.
pub ghost enum PageOp {
    Alloc(int, int),
    Free(int, int),
}

/// The step may be taken on `s`: an allocation needs a free window, a free
/// needs a whole run.
pub open spec fn step_ok(s: Seq<u8>, op: PageOp) -> bool {
    match op {
        PageOp::Alloc(i, n) => n > 0 && window_free(s, i, n),
        PageOp::Free(i, e) => run_start(s, i) && run_ends_at(s, i, e),
    }
}

/// The descriptors after the step.
pub open spec fn step(s: Seq<u8>, op: PageOp) -> Seq<u8> {
    match op {
        PageOp::Alloc(i, n) => mark_run(s, i, n),
        PageOp::Free(i, e) => clear_range(s, i, e + 1),
    }
}

/// First pages of the runs that `ops` leave allocated.
pub open spec fn live_runs(ops: Seq<PageOp>) -> Set<int>
    decreases ops.len(),
{
    if ops.len() == 0 {
        Set::empty()
    } else {
        match ops.last() {
            PageOp::Alloc(i, n) => live_runs(ops.drop_last()).insert(i),
            PageOp::Free(i, e) => live_runs(ops.drop_last()).remove(i),
        }
    }
}

/// Allocation round trip over any sequence of steps: from descriptors that
/// are all free, the runs that start after the steps are exactly those
/// allocated and not freed again; once every allocation was freed, every
/// descriptor is free as `init` left it.
pub proof fn lemma_round_trip(states: Seq<Seq<u8>>, ops: Seq<PageOp>)
    requires
        states.len() == ops.len() + 1,
        forall|k: int| 0 <= k < states[0].len() ==> #[trigger] states[0][k] == FLAGS_FREE,
        forall|t: int|
            0 <= t < ops.len() ==> #[trigger] step_ok(states[t], ops[t]) && states[t + 1] == step(states[t], ops[t]),
    ensures
        runs_wf(states.last()),
        forall|j: int| #[trigger] run_start(states.last(), j) <==> live_runs(ops).contains(j),
        live_runs(ops).is_empty() ==> forall|k: int|
            0 <= k < states.last().len() ==> #[trigger] states.last()[k] == FLAGS_FREE,
    decreases ops.len(),
{
    if ops.len() == 0 {
        assert(runs_wf(states[0]));
        assert forall|j: int| #[trigger] run_start(states.last(), j) <==> live_runs(ops).contains(j) by {}
    } else {
        let n = ops.len() - 1;
        let ps = states.drop_last();
        let po = ops.drop_last();
        assert forall|t: int| 0 <= t < po.len() implies #[trigger] step_ok(ps[t], po[t]) && ps[t + 1] == step(ps[t], po[t]) by {
            assert(step_ok(states[t], ops[t]));
        }
        lemma_round_trip(ps, po);
        let s = states[n];
        assert(ps.last() == s);
        assert(step_ok(s, ops[n]));
        match ops[n] {
            PageOp::Alloc(i, m) => {
                lemma_mark_run_wf(s, i, m);
                assert forall|j: int| #[trigger] run_start(states.last(), j) <==> live_runs(ops).contains(j) by {
                    lemma_alloc_run_starts(s, i, m, j);
                }
            },
            PageOp::Free(i, e) => {
                lemma_clear_run_wf(s, i, e);
                assert forall|j: int| #[trigger] run_start(states.last(), j) <==> live_runs(ops).contains(j) by {
                    lemma_free_run_starts(s, i, e, j);
                }
            },
        }
    }
    if live_runs(ops).is_empty() {
        assert forall|j: int| !#[trigger] run_start(states.last(), j) by {
            assert(!live_runs(ops).contains(j));
        }
        lemma_no_runs_all_free(states.last());
    }
}

} // verus!
