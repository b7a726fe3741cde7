//! Sv39 page tables: three levels of 512 entries, 4 KiB leaves.
//!
//! The tables live in [`PageTables`], a store of page-table pages keyed by
//! their physical address, so that a branch entry names its child the way
//! the hardware sees it: by the physical page number packed in the entry.
use vstd::prelude::*;
use crate::page::{PageAllocator, PAGE_SIZE, FLAGS_FREE, first_fit, window_free, has_window, lemma_window_after_alloc, mark_run};

verus! {

/// Entries in one table.
pub const TABLE_LEN: usize = 512;

/// Bits of a page-table entry.
#[derive(Clone, Copy, Debug, PartialEq, Eq, Structural)]
pub enum EntryBits {
    Empty,
    Valid,
    Read,
    Write,
    Execute,
    User,
    Global,
    Access,
    Dirty,
    ReadWrite,
    ReadExecute,
    ReadWriteExecute,
    UserReadWrite,
    UserReadExecute,
    UserReadWriteExecute,
}

impl EntryBits {
    pub open spec fn spec_val(&self) -> u64 {
        match self {
            EntryBits::Empty => 0,
            EntryBits::Valid => 1,
            EntryBits::Read => 2,
            EntryBits::Write => 4,
            EntryBits::Execute => 8,
            EntryBits::User => 16,
            EntryBits::Global => 32,
            EntryBits::Access => 64,
            EntryBits::Dirty => 128,
            EntryBits::ReadWrite => 6,
            EntryBits::ReadExecute => 10,
            EntryBits::ReadWriteExecute => 14,
            EntryBits::UserReadWrite => 22,
            EntryBits::UserReadExecute => 26,
            EntryBits::UserReadWriteExecute => 30,
        }
    }

    /// The bits, as they stand in an entry.
    pub fn val(&self) -> (r: u64)
        ensures
            r == self.spec_val(),
    {
        match self {
            EntryBits::Empty => 0,
            EntryBits::Valid => 1,
            EntryBits::Read => 2,
            EntryBits::Write => 4,
            EntryBits::Execute => 8,
            EntryBits::User => 16,
            EntryBits::Global => 32,
            EntryBits::Access => 64,
            EntryBits::Dirty => 128,
            EntryBits::ReadWrite => 6,
            EntryBits::ReadExecute => 10,
            EntryBits::ReadWriteExecute => 14,
            EntryBits::UserReadWrite => 22,
            EntryBits::UserReadExecute => 26,
            EntryBits::UserReadWriteExecute => 30,
        }
    }
}

/// The entry is valid.
pub open spec fn valid(e: u64) -> bool {
    e & 1 != 0
}

/// The entry is a leaf: one of R, W, X is set.
pub open spec fn leaf(e: u64) -> bool {
    e & 0xe != 0
}

/// Physical address of the table that a branch entry names.
pub open spec fn child(e: u64) -> u64 {
    ((e & !0x3ffu64) << 2u64) as u64
}

/// The branch entry that names the table at `addr`.
pub open spec fn branch_entry(addr: u64) -> u64 {
    (addr >> 2u64) | 1
}

/// The leaf entry that maps a page to `paddr` with the given bits.
pub open spec fn leaf_entry(paddr: u64, bits: u64) -> u64 {
    ((((paddr >> 30u64) & 0x3ff_ffff) << 28u64) | (((paddr >> 21u64) & 0x1ff) << 19u64) | (((paddr
        >> 12u64) & 0x1ff) << 10u64) | bits | 1) as u64
}

/// Index into the level-`l` table of a virtual address.
pub open spec fn vpn(va: u64, l: int) -> int {
    if l == 0 {
        ((va >> 12u64) & 0x1ff) as int
    } else if l == 1 {
        ((va >> 21u64) & 0x1ff) as int
    } else {
        ((va >> 30u64) & 0x1ff) as int
    }
}

/// Offset bits below a leaf at level `l`.
pub open spec fn offset_mask(l: int) -> u64 {
    if l == 0 {
        0xfff
    } else if l == 1 {
        0x1f_ffff
    } else {
        0x3fff_ffff
    }
}

/// Physical address that a leaf entry at level `l` gives for `va`.
pub open spec fn leaf_addr(e: u64, l: int, va: u64) -> u64 {
    ((((e << 2u64) as u64) & !offset_mask(l)) | (va & offset_mask(l))) as u64
}

/// Facts on the entry encoding.
pub proof fn lemma_encoding(addr: u64, paddr: u64, bits: u64, va: u64)
    ensures
        addr & 0xfff == 0 ==> valid(branch_entry(addr)) && !leaf(branch_entry(addr)) && child(
            branch_entry(addr),
        ) == addr,
        paddr < 0x100_0000_0000_0000 && bits <= 0x3ff && bits & 0xe != 0 ==> valid(
            leaf_entry(paddr, bits),
        ) && leaf(leaf_entry(paddr, bits)) && leaf_addr(leaf_entry(paddr, bits), 0, va) == (paddr
            & !0xfffu64) | (va & 0xfff),
        !valid(0u64),
        paddr < 0x100_0000_0000_0000 && bits <= 0x3ff ==> leaf_entry(paddr, bits) & 0x3ff == bits | 1,
{
    assert(addr & 0xfff == 0 ==> ((addr >> 2u64) | 1) & 1 != 0 && ((addr >> 2u64) | 1) & 0xe == 0
        && ((((addr >> 2u64) | 1) & !0x3ffu64) << 2u64) == addr) by (bit_vector);
    assert(paddr < 0x100_0000_0000_0000u64 && bits <= 0x3ff && bits & 0xe != 0 ==> {
        let e = (((paddr >> 30u64) & 0x3ff_ffff) << 28u64) | (((paddr >> 21u64) & 0x1ff) << 19u64)
            | (((paddr >> 12u64) & 0x1ff) << 10u64) | bits | 1;
        &&& e & 1 != 0
        &&& e & 0xe != 0
        &&& (((e << 2u64) & !0xfffu64) | (va & 0xfff)) == (paddr & !0xfffu64) | (va & 0xfff)
    }) by (bit_vector);
    assert(0u64 & 1 == 0) by (bit_vector);
    assert(paddr < 0x100_0000_0000_0000u64 && bits <= 0x3ff ==> ((((paddr >> 30u64) & 0x3ff_ffff) << 28u64) | (((
    paddr >> 21u64) & 0x1ff) << 19u64) | (((paddr >> 12u64) & 0x1ff) << 10u64) | bits | 1) & 0x3ff == bits | 1)
        by (bit_vector);
}

/// Each index into a table is below 512.
pub proof fn lemma_vpn_bound(va: u64)
    ensures
        (va >> 30u64) & 0x1ff < 512,
        (va >> 21u64) & 0x1ff < 512,
        (va >> 12u64) & 0x1ff < 512,
{
    assert((va >> 30u64) & 0x1ff < 512 && (va >> 21u64) & 0x1ff < 512 && (va >> 12u64) & 0x1ff < 512)
        by (bit_vector);
}

/// A page-table entry.
#[derive(Clone, Copy, Debug)]
pub struct Entry {
    pub entry: u64,
}

impl Entry {
    /// Whether the entry is valid.
    pub fn is_valid(&self) -> (r: bool)
        ensures
            r == valid(self.entry),
    {
        self.get_entry() & EntryBits::Valid.val() != 0
    }

    /// Whether the entry is not valid.
    pub fn is_invalid(&self) -> (r: bool)
        ensures
            r == !valid(self.entry),
    {
        !self.is_valid()
    }

    /// Whether the entry is a leaf.
    pub fn is_leaf(&self) -> (r: bool)
        ensures
            r == leaf(self.entry),
    {
        self.get_entry() & 0xe != 0
    }

    /// Whether the entry names a further table.
    pub fn is_branch(&self) -> (r: bool)
        ensures
            r == !leaf(self.entry),
    {
        !self.is_leaf()
    }

    /// Replaces the entry.
    pub fn set_entry(&mut self, entry: u64)
        ensures
            final(self).entry == entry,
    {
        self.entry = entry;
    }

    /// The entry.
    pub fn get_entry(&self) -> (r: u64)
        ensures
            r == self.entry,
    {
        self.entry
    }
}

/// One table of 512 entries.
pub struct Table {
    pub entries: Vec<Entry>,
}

impl Table {
    /// Entries in a table.
    pub fn len() -> (r: usize)
        ensures
            r == TABLE_LEN,
    {
        TABLE_LEN
    }
}

/// Store of page-table pages: for each table its entries, its physical
/// address (0 once the table was freed) and its level (2 for a root).
pub struct PageTables {
    entries: Vec<Entry>,
    addrs: Vec<u64>,
    levels: Vec<u8>,
}

impl PageTables {
    /// Number of tables ever created.
    pub closed spec fn ntables(&self) -> int {
        self.addrs@.len() as int
    }

    /// Physical address of table `k`; 0 once it was freed.
    pub closed spec fn addr(&self, k: int) -> u64 {
        self.addrs@[k]
    }

    /// Level of table `k`.
    pub closed spec fn level(&self, k: int) -> int {
        self.levels@[k] as int
    }

    /// Entry `i` of table `k`.
    pub closed spec fn ent(&self, k: int, i: int) -> u64 {
        self.entries@[k * 512 + i].entry
    }

    /// The sizes of the store agree.
    pub closed spec fn sized(&self) -> bool {
        &&& self.entries@.len() == 512 * self.addrs@.len()
        &&& self.levels@.len() == self.addrs@.len()
    }

    /// Table `k` exists and was not freed.
    pub open spec fn live(&self, k: int) -> bool {
        0 <= k < self.ntables() && self.addr(k) != 0
    }

    /// The live table at physical address `a`.
    pub open spec fn lookup(&self, a: u64) -> Option<int> {
        if exists|k: int| self.live(k) && #[trigger] self.addr(k) == a {
            Some(choose|k: int| self.live(k) && #[trigger] self.addr(k) == a)
        } else {
            None
        }
    }

    /// Entry `i` of table `k` names a further table.
    pub open spec fn is_branch_at(&self, k: int, i: int) -> bool {
        valid(self.ent(k, i)) && !leaf(self.ent(k, i))
    }

    /// Well formed: live tables sit on distinct page boundaries; a branch of
    /// a level-`l` table names a live table of level `l - 1`, and no two
    /// branches name the same table.
    pub open spec fn wf(&self) -> bool {
        &&& self.sized()
        &&& forall|k: int| #[trigger] self.live(k) ==> self.addr(k) & 0xfff == 0 && 0 <= self.level(k) <= 2
        &&& forall|k1: int, k2: int|
            self.live(k1) && self.live(k2) && k1 != k2 ==> #[trigger] self.addr(k1) != #[trigger] self.addr(k2)
        &&& forall|k: int, i: int|
            self.live(k) && 0 <= i < 512 && #[trigger] self.is_branch_at(k, i) ==> self.level(k) >= 1
                && self.lookup(child(self.ent(k, i))).is_some() && self.level(
                self.lookup(child(self.ent(k, i)))->0,
            ) == self.level(k) - 1
        &&& forall|k1: int, i1: int, k2: int, i2: int|
            self.live(k1) && self.live(k2) && 0 <= i1 < 512 && 0 <= i2 < 512 && (k1 != k2 || i1 != i2)
                && #[trigger] self.is_branch_at(k1, i1) && #[trigger] self.is_branch_at(k2, i2) ==> child(
                self.ent(k1, i1),
            ) != child(self.ent(k2, i2))
        &&& forall|k: int, i: int|
            self.live(k) && 0 <= i < 512 && #[trigger] self.is_leaf_at(k, i) ==> self.level(k) == 0
    }

    /// Entry `i` of table `k` is a valid leaf.
    pub open spec fn is_leaf_at(&self, k: int, i: int) -> bool {
        valid(self.ent(k, i)) && leaf(self.ent(k, i))
    }

    /// The leaf entry, with its level, at which the hardware walk from table
    /// `k` for `va` ends; `None` where it meets an entry that is not valid.
    pub open spec fn walk_leaf(&self, k: int, va: u64) -> Option<(u64, int)> {
        let e2 = self.ent(k, vpn(va, 2));
        if !valid(e2) {
            None
        } else if leaf(e2) {
            Some((e2, 2))
        } else {
            match self.lookup(child(e2)) {
                None => None,
                Some(k1) => {
                    let e1 = self.ent(k1, vpn(va, 1));
                    if !valid(e1) {
                        None
                    } else if leaf(e1) {
                        Some((e1, 1))
                    } else {
                        match self.lookup(child(e1)) {
                            None => None,
                            Some(k0) => {
                                let e0 = self.ent(k0, vpn(va, 0));
                                if valid(e0) && leaf(e0) {
                                    Some((e0, 0))
                                } else {
                                    None
                                }
                            },
                        }
                    }
                },
            }
        }
    }

    /// What the hardware walk from table `k` gives for `va`: the leaf's
    /// address with the offset bits of `va`, or `None`.
    pub open spec fn walk(&self, k: int, va: u64) -> Option<u64> {
        match self.walk_leaf(k, va) {
            Some(l) => Some(leaf_addr(l.0, l.1, va)),
            None => None,
        }
    }

    /// The leaf entry that the walk for `va` from root `root` ends at, with
    /// its level.
    pub open spec fn leaf_of(&self, root: u64, va: u64) -> Option<(u64, int)> {
        match self.lookup(root) {
            Some(k) => self.walk_leaf(k, va),
            None => None,
        }
    }

    /// The permission and status bits (the low ten bits) of the leaf that
    /// maps `va` under root `root`.
    pub open spec fn perm(&self, root: u64, va: u64) -> Option<u64> {
        match self.leaf_of(root, va) {
            Some(l) => Some(l.0 & 0x3ff),
            None => None,
        }
    }

    /// What translating `va` through the root table at address `root` gives.
    pub open spec fn translate(&self, root: u64, va: u64) -> Option<u64> {
        match self.lookup(root) {
            Some(k) => self.walk(k, va),
            None => None,
        }
    }

    /// `root` is the address of a live root table.
    pub open spec fn is_root(&self, root: u64) -> bool {
        self.lookup(root).is_some() && self.level(self.lookup(root)->0) == 2
    }

    /// An empty store.
    pub fn new() -> (r: PageTables)
        ensures
            r.wf(),
            r.ntables() == 0,
    {
        PageTables { entries: Vec::new(), addrs: Vec::new(), levels: Vec::new() }
    }

    /// The live table at physical address `a`.
    fn find(&self, a: u64) -> (r: Option<usize>)
        requires
            self.wf(),
        ensures
            r.is_some() <==> self.lookup(a).is_some(),
            r.is_some() ==> self.lookup(a) == Some(r->0 as int),
    {
        if a == 0 {
            return None;
        }
        let mut k: usize = 0;
        while k < self.addrs.len()
            invariant
                self.wf(),
                a != 0,
                k <= self.ntables(),
                forall|j: int| 0 <= j < k ==> !(self.live(j) && #[trigger] self.addr(j) == a),
            decreases self.ntables() - k,
        {
            if self.addrs[k] == a {
                assert(self.live(k as int) && self.addr(k as int) == a);
                let ghost c = choose|j: int| self.live(j) && #[trigger] self.addr(j) == a;
                assert(c == k);
                return Some(k);
            }
            k = k + 1;
        }
        None
    }

    /// Tables `0..n` of `self` and `other` agree in address, level and
    /// entries, but for entry `(k, i)`.
    pub open spec fn agrees_except(&self, other: &PageTables, n: int, k: int, i: int) -> bool {
        &&& forall|k2: int| 0 <= k2 < n ==> #[trigger] self.addr(k2) == other.addr(k2) && self.level(k2)
            == other.level(k2)
        &&& forall|k2: int, i2: int|
            0 <= k2 < n && 0 <= i2 < 512 && (k2 != k || i2 != i) ==> #[trigger] self.ent(k2, i2)
                == other.ent(k2, i2)
    }

    /// Replaces entry `i` of table `k`.
    fn set_entry(&mut self, k: usize, i: usize, e: u64)
        requires
            old(self).sized(),
            k < old(self).ntables(),
            i < 512,
        ensures
            final(self).sized(),
            final(self).ntables() == old(self).ntables(),
            final(self).agrees_except(old(self), old(self).ntables(), k as int, i as int),
            final(self).ent(k as int, i as int) == e,
    {
        let _n = self.entries.len();
        assert(k * 512 + i < 512 * self.ntables()) by (nonlinear_arith)
            requires
                k < self.ntables(),
                i < 512,
        ;
        self.entries.set(k * 512 + i, Entry { entry: e });
        assert forall|k2: int, i2: int|
            0 <= k2 < self.ntables() && 0 <= i2 < 512 && (k2 != k || i2 != i) implies #[trigger] self.ent(
            k2,
            i2,
        ) == old(self).ent(k2, i2) by {
            lemma_index_unique(k as int, i as int, k2, i2);
        }
    }

    /// Adds a table at `addr` with every entry clear.
    fn create_table(&mut self, addr: u64, level: u8) -> (r: usize)
        requires
            old(self).sized(),
        ensures
            final(self).sized(),
            r == old(self).ntables(),
            final(self).ntables() == old(self).ntables() + 1,
            final(self).agrees_except(old(self), old(self).ntables(), -1, -1),
            final(self).addr(r as int) == addr,
            final(self).level(r as int) == level,
            forall|i: int| 0 <= i < 512 ==> #[trigger] final(self).ent(r as int, i) == 0,
    {
        let n = self.addrs.len();
        let ghost base = 512 * n;
        let mut j: usize = 0;
        while j < 512
            invariant
                j <= 512,
                self.entries@.len() == base + j,
                base == 512 * n,
                n == old(self).ntables(),
                self.addrs@ == old(self).addrs@,
                self.levels@ == old(self).levels@,
                old(self).sized(),
                forall|m: int| 0 <= m < base ==> #[trigger] self.entries@[m] == old(self).entries@[m],
                forall|m: int| base <= m < base + j ==> #[trigger] self.entries@[m].entry == 0,
            decreases 512 - j,
        {
            self.entries.push(Entry { entry: 0 });
            j = j + 1;
        }
        self.addrs.push(addr);
        self.levels.push(level);
        assert forall|k2: int, i2: int| 0 <= k2 < n && 0 <= i2 < 512 implies #[trigger] self.ent(k2, i2)
            == old(self).ent(k2, i2) by {
            assert(k2 * 512 + i2 < base) by (nonlinear_arith)
                requires
                    k2 < n,
                    i2 < 512,
                    base == 512 * n,
            ;
        }
        assert forall|i: int| 0 <= i < 512 implies #[trigger] self.ent(n as int, i) == 0 by {
            assert(base <= n * 512 + i < base + 512) by (nonlinear_arith)
                requires
                    0 <= i < 512,
                    base == 512 * n,
            ;
        }
        assert forall|k2: int| 0 <= k2 < n implies #[trigger] self.addr(k2) == old(self).addr(k2)
            && self.level(k2) == old(self).level(k2) by {}
        n
    }

    /// Every free page of `p` is free of tables too: the store and the page
    /// allocator agree.
    pub open spec fn in_sync(&self, p: &PageAllocator) -> bool {
        forall|i: int|
            0 <= i < p.flags().len() && #[trigger] p.flags()[i] == FLAGS_FREE ==> self.lookup(
                p.page_addr(i) as u64,
            ).is_none()
    }

    /// Follows entry `i` of table `k` to the table below it, first creating
    /// that table from a fresh page where the entry is not valid.
    fn descend(&mut self, k: usize, i: usize, pages: &mut PageAllocator) -> (r: Option<usize>)
        requires
            old(self).wf(),
            old(pages).wf(),
            old(self).live(k as int),
            old(self).level(k as int) >= 1,
            i < 512,
        ensures
            final(self).wf(),
            final(pages).wf(),
            final(pages).start() == old(pages).start(),
            final(pages).flags().len() == old(pages).flags().len(),
            final(self).ntables() >= old(self).ntables(),
            final(self).agrees_except(old(self), old(self).ntables(), k as int, i as int),
            valid(old(self).ent(k as int, i as int)) ==> final(self).ent(k as int, i as int) == old(self).ent(k as int, i as int),
            forall|k2: int, i2: int|
                old(self).ntables() <= k2 < final(self).ntables() && 0 <= i2 < 512 ==> #[trigger] final(self).ent(k2, i2) == 0,
            forall|k2: int|
                old(self).ntables() <= k2 < final(self).ntables() ==> #[trigger] final(self).live(k2)
                    && final(self).level(k2) == old(self).level(k as int) - 1 && old(self).lookup(
                    final(self).addr(k2),
                ).is_none(),
            r.is_some() ==> final(self).live(r->0 as int) && final(self).level(r->0 as int) == old(self).level(k as int) - 1 && final(self).is_branch_at(k as int, i as int) && final(self).lookup(child(final(self).ent(k as int, i as int))) == Some(r->0 as int),
            r.is_some() && !valid(old(self).ent(k as int, i as int)) ==> r->0 >= old(self).ntables(),
            r.is_none() ==> final(self).ntables() == old(self).ntables() && final(self).ent(
                k as int,
                i as int,
            ) == old(self).ent(k as int, i as int),
            r.is_none() ==> (valid(old(self).ent(k as int, i as int)) && leaf(
                old(self).ent(k as int, i as int),
            )) || (forall|j: int| !#[trigger] window_free(final(pages).flags(), j, 1))
                || !old(self).in_sync(old(pages)),
            old(self).in_sync(old(pages)) ==> final(self).in_sync(final(pages)),
            forall|x: u64, va: u64|
                old(self).is_root(x) ==> #[trigger] final(self).translate(x, va) == old(self).translate(x, va),
            forall|w: int| #[trigger] has_window(old(pages).flags(), w) && w >= 1 ==> has_window(final(pages).flags(), w - 1),
            has_window(old(pages).flags(), 1) && old(self).in_sync(old(pages)) ==> r.is_some(),
            forall|x: u64, va: u64|
                old(self).is_root(x) ==> #[trigger] final(self).leaf_of(x, va) == old(self).leaf_of(x, va),
    {
        proof {
            lemma_window_shrink(old(pages).flags());
            if old(self).is_leaf_at(k as int, i as int) {
                assert(old(self).level(k as int) == 0);
            }
        }
        let e = self.entry(k, i);
        let ent = Entry { entry: e };
        if ent.is_invalid() {
            let a = pages.alloc_pages(1);
            if a == 0 {
                return None;
            }
            let ghost j = choose|j: int| first_fit(old(pages).flags(), j, 1) && a == old(pages).page_addr(j);
            proof {
                assert forall|w: int| #[trigger] has_window(old(pages).flags(), w) && w >= 1 implies has_window(
                    pages.flags(),
                    w - 1,
                ) by {
                    let j0 = choose|j0: int| #[trigger] window_free(old(pages).flags(), j0, w);
                    lemma_window_after_alloc(old(pages).flags(), j0, w, j, 1);
                }
            }
            if self.find(a).is_some() {
                assert(old(pages).flags()[j] == FLAGS_FREE);
                let _ = pages.dealloc(a);
                proof {
                    crate::page::lemma_alloc_then_free(old(pages).flags(), j, 1);
                }
                return None;
            }
            let lvl: u8 = self.levels[k] - 1;
            let kc = self.create_table(a, lvl);
            let ghost mid = *self;
            self.set_entry(k, i, (a >> 2u64) | 1);
            proof {
                lemma_encoding(a, 0, 0, 0);
                let n = old(self).ntables();
                assert(self.live(n));
                assert forall|k2: int| #[trigger] self.live(k2) implies self.addr(k2) & 0xfff == 0 && 0
                    <= self.level(k2) <= 2 by {
                    if k2 < n {
                        assert(old(self).live(k2));
                    }
                }
                assert forall|k2: int| 0 <= k2 < n && old(self).live(k2) implies self.addr(k2) != a by {}
                lemma_lookup_is(self, n, a);
                assert forall|x: u64| x != a implies #[trigger] self.lookup(x) == old(self).lookup(x) by {
                    lemma_lookup_extend(old(self), self, x);
                }
                assert forall|k2: int, i2: int|
                    self.live(k2) && 0 <= i2 < 512 && #[trigger] self.is_branch_at(k2, i2) implies self.level(
                        k2,
                    ) >= 1 && self.lookup(child(self.ent(k2, i2))).is_some() && self.level(
                        self.lookup(child(self.ent(k2, i2)))->0,
                    ) == self.level(k2) - 1 by {
                    if k2 == n {
                        assert(self.ent(k2, i2) == 0);
                    } else if k2 == k && i2 == i {
                    } else {
                        assert(old(self).is_branch_at(k2, i2));
                        let c = child(old(self).ent(k2, i2));
                        assert(c != a);
                    }
                }
                assert forall|k1: int, i1: int, k2: int, i2: int|
                    self.live(k1) && self.live(k2) && 0 <= i1 < 512 && 0 <= i2 < 512 && (k1 != k2 || i1
                        != i2) && #[trigger] self.is_branch_at(k1, i1) && #[trigger] self.is_branch_at(
                        k2,
                        i2,
                    ) implies child(self.ent(k1, i1)) != child(self.ent(k2, i2)) by {
                    if k1 == n {
                        assert(self.ent(k1, i1) == 0);
                    } else if k2 == n {
                        assert(self.ent(k2, i2) == 0);
                    } else if k1 == k && i1 == i {
                        assert(old(self).is_branch_at(k2, i2));
                    } else if k2 == k && i2 == i {
                        assert(old(self).is_branch_at(k1, i1));
                    } else {
                        assert(old(self).is_branch_at(k1, i1));
                        assert(old(self).is_branch_at(k2, i2));
                    }
                }
                assert forall|k2: int, i2: int|
                    old(self).ntables() <= k2 < self.ntables() && 0 <= i2 < 512 implies #[trigger] self.ent(
                        k2,
                        i2,
                    ) == 0 by {
                    assert(mid.ent(k2, i2) == 0);
                }
                assert forall|k2: int, i2: int|
                    self.live(k2) && 0 <= i2 < 512 && #[trigger] self.is_leaf_at(k2, i2) implies self.level(k2) == 0 by {
                    if k2 == n {
                        assert(self.ent(k2, i2) == 0);
                    } else if k2 == k && i2 == i {
                    } else {
                        assert(self.addr(k2) == old(self).addr(k2));
                        assert(old(self).is_leaf_at(k2, i2));
                    }
                }
                lemma_link_fresh_keeps_walks(old(self), self, k as int, i as int);
                if old(self).in_sync(old(pages)) {
                    assert forall|m: int|
                        0 <= m < pages.flags().len() && #[trigger] pages.flags()[m] == FLAGS_FREE implies self.lookup(
                            pages.page_addr(m) as u64,
                        ).is_none() by {
                        assert(m != j);
                        assert(old(pages).flags()[m] == FLAGS_FREE);
                        assert(pages.page_addr(m) != pages.page_addr(j)) by (nonlinear_arith)
                            requires
                                m != j,
                                pages.page_addr(m) == pages.start() + m * 4096,
                                pages.page_addr(j) == pages.start() + j * 4096,
                        ;
                        assert(old(pages).page_addr(m) == pages.page_addr(m));
                        assert(pages.page_addr(m) as u64 != a);
                        lemma_lookup_extend(old(self), self, pages.page_addr(m) as u64);
                    }
                }
            }
            return Some(kc);
        }
        if ent.is_leaf() {
            return None;
        }
        let c = (e & !0x3ffu64) << 2u64;
        let r = self.find(c);
        proof {
            assert(self.is_branch_at(k as int, i as int));
        }
        r
    }

    /// The walk for `va` from root `root` meets a leaf above level 0.
    pub open spec fn path_blocked(&self, root: u64, va: u64) -> bool {
        let k = self.lookup(root)->0;
        let e2 = self.ent(k, vpn(va, 2));
        ||| valid(e2) && leaf(e2)
        ||| valid(e2) && !leaf(e2) && self.lookup(child(e2)).is_some() && {
            let e1 = self.ent(self.lookup(child(e2))->0, vpn(va, 1));
            valid(e1) && leaf(e1)
        }
    }

    /// Maps the 4 KiB page of `vaddr` to the page of `paddr` with the given
    /// bits (one of R, W, X among them) in the tables of `root`, creating
    /// the tables below the root that are missing from fresh pages. Fails
    /// where the walk meets a leaf above level 0 or no page is left.
    #[verifier::rlimit(100)]
    pub fn map(
        &mut self,
        root: u64,
        vaddr: u64,
        paddr: u64,
        bits: u64,
        level: u64,
        pages: &mut PageAllocator,
    ) -> (r: bool)
        requires
            old(self).wf(),
            old(pages).wf(),
            old(self).is_root(root),
            bits & 0xe != 0,
            bits <= 0x3ff,
            paddr < 0x100_0000_0000_0000,
            level == 0,
        ensures
            final(self).wf(),
            final(pages).wf(),
            final(pages).start() == old(pages).start(),
            final(pages).flags().len() == old(pages).flags().len(),
            final(self).is_root(root),
            final(self).lookup(root) == old(self).lookup(root),
            old(self).in_sync(old(pages)) ==> final(self).in_sync(final(pages)),
            r ==> installs(old(self), final(self), root, vaddr, paddr),
            r ==> forall|va: u64| same_page(va, vaddr) ==> #[trigger] final(self).perm(root, va) == Some(bits | 1),
            forall|x: u64, va: u64|
                old(self).is_root(x) && !(x == root && same_page(va, vaddr)) ==> #[trigger] final(self).leaf_of(x, va)
                    == old(self).leaf_of(x, va),
            !r ==> forall|x: u64, va: u64| old(self).is_root(x) ==> #[trigger] final(self).leaf_of(x, va) == old(self).leaf_of(x, va),
            forall|w: int| #[trigger] has_window(old(pages).flags(), w) && w >= 2 ==> has_window(final(pages).flags(), w - 2),
            has_window(old(pages).flags(), 2) && old(self).in_sync(old(pages)) ==> r,
            r ==> final(self).translate(root, vaddr) == Some((paddr & !0xfffu64) | (vaddr & 0xfff)),
            r ==> forall|va: u64|
                same_page(va, vaddr) ==> #[trigger] final(self).translate(root, va) == Some(
                    (paddr & !0xfffu64) | (va & 0xfff),
                ),
            forall|x: u64, va: u64|
                old(self).is_root(x) && !(x == root && same_page(va, vaddr)) ==> #[trigger] final(self).translate(x, va) == old(self).translate(x, va),
            !r ==> forall|x: u64, va: u64|
                old(self).is_root(x) ==> #[trigger] final(self).translate(x, va) == old(self).translate(x, va),
            !r ==> old(self).path_blocked(root, vaddr) || (forall|j: int|
                !#[trigger] window_free(final(pages).flags(), j, 1)) || !old(self).in_sync(old(pages)),
    {
        let kr = match self.find(root) {
            Some(k) => k,
            None => {
                return false;
            },
        };
        proof {
            lemma_vpn_bound(vaddr);
        }
        let v2 = ((vaddr >> 30u64) & 0x1ff) as usize;
        let v1 = ((vaddr >> 21u64) & 0x1ff) as usize;
        let v0 = ((vaddr >> 12u64) & 0x1ff) as usize;
        let ghost s0 = *self;
        let ghost flags_before = pages.flags();
        proof {
            lemma_window_shrink(flags_before);
        }
        let o1 = self.descend(kr, v2, pages);
        let ghost flags_mid = pages.flags();
        proof {
            lemma_window_shrink(flags_mid);
        }
        let k1 = match o1 {
            Some(k) => k,
            None => {
                proof {
                    lemma_lookup_is(self, kr as int, root);
                }
                return false;
            },
        };
        let ghost s1 = *self;
        proof {
            lemma_lookup_is(self, kr as int, root);
        }
        let o0 = self.descend(k1, v1, pages);
        let k0 = match o0 {
            Some(k) => k,
            None => {
                proof {
                    lemma_lookup_is(self, kr as int, root);
                    assert(s1.ent(k1 as int, v1 as int) == self.ent(k1 as int, v1 as int));
                    lemma_encoding(0, 0, 0, 0);
                    if valid(s1.ent(k1 as int, v1 as int)) && leaf(s1.ent(k1 as int, v1 as int)) {
                        if k1 >= s0.ntables() {
                            assert(s1.ent(k1 as int, v1 as int) == 0);
                        }
                        assert(k1 < s0.ntables());
                        assert(s0.ent(k1 as int, v1 as int) == s1.ent(k1 as int, v1 as int));
                        assert(s0.ent(kr as int, v2 as int) == s1.ent(kr as int, v2 as int));
                        lemma_lookup_is(&s0, k1 as int, s0.addr(k1 as int));
                        assert(s0.path_blocked(root, vaddr));
                    }
                }
                return false;
            },
        };
        let ghost s2 = *self;
        let e = ((((paddr >> 30u64) & 0x3ff_ffff) << 28u64) | (((paddr >> 21u64) & 0x1ff) << 19u64) | (((
        paddr >> 12u64) & 0x1ff) << 10u64) | bits | 1);
        self.set_entry(k0, v0, e);
        proof {
            lemma_encoding(0, paddr, bits, vaddr);
            assert(e == leaf_entry(paddr, bits));
            assert(s0.level(kr as int) == 2);
            assert(s1.level(kr as int) == 2);
            assert(s1.level(k1 as int) == 1);
            assert(s2.addr(k1 as int) == s1.addr(k1 as int));
            assert(s2.addr(kr as int) == s1.addr(kr as int));
            assert(self.addr(kr as int) == s2.addr(kr as int));
            assert(self.addr(k1 as int) == s2.addr(k1 as int));
            assert(self.addr(k0 as int) == s2.addr(k0 as int));
            assert(s2.level(k1 as int) == 1);
            assert(s2.level(kr as int) == 2);
            assert(s2.level(k0 as int) == 0);
            assert(self.live(kr as int) && self.level(kr as int) == 2);
            assert(k1 != kr && k0 != kr && k0 != k1);
            assert forall|k2: int| #[trigger] self.live(k2) implies self.addr(k2) & 0xfff == 0 && 0
                <= self.level(k2) <= 2 by {
                assert(s2.live(k2));
            }
            assert forall|k1_: int, k2: int|
                self.live(k1_) && self.live(k2) && k1_ != k2 implies #[trigger] self.addr(k1_)
                != #[trigger] self.addr(k2) by {
                assert(s2.live(k1_) && s2.live(k2));
            }
            lemma_lookup_is(self, kr as int, root);
            lemma_lookup_is(self, k1 as int, self.addr(k1 as int));
            lemma_lookup_is(self, k0 as int, self.addr(k0 as int));
            lemma_lookup_is(&s2, k0 as int, s2.addr(k0 as int));
            lemma_lookup_is(&s1, k1 as int, s1.addr(k1 as int));
            assert(self.ent(kr as int, v2 as int) == s1.ent(kr as int, v2 as int));
            assert(self.ent(k1 as int, v1 as int) == s2.ent(k1 as int, v1 as int));
            assert(child(self.ent(kr as int, v2 as int)) == self.addr(k1 as int));
            assert(child(self.ent(k1 as int, v1 as int)) == self.addr(k0 as int));
            assert(self.walk(kr as int, vaddr) == Some(leaf_addr(e, 0, vaddr)));
            assert forall|va: u64| same_page(va, vaddr) implies #[trigger] self.translate(root, va) == Some(
                (paddr & !0xfffu64) | (va & 0xfff),
            ) by {
                lemma_encoding(0, paddr, bits, va);
                assert(self.walk(kr as int, va) == Some(leaf_addr(e, 0, va)));
            }
            assert forall|va: u64| same_page(va, vaddr) implies #[trigger] self.perm(root, va) == Some(bits | 1) by {
                lemma_encoding(0, paddr, bits, va);
                assert(self.walk_leaf(kr as int, va) == Some((e, 0int)));
            }
            assert forall|k2: int, i2: int|
                self.live(k2) && 0 <= i2 < 512 && #[trigger] self.is_branch_at(k2, i2) implies self.level(k2)
                    >= 1 && self.lookup(child(self.ent(k2, i2))).is_some() && self.level(
                    self.lookup(child(self.ent(k2, i2)))->0,
                ) == self.level(k2) - 1 by {
                assert(s2.is_branch_at(k2, i2));
                let c = s2.lookup(child(s2.ent(k2, i2)))->0;
                lemma_lookup_is(self, c, child(s2.ent(k2, i2)));
            }
            assert forall|k1_: int, i1: int, k2: int, i2: int|
                self.live(k1_) && self.live(k2) && 0 <= i1 < 512 && 0 <= i2 < 512 && (k1_ != k2 || i1 != i2)
                    && #[trigger] self.is_branch_at(k1_, i1) && #[trigger] self.is_branch_at(k2, i2) implies child(
                    self.ent(k1_, i1),
                ) != child(self.ent(k2, i2)) by {
                assert(s2.is_branch_at(k1_, i1));
                assert(s2.is_branch_at(k2, i2));
            }
            assert forall|k2: int, i2: int|
                self.live(k2) && 0 <= i2 < 512 && #[trigger] self.is_leaf_at(k2, i2) implies self.level(k2) == 0 by {
                if k2 == k0 && i2 == v0 {
                } else {
                    assert(self.addr(k2) == s2.addr(k2));
                    assert(self.ent(k2, i2) == s2.ent(k2, i2));
                    assert(s2.is_leaf_at(k2, i2));
                }
            }
            lemma_leaf_write_keeps_walks(&s2, self, k0 as int, v0 as int);
            assert forall|x: u64, va: u64|
                s0.is_root(x) && !(x == root && same_page(va, vaddr)) implies #[trigger] self.translate(x, va)
                == s0.translate(x, va) by {
                lemma_vpn_bound(va);
                assert(s1.translate(x, va) == s0.translate(x, va));
                assert(s1.is_root(x)) by {
                    let c = s0.lookup(x)->0;
                    assert(s1.addr(c) == s0.addr(c));
                    lemma_lookup_is(&s1, c, x);
                }
                assert(s2.translate(x, va) == s1.translate(x, va));
                assert(s2.is_root(x)) by {
                    let c = s1.lookup(x)->0;
                    assert(s2.addr(c) == s1.addr(c));
                    lemma_lookup_is(&s2, c, x);
                }
                if reaches(&s2, x, va, k0 as int, v0 as int) {
                    let xr = s2.lookup(x)->0;
                    let e2 = s2.ent(xr, vpn(va, 2));
                    let x1 = s2.lookup(child(e2))->0;
                    let e1 = s2.ent(x1, vpn(va, 1));
                    assert(s2.is_branch_at(x1, vpn(va, 1)));
                    assert(s2.is_branch_at(k1 as int, v1 as int));
                    assert(child(e1) == s2.addr(k0 as int));
                    assert(child(s2.ent(k1 as int, v1 as int)) == s2.addr(k0 as int));
                    assert(x1 == k1 && vpn(va, 1) == v1);
                    assert(s2.is_branch_at(xr, vpn(va, 2)));
                    assert(s2.is_branch_at(kr as int, v2 as int));
                    assert(child(s2.ent(kr as int, v2 as int)) == s2.addr(k1 as int));
                    assert(xr == kr && vpn(va, 2) == v2);
                    assert(s2.addr(kr as int) == root);
                    assert(false);
                }
            }
            assert forall|x: u64, va: u64|
                s0.is_root(x) && !(x == root && same_page(va, vaddr)) implies #[trigger] self.leaf_of(x, va)
                == s0.leaf_of(x, va) by {
                lemma_vpn_bound(va);
                assert(s1.leaf_of(x, va) == s0.leaf_of(x, va));
                assert(s1.is_root(x)) by {
                    let c = s0.lookup(x)->0;
                    assert(s1.addr(c) == s0.addr(c));
                    lemma_lookup_is(&s1, c, x);
                }
                assert(s2.leaf_of(x, va) == s1.leaf_of(x, va));
                assert(s2.is_root(x)) by {
                    let c = s1.lookup(x)->0;
                    assert(s2.addr(c) == s1.addr(c));
                    lemma_lookup_is(&s2, c, x);
                }
                if reaches(&s2, x, va, k0 as int, v0 as int) {
                    let xr = s2.lookup(x)->0;
                    let e2 = s2.ent(xr, vpn(va, 2));
                    let x1 = s2.lookup(child(e2))->0;
                    let e1 = s2.ent(x1, vpn(va, 1));
                    assert(s2.is_branch_at(x1, vpn(va, 1)));
                    assert(s2.is_branch_at(k1 as int, v1 as int));
                    assert(child(e1) == s2.addr(k0 as int));
                    assert(child(s2.ent(k1 as int, v1 as int)) == s2.addr(k0 as int));
                    assert(x1 == k1 && vpn(va, 1) == v1);
                    assert(s2.is_branch_at(xr, vpn(va, 2)));
                    assert(s2.is_branch_at(kr as int, v2 as int));
                    assert(child(s2.ent(kr as int, v2 as int)) == s2.addr(k1 as int));
                    assert(xr == kr && vpn(va, 2) == v2);
                    assert(s2.addr(kr as int) == root);
                    assert(false);
                }
            }
            if s0.in_sync(old(pages)) {
                assert forall|m: int|
                    0 <= m < pages.flags().len() && #[trigger] pages.flags()[m] == FLAGS_FREE implies self.lookup(
                        pages.page_addr(m) as u64,
                    ).is_none() by {
                    let x = pages.page_addr(m) as u64;
                    assert(s2.lookup(x).is_none());
                    if self.lookup(x).is_some() {
                        let c = self.lookup(x)->0;
                        assert(s2.live(c) && s2.addr(c) == x);
                    }
                }
            }
        }
        true
    }

    /// The physical address that `vaddr` translates to through the tables of
    /// `root`; `None` where the walk meets an entry that is not valid.
    pub fn virt_to_phys(&self, root: u64, vaddr: u64) -> (r: Option<u64>)
        requires
            self.wf(),
        ensures
            r == self.translate(root, vaddr),
    {
        let k2 = match self.find(root) {
            Some(k) => k,
            None => {
                return None;
            },
        };
        proof {
            lemma_vpn_bound(vaddr);
        }
        let e2 = Entry { entry: self.entry(k2, ((vaddr >> 30u64) & 0x1ff) as usize) };
        if e2.is_invalid() {
            return None;
        }
        if e2.is_leaf() {
            return Some(((e2.get_entry() << 2u64) & !0x3fff_ffffu64) | (vaddr & 0x3fff_ffff));
        }
        let k1 = match self.find((e2.get_entry() & !0x3ffu64) << 2u64) {
            Some(k) => k,
            None => {
                return None;
            },
        };
        let e1 = Entry { entry: self.entry(k1, ((vaddr >> 21u64) & 0x1ff) as usize) };
        if e1.is_invalid() {
            return None;
        }
        if e1.is_leaf() {
            return Some(((e1.get_entry() << 2u64) & !0x1f_ffffu64) | (vaddr & 0x1f_ffff));
        }
        let k0 = match self.find((e1.get_entry() & !0x3ffu64) << 2u64) {
            Some(k) => k,
            None => {
                return None;
            },
        };
        let e0 = Entry { entry: self.entry(k0, ((vaddr >> 12u64) & 0x1ff) as usize) };
        if e0.is_valid() && e0.is_leaf() {
            Some(((e0.get_entry() << 2u64) & !0xfffu64) | (vaddr & 0xfff))
        } else {
            None
        }
    }

    /// Makes a root table from a fresh page; its address, or 0 where no page
    /// is left (or the page is already in use as a table).
    pub fn new_root(&mut self, pages: &mut PageAllocator) -> (r: u64)
        requires
            old(self).wf(),
            old(pages).wf(),
        ensures
            final(self).wf(),
            final(pages).wf(),
            final(pages).start() == old(pages).start(),
            final(pages).flags().len() == old(pages).flags().len(),
            r != 0 ==> final(self).is_root(r),
            r != 0 ==> forall|va: u64| #[trigger] final(self).translate(r, va).is_none(),
            forall|x: u64| old(self).is_root(x) ==> #[trigger] final(self).is_root(x),
            forall|x: u64, va: u64|
                old(self).is_root(x) ==> #[trigger] final(self).translate(x, va) == old(self).translate(x, va),
            r == 0 ==> (forall|j: int| !#[trigger] window_free(old(pages).flags(), j, 1))
                || !old(self).in_sync(old(pages)),
            r == 0 && old(self).in_sync(old(pages)) ==> final(pages).flags() == old(pages).flags(),
            forall|w: int| #[trigger] has_window(old(pages).flags(), w) && w >= 1 ==> has_window(final(pages).flags(), w - 1),
            old(self).in_sync(old(pages)) ==> final(self).in_sync(final(pages)),
    {
        proof {
            lemma_window_shrink(old(pages).flags());
        }
        let a = pages.alloc_pages(1);
        if a == 0 {
            return 0;
        }
        let ghost j = choose|j: int| first_fit(old(pages).flags(), j, 1) && a == old(pages).page_addr(j);
        proof {
            assert forall|w: int| #[trigger] has_window(old(pages).flags(), w) && w >= 1 implies has_window(
                pages.flags(),
                w - 1,
            ) by {
                let j0 = choose|j0: int| #[trigger] window_free(old(pages).flags(), j0, w);
                lemma_window_after_alloc(old(pages).flags(), j0, w, j, 1);
            }
        }
        if self.find(a).is_some() {
            assert(old(pages).flags()[j] == FLAGS_FREE);
            let _ = pages.dealloc(a);
            proof {
                crate::page::lemma_alloc_then_free(old(pages).flags(), j, 1);
            }
            return 0;
        }
        let k = self.create_table(a, 2);
        proof {
            lemma_encoding(0, 0, 0, 0);
            let n = old(self).ntables();
            assert forall|k2: int| #[trigger] self.live(k2) implies self.addr(k2) & 0xfff == 0 && 0
                <= self.level(k2) <= 2 by {
                if k2 < n {
                    assert(old(self).live(k2));
                }
            }
            assert forall|k2: int| 0 <= k2 < n && old(self).live(k2) implies self.addr(k2) != a by {}
            lemma_lookup_is(self, n, a);
            assert forall|x: u64| x != a implies #[trigger] self.lookup(x) == old(self).lookup(x) by {
                lemma_lookup_extend(old(self), self, x);
            }
            assert forall|k2: int, i2: int|
                self.live(k2) && 0 <= i2 < 512 && #[trigger] self.is_branch_at(k2, i2) implies self.level(k2)
                    >= 1 && self.lookup(child(self.ent(k2, i2))).is_some() && self.level(
                    self.lookup(child(self.ent(k2, i2)))->0,
                ) == self.level(k2) - 1 by {
                assert(k2 != n);
                assert(old(self).is_branch_at(k2, i2));
                assert(child(old(self).ent(k2, i2)) != a);
            }
            assert forall|k1: int, i1: int, k2: int, i2: int|
                self.live(k1) && self.live(k2) && 0 <= i1 < 512 && 0 <= i2 < 512 && (k1 != k2 || i1 != i2)
                    && #[trigger] self.is_branch_at(k1, i1) && #[trigger] self.is_branch_at(k2, i2) implies child(
                    self.ent(k1, i1),
                ) != child(self.ent(k2, i2)) by {
                assert(k1 != n && k2 != n);
                assert(old(self).is_branch_at(k1, i1));
                assert(old(self).is_branch_at(k2, i2));
            }
            assert forall|k2: int, i2: int|
                self.live(k2) && 0 <= i2 < 512 && #[trigger] self.is_leaf_at(k2, i2) implies self.level(k2) == 0 by {
                if k2 == n {
                    assert(self.ent(k2, i2) == 0);
                } else {
                    assert(old(self).is_leaf_at(k2, i2));
                }
            }
            assert forall|va: u64| #[trigger] self.translate(a, va).is_none() by {
                lemma_vpn_bound(va);
                assert(self.ent(n, vpn(va, 2)) == 0);
            }
            assert forall|x: u64, va: u64| old(self).is_root(x) implies #[trigger] self.translate(x, va)
                == old(self).translate(x, va) by {
                lemma_vpn_bound(va);
                let k0 = old(self).lookup(x)->0;
                assert(x != a);
                let e2 = old(self).ent(k0, vpn(va, 2));
                assert(self.ent(k0, vpn(va, 2)) == e2);
                if valid(e2) && !leaf(e2) {
                    assert(old(self).is_branch_at(k0, vpn(va, 2)));
                    let c1 = child(e2);
                    assert(c1 != a);
                    let k1 = old(self).lookup(c1)->0;
                    let e1 = old(self).ent(k1, vpn(va, 1));
                    assert(self.ent(k1, vpn(va, 1)) == e1);
                    if valid(e1) && !leaf(e1) {
                        assert(old(self).is_branch_at(k1, vpn(va, 1)));
                        let c0 = child(e1);
                        assert(c0 != a);
                        let k0_ = old(self).lookup(c0)->0;
                        assert(self.ent(k0_, vpn(va, 0)) == old(self).ent(k0_, vpn(va, 0)));
                    }
                }
            }
        }
        proof {
            if old(self).in_sync(old(pages)) {
                assert forall|m: int|
                    0 <= m < pages.flags().len() && #[trigger] pages.flags()[m] == FLAGS_FREE implies self.lookup(
                        pages.page_addr(m) as u64,
                    ).is_none() by {
                    assert(m != j);
                    assert(old(pages).flags()[m] == FLAGS_FREE);
                    assert(pages.page_addr(m) != pages.page_addr(j)) by (nonlinear_arith)
                        requires
                            m != j,
                            pages.page_addr(m) == pages.start() + m * 4096,
                            pages.page_addr(j) == pages.start() + j * 4096,
                    ;
                    assert(pages.page_addr(m) as u64 != a);
                }
            }
        }
        a
    }

    /// Maps every page that meets `[start, end)` to itself with the given
    /// bits. Fails where a page cannot be mapped; the pages before it stay
    /// mapped.
    pub fn id_map_range(
        &mut self,
        root: u64,
        start: u64,
        end: u64,
        bits: u64,
        pages: &mut PageAllocator,
    ) -> (r: bool)
        requires
            old(self).wf(),
            old(pages).wf(),
            old(self).is_root(root),
            bits & 0xe != 0,
            bits <= 0x3ff,
            start <= end,
            end <= 0x80_0000_0000,
        ensures
            final(self).wf(),
            final(pages).wf(),
            final(pages).start() == old(pages).start(),
            final(pages).flags().len() == old(pages).flags().len(),
            final(self).is_root(root),
            old(self).in_sync(old(pages)) ==> final(self).in_sync(final(pages)),
            r ==> forall|va: u64|
                (start & !0xfffu64) <= va < page_end(end) ==> #[trigger] final(self).translate(root, va) == Some(va),
            r ==> forall|va: u64|
                (start & !0xfffu64) <= va < end ==> #[trigger] final(self).translate(root, va) == Some(va),
            r ==> forall|va: u64|
                (start & !0xfffu64) <= va < page_end(end) ==> #[trigger] final(self).perm(root, va) == Some(bits | 1),
            forall|va: u64|
                va < 0x80_0000_0000 && !((start & !0xfffu64) <= va < page_end(end)) ==> #[trigger] final(self).perm(root, va)
                    == old(self).perm(root, va),
            r ==> forall|va: u64|
                va < 0x80_0000_0000 && !((start & !0xfffu64) <= va < page_end(end)) ==> #[trigger] final(self).translate(root, va) == old(self).translate(root, va),
            forall|va: u64|
                va < 0x80_0000_0000 && !((start & !0xfffu64) <= va < page_end(end)) ==> #[trigger] final(self).translate(root, va) == old(self).translate(root, va),
            !r ==> (forall|j: int| !#[trigger] window_free(final(pages).flags(), j, 1)) || !old(self).in_sync(old(pages)),
            forall|w: int| #[trigger] has_window(old(pages).flags(), w) && w >= id_need(start, end) ==> has_window(
                final(pages).flags(),
                w - id_need(start, end),
            ),
            has_window(old(pages).flags(), id_need(start, end)) && old(self).in_sync(old(pages)) ==> r,
    {
        let base = start & !0xfffu64;
        let mut memaddr = base;
        proof {
            assert(base <= start && base & 0xfff == 0) by (bit_vector)
                requires
                    base == start & !0xfffu64,
            ;
            lemma_aligned_mod(base);
            assert(base <= page_end(end)) by (nonlinear_arith)
                requires
                    base <= start <= end,
                    base % 4096 == 0,
            ;
            assert(base + 2048 * id_need(start, end) == page_end(end)) by (nonlinear_arith)
                requires
                    base % 4096 == 0,
                    base <= page_end(end),
                    base == start & !0xfffu64,
            ;
        }
        let ghost need = id_need(start, end);
        let ghost mut left: int = need;
        while memaddr < end
            invariant
                self.wf(),
                pages.wf(),
                pages.start() == old(pages).start(),
                pages.flags().len() == old(pages).flags().len(),
                self.is_root(root),
                old(self).in_sync(old(pages)) ==> self.in_sync(pages),
                base <= memaddr <= page_end(end),
                base == start & !0xfffu64,
                end <= 0x80_0000_0000,
                memaddr & 0xfff == 0,
                bits & 0xe != 0,
                bits <= 0x3ff,
                forall|va: u64| base <= va < memaddr ==> #[trigger] self.translate(root, va) == Some(va),
                forall|va: u64|
                    va < 0x80_0000_0000 && !(base <= va < memaddr) ==> #[trigger] self.translate(root, va)
                        == old(self).translate(root, va),
                forall|va: u64| base <= va < memaddr ==> #[trigger] self.perm(root, va) == Some(bits | 1),
                forall|va: u64|
                    va < 0x80_0000_0000 && !(base <= va < memaddr) ==> #[trigger] self.perm(root, va)
                        == old(self).perm(root, va),
                need == id_need(start, end),
                0 <= left <= need,
                memaddr + 2048 * left == page_end(end),
                forall|w: int| #[trigger] has_window(old(pages).flags(), w) && w >= need ==> has_window(
                    pages.flags(),
                    w - (need - left),
                ),
            decreases end + 4096 - memaddr,
        {
            let ghost before = *self;
            let ghost pb = pages.flags();
            proof {
                lemma_aligned_mod(memaddr);
                assert(memaddr + 4096 <= page_end(end)) by (nonlinear_arith)
                    requires
                        memaddr < end,
                        memaddr % 4096 == 0,
                ;
            }
            if !self.map(root, memaddr, memaddr, bits, 0, pages) {
                proof {
                    lemma_not_blocked(&before, root, memaddr);
                    assert(left >= 2);
                    assert forall|w: int| #[trigger] has_window(old(pages).flags(), w) && w >= need implies has_window(
                        pages.flags(),
                        w - need,
                    ) by {
                        assert(has_window(pb, w - (need - left)));
                        lemma_window_shrink_to(pages.flags(), w - (need - left) - 2, w - need);
                    }
                    if has_window(old(pages).flags(), need) && old(self).in_sync(old(pages)) {
                        assert(has_window(pb, left));
                        lemma_window_shrink_to(pb, left, 2);
                    }
                    assert(base == (start & !0xfffu64));
                    assert forall|va: u64|
                        va < 0x80_0000_0000 && !((start & !0xfffu64) <= va < page_end(end)) implies #[trigger] self.translate(root, va)
                        == old(self).translate(root, va) by {
                        assert(self.translate(root, va) == before.translate(root, va));
                        assert(!(base <= va < memaddr));
                    }
                    assert forall|va: u64|
                        va < 0x80_0000_0000 && !((start & !0xfffu64) <= va < page_end(end)) implies #[trigger] self.perm(root, va)
                        == old(self).perm(root, va) by {
                        assert(self.leaf_of(root, va) == before.leaf_of(root, va));
                        assert(!(base <= va < memaddr));
                        assert(before.perm(root, va) == old(self).perm(root, va));
                    }
                }
                return false;
            }
            proof {
                assert forall|va: u64| base <= va < memaddr + 4096 implies #[trigger] self.translate(root, va)
                    == Some(va) by {
                    if va < memaddr {
                        lemma_other_page(va, memaddr);
                        assert(before.translate(root, va) == Some(va));
                    } else {
                        lemma_in_page(va, memaddr);
                        assert(self.translate(root, va) == Some((memaddr & !0xfffu64) | (va & 0xfff)));
                    }
                }
                assert forall|va: u64|
                    va < 0x80_0000_0000 && !(base <= va < memaddr + 4096) implies #[trigger] self.translate(root, va)
                    == old(self).translate(root, va) by {
                    if same_page(va, memaddr) {
                        lemma_same_page_range(va, memaddr);
                    }
                    assert(self.translate(root, va) == before.translate(root, va));
                }
                assert forall|va: u64|
                    va < 0x80_0000_0000 && !(base <= va < memaddr + 4096) implies #[trigger] self.perm(root, va)
                    == old(self).perm(root, va) by {
                    if same_page(va, memaddr) {
                        lemma_same_page_range(va, memaddr);
                    }
                    assert(self.leaf_of(root, va) == before.leaf_of(root, va));
                    assert(before.perm(root, va) == old(self).perm(root, va));
                }
                assert forall|va: u64| base <= va < memaddr + 4096 implies #[trigger] self.perm(root, va) == Some(bits | 1) by {
                    if va < memaddr {
                        lemma_other_page(va, memaddr);
                        assert(self.leaf_of(root, va) == before.leaf_of(root, va));
                        assert(before.perm(root, va) == Some(bits | 1));
                    } else {
                        lemma_in_page(va, memaddr);
                        assert(same_page(va, memaddr));
                    }
                }
                let next: u64 = (memaddr + 4096) as u64;
                assert(next & 0xfff == 0) by (bit_vector)
                    requires
                        memaddr & 0xfff == 0,
                        memaddr <= 0x80_0000_1000u64,
                        next == memaddr + 4096,
                ;
            }
            proof {
                assert forall|w: int| #[trigger] has_window(old(pages).flags(), w) && w >= need implies has_window(
                    pages.flags(),
                    w - (need - (left - 2)),
                ) by {
                    assert(has_window(pb, w - (need - left)));
                }
                left = left - 2;
            }
            memaddr = memaddr + 4096;
        }
        proof {
            lemma_aligned_mod(memaddr);
            assert(memaddr >= page_end(end)) by (nonlinear_arith)
                requires
                    memaddr >= end,
                    memaddr % 4096 == 0,
            ;
        }
        true
    }

    /// Frees table `k`, which no branch names any more, and gives its page
    /// back to the page allocator.
    fn free_table(&mut self, k: usize, pages: &mut PageAllocator)
        requires
            old(self).wf(),
            old(pages).wf(),
            old(self).live(k as int),
            forall|k2: int, i2: int|
                old(self).live(k2) && 0 <= i2 < 512 && #[trigger] old(self).is_branch_at(k2, i2) ==> child(
                    old(self).ent(k2, i2),
                ) != old(self).addr(k as int),
        ensures
            final(self).wf(),
            final(pages).wf(),
            final(pages).start() == old(pages).start(),
            final(pages).flags().len() == old(pages).flags().len(),
            final(self).ntables() == old(self).ntables(),
            !final(self).live(k as int),
            forall|k2: int| 0 <= k2 < final(self).ntables() && k2 != k ==> #[trigger] final(self).addr(k2) == old(self).addr(k2),
            forall|k2: int| 0 <= k2 < final(self).ntables() ==> #[trigger] final(self).level(k2) == old(self).level(k2),
            forall|k2: int, i2: int| #[trigger] final(self).ent(k2, i2) == old(self).ent(k2, i2),
            !final(pages).live_at(old(self).addr(k as int)),
            forall|p: u64| #[trigger] final(pages).live_at(p) ==> old(pages).live_at(p),
    {
        let a = self.addrs[k];
        let _ = pages.dealloc(a);
        self.addrs.set(k, 0);
        proof {
            assert forall|k2: int| #[trigger] self.live(k2) implies self.addr(k2) & 0xfff == 0 && 0
                <= self.level(k2) <= 2 by {
                assert(old(self).live(k2));
            }
            assert forall|k1: int, k2: int|
                self.live(k1) && self.live(k2) && k1 != k2 implies #[trigger] self.addr(k1)
                != #[trigger] self.addr(k2) by {
                assert(old(self).live(k1) && old(self).live(k2));
            }
            assert forall|y: u64| y != a implies #[trigger] self.lookup(y) == old(self).lookup(y) by {
                if old(self).lookup(y).is_some() {
                    let c = old(self).lookup(y)->0;
                    lemma_lookup_is(self, c, y);
                } else {
                    assert forall|c: int| self.live(c) implies #[trigger] self.addr(c) != y by {
                        assert(old(self).live(c));
                    }
                }
            }
            assert forall|k2: int, i2: int|
                self.live(k2) && 0 <= i2 < 512 && #[trigger] self.is_branch_at(k2, i2) implies self.level(k2)
                    >= 1 && self.lookup(child(self.ent(k2, i2))).is_some() && self.level(
                    self.lookup(child(self.ent(k2, i2)))->0,
                ) == self.level(k2) - 1 by {
                assert(old(self).live(k2));
                assert(old(self).is_branch_at(k2, i2));
            }
            assert forall|k1: int, i1: int, k2: int, i2: int|
                self.live(k1) && self.live(k2) && 0 <= i1 < 512 && 0 <= i2 < 512 && (k1 != k2 || i1 != i2)
                    && #[trigger] self.is_branch_at(k1, i1) && #[trigger] self.is_branch_at(k2, i2) implies child(
                    self.ent(k1, i1),
                ) != child(self.ent(k2, i2)) by {
                assert(old(self).is_branch_at(k1, i1));
                assert(old(self).is_branch_at(k2, i2));
            }
            assert forall|k1: int, k2: int|
                self.live(k1) && self.live(k2) && k1 != k2 implies #[trigger] self.addr(k1)
                != #[trigger] self.addr(k2) by {
                assert(old(self).live(k1) && old(self).live(k2));
            }
            assert forall|k2: int, i2: int|
                self.live(k2) && 0 <= i2 < 512 && #[trigger] self.is_leaf_at(k2, i2) implies self.level(k2) == 0 by {
                assert(old(self).live(k2));
                assert(old(self).is_leaf_at(k2, i2));
            }
        }
    }

    /// Clears entry `i` of table `k`.
    fn clear_entry(&mut self, k: usize, i: usize)
        requires
            old(self).wf(),
            old(self).live(k as int),
            i < 512,
        ensures
            final(self).wf(),
            final(self).ntables() == old(self).ntables(),
            final(self).agrees_except(old(self), old(self).ntables(), k as int, i as int),
            final(self).ent(k as int, i as int) == 0,
            forall|y: u64| #[trigger] final(self).lookup(y) == old(self).lookup(y),
    {
        self.set_entry(k, i, 0);
        proof {
            lemma_encoding(0, 0, 0, 0);
            assert forall|y: u64| #[trigger] self.lookup(y) == old(self).lookup(y) by {
                if old(self).lookup(y).is_some() {
                    let c = old(self).lookup(y)->0;
                    lemma_lookup_is(self, c, y);
                } else {
                    assert forall|c: int| self.live(c) implies #[trigger] self.addr(c) != y by {
                        assert(old(self).live(c));
                    }
                }
            }
            assert forall|k2: int| #[trigger] self.live(k2) implies self.addr(k2) & 0xfff == 0 && 0
                <= self.level(k2) <= 2 by {
                assert(old(self).live(k2));
            }
            assert forall|k1: int, k2: int|
                self.live(k1) && self.live(k2) && k1 != k2 implies #[trigger] self.addr(k1)
                != #[trigger] self.addr(k2) by {
                assert(old(self).live(k1) && old(self).live(k2));
            }
            assert forall|k2: int, i2: int|
                self.live(k2) && 0 <= i2 < 512 && #[trigger] self.is_branch_at(k2, i2) implies self.level(k2)
                    >= 1 && self.lookup(child(self.ent(k2, i2))).is_some() && self.level(
                    self.lookup(child(self.ent(k2, i2)))->0,
                ) == self.level(k2) - 1 by {
                assert(old(self).is_branch_at(k2, i2));
                let c = old(self).lookup(child(old(self).ent(k2, i2)))->0;
                assert(self.addr(c) == old(self).addr(c));
            }
            assert forall|k1: int, i1: int, k2: int, i2: int|
                self.live(k1) && self.live(k2) && 0 <= i1 < 512 && 0 <= i2 < 512 && (k1 != k2 || i1 != i2)
                    && #[trigger] self.is_branch_at(k1, i1) && #[trigger] self.is_branch_at(k2, i2) implies child(
                    self.ent(k1, i1),
                ) != child(self.ent(k2, i2)) by {
                assert(old(self).is_branch_at(k1, i1));
                assert(old(self).is_branch_at(k2, i2));
            }
            assert forall|k2: int, i2: int|
                self.live(k2) && 0 <= i2 < 512 && #[trigger] self.is_leaf_at(k2, i2) implies self.level(k2) == 0 by {
                assert(self.addr(k2) == old(self).addr(k2));
                assert(old(self).is_leaf_at(k2, i2));
            }
        }
    }

    /// What translating through root `root` gives once its tables below the
    /// root were freed: the leaves of the root itself still translate.
    pub open spec fn root_only(&self, root: u64, va: u64) -> Option<u64> {
        let e2 = self.ent(self.lookup(root)->0, vpn(va, 2));
        if valid(e2) && leaf(e2) {
            Some(leaf_addr(e2, 2, va))
        } else {
            None
        }
    }

    /// Frees every level-1 and level-0 table below root `root` and gives
    /// their pages back; the pages that leaves map are not freed.
    pub fn unmap(&mut self, root: u64, pages: &mut PageAllocator)
        requires
            old(self).wf(),
            old(pages).wf(),
            old(self).is_root(root),
        ensures
            final(self).wf(),
            final(pages).wf(),
            final(pages).start() == old(pages).start(),
            final(pages).flags().len() == old(pages).flags().len(),
            final(self).is_root(root),
            forall|va: u64| #[trigger] final(self).translate(root, va) == old(self).root_only(root, va),
            forall|x: u64| #[trigger] final(pages).live_at(x) ==> old(pages).live_at(x),
            forall|i: int|
                0 <= i < 512 ==> #[trigger] subtree_freed(old(self), old(self).lookup(root)->0, i, final(pages)),
    {
        let kr = match self.find(root) {
            Some(k) => k,
            None => {
                return;
            },
        };
        let ghost s0 = *self;
        proof {
            lemma_encoding(0, 0, 0, 0);
        }
        let mut i: usize = 0;
        while i < 512
            invariant
                self.wf(),
                pages.wf(),
                pages.start() == old(pages).start(),
                pages.flags().len() == old(pages).flags().len(),
                s0 == *old(self),
                s0.lookup(root) == Some(kr as int),
                self.live(kr as int),
                self.addr(kr as int) == root,
                self.level(kr as int) == 2,
                i <= 512,
                forall|i2: int|
                    0 <= i2 < 512 ==> #[trigger] self.ent(kr as int, i2) == if i2 < i && s0.is_branch_at(
                        kr as int,
                        i2,
                    ) {
                        0
                    } else {
                        s0.ent(kr as int, i2)
                    },
                s0.wf(),
                self.ntables() == s0.ntables(),
                forall|x: u64| #[trigger] pages.live_at(x) ==> old(pages).live_at(x),
                forall|i2: int| 0 <= i2 < i ==> #[trigger] subtree_freed(&s0, kr as int, i2, pages),
                forall|k2: int| #[trigger] self.live(k2) ==> s0.live(k2) && self.addr(k2) == s0.addr(k2),
                forall|k2: int, j2: int|
                    0 <= j2 < 512 && k2 != kr && s0.live(k2) && untouched(&s0, kr as int, i as int, k2) ==> #[trigger] self.ent(
                        k2,
                        j2,
                    ) == s0.ent(k2, j2),
            decreases 512 - i,
        {
            let ghost pi = *pages;
            let e = Entry { entry: self.entry(kr, i) };
            if e.is_valid() && !e.is_leaf() {
                assert(self.is_branch_at(kr as int, i as int));
                let k1 = match self.find((e.get_entry() & !0x3ffu64) << 2u64) {
                    Some(k) => k,
                    None => {
                        return;
                    },
                };
                let ghost sm = *self;
                proof {
                    assert(s0.live(k1 as int) && s0.addr(k1 as int) == self.addr(k1 as int));
                    assert(self.ent(kr as int, i as int) == s0.ent(kr as int, i as int));
                    assert(s0.is_branch_at(kr as int, i as int));
                    assert(self.level(k1 as int) == 1 && self.level(kr as int) == 2);
                    assert(k1 != kr);
                    assert(untouched(&s0, kr as int, i as int, k1 as int)) by {
                        assert forall|i2: int| 0 <= i2 < i && #[trigger] s0.is_branch_at(kr as int, i2) implies s0.addr(k1 as int)
                            != child(s0.ent(kr as int, i2)) by {
                            assert(s0.live(kr as int));
                        }
                    }
                    assert forall|j2: int| 0 <= j2 < 512 implies #[trigger] self.ent(k1 as int, j2) == s0.ent(k1 as int, j2) by {}
                }
                let mut j: usize = 0;
                while j < 512
                    invariant
                        self.wf(),
                        pages.wf(),
                        pages.start() == old(pages).start(),
                pages.flags().len() == old(pages).flags().len(),
                        self.live(kr as int),
                        self.live(k1 as int),
                        self.addr(kr as int) == root,
                        self.addr(k1 as int) == sm.addr(k1 as int),
                        self.level(kr as int) == 2,
                        self.level(k1 as int) == 1,
                        self.is_branch_at(kr as int, i as int),
                        child(self.ent(kr as int, i as int)) == self.addr(k1 as int),
                        i < 512,
                        j <= 512,
                        forall|i2: int| 0 <= i2 < 512 ==> #[trigger] self.ent(kr as int, i2) == sm.ent(kr as int, i2),
                        forall|j2: int| 0 <= j2 < j ==> !#[trigger] self.is_branch_at(k1 as int, j2),
                        s0.wf(),
                        self.ntables() == s0.ntables(),
                        s0.live(k1 as int),
                        s0.addr(k1 as int) == child(s0.ent(kr as int, i as int)),
                        s0.is_branch_at(kr as int, i as int),
                        forall|x: u64| #[trigger] pages.live_at(x) ==> pi.live_at(x),
                        forall|j2: int| 0 <= j2 < j ==> #[trigger] child_freed(&s0, k1 as int, j2, pages),
                        forall|j2: int| j <= j2 < 512 ==> #[trigger] self.ent(k1 as int, j2) == s0.ent(k1 as int, j2),
                        forall|k2: int| #[trigger] self.live(k2) ==> s0.live(k2) && self.addr(k2) == s0.addr(k2),
                        forall|k2: int, j2: int|
                            0 <= j2 < 512 && k2 != kr && k2 != k1 && s0.live(k2) && untouched(&s0, kr as int, i as int, k2) ==> #[trigger] self.ent(
                                k2,
                                j2,
                            ) == s0.ent(k2, j2),
                    decreases 512 - j,
                {
                    let e1 = Entry { entry: self.entry(k1, j) };
                    let ghost sj = *self;
                    if e1.is_valid() && !e1.is_leaf() {
                        assert(self.is_branch_at(k1 as int, j as int));
                        let k0 = match self.find((e1.get_entry() & !0x3ffu64) << 2u64) {
                            Some(k) => k,
                            None => {
                                return;
                            },
                        };
                        let ghost sa = *self;
                        self.clear_entry(k1, j);
                        proof {
                            assert(sa.addr(k0 as int) == child(sa.ent(k1 as int, j as int)));
                            assert(sa.level(k0 as int) == 0);
                            assert forall|k2: int, i2: int|
                                self.live(k2) && 0 <= i2 < 512 && #[trigger] self.is_branch_at(k2, i2) implies child(
                                    self.ent(k2, i2),
                                ) != self.addr(k0 as int) by {
                                lemma_encoding(0, 0, 0, 0);
                                assert(k2 != k1 || i2 != j);
                                assert(self.addr(k2) == sa.addr(k2));
                                assert(self.ent(k2, i2) == sa.ent(k2, i2));
                                assert(sa.is_branch_at(k2, i2));
                                assert(sa.addr(k0 as int) == self.addr(k0 as int));
                            }
                            assert(self.addr(k1 as int) == sa.addr(k1 as int));
                            assert(self.addr(kr as int) == sa.addr(kr as int));
                        }
                        let ghost pb = *pages;
                        self.free_table(k0, pages);
                        proof {
                            assert(k0 != k1 && k0 != kr);
                            assert(sa.addr(k0 as int) == child(s0.ent(k1 as int, j as int)));
                            assert(child_freed(&s0, k1 as int, j as int, pages));
                            assert forall|x: u64| #[trigger] pages.live_at(x) implies pi.live_at(x) by {
                                assert(pb.live_at(x));
                            }
                            assert forall|j2: int| 0 <= j2 < j implies #[trigger] child_freed(&s0, k1 as int, j2, pages) by {
                                assert(child_freed(&s0, k1 as int, j2, &pb));
                                if s0.is_branch_at(k1 as int, j2) {
                                    if pages.live_at(child(s0.ent(k1 as int, j2))) {
                                        assert(pb.live_at(child(s0.ent(k1 as int, j2))));
                                    }
                                }
                            }
                            assert forall|k2: int| #[trigger] self.live(k2) implies s0.live(k2) && self.addr(k2) == s0.addr(k2) by {
                                assert(sa.live(k2));
                            }
                        }
                    }
                    proof {
                        lemma_encoding(0, 0, 0, 0);
                        assert forall|j2: int| 0 <= j2 < j + 1 implies !#[trigger] self.is_branch_at(k1 as int, j2) by {
                            if j2 < j {
                                assert(!sj.is_branch_at(k1 as int, j2));
                                assert(self.ent(k1 as int, j2) == sj.ent(k1 as int, j2));
                            }
                        }
                        assert forall|i2: int| 0 <= i2 < 512 implies #[trigger] self.ent(kr as int, i2) == sm.ent(kr as int, i2) by {
                            assert(self.ent(kr as int, i2) == sj.ent(kr as int, i2));
                        }
                        assert forall|j2: int| j + 1 <= j2 < 512 implies #[trigger] self.ent(k1 as int, j2) == s0.ent(k1 as int, j2) by {
                            assert(self.ent(k1 as int, j2) == sj.ent(k1 as int, j2));
                        }
                        assert forall|k2: int, j2: int|
                            0 <= j2 < 512 && k2 != kr && k2 != k1 && s0.live(k2) && untouched(&s0, kr as int, i as int, k2) implies #[trigger] self.ent(
                                k2,
                                j2,
                            ) == s0.ent(k2, j2) by {
                            assert(self.ent(k2, j2) == sj.ent(k2, j2));
                        }
                    }
                    j = j + 1;
                }
                let ghost sb = *self;
                self.clear_entry(kr, i);
                proof {
                    assert forall|k2: int, i2: int|
                        self.live(k2) && 0 <= i2 < 512 && #[trigger] self.is_branch_at(k2, i2) implies child(
                            self.ent(k2, i2),
                        ) != self.addr(k1 as int) by {
                        lemma_encoding(0, 0, 0, 0);
                        assert(k2 != kr || i2 != i);
                        assert(self.addr(k2) == sb.addr(k2));
                        assert(self.ent(k2, i2) == sb.ent(k2, i2));
                        assert(sb.is_branch_at(k2, i2));
                        assert(sb.addr(k1 as int) == self.addr(k1 as int));
                    }
                    assert(self.addr(kr as int) == sb.addr(kr as int));
                }
                let ghost pb = *pages;
                let ghost sc = *self;
                self.free_table(k1, pages);
                proof {
                    assert(k1 != kr);
                    assert forall|x: u64| #[trigger] pages.live_at(x) implies old(pages).live_at(x) by {
                        assert(pb.live_at(x));
                        assert(pi.live_at(x));
                    }
                    assert forall|x: u64| #[trigger] pages.live_at(x) implies pi.live_at(x) by {
                        assert(pb.live_at(x));
                    }
                    assert forall|i2: int| 0 <= i2 < i implies #[trigger] subtree_freed(&s0, kr as int, i2, pages) by {
                        lemma_freed_stays(&s0, kr as int, i2, &pi, pages);
                    }
                    lemma_lookup_is(&s0, k1 as int, child(s0.ent(kr as int, i as int)));
                    assert forall|j2: int| 0 <= j2 < 512 implies #[trigger] child_freed(
                        &s0,
                        s0.lookup(child(s0.ent(kr as int, i as int)))->0,
                        j2,
                        pages,
                    ) by {
                        assert(child_freed(&s0, k1 as int, j2, &pb));
                        if s0.is_branch_at(k1 as int, j2) && pages.live_at(child(s0.ent(k1 as int, j2))) {
                            assert(pb.live_at(child(s0.ent(k1 as int, j2))));
                        }
                    }
                    assert(sc.addr(k1 as int) == child(s0.ent(kr as int, i as int)));
                    assert(subtree_freed(&s0, kr as int, i as int, pages));
                    assert forall|k2: int| #[trigger] self.live(k2) implies s0.live(k2) && self.addr(k2) == s0.addr(k2) by {
                        assert(sc.live(k2));
                        assert(sb.live(k2));
                    }
                    assert forall|k2: int, j2: int|
                        0 <= j2 < 512 && k2 != kr && s0.live(k2) && untouched(&s0, kr as int, i + 1, k2) implies #[trigger] self.ent(
                            k2,
                            j2,
                        ) == s0.ent(k2, j2) by {
                        assert(s0.addr(k2) != child(s0.ent(kr as int, i as int)));
                        assert(k2 != k1);
                        assert(untouched(&s0, kr as int, i as int, k2));
                        assert(sb.ent(k2, j2) == s0.ent(k2, j2));
                        assert(sc.ent(k2, j2) == sb.ent(k2, j2));
                    }
                }
            } else {
                proof {
                    assert(!s0.is_branch_at(kr as int, i as int));
                    assert(subtree_freed(&s0, kr as int, i as int, pages));
                    assert forall|k2: int, j2: int|
                        0 <= j2 < 512 && k2 != kr && s0.live(k2) && untouched(&s0, kr as int, i + 1, k2) implies #[trigger] self.ent(
                            k2,
                            j2,
                        ) == s0.ent(k2, j2) by {
                        assert(untouched(&s0, kr as int, i as int, k2));
                    }
                }
            }
            i = i + 1;
        }
        proof {
            lemma_lookup_is(self, kr as int, root);
            assert forall|va: u64| #[trigger] self.translate(root, va) == s0.root_only(root, va) by {
                lemma_vpn_bound(va);
            }
        }
    }

    /// Frees the tables below root `root`, then the root itself; afterwards
    /// nothing translates through it.
    pub fn free_root(&mut self, root: u64, pages: &mut PageAllocator)
        requires
            old(self).wf(),
            old(pages).wf(),
            old(self).is_root(root),
        ensures
            final(self).wf(),
            final(pages).wf(),
            final(pages).start() == old(pages).start(),
            final(pages).flags().len() == old(pages).flags().len(),
            forall|va: u64| #[trigger] final(self).translate(root, va).is_none(),
    {
        self.unmap(root, pages);
        let kr = match self.find(root) {
            Some(k) => k,
            None => {
                return;
            },
        };
        proof {
            assert forall|k2: int, i2: int|
                self.live(k2) && 0 <= i2 < 512 && #[trigger] self.is_branch_at(k2, i2) implies child(
                    self.ent(k2, i2),
                ) != self.addr(kr as int) by {
                let c = self.lookup(child(self.ent(k2, i2)))->0;
                assert(self.level(c) <= 1);
                assert(self.level(kr as int) == 2);
                lemma_lookup_is(self, kr as int, root);
            }
        }
        let ghost before = *self;
        self.free_table(kr, pages);
        proof {
            assert forall|va: u64| #[trigger] self.translate(root, va).is_none() by {
                assert forall|c: int| self.live(c) implies #[trigger] self.addr(c) != root by {
                    assert(before.live(c) && before.addr(c) == self.addr(c));
                    assert(before.addr(kr as int) == root);
                }
            }
        }
    }

    /// Whether `root` is the address of a live root table.
    pub fn is_root_table(&self, root: u64) -> (r: bool)
        requires
            self.wf(),
        ensures
            r == self.is_root(root),
    {
        match self.find(root) {
            Some(k) => self.levels[k] == 2,
            None => false,
        }
    }

    /// Entry `i` of table `k`.
    fn entry(&self, k: usize, i: usize) -> (r: u64)
        requires
            self.sized(),
            0 <= k < self.ntables(),
            i < 512,
        ensures
            r == self.ent(k as int, i as int),
    {
        let _n = self.entries.len();
        assert(k * 512 + i < 512 * self.ntables()) by (nonlinear_arith)
            requires
                k < self.ntables(),
                i < 512,
        ;
        self.entries[k * 512 + i].entry
    }
}

/// Distinct table slots hold distinct entries of the store.
pub proof fn lemma_index_unique(k: int, i: int, k2: int, i2: int)
    requires
        0 <= i < 512,
        0 <= i2 < 512,
        k >= 0,
        k2 >= 0,
        k2 != k || i2 != i,
    ensures
        k * 512 + i != k2 * 512 + i2,
{
    if k == k2 {
    } else if k < k2 {
        assert(k * 512 + 512 <= k2 * 512) by (nonlinear_arith)
            requires
                k < k2,
        ;
    } else {
        assert(k2 * 512 + 512 <= k * 512) by (nonlinear_arith)
            requires
                k2 < k,
        ;
    }
}

/// The lookup of an address that a live table holds gives that table.
pub proof fn lemma_lookup_is(t: &PageTables, k: int, x: u64)
    requires
        forall|k1: int, k2: int|
            t.live(k1) && t.live(k2) && k1 != k2 ==> #[trigger] t.addr(k1) != #[trigger] t.addr(k2),
        t.live(k),
        t.addr(k) == x,
    ensures
        t.lookup(x) == Some(k),
{
}

/// A store grown by one table: the lookup of any other address is as before.
pub proof fn lemma_lookup_extend(a: &PageTables, b: &PageTables, x: u64)
    requires
        a.wf(),
        b.ntables() == a.ntables() + 1,
        forall|k2: int| 0 <= k2 < a.ntables() ==> #[trigger] b.addr(k2) == a.addr(k2),
        b.addr(a.ntables()) != x,
        forall|k1: int, k2: int|
            b.live(k1) && b.live(k2) && k1 != k2 ==> #[trigger] b.addr(k1) != #[trigger] b.addr(k2),
    ensures
        b.lookup(x) == a.lookup(x),
{
    if a.lookup(x).is_some() {
        let k = a.lookup(x)->0;
        assert(b.live(k) && b.addr(k) == x);
        lemma_lookup_is(b, k, x);
    } else {
        assert forall|k: int| b.live(k) implies #[trigger] b.addr(k) != x by {
            if k < a.ntables() {
                assert(a.live(k));
            }
        }
    }
}

/// Linking a fresh, clear table under an entry that was not valid changes
/// no translation: every walk through it stops at a clear entry.
pub proof fn lemma_link_fresh_keeps_walks(t: &PageTables, u: &PageTables, k: int, i: int)
    requires
        t.wf(),
        u.wf(),
        u.ntables() == t.ntables() + 1,
        u.agrees_except(t, t.ntables(), k, i),
        t.live(k),
        0 <= i < 512,
        t.lookup(u.addr(t.ntables())).is_none(),
        u.live(t.ntables()),
        !valid(t.ent(k, i)),
        u.is_branch_at(k, i),
        u.lookup(child(u.ent(k, i))) == Some(t.ntables()),
        forall|i2: int| 0 <= i2 < 512 ==> #[trigger] u.ent(t.ntables(), i2) == 0,
    ensures
        forall|x: u64, va: u64|
            t.is_root(x) ==> #[trigger] u.translate(x, va) == t.translate(x, va),
        forall|x: u64, va: u64|
            t.is_root(x) ==> #[trigger] u.leaf_of(x, va) == t.leaf_of(x, va),
{
    let n = t.ntables();
    let a = u.addr(n);
    lemma_encoding(0, 0, 0, 0);
    assert forall|y: u64| y != a implies #[trigger] u.lookup(y) == t.lookup(y) by {
        if t.lookup(y).is_some() {
            let c = t.lookup(y)->0;
            assert(u.addr(c) == t.addr(c));
            lemma_lookup_is(u, c, y);
        } else {
            assert forall|c: int| u.live(c) implies #[trigger] u.addr(c) != y by {
                if c < n {
                    assert(u.addr(c) == t.addr(c));
                    assert(t.live(c));
                }
            }
        }
    }
    assert forall|x: u64, va: u64| t.is_root(x) implies #[trigger] u.leaf_of(x, va) == t.leaf_of(x, va) by {
        lemma_vpn_bound(va);
        let kr = t.lookup(x)->0;
        assert(t.addr(kr) == x);
        assert(u.addr(kr) == x);
        assert(x != a);
        assert(u.lookup(x) == Some(kr));
        let e2 = t.ent(kr, vpn(va, 2));
        if kr == k && vpn(va, 2) == i {
            let e2u = u.ent(kr, vpn(va, 2));
            assert(u.lookup(child(e2u)) == Some(n));
            assert(u.ent(n, vpn(va, 1)) == 0);
        } else {
            assert(u.ent(kr, vpn(va, 2)) == e2);
            if valid(e2) && !leaf(e2) {
                assert(t.is_branch_at(kr, vpn(va, 2)));
                let c1 = child(e2);
                let k1 = t.lookup(c1)->0;
                assert(t.addr(k1) == c1);
                assert(c1 != a);
                let e1 = t.ent(k1, vpn(va, 1));
                if k1 == k && vpn(va, 1) == i {
                    let e1u = u.ent(k1, vpn(va, 1));
                    assert(u.lookup(child(e1u)) == Some(n));
                    assert(u.ent(n, vpn(va, 0)) == 0);
                } else {
                    assert(u.ent(k1, vpn(va, 1)) == e1);
                    if valid(e1) && !leaf(e1) {
                        assert(t.is_branch_at(k1, vpn(va, 1)));
                        let c0 = child(e1);
                        let k0 = t.lookup(c0)->0;
                        assert(t.addr(k0) == c0);
                        assert(c0 != a);
                        assert(t.level(k0) == 0);
                        if k0 == k {
                            assert(t.level(k) >= 1) by {
                                assert(u.is_branch_at(k, i));
                            }
                        }
                        assert(u.ent(k0, vpn(va, 0)) == t.ent(k0, vpn(va, 0)));
                    }
                }
            }
        }
    }
    assert forall|x: u64, va: u64| t.is_root(x) implies #[trigger] u.translate(x, va) == t.translate(x, va) by {
        let kr = t.lookup(x)->0;
        assert(u.lookup(x) == t.lookup(x));
        assert(u.leaf_of(x, va) == t.leaf_of(x, va));
        assert(u.walk_leaf(kr, va) == t.walk_leaf(kr, va));
    }
}

/// Two addresses lie in the same 4 KiB page of the Sv39 space.
pub open spec fn same_page(a: u64, b: u64) -> bool {
    vpn(a, 2) == vpn(b, 2) && vpn(a, 1) == vpn(b, 1) && vpn(a, 0) == vpn(b, 0)
}

/// The walk from root `x` for `va` reads entry `i` of the level-0 table `k`.
pub open spec fn reaches(t: &PageTables, x: u64, va: u64, k: int, i: int) -> bool {
    let kr = t.lookup(x)->0;
    let e2 = t.ent(kr, vpn(va, 2));
    &&& t.lookup(x).is_some()
    &&& valid(e2) && !leaf(e2)
    &&& t.lookup(child(e2)).is_some()
    &&& {
        let e1 = t.ent(t.lookup(child(e2))->0, vpn(va, 1));
        &&& valid(e1) && !leaf(e1)
        &&& t.lookup(child(e1)) == Some(k)
        &&& vpn(va, 0) == i
    }
}

/// Rewriting one entry of a level-0 table changes only the walks that read
/// it.
pub proof fn lemma_leaf_write_keeps_walks(t: &PageTables, u: &PageTables, k: int, i: int)
    requires
        t.wf(),
        u.wf(),
        u.ntables() == t.ntables(),
        u.agrees_except(t, t.ntables(), k, i),
        t.live(k),
        t.level(k) == 0,
    ensures
        forall|x: u64, va: u64|
            t.is_root(x) && !reaches(t, x, va, k, i) ==> #[trigger] u.translate(x, va) == t.translate(x, va),
        forall|x: u64, va: u64|
            t.is_root(x) && !reaches(t, x, va, k, i) ==> #[trigger] u.leaf_of(x, va) == t.leaf_of(x, va),
{
    assert forall|y: u64| #[trigger] u.lookup(y) == t.lookup(y) by {
        if t.lookup(y).is_some() {
            let c = t.lookup(y)->0;
            assert(u.addr(c) == t.addr(c));
            lemma_lookup_is(u, c, y);
        } else {
            assert forall|c: int| u.live(c) implies #[trigger] u.addr(c) != y by {
                assert(u.addr(c) == t.addr(c));
                assert(t.live(c));
            }
        }
    }
    assert forall|x: u64, va: u64| t.is_root(x) && !reaches(t, x, va, k, i) implies #[trigger] u.leaf_of(
        x,
        va,
    ) == t.leaf_of(x, va) by {
        lemma_vpn_bound(va);
        let kr = t.lookup(x)->0;
        assert(u.addr(kr) == t.addr(kr));
        assert(kr != k);
        let e2 = t.ent(kr, vpn(va, 2));
        assert(u.ent(kr, vpn(va, 2)) == e2);
        if valid(e2) && !leaf(e2) {
            assert(t.is_branch_at(kr, vpn(va, 2)));
            let k1 = t.lookup(child(e2))->0;
            assert(u.addr(k1) == t.addr(k1));
            assert(t.level(k1) == 1);
            assert(k1 != k);
            let e1 = t.ent(k1, vpn(va, 1));
            assert(u.ent(k1, vpn(va, 1)) == e1);
            if valid(e1) && !leaf(e1) {
                assert(t.is_branch_at(k1, vpn(va, 1)));
                let k0 = t.lookup(child(e1))->0;
                assert(u.addr(k0) == t.addr(k0));
                assert(u.ent(k0, vpn(va, 0)) == t.ent(k0, vpn(va, 0)));
            }
        }
    }
    assert forall|x: u64, va: u64| t.is_root(x) && !reaches(t, x, va, k, i) implies #[trigger] u.translate(x, va) == t.translate(x, va) by {
        let kr = t.lookup(x)->0;
        assert(u.lookup(x) == t.lookup(x));
        assert(u.leaf_of(x, va) == t.leaf_of(x, va));
        assert(u.walk_leaf(kr, va) == t.walk_leaf(kr, va));
    }
}

/// An address in the page at `m` lies in that page and keeps its offset.
pub proof fn lemma_in_page(va: u64, m: u64)
    requires
        m & 0xfff == 0,
        m <= va < m + 4096,
    ensures
        same_page(va, m),
        (m & !0xfffu64) | (va & 0xfff) == va,
{
    assert(m & 0xfff == 0 && m <= va && va < m + 4096 ==> (va >> 12u64) == (m >> 12u64) && (m
        & !0xfffu64) | (va & 0xfff) == va) by (bit_vector);
    assert((va >> 12u64) == (m >> 12u64) ==> (va >> 30u64) & 0x1ff == (m >> 30u64) & 0x1ff && (va
        >> 21u64) & 0x1ff == (m >> 21u64) & 0x1ff && (va >> 12u64) & 0x1ff == (m >> 12u64) & 0x1ff)
        by (bit_vector);
}

/// Below 2^39, the same Sv39 page is the same 4 KiB page.
pub proof fn lemma_same_page_range(va: u64, m: u64)
    requires
        m & 0xfff == 0,
        va < 0x80_0000_0000,
        m < 0x80_0000_0000,
        same_page(va, m),
    ensures
        m <= va < m + 4096,
{
    assert(m & 0xfff == 0 && va < 0x80_0000_0000u64 && m < 0x80_0000_0000u64 && (va >> 30u64) & 0x1ff
        == (m >> 30u64) & 0x1ff && (va >> 21u64) & 0x1ff == (m >> 21u64) & 0x1ff && (va >> 12u64) & 0x1ff
        == (m >> 12u64) & 0x1ff ==> m <= va && va < m + 4096) by (bit_vector);
}

/// Addresses below 2^39 in different pages are not the same Sv39 page.
pub proof fn lemma_other_page(va: u64, m: u64)
    requires
        m & 0xfff == 0,
        va < m,
        m < 0x80_0000_0000,
    ensures
        !same_page(va, m),
{
    assert(m & 0xfff == 0 && va < m && m < 0x80_0000_0000u64 ==> !((va >> 30u64) & 0x1ff == (m
        >> 30u64) & 0x1ff && (va >> 21u64) & 0x1ff == (m >> 21u64) & 0x1ff && (va >> 12u64) & 0x1ff
        == (m >> 12u64) & 0x1ff)) by (bit_vector);
}

/// `u` is `t` after the page of `vaddr` was mapped to the page of `paddr`
/// under root `root`: that page translates to `paddr`'s page with its own
/// offset, every other page as before.
pub open spec fn installs(t: &PageTables, u: &PageTables, root: u64, vaddr: u64, paddr: u64) -> bool {
    &&& forall|va: u64|
        same_page(va, vaddr) ==> #[trigger] u.translate(root, va) == Some((paddr & !0xfffu64) | (va & 0xfff))
    &&& forall|x: u64, va: u64|
        t.is_root(x) && !(x == root && same_page(va, vaddr)) ==> #[trigger] u.translate(x, va)
            == t.translate(x, va)
}

/// The walk agrees with `map`: the mapped address translates to the
/// physical page with its offset, and an address that did not translate
/// before and lies in another page still does not.
pub proof fn lemma_walk_matches_map(
    t: &PageTables,
    u: &PageTables,
    root: u64,
    vaddr: u64,
    paddr: u64,
    other: u64,
)
    requires
        installs(t, u, root, vaddr, paddr),
        t.is_root(root),
    ensures
        u.translate(root, vaddr) == Some((paddr & !0xfffu64) | (vaddr & 0xfff)),
        !same_page(other, vaddr) && t.translate(root, other).is_none() ==> u.translate(root, other).is_none(),
{
    assert(same_page(vaddr, vaddr));
    assert(u.translate(root, vaddr) == Some((paddr & !0xfffu64) | (vaddr & 0xfff)));
    if !same_page(other, vaddr) {
        assert(u.translate(root, other) == t.translate(root, other));
    }
}

/// The end of the last page that `[.., end)` reaches: `end` rounded up to
/// a page boundary.
pub open spec fn page_end(end: u64) -> int {
    (end as int + 4095) / 4096 * 4096
}

/// A page-aligned address is a multiple of the page size.
pub proof fn lemma_aligned_mod(m: u64)
    ensures
        (m & 0xfff == 0) ==> m % 4096 == 0,
{
    assert((m & 0xfff == 0) ==> m % 4096 == 0) by (bit_vector);
}

/// No walk from a root meets a leaf above level 0: leaves live in level-0
/// tables only.
pub proof fn lemma_not_blocked(t: &PageTables, root: u64, va: u64)
    requires
        t.wf(),
        t.is_root(root),
    ensures
        !t.path_blocked(root, va),
{
    lemma_vpn_bound(va);
    let k = t.lookup(root)->0;
    let e2 = t.ent(k, vpn(va, 2));
    if valid(e2) && leaf(e2) {
        assert(t.is_leaf_at(k, vpn(va, 2)));
    }
    if valid(e2) && !leaf(e2) && t.lookup(child(e2)).is_some() {
        assert(t.is_branch_at(k, vpn(va, 2)));
        let k1 = t.lookup(child(e2))->0;
        let e1 = t.ent(k1, vpn(va, 1));
        if valid(e1) && leaf(e1) {
            assert(t.is_leaf_at(k1, vpn(va, 1)));
        }
    }
}

/// A window of free pages holds every shorter one.
pub proof fn lemma_window_shrink(s: Seq<u8>)
    ensures
        forall|w: int| #[trigger] has_window(s, w) && w >= 1 ==> has_window(s, w - 1),
{
    assert forall|w: int| #[trigger] has_window(s, w) && w >= 1 implies has_window(s, w - 1) by {
        let j = choose|j: int| #[trigger] window_free(s, j, w);
        assert(window_free(s, j, w - 1));
    }
}

/// Pages of free memory that mapping `[start, end)` to itself may take: two
/// table pages for each page mapped.
pub open spec fn id_need(start: u64, end: u64) -> int {
    (page_end(end) - (start & !0xfffu64)) / 2048
}

/// A window of free pages holds every shorter one.
pub proof fn lemma_window_shrink_to(s: Seq<u8>, w: int, v: int)
    requires
        has_window(s, w),
        0 <= v <= w,
    ensures
        has_window(s, v),
{
    let j = choose|j: int| #[trigger] window_free(s, j, w);
    assert(window_free(s, j, v));
}

/// Mapping a range needs no negative count of pages.
pub proof fn lemma_id_need_nonneg(start: u64, end: u64)
    requires
        start <= end,
    ensures
        id_need(start, end) >= 0,
{
    let base = start & !0xfffu64;
    assert(base <= start) by (bit_vector)
        requires
            base == start & !0xfffu64,
    ;
    assert(page_end(end) >= end) by (nonlinear_arith);
}

/// Where entry `i` of table `k` of `t` names a table, that table's page is
/// not live in `p`.
pub open spec fn child_freed(t: &PageTables, k: int, i: int, p: &PageAllocator) -> bool {
    t.is_branch_at(k, i) ==> !p.live_at(child(t.ent(k, i)))
}

/// The level-1 table that entry `i` of root table `kr` names, and every
/// level-0 table below it, have their pages freed in `p`.
pub open spec fn subtree_freed(t: &PageTables, kr: int, i: int, p: &PageAllocator) -> bool {
    &&& child_freed(t, kr, i, p)
    &&& t.is_branch_at(kr, i) ==> forall|j: int|
        0 <= j < 512 ==> #[trigger] child_freed(t, t.lookup(child(t.ent(kr, i)))->0, j, p)
}

/// Table `k2` of `t` is none of the tables that the first `n` entries of
/// root table `kr` name.
pub open spec fn untouched(t: &PageTables, kr: int, n: int, k2: int) -> bool {
    forall|i2: int| 0 <= i2 < n && #[trigger] t.is_branch_at(kr, i2) ==> t.addr(k2) != child(t.ent(kr, i2))
}

/// Freed pages stay freed while no page is allocated.
pub proof fn lemma_freed_stays(t: &PageTables, kr: int, i: int, p: &PageAllocator, q: &PageAllocator)
    requires
        subtree_freed(t, kr, i, p),
        forall|x: u64| #[trigger] q.live_at(x) ==> p.live_at(x),
    ensures
        subtree_freed(t, kr, i, q),
{
    if t.is_branch_at(kr, i) {
        assert forall|j: int| 0 <= j < 512 implies #[trigger] child_freed(t, t.lookup(child(t.ent(kr, i)))->0, j, q) by {
            assert(child_freed(t, t.lookup(child(t.ent(kr, i)))->0, j, p));
        }
    }
}

} // verus!
