use peetos::cpu::{build_satp, SatpMode};
use peetos::mmu::{Entry, EntryBits, PageTables, Table};
use peetos::page::PageAllocator;

fn setup() -> (PageAllocator, PageTables, u64) {
    let mut pages = PageAllocator::init(0x8000_0000, 0x40_0000);
    let mut tables = PageTables::new();
    let root = tables.new_root(&mut pages);
    assert_ne!(root, 0);
    (pages, tables, root)
}

#[test]
fn walk_gives_what_map_installed() {
    let (mut pages, mut tables, root) = setup();
    let v = 0x4000_2000u64;
    let p = 0x9000_5000u64;
    assert!(tables.map(root, v, p, EntryBits::ReadWrite.val(), 0, &mut pages));
    assert_eq!(tables.virt_to_phys(root, v), Some(p));
    assert_eq!(tables.virt_to_phys(root, v + 0x123), Some(p | 0x123));
    assert_eq!(tables.virt_to_phys(root, v + 0x1000), None);
    assert_eq!(tables.virt_to_phys(root, 0x1234_5000), None);
}

#[test]
fn fresh_root_translates_nothing() {
    let (_pages, tables, root) = setup();
    assert_eq!(tables.virt_to_phys(root, 0), None);
    assert_eq!(tables.virt_to_phys(root, 0x8000_0000), None);
    assert_eq!(tables.virt_to_phys(0x1000, 0x8000_0000), None);
}

#[test]
fn later_maps_keep_earlier_ones() {
    let (mut pages, mut tables, root) = setup();
    assert!(tables.map(root, 0x1000, 0xa000_0000, EntryBits::ReadExecute.val(), 0, &mut pages));
    assert!(tables.map(root, 0x2000, 0xa000_1000, EntryBits::ReadExecute.val(), 0, &mut pages));
    assert!(tables.map(root, 0x7f_c000_0000, 0xb000_0000, EntryBits::UserReadWrite.val(), 0, &mut pages));
    assert_eq!(tables.virt_to_phys(root, 0x1008), Some(0xa000_0008));
    assert_eq!(tables.virt_to_phys(root, 0x2ff0), Some(0xa000_1ff0));
    assert_eq!(tables.virt_to_phys(root, 0x7f_c000_0fff), Some(0xb000_0fff));
}

#[test]
fn identity_range_maps_every_page() {
    let (mut pages, mut tables, root) = setup();
    assert!(tables.id_map_range(root, 0x1000_0010, 0x1000_3001, EntryBits::ReadWrite.val(), &mut pages));
    for a in [0x1000_0000u64, 0x1000_0fff, 0x1000_1abc, 0x1000_3000] {
        assert_eq!(tables.virt_to_phys(root, a), Some(a));
    }
    assert_eq!(tables.virt_to_phys(root, 0x1000_4000), None);
}

#[test]
fn unmap_and_free_give_the_table_pages_back() {
    let (mut pages, mut tables, root) = setup();
    let free_before: usize = (0..pages.num_pages()).filter(|i| pages.page(*i).is_free()).count();
    assert!(tables.map(root, 0x1000, 0xa000_0000, EntryBits::ReadWrite.val(), 0, &mut pages));
    assert!(tables.map(root, 0x40_0000_0000, 0xa000_1000, EntryBits::ReadWrite.val(), 0, &mut pages));
    tables.unmap(root, &mut pages);
    assert_eq!(tables.virt_to_phys(root, 0x1000), None);
    assert!(tables.is_root_table(root));
    let free_after: usize = (0..pages.num_pages()).filter(|i| pages.page(*i).is_free()).count();
    assert_eq!(free_after, free_before);
    tables.free_root(root, &mut pages);
    assert!(!tables.is_root_table(root));
}

#[test]
fn map_fails_without_pages_and_keeps_the_rest() {
    let (mut pages, mut tables, root) = setup();
    assert!(tables.map(root, 0x1000, 0xa000_0000, EntryBits::ReadWrite.val(), 0, &mut pages));
    let mut full = PageAllocator::init(0x9000_0000, 0x1000);
    let _ = full.alloc_pages(1);
    assert!(!tables.map(root, 0x40_0000_0000, 0xa000_0000, EntryBits::ReadWrite.val(), 0, &mut full));
    assert_eq!(tables.virt_to_phys(root, 0x40_0000_0000), None);
    assert_eq!(tables.virt_to_phys(root, 0x1000), Some(0xa000_0000));
}

#[test]
fn entries_read_their_bits() {
    let mut e = Entry { entry: 0 };
    assert!(e.is_invalid());
    e.set_entry(0x2000_0001);
    assert!(e.is_valid() && e.is_branch());
    e.set_entry(0x2000_0000 | EntryBits::ReadWrite.val() | 1);
    assert!(e.is_leaf());
    assert_eq!(e.get_entry(), 0x2000_0007);
    assert_eq!(Table::len(), 512);
    assert_eq!(EntryBits::UserReadWriteExecute.val(), 30);
}

#[test]
fn satp_packs_mode_asid_and_page() {
    assert_eq!(build_satp(SatpMode::Sv39, 0, 0x8020_0000), (8 << 60) | 0x80200);
    assert_eq!(build_satp(SatpMode::Sv48, 5, 0x1000), (9 << 60) | (5 << 44) | 1);
    assert_eq!(build_satp(SatpMode::Off, 0, 0x1000), 1);
}

#[test]
fn identity_range_leaves_other_pages_alone() {
    let (mut pages, mut tables, root) = setup();
    assert!(tables.map(root, 0x5000, 0xa000_0000, EntryBits::ReadWrite.val(), 0, &mut pages));
    assert!(tables.id_map_range(root, 0x1000, 0x2001, EntryBits::ReadWrite.val(), &mut pages));
    assert_eq!(tables.virt_to_phys(root, 0x5010), Some(0xa000_0010));
    assert_eq!(tables.virt_to_phys(root, 0x2fff), Some(0x2fff));
    assert_eq!(tables.virt_to_phys(root, 0x3000), None);
}
