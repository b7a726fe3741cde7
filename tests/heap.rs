use peetos::kmem::{AllocList, AllocListFlags, KernelHeap, HEADER_SIZE, KMEM_SPAN};
use peetos::page::PageAllocator;

fn heap() -> (PageAllocator, KernelHeap) {
    let mut pages = PageAllocator::init(0x8000_0000, 0x40_0000);
    let h = KernelHeap::init(&mut pages).unwrap();
    (pages, h)
}

fn total(h: &KernelHeap) -> u64 {
    h.walk().iter().map(|c| c.0).sum()
}

#[test]
fn first_kmalloc_is_just_past_the_head() {
    let (_pages, mut h) = heap();
    let p = h.kmalloc(32);
    assert_eq!(p, h.get_head() + HEADER_SIZE);
    h.kfree(p);
    assert_eq!(h.kmalloc(32), p);
}

#[test]
fn init_makes_one_free_chunk() {
    let (pages, h) = heap();
    assert_eq!(h.walk(), vec![(KMEM_SPAN, false)]);
    assert_eq!(h.get_head(), pages.alloc_start());
    assert_eq!(h.get_num_allocations(), 64);
}

#[test]
fn chunk_sizes_always_cover_the_heap() {
    let (_pages, mut h) = heap();
    let a = h.kmalloc(32);
    let b = h.kmalloc(64);
    let c = h.kmalloc(5);
    assert_eq!(total(&h), KMEM_SPAN);
    assert_eq!(h.walk()[..3], [(40, true), (72, true), (16, true)]);
    h.kfree(b);
    assert_eq!(total(&h), KMEM_SPAN);
    h.kfree(a);
    h.kfree(c);
    assert_eq!(total(&h), KMEM_SPAN);
    assert_eq!(h.walk(), vec![(KMEM_SPAN, false)]);
}

#[test]
fn coalesce_twice_changes_nothing_more() {
    let (_pages, mut h) = heap();
    let ptrs: Vec<u64> = (0..6).map(|_| h.kmalloc(24)).collect();
    h.kfree(ptrs[1]);
    h.kfree(ptrs[2]);
    h.kfree(ptrs[4]);
    h.coalesce();
    let once = h.walk();
    h.coalesce();
    assert_eq!(h.walk(), once);
    assert!(once.windows(2).all(|w| w[0].1 || w[1].1));
}

#[test]
fn kmalloc_fails_when_nothing_fits() {
    let (_pages, mut h) = heap();
    assert_eq!(h.kmalloc(KMEM_SPAN), 0);
    let all = h.kmalloc(KMEM_SPAN - HEADER_SIZE);
    assert_ne!(all, 0);
    assert_eq!(h.kmalloc(1), 0);
}

#[test]
fn small_remainder_is_absorbed() {
    let (_pages, mut h) = heap();
    let big = h.kmalloc(KMEM_SPAN - 2 * HEADER_SIZE);
    assert_ne!(big, 0);
    assert_eq!(h.walk(), vec![(KMEM_SPAN, true)]);
}

#[test]
fn heap_needs_pages() {
    let mut pages = PageAllocator::init(0x8000_0000, 0x3_0000);
    assert!(KernelHeap::init(&mut pages).is_none());
}

#[test]
fn header_packs_size_and_taken_bit() {
    let mut h = AllocList::new(4096, false);
    assert!(h.is_free());
    h.set_taken();
    assert!(h.is_taken());
    assert_eq!(h.get_size(), 4096);
    assert_eq!(h.flags_size, 4096 | (1 << 63));
    h.set_size(64);
    assert!(h.is_taken());
    assert_eq!(h.get_size(), 64);
    h.set_free();
    assert_eq!(h.flags_size, 64);
    assert_eq!(AllocListFlags::Taken.val(), 1 << 63);
}
