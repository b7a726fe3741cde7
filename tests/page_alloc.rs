use peetos::page::{align_val, Page, PageAllocator, PageBits, FLAGS_FREE, FLAGS_LAST, FLAGS_TAKEN, PAGE_SIZE};

fn flags(a: &PageAllocator) -> Vec<u8> {
    (0..a.num_pages()).map(|i| a.page(i).flags()).collect()
}

#[test]
fn init_clears_every_descriptor() {
    let a = PageAllocator::init(0x8000_0000, 0x10_0000);
    assert_eq!(a.num_pages(), 256);
    assert_eq!(a.alloc_start(), 0x8000_1000);
    assert!(flags(&a).iter().all(|f| *f == FLAGS_FREE));
}

#[test]
fn realloc_reuses_lowest_pages_of_freed_run() {
    let mut a = PageAllocator::init(0x8000_0000, 0x10_0000);
    let first = a.alloc_pages(10);
    let second = a.alloc_pages(5);
    assert_eq!(first, 0x8000_1000);
    assert_eq!(second, first + 10 * PAGE_SIZE);
    assert!(a.dealloc(first));
    let third = a.alloc_pages(3);
    assert_eq!(third, first);
    let f = flags(&a);
    assert_eq!(&f[0..3], &[FLAGS_TAKEN, FLAGS_TAKEN, FLAGS_LAST]);
    assert!(f[3..10].iter().all(|x| *x == FLAGS_FREE));
    assert!(f[10..14].iter().all(|x| *x == FLAGS_TAKEN));
    assert_eq!(f[14], FLAGS_LAST);
    assert!(f[15..].iter().all(|x| *x == FLAGS_FREE));
}

#[test]
fn freeing_everything_restores_the_descriptors() {
    let mut a = PageAllocator::init(0x8000_0000, 0x10_0000);
    let before = flags(&a);
    let x = a.alloc_pages(3);
    let y = a.alloc_pages(7);
    assert!(a.dealloc(x));
    let z = a.alloc_pages(2);
    let w = a.alloc_pages(4);
    assert!(a.dealloc(y));
    assert!(a.dealloc(w));
    assert!(a.dealloc(z));
    assert_eq!(flags(&a), before);
}

#[test]
fn live_runs_do_not_overlap() {
    let mut a = PageAllocator::init(0x8000_0000, 0x10_0000);
    let sizes = [3u64, 1, 8, 2, 5];
    let runs: Vec<(u64, u64)> = sizes
        .iter()
        .map(|n| (a.alloc_pages(*n as usize), *n * PAGE_SIZE))
        .collect();
    for (i, (s1, l1)) in runs.iter().enumerate() {
        assert!(*s1 != 0);
        for (s2, l2) in runs.iter().skip(i + 1) {
            assert!(s1 + l1 <= *s2 || s2 + l2 <= *s1);
        }
    }
}

#[test]
fn double_free_is_refused() {
    let mut a = PageAllocator::init(0x8000_0000, 0x10_0000);
    let p = a.alloc_pages(2);
    assert!(a.dealloc(p));
    let before = flags(&a);
    assert!(!a.dealloc(p));
    assert_eq!(flags(&a), before);
}

#[test]
fn free_inside_a_run_is_refused() {
    let mut a = PageAllocator::init(0x8000_0000, 0x10_0000);
    let p = a.alloc_pages(4);
    assert!(!a.dealloc(p + PAGE_SIZE));
    assert!(!a.dealloc(0x10));
    assert!(a.dealloc(p));
}

#[test]
fn alloc_fails_when_no_run_is_long_enough() {
    let mut a = PageAllocator::init(0x8000_0000, 0x10_0000);
    assert_eq!(a.alloc_pages(257), 0);
    let whole = a.alloc_pages(256);
    assert_eq!(whole, 0x8000_1000);
    assert_eq!(a.alloc_pages(1), 0);
}

#[test]
fn align_val_rounds_up() {
    assert_eq!(align_val(0, 12), 0);
    assert_eq!(align_val(1, 12), 4096);
    assert_eq!(align_val(4096, 12), 4096);
    assert_eq!(align_val(13, 3), 16);
}

#[test]
fn page_flags_read_back() {
    let mut p = Page::from_flags(0);
    assert!(p.is_free());
    p.set_flag(PageBits::Taken);
    assert!(p.is_taken() && !p.is_last());
    p.set_flag(PageBits::Last);
    assert!(p.is_last());
    assert_eq!(p.flags(), 3);
    p.clear_flag(PageBits::Taken);
    assert_eq!(p.flags(), 2);
    p.clear();
    assert_eq!(p.flags(), 0);
    assert_eq!(PageBits::Empty.val(), 0);
}

#[test]
fn taken_pages_are_listed_in_order() {
    let mut a = PageAllocator::init(0x8000_0000, 0x10_0000);
    assert!(a.allocated_pages().is_empty());
    let x = a.alloc_pages(2);
    let _y = a.alloc_pages(1);
    assert!(a.dealloc(x));
    let _z = a.alloc_pages(3);
    assert_eq!(a.allocated_pages(), vec![2, 3, 4, 5]);
}
