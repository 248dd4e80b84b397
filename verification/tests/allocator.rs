use os_test::addr::PhyAddr;
use os_test::page::Page;
use os_test::physical::BasicPhysicalAllocator;
use os_test::valloc::BasicPageAllocatorInner;

#[test]
fn align_up() {
    let addr = PhyAddr(0);
    assert_eq!(addr.align_up(1), addr);
    let addr = PhyAddr(0x2);
    assert_eq!(addr.align_up(0x4), PhyAddr(0x4));
    let addr = PhyAddr(0xdeadbeef);
    assert_eq!(addr.align_up(0x1000), PhyAddr(0xdeadc000));
}

#[test]
fn align_down() {
    let addr = PhyAddr(1);
    assert_eq!(addr.align_down(1), addr);
    let addr = PhyAddr(0x4);
    assert_eq!(addr.align_up(0x2), PhyAddr(0x4));
    let addr = PhyAddr(0xdeadbeef);
    assert_eq!(addr.align_down(0x1000), PhyAddr(0xdeadb000));
}

#[test]
fn first_fit_allocation() {
    let mut pa = BasicPhysicalAllocator::new(PhyAddr(0x100000));
    assert_eq!(BasicPhysicalAllocator::frame_size(), 4096);
    let a = pa.allocate_frame();
    let b = pa.allocate_frame();
    assert_eq!(a, PhyAddr(0x100000));
    assert_eq!(b, PhyAddr(0x101000));
    assert!(pa.is_frame_used(0));
    assert!(pa.is_frame_used(1));
    assert!(!pa.is_frame_used(2));
    pa.free_frame(a);
    assert!(!pa.is_frame_used(0));
    // the freed frame is handed out again first
    let c = pa.allocate_frame();
    assert_eq!(c, PhyAddr(0x100000));
}

#[test]
fn reserve_fixed_range() {
    // reserving a used range is refused whole, leaving the bitmap as it was
    let mut pa = BasicPhysicalAllocator::new(PhyAddr(0x100000));
    let r = pa.alloc_phy_addr(PhyAddr(0x102000), 3);
    assert_eq!(r, Some(PhyAddr(0x102000)));
    assert!(pa.is_frame_used(2) && pa.is_frame_used(3) && pa.is_frame_used(4));
    assert!(!pa.is_frame_used(1) && !pa.is_frame_used(5));
    // overlap at the last frame of the existing reservation
    let r2 = pa.alloc_phy_addr(PhyAddr(0x104000), 2);
    assert!(r2.is_none());
    assert!(pa.is_frame_used(2) && pa.is_frame_used(3) && pa.is_frame_used(4));
    assert!(!pa.is_frame_used(5) && !pa.is_frame_used(6));
}

#[test]
fn configure_then_alloc() {
    let mut inner = BasicPageAllocatorInner::new(PhyAddr(0x8000_0000_0000));
    assert!(!inner.is_configured());
    inner.configure_physical_area(PhyAddr(0x100000), 0x4000000);
    assert!(inner.is_configured());
    assert_eq!(inner.physical_allocator.offset(), PhyAddr(0x100000));
    assert_eq!(inner.physical_allocator.limit(), 0x4000000);
    let a = inner.alloc_pages(2).unwrap();
    assert_eq!(a.page_amount, 2);
    assert_eq!(a.first_page.num(), 1);
    assert!(inner.page_table().is_present(Page::new(1)));
    assert!(inner.page_table().is_present(Page::new(2)));
    assert!(!inner.page_table().is_present(Page::new(3)));
    assert_eq!(inner.last_page_alloc().num(), 2);
    inner.dealloc_pages(&a);
    assert!(!inner.page_table().is_present(Page::new(1)));
    assert!(!inner.page_table().is_present(Page::new(2)));
}

#[test]
fn alloc_dealloc_restores_state() {
    // with the table chains already in place, an allocation followed by
    // its deallocation restores the bitmap and the presence of every page
    let mut inner = BasicPageAllocatorInner::new(PhyAddr(0x8000_0000_0000));
    inner.configure_physical_area(PhyAddr(0x100000), 0x4000000);
    // first allocation builds the chains; releasing it frees the data
    // frames but keeps the intermediate tables
    let warmup = inner.alloc_pages(2).unwrap();
    inner.dealloc_pages(&warmup);
    let before: Vec<bool> = (0..16).map(|i| inner.physical_allocator.is_frame_used(i)).collect();
    let present_before: Vec<bool> =
        (0..8).map(|n| inner.page_table().is_present(Page::new(n + 1))).collect();
    let a = inner.alloc_pages(2).unwrap();
    inner.dealloc_pages(&a);
    let after: Vec<bool> = (0..16).map(|i| inner.physical_allocator.is_frame_used(i)).collect();
    let present_after: Vec<bool> =
        (0..8).map(|n| inner.page_table().is_present(Page::new(n + 1))).collect();
    assert_eq!(before, after);
    assert_eq!(present_before, present_after);
}

#[test]
fn map_physical_misaligned() {
    // a misaligned physical address needs one extra frame, and the
    // returned virtual address keeps the offset within the page
    let mut inner = BasicPageAllocatorInner::new(PhyAddr(0x8000_0000_0000));
    inner.configure_physical_area(PhyAddr(0), 0x4000000);
    let (a, va) = inner.map_physical(PhyAddr(0x1234), 1).unwrap();
    assert_eq!(a.page_amount, 2);
    assert_eq!(va.0 & 0xfff, 0x234);
    // frames 1 and 2 back the range starting at 0x1000
    assert!(inner.physical_allocator.is_frame_used(1));
    assert!(inner.physical_allocator.is_frame_used(2));
    // the mapped window really translates
    assert!(inner.page_table().is_present(a.first_page));
    let e = inner.page_table().page_entry(a.first_page).unwrap();
    assert_eq!(e.addr(), PhyAddr(0x1000));
}

#[test]
fn map_physical_conflict_rolls_back() {
    let mut inner = BasicPageAllocatorInner::new(PhyAddr(0x8000_0000_0000));
    inner.configure_physical_area(PhyAddr(0), 0x4000000);
    let first = inner.map_physical(PhyAddr(0x5000), 2);
    assert!(first.is_some());
    // the same physical range cannot be reserved twice
    let again = inner.map_physical(PhyAddr(0x5000), 2);
    assert!(again.is_none());
    assert!(inner.physical_allocator.is_frame_used(5));
    assert!(inner.physical_allocator.is_frame_used(6));
}

#[test]
fn aligned_map_physical_needs_no_extra_frame() {
    let mut inner = BasicPageAllocatorInner::new(PhyAddr(0x8000_0000_0000));
    inner.configure_physical_area(PhyAddr(0), 0x4000000);
    let (a, va) = inner.map_physical(PhyAddr(0x8000), 3).unwrap();
    assert_eq!(a.page_amount, 3);
    assert_eq!(va.0 & 0xfff, 0);
}

#[test]
fn exhausted_run_search_fails() {
    // a run longer than what is left before the canonical space ends
    // cannot be found, however empty the table
    let mut inner = BasicPageAllocatorInner::new(PhyAddr(0x8000_0000_0000));
    inner.configure_physical_area(PhyAddr(0x100000), 0x4000000);
    let top = 512u64 * 512 * 512 * 512;
    let run = inner.page_table().find_free_pages(Page::new(top - 4), 8);
    assert!(run.is_none());
}

#[test]
fn map_physical_leaves_cursor_alone() {
    // only ordinary allocation advances the search cursor
    let mut inner = BasicPageAllocatorInner::new(PhyAddr(0x8000_0000_0000));
    inner.configure_physical_area(PhyAddr(0), 0x4000000);
    let before = inner.last_page_alloc();
    let mapped = inner.map_physical(PhyAddr(0x3000), 2);
    assert!(mapped.is_some());
    assert_eq!(inner.last_page_alloc(), before);
    let a = inner.alloc_pages(1).unwrap();
    assert_ne!(inner.last_page_alloc(), before);
    let _ = a;
}
