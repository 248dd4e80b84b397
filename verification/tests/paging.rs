use os_test::addr::VirtAddr;
use os_test::entry::{PageTableEntry, PAGE_SIZE};
use os_test::flags::PageTableEntryFlags;
use os_test::page::{Page, PAGE_TABLE_ENTRY_NUM};
use os_test::physical::BasicPhysicalAllocator;
use os_test::addr::PhyAddr;
use os_test::table::{PageEntryError, PageTableArena};

const ENTRY_NUM: u64 = PAGE_TABLE_ENTRY_NUM as u64;

#[test]
fn page_to_idx() {
    let page = Page::new(0);
    assert_eq!(page.level4_idx(), 0);
    assert_eq!(page.level3_idx(), 0);
    assert_eq!(page.level2_idx(), 0);
    assert_eq!(page.level1_idx(), 0);
    let page = Page::new(511);
    assert_eq!(page.level4_idx(), 0);
    assert_eq!(page.level3_idx(), 0);
    assert_eq!(page.level2_idx(), 0);
    assert_eq!(page.level1_idx(), 511);
    let page = Page::new(512);
    assert_eq!(page.level4_idx(), 0);
    assert_eq!(page.level3_idx(), 0);
    assert_eq!(page.level2_idx(), 1);
    assert_eq!(page.level1_idx(), 0);
    let page = Page::new(ENTRY_NUM * 5 + 27);
    assert_eq!(page.level4_idx(), 0);
    assert_eq!(page.level3_idx(), 0);
    assert_eq!(page.level2_idx(), 5);
    assert_eq!(page.level1_idx(), 27);
    let page = Page::new(ENTRY_NUM * ENTRY_NUM + 112);
    assert_eq!(page.level4_idx(), 0);
    assert_eq!(page.level3_idx(), 1);
    assert_eq!(page.level2_idx(), 0);
    assert_eq!(page.level1_idx(), 112);
    let page = Page::new(ENTRY_NUM * ENTRY_NUM * 112 + ENTRY_NUM * 69 + 378);
    assert_eq!(page.level4_idx(), 0);
    assert_eq!(page.level3_idx(), 112);
    assert_eq!(page.level2_idx(), 69);
    assert_eq!(page.level1_idx(), 378);
    let page = Page::new(
        ENTRY_NUM * ENTRY_NUM * ENTRY_NUM * 5 + ENTRY_NUM * ENTRY_NUM * 78 + ENTRY_NUM * 4 + 33,
    );
    assert_eq!(page.level4_idx(), 5);
    assert_eq!(page.level3_idx(), 78);
    assert_eq!(page.level2_idx(), 4);
    assert_eq!(page.level1_idx(), 33);
}

#[test]
fn page_to_virtual() {
    let page = Page::new(1);
    assert_eq!(page.to_virt_addr(), VirtAddr(0x1000));
    let page = Page::new(513);
    assert_eq!(page.to_virt_addr(), VirtAddr(0x201000));
    let page = Page::new(ENTRY_NUM * ENTRY_NUM * 3 + ENTRY_NUM);
    assert_eq!(page.to_virt_addr(), VirtAddr(0xc0200000));
    assert_eq!(
        Page::from_virt_addr(VirtAddr(0xffffffffffffffff)).to_virt_addr(),
        VirtAddr(0xfffffffffffff000)
    );
}

#[test]
fn virtual_to_page() {
    let virt_addr = VirtAddr(0x1000);
    assert_eq!(Page::from_virt_addr(virt_addr), Page::new(1));
    let virt_addr = VirtAddr(0x201000);
    assert_eq!(Page::from_virt_addr(virt_addr), Page::new(513));
    let virt_addr = VirtAddr(0xc0200000);
    assert_eq!(
        Page::from_virt_addr(virt_addr),
        Page::new(ENTRY_NUM * ENTRY_NUM * 3 + ENTRY_NUM)
    );
}

#[test]
fn canoincal_pages() {
    // a sign-extended address and the page number holding only its low 48
    // bits name different pages but the same table slots
    let virt_addr = VirtAddr(0xffffffffffffffff);
    let a = Page::from_virt_addr(virt_addr);
    let b = Page::new((virt_addr.0 & 0xffffffffffff) / 0x1000);
    assert_ne!(a, b);
    assert_eq!(a.level4_idx(), b.level4_idx());
    assert_eq!(a.level3_idx(), b.level3_idx());
    assert_eq!(a.level2_idx(), b.level2_idx());
    assert_eq!(a.level1_idx(), b.level1_idx());
}

#[test]
fn canonical_addresses() {
    // canonical means bits 48..63 equal bit 47: both halves of the space
    // pass, anything between them fails
    assert!(VirtAddr(0).is_valid());
    assert!(VirtAddr(0x7fff_ffff_ffff).is_valid());
    assert!(VirtAddr(0xffff_8000_0000_0000).is_valid());
    assert!(VirtAddr(0xffff_ffff_ffff_ffff).is_valid());
    // bit 47 set without the sign extension
    assert!(!VirtAddr(0x0000_8000_0000_0000).is_valid());
    // sign extension without bit 47
    assert!(!VirtAddr(0xffff_0000_0000_0000).is_valid());
    assert!(!VirtAddr(0x0001_0000_0000_0000).is_valid());
}

#[test]
fn page_virt_round_trip() {
    // round trip through the starting address recovers the page
    for num in [0u64, 1, 511, 512, 0xf_ffff_ffff, 0xffff_ffff_ffff] {
        let p = Page::new(num);
        let va = p.to_virt_addr();
        if va.is_valid() {
            assert_eq!(Page::from_virt_addr(va), p);
        }
    }
    let p = Page::new(0xfffffffffffff000u64 / PAGE_SIZE);
    assert_eq!(Page::from_virt_addr(p.to_virt_addr()), p);
}

#[test]
fn addr_set() {
    let mut entry = PageTableEntry::new();
    assert!(!entry.present());
    let addr = PhyAddr(0x1000);
    entry.set_addr(addr, PageTableEntryFlags::present());
    assert!(entry.present());
    assert_eq!(entry.addr(), addr);
    assert_eq!(entry.flags().bits(), 1);
    entry.clear();
    assert!(!entry.present());
    assert_eq!(entry.addr(), PhyAddr(0));
}

#[test]
fn flags_pack() {
    let f = PageTableEntryFlags::present().union(PageTableEntryFlags::writable());
    assert_eq!(f.bits(), 3);
    assert!(f.contains(PageTableEntryFlags::present()));
    assert!(f.contains(PageTableEntryFlags::writable()));
    assert!(!f.contains(PageTableEntryFlags::huge_page()));
    let kept = PageTableEntryFlags::from_bits_retain(0xfff);
    assert_eq!(kept.bits(), 0xfff);
    let masked = PageTableEntryFlags::from_bits_retain(0x1234);
    assert_eq!(masked.bits(), 0x234);
}

#[test]
fn page_present() {
    // a fresh table maps nothing
    let arena = PageTableArena::new(0x8000_0000_0000);
    let page = Page::new(3);
    assert!(!arena.is_present(page));
    assert!(arena.page_entry(page).is_err());
}

#[test]
fn find_free_all_absent() {
    // on an all-absent table the run starts right at the requested page
    let arena = PageTableArena::new(0x8000_0000_0000);
    let run = arena.find_free_pages(Page::new(1), 3).unwrap();
    assert_eq!(run.first().num(), 1);
    assert_eq!(run.last_page().num(), 3);
    let run = arena.find_free_pages(Page::new(42), 1).unwrap();
    assert_eq!(run.first().num(), 42);
    assert_eq!(run.last_page().num(), 42);
}

#[test]
fn find_free_all_present() {
    // map every page from the search start to the end of the canonical
    // space: no run can exist, whatever its length
    let mut arena = PageTableArena::new(0x8000_0000_0000);
    let mut pa = BasicPhysicalAllocator::new(PhyAddr(0));
    let top = 512u64 * 512 * 512 * 512;
    let flags = PageTableEntryFlags::present().union(PageTableEntryFlags::writable());
    for i in 0..8u64 {
        arena.map_page_unchecked(Page::new(top - 8 + i), PhyAddr(0x10000), flags, &mut pa);
    }
    assert!(arena.find_free_pages(Page::new(top - 8), 1).is_none());
    assert!(arena.find_free_pages(Page::new(top - 8), 4).is_none());
}

#[test]
fn find_free_skips_present() {
    // a present page in the middle pushes the run past it
    let mut arena = PageTableArena::new(0x8000_0000_0000);
    let mut pa = BasicPhysicalAllocator::new(PhyAddr(0));
    let flags = PageTableEntryFlags::present().union(PageTableEntryFlags::writable());
    arena.map_page_unchecked(Page::new(3), PhyAddr(0x20000), flags, &mut pa);
    let run = arena.find_free_pages(Page::new(1), 3).unwrap();
    assert_eq!(run.first().num(), 4);
    assert_eq!(run.last_page().num(), 6);
}

#[test]
fn map_then_walk() {
    let mut arena = PageTableArena::new(0x8000_0000_0000);
    let mut pa = BasicPhysicalAllocator::new(PhyAddr(0));
    let flags = PageTableEntryFlags::present().union(PageTableEntryFlags::writable());
    let page = Page::new(0x1234);
    arena.map_page_unchecked(page, PhyAddr(0xabc000), flags, &mut pa);
    let e = arena.page_entry(page).unwrap();
    assert!(e.present());
    assert_eq!(e.addr(), PhyAddr(0xabc000));
    assert!(arena.is_present(page));
    assert!(!arena.is_present(Page::new(0x1235)));
    let old = arena.clear_page_entry(page);
    assert_eq!(old.addr(), PhyAddr(0xabc000));
    assert!(!arena.is_present(page));
}

#[test]
fn huge_mapping_stops_the_walk() {
    // a huge level-2 entry covers its whole 2 MiB block: every page of the
    // block is present and the walk reports the huge condition
    let mut arena = PageTableArena::new(0x8000_0000_0000);
    let mut pa = BasicPhysicalAllocator::new(PhyAddr(0));
    let flags = PageTableEntryFlags::present()
        .union(PageTableEntryFlags::writable())
        .union(PageTableEntryFlags::huge_page());
    let page = Page::new(512 * 7 + 3);
    arena.map_huge_page_unchecked(page, PhyAddr(0x200000), flags, &mut pa);
    for n in [512 * 7, 512 * 7 + 3, 512 * 7 + 511] {
        let p = Page::new(n);
        assert!(arena.is_present(p));
        assert_eq!(arena.page_entry(p), Err(PageEntryError::HugePage));
    }
    assert!(!arena.is_present(Page::new(512 * 6)));
    assert!(!arena.is_present(Page::new(512 * 8)));
}

#[test]
fn find_free_skips_huge_block() {
    // the free-run search counts a huge block as present
    let mut arena = PageTableArena::new(0x8000_0000_0000);
    let mut pa = BasicPhysicalAllocator::new(PhyAddr(0));
    let flags = PageTableEntryFlags::present().union(PageTableEntryFlags::huge_page());
    arena.map_huge_page_unchecked(Page::new(512), PhyAddr(0x400000), flags, &mut pa);
    let run = arena.find_free_pages(Page::new(1000), 4).unwrap();
    assert_eq!(run.first().num(), 1024);
    assert_eq!(run.last_page().num(), 1027);
}

#[test]
fn not_present_error_names_the_level() {
    let mut arena = PageTableArena::new(0x8000_0000_0000);
    let mut pa = BasicPhysicalAllocator::new(PhyAddr(0));
    // an empty table breaks at the top level
    assert_eq!(
        arena.page_entry(Page::new(7)),
        Err(PageEntryError::PageTableLevelIsNotPresent { level: 4 })
    );
    // mapping one page builds its chain whole: a page of the same block
    // reaches an empty leaf entry, one of the next block breaks at level
    // two, one of the next larger block at level three
    let flags = PageTableEntryFlags::present().union(PageTableEntryFlags::writable());
    arena.map_page_unchecked(Page::new(7), PhyAddr(0x30000), flags, &mut pa);
    let sibling = arena.page_entry(Page::new(8)).unwrap();
    assert!(!sibling.present());
    assert_eq!(
        arena.page_entry(Page::new(512)),
        Err(PageEntryError::PageTableLevelIsNotPresent { level: 2 })
    );
    assert_eq!(
        arena.page_entry(Page::new(512 * 512)),
        Err(PageEntryError::PageTableLevelIsNotPresent { level: 3 })
    );
    let far = Page::new(512u64 * 512 * 512 * 3);
    assert_eq!(
        arena.page_entry(far),
        Err(PageEntryError::PageTableLevelIsNotPresent { level: 4 })
    );
}
