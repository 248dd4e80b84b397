//! The virtual page allocator: the public face of the memory core.
//!
//! One state object combines the physical bitmap allocator, the live page
//! table and the forward search cursor; the kernel keeps a single instance
//! of it behind one lock. It is built unconfigured and must be given the
//! usable physical region exactly once before any allocation.
use crate::addr::{is_canonical, PhyAddr, VirtAddr};
use crate::entry::{
    addr_fits_entry, spec_entry_addr, spec_entry_flags, spec_entry_present, ADDRESS_SPACE_END,
    PAGE_SIZE,
};
use crate::flags::{PageTableEntryFlags, PRESENT_BIT, WRITABLE_BIT};
use crate::page::{Page, MAX_PAGE_CANONICAL_NUM};
use crate::physical::{
    clear_at, count_clear, first_clear, lemma_count_clear_pos, lemma_count_clear_update,
    lemma_first_clear_from, lemma_mark_n_props, lemma_mark_n_snoc, mark_n, mark_one,
    BasicPhysicalAllocator,
    BITMAP_SIZE,
};
use crate::table::{frames_marked, PageEntryError, PageTableArena};
use vstd::prelude::*;

verus! {

/// One contiguous virtual reservation: the caller that received it is its
/// sole bookkeeper until it is handed back.
pub struct PageAllocation {
    pub first_page: Page,
    pub page_amount: usize,
}

impl PageAllocation {
    /// A record for `page_amount` pages starting at the page holding
    /// `virt_addr`.
    pub fn new(virt_addr: VirtAddr, page_amount: usize) -> (r: PageAllocation)
        requires
            is_canonical(virt_addr.0),
        ensures
            r.first_page.spec_num() == virt_addr.0 / PAGE_SIZE,
            r.page_amount == page_amount,
    {
        PageAllocation { first_page: Page::from_virt_addr(virt_addr), page_amount }
    }

    /// The virtual address of the first page in the allocation.
    pub fn as_virt_addr(&self) -> (r: VirtAddr)
        requires
            self.first_page.spec_num() * PAGE_SIZE <= u64::MAX,
        ensures
            r.0 == self.first_page.spec_num() * PAGE_SIZE,
    {
        self.first_page.to_virt_addr()
    }
}

/// The combined allocator state: physical frames, the page-table arena it
/// feeds, and the cursor where the next free-run search starts.
pub struct BasicPageAllocatorInner {
    pub physical_allocator: BasicPhysicalAllocator,
    last_page_alloc: Page,
    page_table: PageTableArena,
    configured: bool,
}

impl BasicPageAllocatorInner {
    /// The physical allocator half of the state, for specification use.
    pub closed spec fn pa(self) -> BasicPhysicalAllocator {
        self.physical_allocator
    }

    pub closed spec fn cursor(self) -> Page {
        self.last_page_alloc
    }

    pub closed spec fn arena(self) -> PageTableArena {
        self.page_table
    }

    pub closed spec fn spec_configured(self) -> bool {
        self.configured
    }

    /// The state is sound: both halves are well formed, the cursor page
    /// number lies inside the canonical space, and — once the physical
    /// region is configured — no live table frame is free in the bitmap.
    pub open spec fn wf(self) -> bool {
        &&& self.pa().wf()
        &&& self.arena().wf()
        &&& self.cursor().spec_num() < MAX_PAGE_CANONICAL_NUM
        &&& (self.spec_configured() ==> frames_marked(self.arena(), self.pa()))
    }

    /// A fresh, unconfigured allocator over an empty page table rooted in
    /// `root_frame`, with the cursor on page one.
    pub fn new(root_frame: PhyAddr) -> (r: BasicPageAllocatorInner)
        requires
            addr_fits_entry(root_frame.0),
        ensures
            r.wf(),
            !r.spec_configured(),
            r.cursor().spec_num() == 1,
            r.arena().sroot() == root_frame.0,
            forall|c: u64|
                c < MAX_PAGE_CANONICAL_NUM ==> !(#[trigger] r.arena().spec_is_present(c)),
            forall|k: int| 0 <= k < BITMAP_SIZE ==> !r.pa().bits()[k],
    {
        BasicPageAllocatorInner {
            physical_allocator: BasicPhysicalAllocator::new(PhyAddr(0)),
            last_page_alloc: Page::new(1),
            page_table: PageTableArena::new(root_frame.0),
            configured: false,
        }
    }

    /// Whether the physical region has been configured.
    pub fn is_configured(&self) -> (r: bool)
        ensures
            r == self.spec_configured(),
    {
        self.configured
    }

    /// The current search cursor.
    pub fn last_page_alloc(&self) -> (r: Page)
        ensures
            r == self.cursor(),
    {
        self.last_page_alloc
    }

    /// The page table the allocator operates on.
    pub fn page_table(&self) -> (r: &PageTableArena)
        ensures
            r == self.arena(),
    {
        &self.page_table
    }

    /// Bytes of one page.
    pub fn page_size(&self) -> (r: usize)
        ensures
            r == PAGE_SIZE,
    {
        PAGE_SIZE as usize
    }

    /// Hand the allocator its one usable physical region, reported by the
    /// bootloader. Must happen exactly once, before any allocation, and
    /// the region must not cover any frame already holding a page table.
    pub fn configure_physical_area(&mut self, start: PhyAddr, size: u64)
        requires
            old(self).wf(),
            !old(self).spec_configured(),
            start.0 % PAGE_SIZE == 0,
            start.0 + BITMAP_SIZE * PAGE_SIZE <= ADDRESS_SPACE_END,
            forall|f: u64|
                #[trigger] old(self).arena().has_frame(f) ==> !(start.0 <= f < start.0
                    + BITMAP_SIZE * PAGE_SIZE),
        ensures
            final(self).wf(),
            final(self).spec_configured(),
            final(self).pa().spec_offset() == start.0,
            final(self).pa().spec_limit() == size,
            final(self).pa().bits() == old(self).pa().bits(),
            final(self).arena() == old(self).arena(),
            final(self).cursor() == old(self).cursor(),
    {
        self.physical_allocator.set_offset(start);
        let limit = self.physical_allocator.limit_mut();
        *limit = size;
        self.configured = true;
    }

    /// The level-1 entry word dealt to canonical page `f + i`.
    pub open spec fn run_word(self, f: u64, i: int) -> u64 {
        self.arena().spec_page_entry((f + i) as u64)->Ok_0
    }

    /// What a caller must guarantee about a run it hands back: every page
    /// of it translates, to frames that are tracked, marked used, mutually
    /// distinct and not themselves page tables. A run obtained from
    /// `alloc_pages` satisfies all of it.
    pub open spec fn run_owned(self, f: u64, n: int) -> bool {
        &&& (forall|i: int|
            0 <= i < n ==> self.arena().chain_present(#[trigger] ((f + i) as u64)))
        &&& (forall|i: int|
            0 <= i < n ==> self.pa().tracks(
                spec_entry_addr(#[trigger] self.run_word(f, i)),
            ))
        &&& (forall|i: int|
            0 <= i < n ==> self.pa().bits()[self.pa().index_of(
                spec_entry_addr(#[trigger] self.run_word(f, i)),
            )])
        &&& (forall|i: int|
            0 <= i < n ==> !self.arena().has_frame(
                spec_entry_addr(#[trigger] self.run_word(f, i)),
            ))
        &&& (forall|i: int, j: int|
            0 <= i < j < n ==> spec_entry_addr(#[trigger] self.run_word(f, i))
                != spec_entry_addr(#[trigger] self.run_word(f, j)))
    }

    /// The running guarantee while a fresh run is being mapped: after `i`
    /// pages, the allocator is sound, the first `i` pages of the run are
    /// owned and mapped present and writable, every page outside the part
    /// already mapped keeps its translation, and at most four frames have
    /// been consumed per page. With every chain already in place the
    /// consumed frames are exactly the first-fit picks, in order.
    pub open spec fn alloc_loop_inv(
        s0: BasicPageAllocatorInner,
        cur: BasicPageAllocatorInner,
        f: u64,
        n: int,
        i: int,
        chainy: bool,
    ) -> bool {
        &&& cur.wf()
        &&& cur.spec_configured()
        &&& 0 <= i <= n
        &&& cur.cursor().spec_num() == f + n - 1
        &&& cur.pa().spec_offset() == s0.pa().spec_offset()
        &&& cur.pa().spec_limit() == s0.pa().spec_limit()
        &&& cur.pa().bits().len() == s0.pa().bits().len()
        &&& cur.arena().sroot() == s0.arena().sroot()
        &&& count_clear(cur.pa().bits()) >= count_clear(s0.pa().bits()) - 4 * i
        &&& (forall|j: int|
            0 <= j < s0.pa().bits().len() && s0.pa().bits()[j] ==> #[trigger] cur.pa().bits()[j])
        &&& (forall|g: u64| s0.arena().has_frame(g) ==> #[trigger] cur.arena().has_frame(g))
        &&& cur.run_owned(f, i)
        &&& (forall|k: int|
            0 <= k < i ==> spec_entry_flags(#[trigger] cur.run_word(f, k)) == PRESENT_BIT
                | WRITABLE_BIT)
        &&& (forall|c2: u64|
            c2 < MAX_PAGE_CANONICAL_NUM && !(f <= c2 < f + i) ==> cur.arena().spec_is_present(
                c2,
            ) == s0.arena().spec_is_present(c2))
        &&& (forall|c2: u64|
            c2 < MAX_PAGE_CANONICAL_NUM && !(f <= c2 < f + i) && s0.arena().spec_page_entry(
                c2,
            ) is Ok ==> cur.arena().spec_page_entry(c2) == s0.arena().spec_page_entry(c2))
        &&& (chainy ==> {
            &&& cur.arena().sframes() == s0.arena().sframes()
            &&& cur.pa().bits() == mark_n(s0.pa().bits(), i as nat)
            &&& (forall|k: int|
                0 <= k < i ==> spec_entry_addr(#[trigger] cur.run_word(f, k)) == s0.pa().frame_at(
                    clear_at(s0.pa().bits(), k as nat),
                ))
            &&& (forall|c2: u64|
                c2 < MAX_PAGE_CANONICAL_NUM && !(f <= c2 < f + i) ==> cur.arena(
                ).spec_page_entry(c2) == s0.arena().spec_page_entry(c2))
        })
    }

    /// One step of `alloc_pages`: back page `f + i` with a fresh frame and
    /// map it present and writable.
    #[verifier::rlimit(100)]
    #[verifier::spinoff_prover]
    fn alloc_map_one(
        &mut self,
        page: Page,
        flags: PageTableEntryFlags,
        Ghost(s0): Ghost<BasicPageAllocatorInner>,
        Ghost(f): Ghost<u64>,
        Ghost(n): Ghost<int>,
        Ghost(i): Ghost<int>,
        Ghost(chainy): Ghost<bool>,
    )
        requires
            BasicPageAllocatorInner::alloc_loop_inv(s0, *old(self), f, n, i, chainy),
            0 <= i < n,
            count_clear(s0.pa().bits()) >= 4 * n,
            s0.arena().window_free(f, n as nat),
            f + n <= MAX_PAGE_CANONICAL_NUM,
            chainy ==> (forall|k: int|
                0 <= k < n ==> s0.arena().chain_present(#[trigger] ((f + k) as u64))),
            page.spec_canonical() == f + i,
            flags.wf(),
            flags.spec_bits() == PRESENT_BIT | WRITABLE_BIT,
        ensures
            BasicPageAllocatorInner::alloc_loop_inv(s0, *final(self), f, n, i + 1, chainy),
    {
        let ghost pre = *self;
        proof {
            assert(count_clear(pre.pa().bits()) >= 4);
            lemma_count_clear_pos(pre.pa().bits(), 0);
            lemma_first_clear_from(pre.pa().bits(), 0);
        }
        let frame = self.physical_allocator.allocate_frame();
        proof {
            let fc = first_clear(pre.pa().bits())->Some_0;
            lemma_count_clear_update(pre.pa().bits(), 0, fc, true);
            pre.pa().lemma_frame_at_tracked(fc);
        }
        self.map_one_frame(page, frame, flags, Ghost(s0), Ghost(pre), Ghost(f), Ghost(n),
            Ghost(i), Ghost(chainy));
    }

    /// The mapping half of one allocation step, once the backing frame is
    /// in hand.
    #[verifier::rlimit(100)]
    #[verifier::spinoff_prover]
    fn map_one_frame(
        &mut self,
        page: Page,
        frame: PhyAddr,
        flags: PageTableEntryFlags,
        Ghost(s0): Ghost<BasicPageAllocatorInner>,
        Ghost(pre): Ghost<BasicPageAllocatorInner>,
        Ghost(f): Ghost<u64>,
        Ghost(n): Ghost<int>,
        Ghost(i): Ghost<int>,
        Ghost(chainy): Ghost<bool>,
    )
        requires
            BasicPageAllocatorInner::alloc_loop_inv(s0, pre, f, n, i, chainy),
            0 <= i < n,
            count_clear(s0.pa().bits()) >= 4 * n,
            s0.arena().window_free(f, n as nat),
            f + n <= MAX_PAGE_CANONICAL_NUM,
            chainy ==> (forall|k: int|
                0 <= k < n ==> s0.arena().chain_present(#[trigger] ((f + k) as u64))),
            page.spec_canonical() == f + i,
            flags.wf(),
            flags.spec_bits() == PRESENT_BIT | WRITABLE_BIT,
            first_clear(pre.pa().bits()) == Some(pre.pa().index_of(frame.0)),
            old(self).arena() == pre.arena(),
            old(self).cursor() == pre.cursor(),
            old(self).spec_configured() == pre.spec_configured(),
            old(self).pa().spec_offset() == pre.pa().spec_offset(),
            old(self).pa().spec_limit() == pre.pa().spec_limit(),
            old(self).pa().bits() == pre.pa().bits().update(pre.pa().index_of(frame.0), true),
            pre.pa().tracks(frame.0),
            !pre.pa().bits()[pre.pa().index_of(frame.0)],
            frame.0 == pre.pa().frame_at(pre.pa().index_of(frame.0)),
            addr_fits_entry(frame.0),
            old(self).pa().wf(),
        ensures
            BasicPageAllocatorInner::alloc_loop_inv(s0, *final(self), f, n, i + 1, chainy),
    {
        let ghost mid = *self;
        let ghost cur = (f + i) as u64;
        let ghost fc = pre.pa().index_of(frame.0);
        proof {
            assert((1u64 | 2u64) == 3u64 && 3u64 & 1u64 == 1u64 && 3u64 & 128u64 == 0u64 && 3u64
                & 0x000f_ffff_ffff_f000u64 == 0u64) by (bit_vector);
            lemma_count_clear_update(pre.pa().bits(), 0, fc, true);
            assert(!s0.arena().spec_is_present(cur)) by {
                assert(f <= cur < f + n);
            }
            assert(!mid.arena().spec_is_present(cur)) by {
                assert(!(f <= cur < f + i));
            }
            assert(mid.arena().spec_page_entry(cur) != Err::<u64, PageEntryError>(
                PageEntryError::HugePage,
            ));
            assert(!pre.arena().has_frame(frame.0)) by {
                if pre.arena().has_frame(frame.0) {
                    assert(pre.pa().bits()[pre.pa().index_of(frame.0)]);
                }
            }
            assert forall|g: u64|
                #[trigger] mid.arena().has_frame(g) && mid.pa().tracks(g) implies mid.pa().bits()[
                mid.pa().index_of(g)
            ] by {
                assert(pre.arena().has_frame(g));
                assert(pre.pa().bits()[pre.pa().index_of(g)]);
            }
            assert(mid.wf());
            assert(count_clear(mid.pa().bits()) >= 3) by {
                assert(count_clear(pre.pa().bits()) >= 4);
            }
        }
        self.page_table.map_page_unchecked(page, frame, flags, &mut self.physical_allocator);
        proof {
            let post = *self;
            crate::entry::lemma_entry_pack(frame.0, 3u64);
            assert(post.arena().spec_page_entry(cur) == Ok::<u64, PageEntryError>(
                frame.0 | 3u64,
            ));
            assert(spec_entry_addr(post.run_word(f, i)) == frame.0);
            assert(spec_entry_flags(post.run_word(f, i)) == 3u64);
            assert(post.arena().chain_present(cur));
            assert(post.pa().tracks(frame.0));
            assert(post.pa().bits()[post.pa().index_of(frame.0)]) by {
                assert(mid.pa().bits()[mid.pa().index_of(frame.0)]);
            }
            assert(!post.arena().has_frame(frame.0)) by {
                if post.arena().has_frame(frame.0) && !mid.arena().has_frame(frame.0) {
                    assert(!mid.pa().bits()[mid.pa().index_of(frame.0)]);
                }
            }
            // the pages mapped before keep everything they had
            assert forall|k: int| 0 <= k < i + 1 implies {
                &&& post.arena().chain_present(#[trigger] ((f + k) as u64))
                &&& post.pa().tracks(spec_entry_addr(post.run_word(f, k)))
                &&& post.pa().bits()[post.pa().index_of(spec_entry_addr(post.run_word(f, k)))]
                &&& !post.arena().has_frame(spec_entry_addr(post.run_word(f, k)))
                &&& spec_entry_flags(post.run_word(f, k)) == PRESENT_BIT | WRITABLE_BIT
            } by {
                if k < i {
                    let ck = (f + k) as u64;
                    assert(ck != cur);
                    assert(mid.arena().spec_page_entry(ck) is Ok);
                    assert(post.arena().spec_page_entry(ck) == mid.arena().spec_page_entry(ck));
                    let ak = spec_entry_addr(pre.run_word(f, k));
                    assert(pre.pa().bits()[pre.pa().index_of(ak)]);
                    assert(post.pa().bits()[post.pa().index_of(ak)]);
                    assert(!post.arena().has_frame(ak)) by {
                        if post.arena().has_frame(ak) && !mid.arena().has_frame(ak) {
                            assert(!mid.pa().bits()[mid.pa().index_of(ak)]);
                            assert(mid.pa().bits()[mid.pa().index_of(ak)]) by {
                                pre.pa().lemma_track_round_trip(ak);
                                if pre.pa().index_of(ak) == fc {
                                    pre.pa().lemma_frame_at_tracked(fc);
                                }
                            }
                        }
                    }
                }
            }
            // the new backing frame is nobody else's: its bit was clear,
            // the earlier ones' bits were set
            assert forall|k: int, l: int| 0 <= k < l < i + 1 implies spec_entry_addr(
                #[trigger] post.run_word(f, k),
            ) != spec_entry_addr(#[trigger] post.run_word(f, l)) by {
                let ck = (f + k) as u64;
                assert(post.arena().spec_page_entry(ck) == mid.arena().spec_page_entry(ck));
                let ak = spec_entry_addr(post.run_word(f, k));
                assert(ak == spec_entry_addr(pre.run_word(f, k)));
                if l == i {
                    assert(pre.pa().bits()[pre.pa().index_of(ak)]);
                    assert(!pre.pa().bits()[fc]);
                    pre.pa().lemma_frame_at_tracked(fc);
                    pre.pa().lemma_track_round_trip(ak);
                    if ak == frame.0 {
                        assert(pre.pa().index_of(ak) == fc);
                    }
                } else {
                    let cl = (f + l) as u64;
                    assert(post.arena().spec_page_entry(cl) == mid.arena().spec_page_entry(cl));
                    assert(spec_entry_addr(post.run_word(f, l)) == spec_entry_addr(
                        pre.run_word(f, l),
                    ));
                    assert(spec_entry_addr(pre.run_word(f, k)) != spec_entry_addr(
                        pre.run_word(f, l),
                    ));
                }
            }
            // translations outside the mapped prefix are undisturbed
            assert forall|c2: u64|
                c2 < MAX_PAGE_CANONICAL_NUM && !(f <= c2 < f + (i + 1)) implies post.arena(
            ).spec_is_present(c2) == s0.arena().spec_is_present(c2) by {
                assert(!(f <= c2 < f + i));
                assert(c2 != cur);
                assert(post.arena().spec_is_present(c2) == mid.arena().spec_is_present(c2));
            }
            assert forall|c2: u64|
                c2 < MAX_PAGE_CANONICAL_NUM && !(f <= c2 < f + (i + 1)) && s0.arena(
            ).spec_page_entry(c2) is Ok implies post.arena().spec_page_entry(c2)
                == s0.arena().spec_page_entry(c2) by {
                assert(!(f <= c2 < f + i));
                assert(c2 != cur);
                assert(mid.arena().spec_page_entry(c2) == s0.arena().spec_page_entry(c2));
                assert(post.arena().spec_page_entry(c2) == mid.arena().spec_page_entry(c2));
            }
            assert forall|j: int|
                0 <= j < s0.pa().bits().len() && s0.pa().bits()[j] implies #[trigger] post.pa(
            ).bits()[j] by {
                assert(pre.pa().bits()[j]);
                assert(mid.pa().bits()[j]);
            }
            if chainy {
                assert(mid.arena().spec_page_entry(cur) == s0.arena().spec_page_entry(cur));
                assert(s0.arena().chain_present(cur));
                assert(mid.arena().chain_present(cur));
                lemma_mark_n_snoc(s0.pa().bits(), i as nat);
                assert(pre.pa().bits() == mark_n(s0.pa().bits(), i as nat));
                assert(fc == clear_at(s0.pa().bits(), i as nat));
                assert(mid.pa().bits() == mark_one(mark_n(s0.pa().bits(), i as nat)));
                assert(post.pa().bits() == mark_n(s0.pa().bits(), (i + 1) as nat));
                assert(frame.0 == s0.pa().frame_at(clear_at(s0.pa().bits(), i as nat)));
                assert(post.arena().sframes() == s0.arena().sframes()) by {
                    assert(post.arena().sframes() == mid.arena().sframes());
                }
                assert forall|c2: u64|
                    c2 < MAX_PAGE_CANONICAL_NUM && !(f <= c2 < f + (i + 1)) implies post.arena(
                ).spec_page_entry(c2) == s0.arena().spec_page_entry(c2) by {
                    assert(!(f <= c2 < f + i));
                    assert(c2 != cur);
                    assert(mid.arena().spec_page_entry(c2) == s0.arena().spec_page_entry(c2));
                    assert(post.arena().spec_page_entry(c2) == mid.arena().spec_page_entry(c2));
                }
                assert forall|k: int|
                    0 <= k < i + 1 implies spec_entry_addr(#[trigger] post.run_word(f, k))
                    == s0.pa().frame_at(clear_at(s0.pa().bits(), k as nat)) by {
                    if k < i {
                        let ck = (f + k) as u64;
                        assert(post.arena().spec_page_entry(ck) == mid.arena().spec_page_entry(
                            ck,
                        ));
                        assert(mid.run_word(f, k) == pre.run_word(f, k));
                        assert(spec_entry_addr(pre.run_word(f, k)) == s0.pa().frame_at(
                            clear_at(s0.pa().bits(), k as nat),
                        ));
                    }
                }
            }
        }
    }

    /// Allocate `page_amount` contiguous virtual pages: find the earliest
    /// free run forward of the cursor, back every page with one freshly
    /// allocated physical frame mapped present and writable, and move the
    /// cursor to the end of the run. Fails, changing nothing, when no run
    /// of that length exists before the canonical space ends.
    #[verifier::rlimit(100)]
    #[verifier::spinoff_prover]
    pub fn alloc_pages(&mut self, page_amount: usize) -> (r: Option<PageAllocation>)
        requires
            old(self).wf(),
            old(self).spec_configured(),
            1 <= page_amount,
            count_clear(old(self).pa().bits()) >= 4 * page_amount,
        ensures
            final(self).wf(),
            final(self).spec_configured(),
            final(self).pa().spec_offset() == old(self).pa().spec_offset(),
            final(self).pa().spec_limit() == old(self).pa().spec_limit(),
            final(self).pa().bits().len() == old(self).pa().bits().len(),
            final(self).arena().sroot() == old(self).arena().sroot(),
            match r {
                None => *final(self) == *old(self) && (forall|w: u64|
                    old(self).cursor().spec_canonical() <= w && w + page_amount
                        <= MAX_PAGE_CANONICAL_NUM ==> !old(self).arena().window_free(
                        w,
                        page_amount as nat,
                    )),
                Some(a) => {
                    let f = a.first_page.spec_canonical();
                    let n = page_amount as int;
                    &&& a.page_amount == page_amount
                    &&& a.first_page.spec_num() == f
                    &&& old(self).cursor().spec_canonical() <= f
                    &&& f + n <= MAX_PAGE_CANONICAL_NUM
                    &&& old(self).arena().window_free(f, page_amount as nat)
                    &&& (forall|w: u64|
                        old(self).cursor().spec_canonical() <= w < f ==> !old(self).arena().window_free(w, page_amount as nat))
                    &&& final(self).cursor().spec_num() == f + n - 1
                    &&& BasicPageAllocatorInner::alloc_loop_inv(
                        *old(self),
                        *final(self),
                        f,
                        n,
                        n,
                        forall|i: int|
                            0 <= i < n ==> old(self).arena().chain_present(
                                #[trigger] ((f + i) as u64),
                            ),
                    )
                },
            },
    {
        let ghost s0 = *self;
        let n = page_amount;
        let free_pages = match self.page_table.find_free_pages(self.last_page_alloc, n) {
            Some(fp) => fp,
            None => {
                return None;
            },
        };
        let first_page = free_pages.first();
        let ghost f = first_page.spec_canonical();
        self.last_page_alloc = free_pages.last_page();
        proof {
            crate::page::lemma_canonical_is_mod(s0.cursor().spec_num());
            crate::page::lemma_canonical_is_mod(first_page.spec_num());
            crate::page::lemma_canonical_is_mod(free_pages.end.spec_num());
            assert(s0.cursor().spec_canonical() == s0.cursor().spec_num());
            assert(first_page.spec_num() == f);
            assert(self.cursor().spec_num() == f + n - 1);
        }
        let flags = PageTableEntryFlags::present().union(PageTableEntryFlags::writable());
        proof {
            assert((1u64 | 2u64) == 3u64) by (bit_vector);
        }
        let ghost chainy = forall|i: int|
            0 <= i < n ==> s0.arena().chain_present(#[trigger] ((f + i) as u64));
        let mut i: usize = 0;
        let mut page = first_page;
        proof {
            assert(BasicPageAllocatorInner::alloc_loop_inv(s0, *self, f, n as int, 0, chainy));
        }
        while i < n
            invariant
                BasicPageAllocatorInner::alloc_loop_inv(s0, *self, f, n as int, i as int, chainy),
                s0.wf(),
                s0.spec_configured(),
                1 <= n,
                count_clear(s0.pa().bits()) >= 4 * n,
                f == first_page.spec_canonical(),
                first_page.spec_num() == f,
                f + n <= MAX_PAGE_CANONICAL_NUM,
                s0.arena().window_free(f, n as nat),
                flags.wf(),
                flags.spec_bits() == PRESENT_BIT | WRITABLE_BIT,
                chainy == (forall|k: int|
                    0 <= k < n ==> s0.arena().chain_present(#[trigger] ((f + k) as u64))),
                0 <= i <= n,
                page.spec_canonical() == f + i || i == n,
                page.spec_num() == first_page.spec_num() + i || i == n,
            decreases n - i,
        {
            self.alloc_map_one(
                page,
                flags,
                Ghost(s0),
                Ghost(f),
                Ghost(n as int),
                Ghost(i as int),
                Ghost(chainy),
            );
            i = i + 1;
            if i < n {
                page = match page.next() {
                    Some(p) => p,
                    None => {
                        proof {
                            assert(false);
                        }
                        page
                    },
                };
                proof {
                    crate::page::lemma_canonical_is_mod(page.spec_num());
                    let sn = first_page.spec_num();
                    assert((sn & 0xf_ffff_ffffu64) + i < 0x10_0000_0000u64 ==> ((sn
                        + i) as u64) & 0xf_ffff_ffffu64 == (sn & 0xf_ffff_ffffu64)
                        + i) by (bit_vector);
                }
            }
        }
        Some(PageAllocation { first_page, page_amount })
    }

    /// No free run of length `n` lies forward of the cursor.
    pub open spec fn no_run(self, n: int) -> bool {
        forall|w: u64|
            self.cursor().spec_canonical() <= w && w + n <= MAX_PAGE_CANONICAL_NUM ==> !(
            #[trigger] self.arena().window_free(w, n as nat))
    }

    /// No free run of length `n` starts between the cursor and `f`.
    pub open spec fn no_run_before(self, f: u64, n: int) -> bool {
        forall|w: u64|
            self.cursor().spec_canonical() <= w < f ==> !(#[trigger] self.arena().window_free(
                w,
                n as nat,
            ))
    }

    /// The running guarantee while a reserved physical range is being
    /// mapped page for page.
    pub open spec fn phys_loop_inv(
        rsv: BasicPageAllocatorInner,
        cur: BasicPageAllocatorInner,
        f: u64,
        amount: int,
        i: int,
        aligned: u64,
    ) -> bool {
        &&& cur.wf()
        &&& cur.spec_configured()
        &&& 0 <= i <= amount
        &&& cur.cursor() == rsv.cursor()
        &&& cur.pa().spec_offset() == rsv.pa().spec_offset()
        &&& cur.pa().spec_limit() == rsv.pa().spec_limit()
        &&& cur.pa().bits().len() == rsv.pa().bits().len()
        &&& cur.arena().sroot() == rsv.arena().sroot()
        &&& count_clear(cur.pa().bits()) >= count_clear(rsv.pa().bits()) - 3 * i
        &&& (forall|j: int|
            0 <= j < rsv.pa().bits().len() && rsv.pa().bits()[j] ==> #[trigger] cur.pa().bits()[
                j
            ])
        &&& (forall|g: u64| rsv.arena().has_frame(g) ==> #[trigger] cur.arena().has_frame(g))
        &&& (forall|g: u64|
            aligned <= g < aligned + amount * PAGE_SIZE && g % PAGE_SIZE == 0 ==> !(
            #[trigger] cur.arena().has_frame(g)))
        &&& cur.run_owned(f, i)
        &&& (forall|k: int|
            0 <= k < i ==> #[trigger] cur.run_word(f, k) == (aligned + k * PAGE_SIZE) as u64
                | (PRESENT_BIT | WRITABLE_BIT))
        &&& (forall|c2: u64|
            c2 < MAX_PAGE_CANONICAL_NUM && !(f <= c2 < f + i) ==> cur.arena().spec_is_present(
                c2,
            ) == rsv.arena().spec_is_present(c2))
        &&& (forall|c2: u64|
            c2 < MAX_PAGE_CANONICAL_NUM && !(f <= c2 < f + i) && rsv.arena().spec_page_entry(
                c2,
            ) is Ok ==> cur.arena().spec_page_entry(c2) == rsv.arena().spec_page_entry(c2))
    }

    /// One step of `map_physical`: map page `f + i` onto the reserved
    /// frame `aligned + i * PAGE_SIZE`.
    #[verifier::rlimit(100)]
    #[verifier::spinoff_prover]
    fn map_phys_one(
        &mut self,
        page: Page,
        frame: PhyAddr,
        flags: PageTableEntryFlags,
        Ghost(rsv): Ghost<BasicPageAllocatorInner>,
        Ghost(f): Ghost<u64>,
        Ghost(amount): Ghost<int>,
        Ghost(i): Ghost<int>,
        Ghost(aligned): Ghost<u64>,
    )
        requires
            BasicPageAllocatorInner::phys_loop_inv(rsv, *old(self), f, amount, i, aligned),
            0 <= i < amount,
            count_clear(rsv.pa().bits()) >= 3 * amount,
            rsv.arena().window_free(f, amount as nat),
            f + amount <= MAX_PAGE_CANONICAL_NUM,
            page.spec_canonical() == f + i,
            flags.wf(),
            flags.spec_bits() == PRESENT_BIT | WRITABLE_BIT,
            frame.0 == aligned + i * PAGE_SIZE,
            aligned % PAGE_SIZE == 0,
            addr_fits_entry(frame.0),
            rsv.pa().tracks(frame.0),
            rsv.pa().tracks(aligned),
            rsv.pa().index_of(aligned) + amount <= BITMAP_SIZE,
            forall|k: int|
                rsv.pa().index_of(aligned) <= k < rsv.pa().index_of(aligned) + amount
                    ==> #[trigger] rsv.pa().bits()[k],
        ensures
            BasicPageAllocatorInner::phys_loop_inv(rsv, *final(self), f, amount, i + 1, aligned),
    {
        let ghost mid = *self;
        let ghost cur = (f + i) as u64;
        proof {
            assert((1u64 | 2u64) == 3u64 && 3u64 & 1u64 == 1u64 && 3u64 & 128u64 == 0u64 && 3u64
                & 0x000f_ffff_ffff_f000u64 == 0u64) by (bit_vector);
            assert(!rsv.arena().spec_is_present(cur)) by {
                assert(f <= cur < f + amount);
            }
            assert(!mid.arena().spec_is_present(cur)) by {
                assert(!(f <= cur < f + i));
            }
            assert(mid.arena().spec_page_entry(cur) != Err::<u64, PageEntryError>(
                PageEntryError::HugePage,
            ));
            assert(count_clear(mid.pa().bits()) >= 3);
        }
        self.page_table.map_page_unchecked(page, frame, flags, &mut self.physical_allocator);
        proof {
            let post = *self;
            crate::entry::lemma_entry_pack(frame.0, 3u64);
            assert(post.arena().spec_page_entry(cur) == Ok::<u64, PageEntryError>(
                frame.0 | 3u64,
            ));
            assert(spec_entry_addr(post.run_word(f, i)) == frame.0);
            assert(post.arena().chain_present(cur));
            assert(post.pa().tracks(frame.0)) by {
                assert(mid.pa().tracks(frame.0));
            }
            assert(post.pa().bits()[post.pa().index_of(frame.0)]) by {
                assert(mid.pa().bits()[mid.pa().index_of(frame.0)]) by {
                    assert(rsv.pa().bits()[rsv.pa().index_of(frame.0)]);
                }
            }
            // no reserved frame becomes a table: new tables take frames
            // whose bits were clear, and all reserved bits are set
            assert forall|g: u64|
                aligned <= g < aligned + amount * PAGE_SIZE && g % PAGE_SIZE == 0 implies !(
            #[trigger] post.arena().has_frame(g)) by {
                if post.arena().has_frame(g) && !mid.arena().has_frame(g) {
                    assert(!mid.pa().bits()[mid.pa().index_of(g)]);
                    assert(rsv.pa().tracks(g)) by {
                        rsv.pa().lemma_track_round_trip(aligned);
                        assert(aligned + amount * PAGE_SIZE <= rsv.pa().spec_offset()
                            + BITMAP_SIZE * PAGE_SIZE) by (nonlinear_arith)
                            requires
                                aligned as int == rsv.pa().spec_offset() + rsv.pa().index_of(
                                    aligned,
                                ) * 0x1000,
                                rsv.pa().index_of(aligned) + amount <= BITMAP_SIZE,
                                PAGE_SIZE == 0x1000,
                                rsv.pa().spec_offset() >= 0,
                        ;
                    }
                    assert(rsv.pa().bits()[rsv.pa().index_of(g)]) by {
                        rsv.pa().lemma_track_round_trip(aligned);
                        let idxr = rsv.pa().index_of(aligned);
                        let off = rsv.pa().spec_offset() as int;
                        assert(idxr <= (g - off) / 0x1000 < idxr + amount) by (nonlinear_arith)
                            requires
                                aligned as int == off + idxr * 0x1000,
                                aligned <= g < aligned + amount * 0x1000,
                                g % 0x1000 == 0,
                                off % 0x1000 == 0,
                                off >= 0,
                                idxr >= 0,
                        ;
                        assert(rsv.pa().index_of(g) == (g - off) / 0x1000);
                    }
                    assert(mid.pa().bits()[mid.pa().index_of(g)]);
                }
            }
            assert(!post.arena().has_frame(frame.0)) by {
                assert(aligned <= frame.0 < aligned + amount * PAGE_SIZE);
                assert(frame.0 % PAGE_SIZE == 0) by (nonlinear_arith)
                    requires
                        aligned as int % 0x1000 == 0,
                        frame.0 == aligned + i * PAGE_SIZE,
                        PAGE_SIZE == 0x1000,
                ;
            }
            // the pages mapped before keep everything they had
            assert forall|k: int| 0 <= k < i + 1 implies {
                &&& post.arena().chain_present(#[trigger] ((f + k) as u64))
                &&& post.run_word(f, k) == (aligned + k * PAGE_SIZE) as u64 | (PRESENT_BIT
                    | WRITABLE_BIT)
                &&& post.pa().tracks(spec_entry_addr(post.run_word(f, k)))
                &&& post.pa().bits()[post.pa().index_of(spec_entry_addr(post.run_word(f, k)))]
                &&& !post.arena().has_frame(spec_entry_addr(post.run_word(f, k)))
            } by {
                crate::entry::lemma_entry_pack((aligned + k * PAGE_SIZE) as u64, 3u64);
                assert((aligned + k * PAGE_SIZE) as u64 % PAGE_SIZE == 0) by (nonlinear_arith)
                    requires
                        aligned as int % 0x1000 == 0,
                        0 <= k,
                        aligned + k * PAGE_SIZE <= u64::MAX,
                        PAGE_SIZE == 0x1000,
                ;
                if k < i {
                    let ck = (f + k) as u64;
                    assert(ck != cur);
                    assert(mid.arena().spec_page_entry(ck) is Ok);
                    assert(post.arena().spec_page_entry(ck) == mid.arena().spec_page_entry(ck));
                    assert(mid.run_word(f, k) == (aligned + k * PAGE_SIZE) as u64 | (
                    PRESENT_BIT | WRITABLE_BIT));
                    let ak = spec_entry_addr(mid.run_word(f, k));
                    assert(mid.pa().bits()[mid.pa().index_of(ak)]);
                    assert(post.pa().bits()[post.pa().index_of(ak)]);
                    assert(ak == (aligned + k * PAGE_SIZE) as u64);
                    assert(!post.arena().has_frame(ak));
                }
            }
            // distinct backing frames: consecutive frame bases differ
            assert forall|k: int, l: int| 0 <= k < l < i + 1 implies spec_entry_addr(
                #[trigger] post.run_word(f, k),
            ) != spec_entry_addr(#[trigger] post.run_word(f, l)) by {
                crate::entry::lemma_entry_pack((aligned + k * PAGE_SIZE) as u64, 3u64);
                crate::entry::lemma_entry_pack((aligned + l * PAGE_SIZE) as u64, 3u64);
                assert(aligned + k * PAGE_SIZE < aligned + l * PAGE_SIZE);
            }
            // translations outside the mapped prefix are undisturbed
            assert forall|c2: u64|
                c2 < MAX_PAGE_CANONICAL_NUM && !(f <= c2 < f + (i + 1)) implies post.arena(
            ).spec_is_present(c2) == rsv.arena().spec_is_present(c2) by {
                assert(!(f <= c2 < f + i));
                assert(c2 != cur);
                assert(post.arena().spec_is_present(c2) == mid.arena().spec_is_present(c2));
            }
            assert forall|c2: u64|
                c2 < MAX_PAGE_CANONICAL_NUM && !(f <= c2 < f + (i + 1)) && rsv.arena(
            ).spec_page_entry(c2) is Ok implies post.arena().spec_page_entry(c2)
                == rsv.arena().spec_page_entry(c2) by {
                assert(!(f <= c2 < f + i));
                assert(c2 != cur);
                assert(mid.arena().spec_page_entry(c2) == rsv.arena().spec_page_entry(c2));
                assert(post.arena().spec_page_entry(c2) == mid.arena().spec_page_entry(c2));
            }
            assert forall|j: int|
                0 <= j < rsv.pa().bits().len() && rsv.pa().bits()[j] implies #[trigger] post.pa(
            ).bits()[j] by {
                assert(mid.pa().bits()[j]);
            }
        }
    }

    /// Release a just-reserved contiguous range again, bit by bit: the
    /// full rollback of a failed `map_physical`.
    #[verifier::rlimit(100)]
    fn release_reserved_range(
        &mut self,
        aligned: PhyAddr,
        amount: usize,
        Ghost(s0): Ghost<BasicPageAllocatorInner>,
    )
        requires
            old(self).pa().wf(),
            s0.pa().wf(),
            old(self).pa().spec_offset() == s0.pa().spec_offset(),
            old(self).pa().spec_limit() == s0.pa().spec_limit(),
            old(self).pa().bits().len() == s0.pa().bits().len(),
            s0.pa().tracks(aligned.0),
            s0.pa().index_of(aligned.0) + amount <= BITMAP_SIZE,
            forall|k: int|
                s0.pa().index_of(aligned.0) <= k < s0.pa().index_of(aligned.0) + amount
                    ==> !s0.pa().bits()[k],
            forall|k: int|
                0 <= k < s0.pa().bits().len() ==> old(self).pa().bits()[k] == (if s0.pa(
                ).index_of(aligned.0) <= k < s0.pa().index_of(aligned.0) + amount {
                    true
                } else {
                    s0.pa().bits()[k]
                }),
        ensures
            final(self).pa().bits() =~= s0.pa().bits(),
            final(self).pa().spec_offset() == s0.pa().spec_offset(),
            final(self).pa().spec_limit() == s0.pa().spec_limit(),
            final(self).pa().wf(),
            final(self).arena() == old(self).arena(),
            final(self).cursor() == old(self).cursor(),
            final(self).spec_configured() == old(self).spec_configured(),
    {
        let ghost idx = s0.pa().index_of(aligned.0);
        let mut roll: usize = 0;
        while roll < amount
            invariant
                self.pa().wf(),
                s0.pa().wf(),
                self.arena() == old(self).arena(),
                self.cursor() == old(self).cursor(),
                self.spec_configured() == old(self).spec_configured(),
                self.pa().spec_offset() == s0.pa().spec_offset(),
                self.pa().spec_limit() == s0.pa().spec_limit(),
                self.pa().bits().len() == s0.pa().bits().len(),
                idx == s0.pa().index_of(aligned.0),
                s0.pa().tracks(aligned.0),
                idx + amount <= BITMAP_SIZE,
                0 <= roll <= amount,
                forall|k: int| idx <= k < idx + amount ==> !s0.pa().bits()[k],
                forall|k: int|
                    0 <= k < s0.pa().bits().len() ==> self.pa().bits()[k] == (if idx + roll <= k
                        < idx + amount {
                        true
                    } else {
                        s0.pa().bits()[k]
                    }),
            decreases amount - roll,
        {
            proof {
                s0.pa().lemma_track_round_trip(aligned.0);
                s0.pa().lemma_frame_at_tracked(idx + roll);
                assert(s0.pa().frame_at(idx + roll) == aligned.0 + roll * PAGE_SIZE);
                let g = (aligned.0 + roll * PAGE_SIZE) as u64;
                assert(self.pa().tracks(g)) by {
                    assert(s0.pa().tracks(g));
                }
                assert(self.pa().index_of(g) == idx + roll);
                assert(self.pa().bits()[idx + roll]);
            }
            let fr = PhyAddr(aligned.0 + (roll as u64) * 4096);
            self.physical_allocator.free_frame(fr);
            roll = roll + 1;
        }
        proof {
            assert(self.pa().bits() =~= s0.pa().bits());
        }
    }

    /// Map the physical range starting at `addr`: align down to a frame
    /// boundary, reserve one frame more when the address is misaligned,
    /// find a free virtual run of the widened length forward of the
    /// cursor, and map it page for page, present and writable. Hands back
    /// the allocation together with the virtual address corresponding to
    /// `addr` itself. The cursor is left where it was — only ordinary
    /// allocation advances it. If no run is found the reservation is
    /// released in full before failing.
    #[verifier::rlimit(100)]
    #[verifier::spinoff_prover]
    pub fn map_physical(&mut self, addr: PhyAddr, page_amount: usize) -> (r: Option<
        (PageAllocation, VirtAddr),
    >)
        requires
            old(self).wf(),
            old(self).spec_configured(),
            1 <= page_amount,
            page_amount + 1 < usize::MAX,
            count_clear(old(self).pa().bits()) >= 4 * (page_amount + 1),
            old(self).pa().tracks((addr.0 - addr.0 % PAGE_SIZE) as u64),
            old(self).pa().index_of((addr.0 - addr.0 % PAGE_SIZE) as u64) + page_amount + 1
                <= BITMAP_SIZE,
        ensures
            final(self).wf(),
            final(self).spec_configured(),
            final(self).pa().spec_offset() == old(self).pa().spec_offset(),
            final(self).pa().spec_limit() == old(self).pa().spec_limit(),
            final(self).pa().bits().len() == old(self).pa().bits().len(),
            final(self).arena().sroot() == old(self).arena().sroot(),
            ({
                let aligned = (addr.0 - addr.0 % PAGE_SIZE) as u64;
                let off = addr.0 % PAGE_SIZE;
                let amount = page_amount + (if off == 0 {
                    0int
                } else {
                    1int
                });
                let idx = old(self).pa().index_of(aligned);
                match r {
                    None => {
                        &&& final(self).arena() == old(self).arena()
                        &&& final(self).cursor() == old(self).cursor()
                        &&& final(self).pa().bits() =~= old(self).pa().bits()
                        &&& ((exists|k: int|
                            idx <= k < idx + amount && #[trigger] old(self).pa().bits()[k])
                            || old(self).no_run(amount))
                    },
                    Some((a, va)) => {
                        let f = a.first_page.spec_canonical();
                        &&& a.page_amount == amount
                        &&& a.first_page.spec_num() == f
                        &&& va.0 == f * PAGE_SIZE + off
                        &&& old(self).cursor().spec_canonical() <= f
                        &&& f + amount <= MAX_PAGE_CANONICAL_NUM
                        &&& old(self).arena().window_free(f, amount as nat)
                        &&& old(self).no_run_before(f, amount)
                        &&& final(self).cursor() == old(self).cursor()
                        &&& (forall|k: int|
                            idx <= k < idx + amount ==> !(#[trigger] old(self).pa().bits()[k]))
                        &&& (forall|i: int|
                            0 <= i < amount ==> #[trigger] final(self).run_word(f, i) == (
                            aligned + i * PAGE_SIZE) as u64 | (PRESENT_BIT | WRITABLE_BIT))
                        &&& final(self).run_owned(f, amount)
                        &&& (forall|c2: u64|
                            c2 < MAX_PAGE_CANONICAL_NUM && !(f <= c2 < f + amount) ==> final(self).arena().spec_is_present(c2) == old(self).arena().spec_is_present(
                                c2,
                            ))
                    },
                }
            }),
    {
        let ghost s0 = *self;
        let aligned = addr.align_down(4096);
        let align_offset = addr.0 - aligned.0;
        let add_page: usize = if align_offset == 0 {
            0
        } else {
            1
        };
        let amount = page_amount + add_page;
        let ghost idx = s0.pa().index_of(aligned.0);
        let phy_addr = match self.physical_allocator.alloc_phy_addr(aligned, amount) {
            Some(p) => p,
            None => {
                proof {
                    assert(exists|k: int|
                        idx <= k < idx + amount && #[trigger] s0.pa().bits()[k]) by {
                        if forall|k: int| idx <= k < idx + amount ==> !s0.pa().bits()[k] {
                            assert(false);
                        }
                    }
                    assert(self.pa().bits() =~= s0.pa().bits());
                }
                return None;
            },
        };
        let ghost rsv = *self;
        proof {
            assert forall|g: u64|
                #[trigger] rsv.arena().has_frame(g) && rsv.pa().tracks(g) implies rsv.pa().bits()[
                rsv.pa().index_of(g)
            ] by {
                assert(s0.pa().bits()[s0.pa().index_of(g)]);
            }
            assert(rsv.wf());
            s0.pa().lemma_track_round_trip(aligned.0);
            // no reserved frame holds a table: its bit was clear, a live
            // table's bit is set
            assert forall|g: u64|
                aligned.0 <= g < aligned.0 + amount * PAGE_SIZE && g % PAGE_SIZE == 0 implies !(
            #[trigger] rsv.arena().has_frame(g)) by {
                if rsv.arena().has_frame(g) {
                    assert(s0.arena().has_frame(g));
                    assert(s0.pa().tracks(g)) by {
                        assert(aligned.0 + amount * PAGE_SIZE <= s0.pa().spec_offset()
                            + BITMAP_SIZE * PAGE_SIZE) by (nonlinear_arith)
                            requires
                                aligned.0 as int == s0.pa().spec_offset() + idx * 0x1000,
                                idx + amount <= BITMAP_SIZE,
                                PAGE_SIZE == 0x1000,
                                s0.pa().spec_offset() >= 0,
                        ;
                    }
                    assert(s0.pa().bits()[s0.pa().index_of(g)]);
                    let offv = s0.pa().spec_offset() as int;
                    assert(idx <= (g - offv) / 0x1000 < idx + amount) by (nonlinear_arith)
                        requires
                            aligned.0 as int == offv + idx * 0x1000,
                            aligned.0 <= g < aligned.0 + amount * 0x1000,
                            g % 0x1000 == 0,
                            offv % 0x1000 == 0,
                            offv >= 0,
                            idx >= 0,
                    ;
                    assert(s0.pa().index_of(g) == (g - offv) / 0x1000);
                    assert(!s0.pa().bits()[s0.pa().index_of(g)]);
                }
            }
        }
        let free_pages = match self.page_table.find_free_pages(self.last_page_alloc, amount) {
            Some(fp) => fp,
            None => {
                self.release_reserved_range(aligned, amount, Ghost(s0));
                proof {
                    assert forall|g: u64|
                        #[trigger] self.arena().has_frame(g) && self.pa().tracks(g)
                            implies self.pa().bits()[self.pa().index_of(g)] by {
                        assert(s0.arena().has_frame(g));
                        assert(s0.pa().bits()[s0.pa().index_of(g)]);
                    }
                }
                return None;
            },
        };
        let first_page = free_pages.first();
        let ghost f = first_page.spec_canonical();
        proof {
            crate::page::lemma_canonical_is_mod(s0.cursor().spec_num());
            crate::page::lemma_canonical_is_mod(first_page.spec_num());
            assert(s0.cursor().spec_canonical() == s0.cursor().spec_num());
            assert(first_page.spec_num() == f);
        }
        let ghost rsv2 = *self;
        let flags = PageTableEntryFlags::present().union(PageTableEntryFlags::writable());
        proof {
            assert((1u64 | 2u64) == 3u64) by (bit_vector);
            assert(rsv2.run_owned(f, 0));
            assert(BasicPageAllocatorInner::phys_loop_inv(
                rsv2,
                *self,
                f,
                amount as int,
                0,
                aligned.0,
            ));
        }
        let mut i: usize = 0;
        let mut page = first_page;
        while i < amount
            invariant
                BasicPageAllocatorInner::phys_loop_inv(
                    rsv2,
                    *self,
                    f,
                    amount as int,
                    i as int,
                    aligned.0,
                ),
                rsv2.wf(),
                rsv2.spec_configured(),
                rsv2.arena() == s0.arena(),
                s0.wf(),
                1 <= amount,
                amount == page_amount + add_page,
                count_clear(rsv2.pa().bits()) >= 3 * amount,
                f == first_page.spec_canonical(),
                first_page.spec_num() == f,
                f + amount <= MAX_PAGE_CANONICAL_NUM,
                rsv2.arena().window_free(f, amount as nat),
                flags.wf(),
                flags.spec_bits() == PRESENT_BIT | WRITABLE_BIT,
                aligned.0 == (addr.0 - addr.0 % PAGE_SIZE) as u64,
                aligned.0 % PAGE_SIZE == 0,
                idx == s0.pa().index_of(aligned.0),
                s0.pa().tracks(aligned.0),
                rsv2.pa().tracks(aligned.0),
                rsv2.pa().index_of(aligned.0) == idx,
                idx + amount <= BITMAP_SIZE,
                rsv2.pa().spec_offset() == s0.pa().spec_offset(),
                forall|k: int| idx <= k < idx + amount ==> #[trigger] rsv2.pa().bits()[k],
                0 <= i <= amount,
                page.spec_canonical() == f + i || i == amount,
                page.spec_num() == first_page.spec_num() + i || i == amount,
            decreases amount - i,
        {
            proof {
                s0.pa().lemma_track_round_trip(aligned.0);
                s0.pa().lemma_frame_at_tracked(idx + i);
                assert(s0.pa().frame_at(idx + i) == aligned.0 + i * PAGE_SIZE);
                assert(rsv2.pa().tracks((aligned.0 + i * PAGE_SIZE) as u64)) by {
                    assert(s0.pa().tracks((aligned.0 + i * PAGE_SIZE) as u64));
                }
                assert(rsv2.pa().index_of((aligned.0 + i * PAGE_SIZE) as u64) == idx + i);
                assert(rsv2.pa().bits()[idx + i]);
                assert(addr_fits_entry((aligned.0 + i * PAGE_SIZE) as u64));
            }
            let fr = PhyAddr(aligned.0 + (i as u64) * 4096);
            self.map_phys_one(
                page,
                fr,
                flags,
                Ghost(rsv2),
                Ghost(f),
                Ghost(amount as int),
                Ghost(i as int),
                Ghost(aligned.0),
            );
            i = i + 1;
            if i < amount {
                page = match page.next() {
                    Some(p) => p,
                    None => {
                        proof {
                            assert(false);
                        }
                        page
                    },
                };
                proof {
                    crate::page::lemma_canonical_is_mod(page.spec_num());
                    let sn = first_page.spec_num();
                    assert((sn & 0xf_ffff_ffffu64) + i < 0x10_0000_0000u64 ==> ((sn
                        + i) as u64) & 0xf_ffff_ffffu64 == (sn & 0xf_ffff_ffffu64)
                        + i) by (bit_vector);
                }
            }
        }
        proof {
            assert(f < MAX_PAGE_CANONICAL_NUM);
            assert(f * PAGE_SIZE + align_offset <= u64::MAX) by (nonlinear_arith)
                requires
                    f < 0x10_0000_0000u64,
                    align_offset < 0x1000u64,
                    PAGE_SIZE == 0x1000,
            ;
        }
        let va = VirtAddr(first_page.num() * 4096 + align_offset);
        Some((PageAllocation { first_page, page_amount: amount }, va))
    }

    /// Release a run: for each page, free the backing frame and clear the
    /// level-1 entry. The allocator keeps no record of live runs: it
    /// trusts the caller to hand back exactly what it was given.
    pub fn dealloc_pages(&mut self, alloc: &PageAllocation)
        requires
            old(self).wf(),
            old(self).spec_configured(),
            1 <= alloc.page_amount,
            alloc.first_page.spec_canonical() + alloc.page_amount <= MAX_PAGE_CANONICAL_NUM,
            old(self).run_owned(alloc.first_page.spec_canonical(), alloc.page_amount as int),
        ensures
            final(self).wf(),
            final(self).spec_configured(),
            final(self).cursor() == old(self).cursor(),
            final(self).pa().spec_offset() == old(self).pa().spec_offset(),
            final(self).pa().spec_limit() == old(self).pa().spec_limit(),
            final(self).pa().bits().len() == old(self).pa().bits().len(),
            final(self).arena().sframes() == old(self).arena().sframes(),
            final(self).arena().slevels() == old(self).arena().slevels(),
            final(self).arena().sroot() == old(self).arena().sroot(),
            // every page of the run is unmapped
            forall|i: int|
                0 <= i < alloc.page_amount ==> final(self).arena().spec_page_entry(
                    #[trigger] ((alloc.first_page.spec_canonical() + i) as u64),
                ) == Ok::<u64, PageEntryError>(0u64),
            // every other page keeps its exact translation
            forall|c2: u64|
                c2 < MAX_PAGE_CANONICAL_NUM && !(alloc.first_page.spec_canonical() <= c2
                    < alloc.first_page.spec_canonical() + alloc.page_amount) ==> final(self).arena().spec_page_entry(c2) == old(self).arena().spec_page_entry(c2),
            // the backing frames are free again, and nothing else moved
            forall|i: int|
                0 <= i < alloc.page_amount ==> !final(self).pa().bits()[old(self).pa().index_of(
                    spec_entry_addr(
                        #[trigger] old(self).run_word(alloc.first_page.spec_canonical(), i),
                    ),
                )],
            forall|j: int|
                0 <= j < old(self).pa().bits().len() && (forall|i: int|
                    0 <= i < alloc.page_amount ==> j != old(self).pa().index_of(
                        spec_entry_addr(
                            #[trigger] old(self).run_word(alloc.first_page.spec_canonical(), i),
                        ),
                    )) ==> final(self).pa().bits()[j] == old(self).pa().bits()[j],
    {
        let ghost s0 = *self;
        let ghost f = alloc.first_page.spec_canonical();
        let ghost n = alloc.page_amount as int;
        let mut i: usize = 0;
        let mut page = alloc.first_page;
        proof {
            crate::page::lemma_canonical_is_mod(alloc.first_page.spec_num());
        }
        while i < alloc.page_amount
            invariant
                self.wf(),
                self.spec_configured(),
                s0.wf(),
                s0.spec_configured(),
                f == alloc.first_page.spec_canonical(),
                n == alloc.page_amount as int,
                1 <= n,
                f + n <= MAX_PAGE_CANONICAL_NUM,
                s0.run_owned(f, n),
                0 <= i <= n,
                page.spec_canonical() == f + i || i == n,
                page.spec_num() == alloc.first_page.spec_num() + i || i == n,
                self.cursor() == s0.cursor(),
                self.pa().spec_offset() == s0.pa().spec_offset(),
                self.pa().spec_limit() == s0.pa().spec_limit(),
                self.pa().bits().len() == s0.pa().bits().len(),
                self.arena().sframes() == s0.arena().sframes(),
                self.arena().slevels() == s0.arena().slevels(),
                self.arena().sroot() == s0.arena().sroot(),
                forall|k: int|
                    0 <= k < i ==> self.arena().spec_page_entry(#[trigger] ((f + k) as u64))
                        == Ok::<u64, PageEntryError>(0u64),
                forall|c2: u64|
                    c2 < MAX_PAGE_CANONICAL_NUM && !(f <= c2 < f + i) ==> self.arena(
                    ).spec_page_entry(c2) == s0.arena().spec_page_entry(c2),
                forall|k: int|
                    0 <= k < i ==> !self.pa().bits()[
                        s0.pa().index_of(
                            spec_entry_addr(#[trigger] s0.run_word(f, k)),
                        )
                    ],
                forall|j: int|
                    0 <= j < s0.pa().bits().len() && (forall|k: int|
                        0 <= k < i ==> j != s0.pa().index_of(
                            spec_entry_addr(#[trigger] s0.run_word(f, k)),
                        )) ==> self.pa().bits()[j]
                        == s0.pa().bits()[j],
            decreases n - i,
        {
            let ghost c = (f + i) as u64;
            proof {
                assert(self.arena().spec_page_entry(c) == s0.arena().spec_page_entry(c));
                assert(s0.arena().chain_present(c));
                assert(self.arena().chain_present(c));
            }
            let entry = self.page_table.clear_page_entry(page);
            proof {
                assert(entry.word() == s0.run_word(f, i as int));
                let a = spec_entry_addr(entry.word());
                assert(s0.pa().tracks(a));
                assert(self.pa().tracks(a)) by {
                    assert(self.pa().spec_offset()
                        == s0.pa().spec_offset());
                }
                // its bit is still set: only bits of earlier, distinct
                // frames have been cleared
                assert(self.pa().bits()[self.pa().index_of(a)]) by {
                    assert(s0.pa().bits()[s0.pa().index_of(a)]);
                    s0.pa().lemma_track_round_trip(a);
                    assert forall|k: int| 0 <= k < i implies s0.pa().index_of(a)
                        != s0.pa().index_of(
                        spec_entry_addr(s0.run_word(f, k)),
                    ) by {
                        let ak = spec_entry_addr(s0.run_word(f, k));
                        assert(ak != a);
                        s0.pa().lemma_track_round_trip(ak);
                    }
                }
            }
            let ghost pa_before = self.physical_allocator;
            self.physical_allocator.free_frame(entry.addr());
            proof {
                let a = spec_entry_addr(entry.word());
                assert(a == spec_entry_addr(s0.run_word(f, i as int)));
                assert(!s0.arena().has_frame(a));
                // coupling survives: the freed frame holds no table
                assert forall|g: u64|
                    #[trigger] self.arena().has_frame(g) && self.pa().tracks(g)
                        implies self.pa().bits()[self.pa().index_of(g)] by {
                    assert(self.arena().sframes() =~= s0.arena().sframes());
                    assert(s0.arena().has_frame(g));
                    assert(!s0.arena().has_frame(a));
                    assert(g != a);
                    assert(pa_before.bits()[pa_before.index_of(g)]);
                    pa_before.lemma_track_round_trip(g);
                    pa_before.lemma_track_round_trip(a);
                }
            }
            i = i + 1;
            if i < alloc.page_amount {
                page = match page.next() {
                    Some(p) => p,
                    None => {
                        proof {
                            assert(false);
                        }
                        page
                    },
                };
                proof {
                    crate::page::lemma_canonical_is_mod(page.spec_num());
                    let pn = (alloc.first_page.spec_num() + i) as u64;
                    assert(page.spec_num() == pn);
                    let sn = alloc.first_page.spec_num();
                    assert((sn & 0xf_ffff_ffffu64) + i < 0x10_0000_0000u64 ==> ((sn
                        + i) as u64) & 0xf_ffff_ffffu64 == (sn & 0xf_ffff_ffffu64)
                        + i) by (bit_vector);
                }
            }
        }
    }
}

} // verus!

verus! {

/// Allocate-then-deallocate idempotence: when `alloc_pages` finds a run
/// whose table chains all exist already — so it creates no intermediate
/// tables — and `dealloc_pages` then releases exactly that run, the
/// physical bitmap is restored bit for bit and every page of the address
/// space translates exactly as it did before the pair of calls.
///
/// The hypotheses are the contracts of the two calls: what `alloc_pages`
/// ensures of `mid` given `pre`, and what `dealloc_pages` ensures of
/// `post` given `mid`.
pub proof fn lemma_alloc_dealloc_round_trip(
    pre: BasicPageAllocatorInner,
    mid: BasicPageAllocatorInner,
    post: BasicPageAllocatorInner,
    f: u64,
    n: int,
)
    requires
        pre.wf(),
        1 <= n,
        count_clear(pre.pa().bits()) >= n,
        f + n <= MAX_PAGE_CANONICAL_NUM,
        pre.arena().window_free(f, n as nat),
        forall|i: int| 0 <= i < n ==> pre.arena().chain_present(#[trigger] ((f + i) as u64)),
        // what alloc_pages ensures when every chain already exists
        mid.pa().spec_offset() == pre.pa().spec_offset(),
        mid.pa().bits().len() == pre.pa().bits().len(),
        mid.pa().bits() == mark_n(pre.pa().bits(), n as nat),
        forall|i: int|
            0 <= i < n ==> spec_entry_addr(#[trigger] mid.run_word(f, i)) == pre.pa().frame_at(
                clear_at(pre.pa().bits(), i as nat),
            ),
        forall|c2: u64|
            c2 < MAX_PAGE_CANONICAL_NUM && !(f <= c2 < f + n) ==> mid.arena().spec_page_entry(
                c2,
            ) == pre.arena().spec_page_entry(c2),
        // what dealloc_pages ensures for that run
        post.pa().bits().len() == mid.pa().bits().len(),
        forall|i: int|
            0 <= i < n ==> post.arena().spec_page_entry(#[trigger] ((f + i) as u64)) == Ok::<
                u64,
                PageEntryError,
            >(0u64),
        forall|c2: u64|
            c2 < MAX_PAGE_CANONICAL_NUM && !(f <= c2 < f + n) ==> post.arena().spec_page_entry(
                c2,
            ) == mid.arena().spec_page_entry(c2),
        forall|i: int|
            0 <= i < n ==> !post.pa().bits()[mid.pa().index_of(
                spec_entry_addr(#[trigger] mid.run_word(f, i)),
            )],
        forall|j: int|
            0 <= j < mid.pa().bits().len() && (forall|i: int|
                0 <= i < n ==> j != mid.pa().index_of(
                    spec_entry_addr(#[trigger] mid.run_word(f, i)),
                )) ==> post.pa().bits()[j] == mid.pa().bits()[j],
    ensures
        post.pa().bits() =~= pre.pa().bits(),
        forall|c2: u64|
            c2 < MAX_PAGE_CANONICAL_NUM ==> post.arena().spec_is_present(c2) == pre.arena(
            ).spec_is_present(c2),
{
    lemma_mark_n_props(pre.pa().bits(), n as nat);
    assert(!spec_entry_present(0u64)) by {
        assert(0u64 & 1u64 != 1u64) by (bit_vector);
    }
    // the cleared bit of run page `i` is exactly the `i`-th first-fit pick
    assert forall|i: int| 0 <= i < n implies mid.pa().index_of(
        spec_entry_addr(#[trigger] mid.run_word(f, i)),
    ) == clear_at(pre.pa().bits(), i as nat) by {
        pre.pa().lemma_frame_at_tracked(clear_at(pre.pa().bits(), i as nat));
    }
    assert forall|j: int| 0 <= j < pre.pa().bits().len() implies post.pa().bits()[j]
        == pre.pa().bits()[j] by {
        if exists|i: nat| i < n && j == #[trigger] clear_at(pre.pa().bits(), i) {
            let i = choose|i: nat| i < n && j == #[trigger] clear_at(pre.pa().bits(), i);
            assert(mid.pa().index_of(spec_entry_addr(mid.run_word(f, i as int))) == j);
            assert(!post.pa().bits()[j]);
            assert(!pre.pa().bits()[j]);
        } else {
            assert forall|i: int|
                0 <= i < n implies j != mid.pa().index_of(
                spec_entry_addr(#[trigger] mid.run_word(f, i)),
            ) by {
                if j == clear_at(pre.pa().bits(), i as nat) {
                    assert(exists|i2: nat|
                        i2 < n && j == #[trigger] clear_at(pre.pa().bits(), i2));
                }
            }
            assert(post.pa().bits()[j] == mid.pa().bits()[j]);
            assert(mid.pa().bits()[j] == pre.pa().bits()[j]);
        }
    }
    assert forall|c2: u64|
        c2 < MAX_PAGE_CANONICAL_NUM implies post.arena().spec_is_present(c2) == pre.arena(
    ).spec_is_present(c2) by {
        if f <= c2 < f + n {
            assert(post.arena().spec_page_entry(c2) == Ok::<u64, PageEntryError>(0u64)) by {
                let i = c2 - f;
                assert(post.arena().spec_page_entry((f + i) as u64) == Ok::<
                    u64,
                    PageEntryError,
                >(0u64));
            }
            assert(!post.arena().spec_is_present(c2));
            assert(!pre.arena().spec_is_present(c2)) by {
                assert(f <= c2 < f + n);
            }
        }
    }
}

} // verus!
