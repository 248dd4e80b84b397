//! The four-level page table, modelled as an arena of tables keyed by the
//! physical frame each lives in.
//!
//! Hardware reaches a child table through the physical address packed into
//! a parent entry; the arena mirrors that: every table is filed under its
//! frame base, and a walk resolves an entry's address to the next table by
//! looking that frame up. Well-formedness pins down what the hardware
//! layout guarantees: frames are distinct, a followed entry of a level-4,
//! level-3 or non-huge level-2 table leads to a table of the level below,
//! and no two followed entries share a target.
use crate::addr::PhyAddr;
use crate::entry::{
    spec_entry_addr, spec_entry_flags, spec_entry_huge, spec_entry_present, addr_fits_entry,
    PageTableEntry,
};
use crate::flags::{PageTableEntryFlags, HUGE_PAGE_BIT, PRESENT_BIT};
use crate::physical::{
    clear_at, count_clear, first_clear, lemma_count_clear_pos, lemma_count_clear_update,
    lemma_first_clear_from, lemma_mark_chain, mark_n, mark_one, BasicPhysicalAllocator,
};
use crate::page::{
    spec_level1_idx, spec_level2_idx, spec_level3_idx, spec_level4_idx, Page, PageIter,
    MAX_PAGE_CANONICAL_NUM,
};
use vstd::prelude::*;

verus! {

/// Why a read-only walk stopped before reaching a level-1 entry.
#[derive(Clone, Copy, PartialEq, Eq, Structural, Debug)]
pub enum PageEntryError {
    /// An entry of the level-2 table maps a huge page, ending the walk.
    HugePage,
    /// The chain broke at this level: its entry was not present.
    PageTableLevelIsNotPresent { level: usize },
}

/// One table of 512 entries, the shape shared by all four levels.
pub struct PageTable {
    entries: Vec<PageTableEntry>,
}

impl PageTable {
    /// The 512 entry words of the table.
    pub closed spec fn words(self) -> Seq<u64> {
        self.entries@.map_values(|e: PageTableEntry| e.word())
    }

    pub open spec fn wf(self) -> bool {
        self.words().len() == 512
    }

    /// A table of 512 cleared entries.
    pub fn new() -> (r: PageTable)
        ensures
            r.wf(),
            forall|k: int| 0 <= k < 512 ==> r.words()[k] == 0,
    {
        let mut entries: Vec<PageTableEntry> = Vec::new();
        let mut i: usize = 0;
        while i < 512
            invariant
                i <= 512,
                entries@.len() == i,
                forall|k: int| 0 <= k < i ==> entries@[k].word() == 0,
            decreases 512 - i,
        {
            entries.push(PageTableEntry::new());
            i = i + 1;
        }
        PageTable { entries }
    }

    /// Read the entry at one slot.
    pub fn entry_at(&self, idx: usize) -> (r: PageTableEntry)
        requires
            self.wf(),
            idx < 512,
        ensures
            r.word() == self.words()[idx as int],
    {
        self.entries[idx]
    }

    /// Zero every entry of the table.
    pub fn clear_all_entries(&mut self)
        requires
            old(self).wf(),
        ensures
            final(self).wf(),
            forall|k: int| 0 <= k < 512 ==> final(self).words()[k] == 0,
    {
        let mut i: usize = 0;
        while i < 512
            invariant
                self.wf(),
                i <= 512,
                forall|k: int| 0 <= k < i ==> self.words()[k] == 0,
            decreases 512 - i,
        {
            let ghost prev = *self;
            self.entries[i] = PageTableEntry::new();
            proof {
                assert forall|k: int| 0 <= k < i + 1 implies self.words()[k] == 0 by {
                    assert(self.words()[k] == self.entries@[k].word());
                    if k < i {
                        assert(prev.words()[k] == 0);
                        assert(prev.words()[k] == prev.entries@[k].word());
                    }
                }
            }
            i = i + 1;
        }
    }
}

/// Whether a walk follows the entry word `w` of a level-`level` table down
/// to a child table.
pub open spec fn followed(level: int, w: u64) -> bool {
    if level == 4 || level == 3 {
        spec_entry_present(w)
    } else if level == 2 {
        spec_entry_present(w) && !spec_entry_huge(w)
    } else {
        false
    }
}

/// Coupling between the arena and the frame allocator: every frame that
/// holds a table and lies inside the tracked region is marked used, so a
/// frame the allocator hands out can never collide with a live table.
pub open spec fn frames_marked(a: PageTableArena, pa: BasicPhysicalAllocator) -> bool {
    forall|f: u64|
        #[trigger] a.has_frame(f) && pa.tracks(f) ==> pa.bits()[pa.index_of(f)]
}

/// The arena of page tables: each table filed under the physical frame it
/// occupies, with the root table's frame singled out.
pub struct PageTableArena {
    frames: Vec<u64>,
    tables: Vec<PageTable>,
    levels: Vec<u8>,
    root: u64,
}

impl PageTableArena {
    pub closed spec fn sframes(self) -> Seq<u64> {
        self.frames@
    }

    pub closed spec fn slevels(self) -> Seq<u8> {
        self.levels@
    }

    /// The entry words of table number `i`.
    pub closed spec fn words_of(self, i: int) -> Seq<u64> {
        self.tables@[i].words()
    }

    pub closed spec fn num_tables(self) -> int {
        self.tables@.len() as int
    }

    /// Frame of the level-4 table where every walk starts.
    pub closed spec fn sroot(self) -> u64 {
        self.root
    }

    pub open spec fn has_frame(self, f: u64) -> bool {
        self.sframes().contains(f)
    }

    /// The arena index of the table living in frame `f`.
    pub open spec fn idx(self, f: u64) -> int {
        self.sframes().index_of(f)
    }

    /// The entry words of the table living in frame `f`.
    pub open spec fn tbl(self, f: u64) -> Seq<u64> {
        self.words_of(self.idx(f))
    }

    /// The level of the table living in frame `f`.
    pub open spec fn lvl(self, f: u64) -> int {
        self.slevels()[self.idx(f)] as int
    }

    pub open spec fn wf(self) -> bool {
        &&& self.sframes().len() == self.num_tables()
        &&& self.slevels().len() == self.num_tables()
        &&& (forall|i: int, j: int|
            0 <= i < j < self.num_tables() ==> self.sframes()[i] != self.sframes()[j])
        &&& (forall|i: int|
            0 <= i < self.num_tables() ==> (#[trigger] self.words_of(i)).len() == 512)
        &&& (forall|i: int|
            0 <= i < self.num_tables() ==> 1 <= (#[trigger] self.slevels()[i]) <= 4)
        &&& (forall|i: int|
            0 <= i < self.num_tables() ==> addr_fits_entry(#[trigger] self.sframes()[i]))
        &&& self.has_frame(self.sroot())
        &&& self.lvl(self.sroot()) == 4
        &&& (forall|i: int, k: int|
            0 <= i < self.num_tables() && 0 <= k < 512 && self.slevels()[i] >= 2 && followed(
                self.slevels()[i] as int,
                #[trigger] self.words_of(i)[k],
            ) ==> self.has_frame(spec_entry_addr(self.words_of(i)[k])) && self.lvl(
                spec_entry_addr(self.words_of(i)[k]),
            ) == self.slevels()[i] - 1)
        &&& (forall|i: int, k: int|
            0 <= i < self.num_tables() && 0 <= k < 512 && self.slevels()[i] >= 2 && followed(
                self.slevels()[i] as int,
                #[trigger] self.words_of(i)[k],
            ) ==> spec_entry_addr(self.words_of(i)[k]) != self.sroot())
        &&& (forall|i: int, k: int, i2: int, k2: int|
            0 <= i < self.num_tables() && 0 <= k < 512 && self.slevels()[i] >= 2 && 0 <= i2
                < self.num_tables() && 0 <= k2 < 512 && self.slevels()[i2] >= 2 && followed(
                self.slevels()[i] as int,
                #[trigger] self.words_of(i)[k],
            ) && followed(self.slevels()[i2] as int, #[trigger] self.words_of(i2)[k2])
                && spec_entry_addr(self.words_of(i)[k]) == spec_entry_addr(self.words_of(i2)[k2])
                ==> i == i2 && k == k2)
    }

    /// The level-1 entry word the walk reaches for canonical page number
    /// `c`, or the condition that stopped it.
    pub open spec fn spec_page_entry(self, c: u64) -> Result<u64, PageEntryError> {
        let w4 = self.tbl(self.sroot())[spec_level4_idx(c)];
        if !spec_entry_present(w4) {
            Err(PageEntryError::PageTableLevelIsNotPresent { level: 4 })
        } else {
            let w3 = self.tbl(spec_entry_addr(w4))[spec_level3_idx(c)];
            if !spec_entry_present(w3) {
                Err(PageEntryError::PageTableLevelIsNotPresent { level: 3 })
            } else {
                let w2 = self.tbl(spec_entry_addr(w3))[spec_level2_idx(c)];
                if spec_entry_huge(w2) {
                    Err(PageEntryError::HugePage)
                } else if !spec_entry_present(w2) {
                    Err(PageEntryError::PageTableLevelIsNotPresent { level: 2 })
                } else {
                    Ok(self.tbl(spec_entry_addr(w2))[spec_level1_idx(c)])
                }
            }
        }
    }

    /// The entry words met along the walk for `c`, level by level.
    pub open spec fn w4_of(self, c: u64) -> u64 {
        self.tbl(self.sroot())[spec_level4_idx(c)]
    }

    pub open spec fn w3_of(self, c: u64) -> u64 {
        self.tbl(spec_entry_addr(self.w4_of(c)))[spec_level3_idx(c)]
    }

    pub open spec fn w2_of(self, c: u64) -> u64 {
        self.tbl(spec_entry_addr(self.w3_of(c)))[spec_level2_idx(c)]
    }

    /// The walk for `c` reaches a level-1 table.
    pub open spec fn chain_present(self, c: u64) -> bool {
        &&& spec_entry_present(self.w4_of(c))
        &&& spec_entry_present(self.w3_of(c))
        &&& !spec_entry_huge(self.w2_of(c))
        &&& spec_entry_present(self.w2_of(c))
    }

    /// Frame of the level-1 table on the walk for `c`.
    pub open spec fn l1_frame(self, c: u64) -> u64 {
        spec_entry_addr(self.w2_of(c))
    }

    /// The walk for `c` lacks its level-3 table — its top-level entry is
    /// absent — and likewise one level further down each time.
    pub open spec fn missing_l3_table(self, c: u64) -> bool {
        !spec_entry_present(self.w4_of(c))
    }

    pub open spec fn missing_l2_table(self, c: u64) -> bool {
        self.missing_l3_table(c) || !spec_entry_present(self.w3_of(c))
    }

    pub open spec fn missing_l1_table(self, c: u64) -> bool {
        self.missing_l2_table(c) || !spec_entry_present(self.w2_of(c))
    }

    /// How many tables a mapping of `c` must create: one per missing
    /// level.
    pub open spec fn tables_created(self, c: u64) -> nat {
        ((if self.missing_l3_table(c) {
            1int
        } else {
            0int
        }) + (if self.missing_l2_table(c) {
            1int
        } else {
            0int
        }) + (if self.missing_l1_table(c) {
            1int
        } else {
            0int
        })) as nat
    }

    /// Whether canonical page number `c` translates: a reached level-1
    /// entry must be present, a huge mapping counts as present, a broken
    /// chain does not.
    pub open spec fn spec_is_present(self, c: u64) -> bool {
        match self.spec_page_entry(c) {
            Ok(w) => spec_entry_present(w),
            Err(PageEntryError::HugePage) => true,
            Err(PageEntryError::PageTableLevelIsNotPresent { .. }) => false,
        }
    }

    /// All `n` pages from canonical number `f` on are absent.
    pub open spec fn window_free(self, f: u64, n: nat) -> bool {
        forall|p: u64| f <= p < f + n ==> !(#[trigger] self.spec_is_present(p))
    }

    /// A fresh arena holding only an empty root table in frame
    /// `root_frame`: nothing is mapped.
    pub fn new(root_frame: u64) -> (r: PageTableArena)
        requires
            addr_fits_entry(root_frame),
        ensures
            r.wf(),
            r.sroot() == root_frame,
            r.sframes() =~= seq![root_frame],
            forall|c: u64|
                c < MAX_PAGE_CANONICAL_NUM ==> !(#[trigger] r.spec_is_present(c)),
    {
        let mut frames: Vec<u64> = Vec::new();
        frames.push(root_frame);
        let mut tables: Vec<PageTable> = Vec::new();
        tables.push(PageTable::new());
        let mut levels: Vec<u8> = Vec::new();
        levels.push(4);
        let r = PageTableArena { frames, tables, levels, root: root_frame };
        proof {
            assert(r.sframes().len() == 1);
            assert(r.sframes()[0] == root_frame);
            assert(r.has_frame(root_frame));
            assert(exists|k: int|
                0 <= k < r.sframes().len() && r.sframes()[k] == root_frame);
            assert(r.sframes()[r.idx(root_frame)] == root_frame);
            assert(r.idx(root_frame) == 0);
            assert(0u64 & 1u64 != 1u64) by (bit_vector);
            assert(!spec_entry_present(0u64));
            assert forall|i: int, k: int|
                0 <= i < r.num_tables() && 0 <= k < 512 implies !followed(
                r.slevels()[i] as int,
                #[trigger] r.words_of(i)[k],
            ) by {
                assert(i == 0);
                assert(r.words_of(0)[k] == 0);
            }
            assert(r.wf());
            assert forall|c: u64|
                c < MAX_PAGE_CANONICAL_NUM implies !(#[trigger] r.spec_is_present(c)) by {
                crate::page::lemma_level_decomposition(c);
                assert(r.tbl(r.sroot())[spec_level4_idx(c)] == 0);
            }
        }
        r
    }

    /// Find the arena index of the table living in frame `frame`.
    fn table_index(&self, frame: u64) -> (r: Option<usize>)
        requires
            self.wf(),
        ensures
            match r {
                Some(i) => self.has_frame(frame) && self.idx(frame) == i && i
                    < self.num_tables() && self.sframes()[i as int] == frame,
                None => !self.has_frame(frame),
            },
    {
        let n = self.frames.len();
        let mut i: usize = 0;
        while i < n
            invariant
                self.wf(),
                n == self.sframes().len(),
                i <= n,
                forall|k: int| 0 <= k < i ==> self.sframes()[k] != frame,
            decreases n - i,
        {
            if self.frames[i] == frame {
                proof {
                    assert(self.sframes()[i as int] == frame);
                    assert(self.has_frame(frame));
                    let j = self.idx(frame);
                    assert(self.sframes()[j] == frame);
                    if j != i as int {
                        assert(false);
                    }
                }
                return Some(i);
            }
            i = i + 1;
        }
        proof {
            if self.has_frame(frame) {
                let j = choose|j: int| 0 <= j < self.sframes().len() && self.sframes()[j] == frame;
                assert(self.sframes()[j] == frame);
                assert(false);
            }
        }
        None
    }

    /// Overwrite one slot of table number `ti`, touching nothing else.
    fn write_entry(&mut self, ti: usize, k: usize, e: PageTableEntry)
        requires
            0 <= ti < old(self).num_tables(),
            k < 512,
            old(self).words_of(ti as int).len() == 512,
        ensures
            final(self).sframes() == old(self).sframes(),
            final(self).slevels() == old(self).slevels(),
            final(self).sroot() == old(self).sroot(),
            final(self).num_tables() == old(self).num_tables(),
            forall|j: int|
                0 <= j < old(self).num_tables() && j != ti ==> final(self).words_of(j) == old(self).words_of(j),
            final(self).words_of(ti as int) == old(self).words_of(ti as int).update(
                k as int,
                e.word(),
            ),
    {
        let ghost prev = *self;
        let tr = &mut self.tables[ti];
        tr.entries[k] = e;
        proof {
            assert forall|j: int|
                0 <= j < prev.num_tables() && j != ti implies self.words_of(j) == prev.words_of(
                j,
            ) by {
                assert(self.tables@[j] == prev.tables@[j]);
            }
            assert(self.words_of(ti as int) =~= prev.words_of(ti as int).update(
                k as int,
                e.word(),
            ));
        }
    }

    /// File a fresh table under `frame` at the given level.
    fn push_table(&mut self, frame: u64, level: u8, t: PageTable)
        requires
            t.wf(),
        ensures
            final(self).sframes() == old(self).sframes().push(frame),
            final(self).slevels() == old(self).slevels().push(level),
            final(self).sroot() == old(self).sroot(),
            final(self).num_tables() == old(self).num_tables() + 1,
            forall|j: int|
                0 <= j < old(self).num_tables() ==> final(self).words_of(j) == old(self).words_of(j),
            final(self).words_of(old(self).num_tables()) == t.words(),
    {
        let ghost prev = *self;
        self.frames.push(frame);
        self.tables.push(t);
        self.levels.push(level);
        proof {
            assert forall|j: int|
                0 <= j < prev.num_tables() implies self.words_of(j) == prev.words_of(j) by {
                assert(self.tables@[j] == prev.tables@[j]);
            }
            assert(self.words_of(prev.num_tables()) == t.words());
        }
    }

    /// Walk one level down from slot `slot` of table `ti`, creating the
    /// child table when the entry is absent: the lazy walk-or-create step
    /// shared by the three upper levels. A created child is installed with
    /// the same flags as requested for the final leaf mapping.
    fn ensure_child(
        &mut self,
        ti: usize,
        slot: usize,
        flags: PageTableEntryFlags,
        phy_mem_alloc: &mut BasicPhysicalAllocator,
    ) -> (ci: usize)
        requires
            old(self).wf(),
            old(phy_mem_alloc).wf(),
            frames_marked(*old(self), *old(phy_mem_alloc)),
            count_clear(old(phy_mem_alloc).bits()) >= 1,
            0 <= ti < old(self).num_tables(),
            slot < 512,
            2 <= old(self).slevels()[ti as int] <= 4,
            old(self).slevels()[ti as int] == 2 ==> !spec_entry_huge(
                old(self).words_of(ti as int)[slot as int],
            ),
            flags.wf(),
            flags.spec_bits() & PRESENT_BIT == PRESENT_BIT,
            flags.spec_bits() & HUGE_PAGE_BIT == 0,
        ensures
            final(self).wf(),
            final(phy_mem_alloc).wf(),
            frames_marked(*final(self), *final(phy_mem_alloc)),
            final(phy_mem_alloc).spec_offset() == old(phy_mem_alloc).spec_offset(),
            final(phy_mem_alloc).spec_limit() == old(phy_mem_alloc).spec_limit(),
            final(self).sroot() == old(self).sroot(),
            // the child the walk continues into
            ci < final(self).num_tables(),
            final(self).slevels()[ci as int] == old(self).slevels()[ti as int] - 1,
            final(self).words_of(ti as int)[slot as int] == (if spec_entry_present(
                old(self).words_of(ti as int)[slot as int],
            ) {
                old(self).words_of(ti as int)[slot as int]
            } else {
                final(self).sframes()[ci as int] | flags.spec_bits()
            }),
            spec_entry_addr(final(self).words_of(ti as int)[slot as int]) == final(self).sframes()[ci as int],
            spec_entry_present(final(self).words_of(ti as int)[slot as int]),
            // what changed, by case
            if spec_entry_present(old(self).words_of(ti as int)[slot as int]) {
                &&& *final(self) == *old(self)
                &&& *final(phy_mem_alloc) == *old(phy_mem_alloc)
            } else {
                &&& install_step(
                    *old(self),
                    *final(self),
                    ti as int,
                    slot as int,
                    final(self).sframes()[ci as int],
                )
                &&& ci == old(self).num_tables()
                &&& final(self).sframes()[ci as int] == old(phy_mem_alloc).frame_at(
                    first_clear(old(phy_mem_alloc).bits())->Some_0,
                )
                &&& final(phy_mem_alloc).bits() == mark_one(old(phy_mem_alloc).bits())
                &&& final(phy_mem_alloc).bits() == old(phy_mem_alloc).bits().update(
                    old(phy_mem_alloc).index_of(final(self).sframes()[ci as int]),
                    true,
                )
                &&& old(phy_mem_alloc).tracks(final(self).sframes()[ci as int])
                &&& !old(phy_mem_alloc).bits()[old(phy_mem_alloc).index_of(
                    final(self).sframes()[ci as int],
                )]
                &&& count_clear(final(phy_mem_alloc).bits()) == count_clear(
                    old(phy_mem_alloc).bits(),
                ) - 1
            },
            // index stability for frames already filed
            forall|g: u64|
                old(self).has_frame(g) ==> final(self).has_frame(g) && final(self).idx(g) == old(self).idx(g) && final(self).lvl(g) == old(self).lvl(g),
            // every translation is preserved: a created child is empty
            forall|c2: u64|
                c2 < MAX_PAGE_CANONICAL_NUM ==> final(self).spec_is_present(c2) == old(self).spec_is_present(c2),
            forall|c2: u64|
                c2 < MAX_PAGE_CANONICAL_NUM && old(self).spec_page_entry(c2) is Ok ==> final(self).spec_page_entry(c2) == old(self).spec_page_entry(c2),
            forall|c2: u64|
                c2 < MAX_PAGE_CANONICAL_NUM && old(self).spec_page_entry(c2) == Err::<
                    u64,
                    PageEntryError,
                >(PageEntryError::HugePage) ==> final(self).spec_page_entry(c2) == old(self).spec_page_entry(c2),
    {
        proof {
            assert(self.words_of(ti as int).len() == 512);
        }
        let e = self.tables[ti].entry_at(slot);
        if e.present() {
            proof {
                let lv = self.slevels()[ti as int] as int;
                assert(followed(lv, self.words_of(ti as int)[slot as int]));
                let g = spec_entry_addr(self.words_of(ti as int)[slot as int]);
                assert(self.has_frame(g) && self.lvl(g) == lv - 1);
            }
            let ci = match self.table_index(e.addr().0) {
                Some(i) => i,
                None => {
                    proof {
                        assert(followed(
                            self.slevels()[ti as int] as int,
                            self.words_of(ti as int)[slot as int],
                        ));
                        assert(false);
                    }
                    0
                },
            };
            ci
        } else {
            let frame = phy_mem_alloc.allocate_frame();
            proof {
                lemma_count_clear_pos(old(phy_mem_alloc).bits(), 0);
                let fc = first_clear(old(phy_mem_alloc).bits())->Some_0;
                lemma_first_clear_from(old(phy_mem_alloc).bits(), 0);
                lemma_count_clear_update(old(phy_mem_alloc).bits(), 0, fc, true);
                // the frame is fresh: a filed frame the bitmap tracks is marked
                if old(self).has_frame(frame.0) {
                    assert(old(phy_mem_alloc).bits()[old(phy_mem_alloc).index_of(frame.0)]);
                    old(phy_mem_alloc).lemma_track_round_trip(frame.0);
                    assert(false);
                }
            }
            let t = PageTable::new();
            let ghost a = *self;
            let ci = self.frames.len();
            self.push_table(frame.0, (self.levels[ti]) - 1, t);
            let mut ne = PageTableEntry::new();
            ne.set_addr(frame, flags);
            proof {
                crate::entry::lemma_entry_pack(frame.0, flags.spec_bits());
                let fv = frame.0;
                let fb = flags.spec_bits();
                assert((fv % 0x1000u64 == 0 && fb & 1u64 == 1u64) ==> (fv | fb) & 1u64
                    == 1u64) by (bit_vector);
                assert((fv % 0x1000u64 == 0 && fb & 128u64 == 0u64) ==> !((fv | fb) & 128u64
                    == 128u64)) by (bit_vector);
                assert(spec_entry_present(ne.word()));
                assert(!spec_entry_huge(ne.word()));
            }
            self.write_entry(ti, slot, ne);
            proof {
                let b = *self;
                assert(b.words_of(ti as int) == a.words_of(ti as int).update(
                    slot as int,
                    b.words_of(ti as int)[slot as int],
                ));
                assert(install_step(a, b, ti as int, slot as int, frame.0));
                lemma_arena_extend_wf(a, b, ti as int, slot as int, frame.0);
                assert forall|c2: u64|
                    c2 < MAX_PAGE_CANONICAL_NUM implies {
                    &&& b.spec_is_present(c2) == a.spec_is_present(c2)
                    &&& (a.spec_page_entry(c2) is Ok ==> b.spec_page_entry(c2)
                        == a.spec_page_entry(c2))
                    &&& (a.spec_page_entry(c2) == Err::<u64, PageEntryError>(
                        PageEntryError::HugePage,
                    ) ==> b.spec_page_entry(c2) == a.spec_page_entry(c2))
                } by {
                    lemma_install_preserves(a, b, ti as int, slot as int, frame.0, c2);
                }
            }
            ci
        }
    }

    /// Map `page` to `phy_addr` with `flags`, creating any missing
    /// intermediate table with one freshly allocated, zeroed frame and the
    /// same flags. The level-1 entry is written unconditionally: whether
    /// the page was already mapped is the caller's business. Every other
    /// page keeps its translation.
    #[verifier::rlimit(100)]
    #[verifier::spinoff_prover]
    pub fn map_page_unchecked(
        &mut self,
        page: Page,
        phy_addr: PhyAddr,
        flags: PageTableEntryFlags,
        phy_mem_alloc: &mut BasicPhysicalAllocator,
    )
        requires
            old(self).wf(),
            old(phy_mem_alloc).wf(),
            frames_marked(*old(self), *old(phy_mem_alloc)),
            count_clear(old(phy_mem_alloc).bits()) >= 3,
            addr_fits_entry(phy_addr.0),
            flags.wf(),
            flags.spec_bits() & PRESENT_BIT == PRESENT_BIT,
            flags.spec_bits() & HUGE_PAGE_BIT == 0,
            old(self).spec_page_entry(page.spec_canonical()) != Err::<u64, PageEntryError>(
                PageEntryError::HugePage,
            ),
        ensures
            final(self).wf(),
            final(phy_mem_alloc).wf(),
            frames_marked(*final(self), *final(phy_mem_alloc)),
            final(phy_mem_alloc).spec_offset() == old(phy_mem_alloc).spec_offset(),
            final(phy_mem_alloc).spec_limit() == old(phy_mem_alloc).spec_limit(),
            final(phy_mem_alloc).bits().len() == old(phy_mem_alloc).bits().len(),
            final(self).sroot() == old(self).sroot(),
            // the page now translates to exactly the requested entry
            final(self).spec_page_entry(page.spec_canonical()) == Ok::<u64, PageEntryError>(
                phy_addr.0 | flags.spec_bits(),
            ),
            // no other page's translation moves
            forall|c2: u64|
                c2 < MAX_PAGE_CANONICAL_NUM && c2 != page.spec_canonical() ==> final(self).spec_is_present(c2) == old(self).spec_is_present(c2),
            forall|c2: u64|
                c2 < MAX_PAGE_CANONICAL_NUM && c2 != page.spec_canonical() && old(self).spec_page_entry(c2) is Ok ==> final(self).spec_page_entry(c2) == old(self).spec_page_entry(c2),
            // the bitmap only gains marks, at most three of them
            forall|j: int|
                0 <= j < old(phy_mem_alloc).bits().len() && old(phy_mem_alloc).bits()[j]
                    ==> final(phy_mem_alloc).bits()[j],
            count_clear(final(phy_mem_alloc).bits()) >= count_clear(
                old(phy_mem_alloc).bits(),
            ) - 3,
            forall|g: u64| old(self).has_frame(g) ==> #[trigger] final(self).has_frame(g),
            // any table the call created sits in a frame that was free
            forall|g: u64|
                #[trigger] final(self).has_frame(g) && !old(self).has_frame(g) ==> old(
                    phy_mem_alloc,
                ).tracks(g) && !old(phy_mem_alloc).bits()[old(phy_mem_alloc).index_of(g)],
            // each missing level consumes exactly one frame, the first-fit
            // picks in walk order, and nothing else is taken
            final(phy_mem_alloc).bits() == mark_n(
                old(phy_mem_alloc).bits(),
                old(self).tables_created(page.spec_canonical()),
            ),
            // a present intermediate entry is left untouched; a created one
            // carries the leaf's flags and leads to its fresh frame
            !old(self).missing_l3_table(page.spec_canonical()) ==> final(self).w4_of(
                page.spec_canonical(),
            ) == old(self).w4_of(page.spec_canonical()),
            old(self).missing_l3_table(page.spec_canonical()) ==> spec_entry_flags(
                final(self).w4_of(page.spec_canonical()),
            ) == flags.spec_bits() && spec_entry_addr(final(self).w4_of(page.spec_canonical()))
                == old(phy_mem_alloc).frame_at(clear_at(old(phy_mem_alloc).bits(), 0)),
            !old(self).missing_l2_table(page.spec_canonical()) ==> final(self).w3_of(
                page.spec_canonical(),
            ) == old(self).w3_of(page.spec_canonical()),
            old(self).missing_l2_table(page.spec_canonical()) ==> spec_entry_flags(
                final(self).w3_of(page.spec_canonical()),
            ) == flags.spec_bits() && spec_entry_addr(final(self).w3_of(page.spec_canonical()))
                == old(phy_mem_alloc).frame_at(
                clear_at(
                    old(phy_mem_alloc).bits(),
                    if old(self).missing_l3_table(page.spec_canonical()) {
                        1nat
                    } else {
                        0nat
                    },
                ),
            ),
            !old(self).missing_l1_table(page.spec_canonical()) ==> final(self).w2_of(
                page.spec_canonical(),
            ) == old(self).w2_of(page.spec_canonical()),
            old(self).missing_l1_table(page.spec_canonical()) ==> spec_entry_flags(
                final(self).w2_of(page.spec_canonical()),
            ) == flags.spec_bits() && spec_entry_addr(final(self).w2_of(page.spec_canonical()))
                == old(phy_mem_alloc).frame_at(
                clear_at(
                    old(phy_mem_alloc).bits(),
                    ((if old(self).missing_l3_table(page.spec_canonical()) {
                        1int
                    } else {
                        0int
                    }) + (if old(self).missing_l2_table(page.spec_canonical()) {
                        1int
                    } else {
                        0int
                    })) as nat,
                ),
            ),
            // a walk that was already complete allocates nothing: only the
            // level-1 entry of the page itself is written
            old(self).chain_present(page.spec_canonical()) ==> {
                &&& *final(phy_mem_alloc) == *old(phy_mem_alloc)
                &&& final(self).sframes() == old(self).sframes()
                &&& final(self).slevels() == old(self).slevels()
                &&& (forall|c2: u64|
                    c2 < MAX_PAGE_CANONICAL_NUM && c2 != page.spec_canonical() ==> final(self).spec_page_entry(c2) == old(self).spec_page_entry(c2))
            },
    {
        let ghost c = page.spec_canonical();
        let ghost s0 = *self;
        let ghost pa0 = *phy_mem_alloc;
        proof {
            crate::page::lemma_canonical_is_mod(page.spec_num());
            crate::page::lemma_level_decomposition(c);
        }
        let l4i = page.level4_idx();
        let l3i = page.level3_idx();
        let l2i = page.level2_idx();
        let l1i = page.level1_idx();
        let ri = match self.table_index(self.root) {
            Some(i) => i,
            None => {
                proof {
                    assert(false);
                }
                0
            },
        };
        let ci3 = self.ensure_child(ri, l4i, flags, phy_mem_alloc);
        let ghost s1 = *self;
        let ghost pa1 = *phy_mem_alloc;
        proof {
            assert(s1.idx(s1.sroot()) == ri && s1.lvl(s1.sroot()) == 4) by {
                if spec_entry_present(s0.words_of(ri as int)[spec_level4_idx(c)]) {
                } else {
                    lemma_arena_extend_wf(
                        s0,
                        s1,
                        ri as int,
                        spec_level4_idx(c),
                        s1.sframes()[ci3 as int],
                    );
                }
            }
            assert(s1.slevels()[ci3 as int] == 3);
            assert(ci3 != ri);
        }
        let ci2 = self.ensure_child(ci3, l3i, flags, phy_mem_alloc);
        let ghost s2 = *self;
        let ghost pa2 = *phy_mem_alloc;
        proof {
            assert(s2.idx(s2.sroot()) == ri && s2.lvl(s2.sroot()) == 4) by {
                if spec_entry_present(s1.words_of(ci3 as int)[spec_level3_idx(c)]) {
                } else {
                    lemma_arena_extend_wf(
                        s1,
                        s2,
                        ci3 as int,
                        spec_level3_idx(c),
                        s2.sframes()[ci2 as int],
                    );
                    assert(s1.has_frame(s1.sroot()));
                }
            }
            assert(s2.slevels()[ci2 as int] == 2);
            assert(ci2 != ri && ci2 != ci3 && ci3 != ri);
            // the level-2 slot about to be walked is never huge: either it
            // sits in a freshly zeroed table, or it is the walk's own
            // level-2 entry, which the caller vouches is not huge
            assert(!spec_entry_huge(s2.words_of(ci2 as int)[spec_level2_idx(c)])) by {
                assert(!spec_entry_huge(0u64)) by {
                    assert(!(0u64 & 128u64 == 128u64)) by (bit_vector);
                }
                if spec_entry_present(s0.words_of(ri as int)[spec_level4_idx(c)]) {
                    assert(s1 == s0);
                    if spec_entry_present(s1.words_of(ci3 as int)[spec_level3_idx(c)]) {
                        assert(s2 == s1);
                        assert(s0.tbl(s0.sroot()) == s0.words_of(ri as int));
                        assert(spec_entry_present(s0.w4_of(c)));
                        assert(s0.idx(spec_entry_addr(s0.w4_of(c))) == ci3);
                        assert(s0.w3_of(c) == s0.words_of(ci3 as int)[
                            spec_level3_idx(c)
                        ]);
                        assert(spec_entry_present(s0.w3_of(c)));
                        assert(s0.idx(spec_entry_addr(s0.w3_of(c))) == ci2);
                        assert(s0.w2_of(c) == s0.words_of(ci2 as int)[
                            spec_level2_idx(c)
                        ]);
                        if spec_entry_huge(s0.w2_of(c)) {
                            assert(s0.spec_page_entry(c) == Err::<u64, PageEntryError>(
                                PageEntryError::HugePage,
                            ));
                            assert(false);
                        }
                    } else {
                        assert(ci2 == s1.num_tables());
                        assert(s2.words_of(ci2 as int)[spec_level2_idx(c)] == 0);
                    }
                } else {
                    assert(ci3 == s0.num_tables());
                    assert(s1.words_of(ci3 as int)[spec_level3_idx(c)] == 0);
                    assert(!spec_entry_present(0u64)) by {
                        assert(0u64 & 1u64 != 1u64) by (bit_vector);
                    }
                    assert(ci2 == s1.num_tables());
                    assert(s2.words_of(ci2 as int)[spec_level2_idx(c)] == 0);
                }
            }
        }
        let ci1 = self.ensure_child(ci2, l2i, flags, phy_mem_alloc);
        let ghost s3 = *self;
        let ghost pa3 = *phy_mem_alloc;
        let mut ne = PageTableEntry::new();
        ne.set_addr(phy_addr, flags);
        proof {
            // the chain now stands: name its pieces in the latest arena
            assert(s3.idx(s3.sroot()) == ri && s3.lvl(s3.sroot()) == 4) by {
                if spec_entry_present(s2.words_of(ci2 as int)[spec_level2_idx(c)]) {
                } else {
                    lemma_arena_extend_wf(
                        s2,
                        s3,
                        ci2 as int,
                        spec_level2_idx(c),
                        s3.sframes()[ci1 as int],
                    );
                    assert(s2.has_frame(s2.sroot()));
                }
            }
            assert(s3.slevels()[ci1 as int] == 1);
            assert(ci1 != ri && ci1 != ci3 && ci1 != ci2);
            assert(s3.words_of(ci1 as int).len() == 512);
        }
        self.write_entry(ci1, l1i, ne);
        proof {
            let b = *self;
            // chain facts in s3
            assert(s3.w4_of(c) == s3.words_of(ri as int)[spec_level4_idx(c)]);
            assert(spec_entry_present(s3.w4_of(c)));
            assert(s3.idx(spec_entry_addr(s3.w4_of(c))) == ci3);
            assert(s3.w3_of(c) == s3.words_of(ci3 as int)[spec_level3_idx(c)]);
            assert(spec_entry_present(s3.w3_of(c)));
            assert(s3.idx(spec_entry_addr(s3.w3_of(c))) == ci2);
            assert(s3.w2_of(c) == s3.words_of(ci2 as int)[spec_level2_idx(c)]);
            assert(spec_entry_present(s3.w2_of(c)) && !spec_entry_huge(s3.w2_of(c)));
            assert(s3.chain_present(c));
            assert(s3.idx(s3.l1_frame(c)) == ci1);
            lemma_leaf_write_wf(s3, b, ci1 as int, spec_level1_idx(c));
            assert forall|f: u64| #[trigger] b.has_frame(f) && pa3.tracks(f) implies pa3.bits()[
                pa3.index_of(f)
            ] by {
                assert(s3.has_frame(f));
            }
            // the page's own walk in the final arena
            assert(b.idx(b.sroot()) == ri && b.words_of(ri as int) == s3.words_of(ri as int));
            assert(b.w4_of(c) == s3.w4_of(c));
            assert(b.idx(spec_entry_addr(b.w4_of(c))) == ci3 && b.words_of(ci3 as int)
                == s3.words_of(ci3 as int));
            assert(b.w3_of(c) == s3.w3_of(c));
            assert(b.idx(spec_entry_addr(b.w3_of(c))) == ci2 && b.words_of(ci2 as int)
                == s3.words_of(ci2 as int));
            assert(b.w2_of(c) == s3.w2_of(c));
            assert(b.idx(spec_entry_addr(b.w2_of(c))) == ci1);
            assert(b.words_of(ci1 as int)[spec_level1_idx(c)] == ne.word());
            assert(b.spec_page_entry(c) == Ok::<u64, PageEntryError>(
                phy_addr.0 | flags.spec_bits(),
            ));
            // other pages keep their translations, step by step
            assert forall|c2: u64| c2 < MAX_PAGE_CANONICAL_NUM && c2 != c implies b.spec_page_entry(
                c2,
            ) == s3.spec_page_entry(c2) by {
                lemma_leaf_write_preserves(
                    s3,
                    b,
                    ci1 as int,
                    spec_level1_idx(c),
                    c,
                    c2,
                );
            }
            // a created table's frame was free before the call
            assert forall|g: u64|
                #[trigger] b.has_frame(g) && !s0.has_frame(g) implies pa0.tracks(g)
                && !pa0.bits()[pa0.index_of(g)] by {
                assert(s3.has_frame(g));
                if !spec_entry_present(s2.words_of(ci2 as int)[spec_level2_idx(c)]) {
                    lemma_contains_push(
                        s2.sframes(),
                        s3.sframes()[ci1 as int],
                        g,
                    );
                } else {
                    assert(s3.sframes() == s2.sframes());
                }
                if !s2.has_frame(g) {
                    assert(g == s3.sframes()[ci1 as int]);
                    assert(pa2.tracks(g) && !pa2.bits()[pa2.index_of(g)]);
                }
                if s2.has_frame(g) {
                    if !spec_entry_present(s1.words_of(ci3 as int)[spec_level3_idx(c)]) {
                        lemma_contains_push(
                            s1.sframes(),
                            s2.sframes()[ci2 as int],
                            g,
                        );
                    } else {
                        assert(s2.sframes() == s1.sframes());
                    }
                    if !s1.has_frame(g) {
                        assert(g == s2.sframes()[ci2 as int]);
                        assert(pa1.tracks(g) && !pa1.bits()[pa1.index_of(g)]);
                    }
                    if s1.has_frame(g) {
                        if !spec_entry_present(s0.words_of(ri as int)[spec_level4_idx(c)]) {
                            lemma_contains_push(
                                s0.sframes(),
                                s1.sframes()[ci3 as int],
                                g,
                            );
                        } else {
                            assert(s1.sframes() == s0.sframes());
                        }
                        assert(!s0.has_frame(g));
                        assert(g == s1.sframes()[ci3 as int]);
                        assert(pa0.tracks(g) && !pa0.bits()[pa0.index_of(g)]);
                    }
                }
                assert(pa0.tracks(g) && !pa0.bits()[pa0.index_of(g)]) by {
                    if !s2.has_frame(g) {
                        // freed later steps only set bits, so a bit clear in
                        // a later state was clear at the start
                        assert(!pa1.bits()[pa1.index_of(g)] ==> !pa0.bits()[pa0.index_of(g)]);
                    }
                }
            }
            // the already-complete chain allocates nothing
            if s0.chain_present(c) {
                assert(s0.tbl(s0.sroot()) == s0.words_of(ri as int));
                assert(spec_entry_present(s0.words_of(ri as int)[spec_level4_idx(c)]));
                assert(s1 == s0 && pa1 == pa0);
                assert(s0.idx(spec_entry_addr(s0.w4_of(c))) == ci3);
                assert(s0.w3_of(c) == s0.words_of(ci3 as int)[spec_level3_idx(c)]);
                assert(spec_entry_present(s1.words_of(ci3 as int)[spec_level3_idx(c)]));
                assert(s2 == s1 && pa2 == pa1);
                assert(s0.idx(spec_entry_addr(s0.w3_of(c))) == ci2);
                assert(s0.w2_of(c) == s0.words_of(ci2 as int)[spec_level2_idx(c)]);
                assert(spec_entry_present(s2.words_of(ci2 as int)[spec_level2_idx(c)]));
                assert(s3 == s2 && pa3 == pa2);
            }
            // per-level accounting: what each step read, took and wrote
            let m3 = s0.missing_l3_table(c);
            let m2 = s0.missing_l2_table(c);
            let m1 = s0.missing_l1_table(c);
            let fb = flags.spec_bits();
            assert(s0.tbl(s0.sroot()) == s0.words_of(ri as int));
            assert(s0.w4_of(c) == s0.words_of(ri as int)[spec_level4_idx(c)]);
            assert(!spec_entry_present(0u64)) by {
                assert(0u64 & 1u64 != 1u64) by (bit_vector);
            }
            if !m3 {
                assert(s1 == s0 && pa1 == pa0);
                assert(s0.idx(spec_entry_addr(s0.w4_of(c))) == ci3);
                assert(s1.words_of(ci3 as int)[spec_level3_idx(c)] == s0.w3_of(c));
            } else {
                assert(s1.words_of(ci3 as int)[spec_level3_idx(c)] == 0);
                assert(pa1.bits() == mark_one(pa0.bits()));
            }
            assert(spec_entry_present(s1.words_of(ci3 as int)[spec_level3_idx(c)]) == !m2);
            if !m2 {
                assert(s2 == s1 && pa2 == pa1);
                assert(s0.idx(spec_entry_addr(s0.w3_of(c))) == ci2);
                assert(s2.words_of(ci2 as int)[spec_level2_idx(c)] == s0.w2_of(c));
            } else {
                assert(s2.words_of(ci2 as int)[spec_level2_idx(c)] == 0);
                assert(pa2.bits() == mark_one(pa1.bits()));
            }
            assert(spec_entry_present(s2.words_of(ci2 as int)[spec_level2_idx(c)]) == !m1);
            if !m1 {
                assert(s3 == s2 && pa3 == pa2);
            } else {
                assert(pa3.bits() == mark_one(pa2.bits()));
            }
            lemma_mark_chain(pa0.bits(), pa1.bits(), pa2.bits(), pa3.bits(), m3, m2, m1);
            // the three slot words carry over to the final arena
            assert(s2.words_of(ri as int) == s1.words_of(ri as int));
            assert(s3.words_of(ri as int) == s2.words_of(ri as int));
            assert(b.w4_of(c) == s1.words_of(ri as int)[spec_level4_idx(c)]);
            if m3 {
                assert(b.w4_of(c) == s1.sframes()[ci3 as int] | fb);
                assert(addr_fits_entry(s1.sframes()[ci3 as int]));
                crate::entry::lemma_entry_pack(s1.sframes()[ci3 as int], fb);
                assert(s1.sframes()[ci3 as int] == pa0.frame_at(
                    first_clear(pa0.bits())->Some_0,
                ));
            } else {
                assert(b.w4_of(c) == s0.w4_of(c));
            }
            assert(s3.words_of(ci3 as int) == s2.words_of(ci3 as int));
            assert(b.w3_of(c) == s2.words_of(ci3 as int)[spec_level3_idx(c)]);
            if m2 {
                assert(b.w3_of(c) == s2.sframes()[ci2 as int] | fb);
                assert(addr_fits_entry(s2.sframes()[ci2 as int]));
                crate::entry::lemma_entry_pack(s2.sframes()[ci2 as int], fb);
                assert(s2.sframes()[ci2 as int] == pa1.frame_at(
                    first_clear(pa1.bits())->Some_0,
                ));
                assert(pa1.spec_offset() == pa0.spec_offset());
            } else {
                assert(b.w3_of(c) == s0.w3_of(c));
            }
            assert(b.w2_of(c) == s3.words_of(ci2 as int)[spec_level2_idx(c)]);
            if m1 {
                assert(b.w2_of(c) == s3.sframes()[ci1 as int] | fb);
                assert(addr_fits_entry(s3.sframes()[ci1 as int]));
                crate::entry::lemma_entry_pack(s3.sframes()[ci1 as int], fb);
                assert(s3.sframes()[ci1 as int] == pa2.frame_at(
                    first_clear(pa2.bits())->Some_0,
                ));
                assert(pa2.spec_offset() == pa0.spec_offset());
            } else {
                assert(b.w2_of(c) == s0.w2_of(c));
            }
        }
    }

    /// Read the level-1 entry of `page`, which must be reachable, then
    /// clear it. Hands back the entry as it stood, so the caller can
    /// release the frame it pointed to. No other page's translation moves.
    pub fn clear_page_entry(&mut self, page: Page) -> (r: PageTableEntry)
        requires
            old(self).wf(),
            old(self).chain_present(page.spec_canonical()),
        ensures
            final(self).wf(),
            final(self).sroot() == old(self).sroot(),
            final(self).sframes() == old(self).sframes(),
            final(self).slevels() == old(self).slevels(),
            old(self).spec_page_entry(page.spec_canonical()) == Ok::<u64, PageEntryError>(
                r.word(),
            ),
            final(self).spec_page_entry(page.spec_canonical()) == Ok::<u64, PageEntryError>(
                0u64,
            ),
            !final(self).spec_is_present(page.spec_canonical()),
            forall|c2: u64|
                c2 < MAX_PAGE_CANONICAL_NUM && c2 != page.spec_canonical() ==> final(self).spec_page_entry(c2) == old(self).spec_page_entry(c2),
    {
        let ghost c = page.spec_canonical();
        let ghost s0 = *self;
        proof {
            crate::page::lemma_canonical_is_mod(page.spec_num());
            crate::page::lemma_level_decomposition(c);
        }
        let l4i = page.level4_idx();
        let l3i = page.level3_idx();
        let l2i = page.level2_idx();
        let l1i = page.level1_idx();
        let ri = match self.table_index(self.root) {
            Some(i) => i,
            None => {
                proof {
                    assert(false);
                }
                0
            },
        };
        let e4 = self.tables[ri].entry_at(l4i);
        proof {
            assert(s0.tbl(s0.sroot()) == s0.words_of(ri as int));
            assert(e4.word() == s0.w4_of(c));
            assert(followed(s0.slevels()[ri as int] as int, s0.words_of(ri as int)[
                spec_level4_idx(c)
            ]));
        }
        let i3 = match self.table_index(e4.addr().0) {
            Some(i) => i,
            None => {
                proof {
                    assert(false);
                }
                0
            },
        };
        let e3 = self.tables[i3].entry_at(l3i);
        proof {
            assert(e3.word() == s0.w3_of(c));
            assert(followed(s0.slevels()[i3 as int] as int, s0.words_of(i3 as int)[
                spec_level3_idx(c)
            ]));
        }
        let i2 = match self.table_index(e3.addr().0) {
            Some(i) => i,
            None => {
                proof {
                    assert(false);
                }
                0
            },
        };
        let e2 = self.tables[i2].entry_at(l2i);
        proof {
            assert(e2.word() == s0.w2_of(c));
            assert(followed(s0.slevels()[i2 as int] as int, s0.words_of(i2 as int)[
                spec_level2_idx(c)
            ]));
        }
        let i1 = match self.table_index(e2.addr().0) {
            Some(i) => i,
            None => {
                proof {
                    assert(false);
                }
                0
            },
        };
        proof {
            assert(self.words_of(i1 as int).len() == 512);
            assert(self.slevels()[i1 as int] == 1);
        }
        let r = self.tables[i1].entry_at(l1i);
        self.write_entry(i1, l1i, PageTableEntry::new());
        proof {
            let b = *self;
            assert(s0.idx(s0.l1_frame(c)) == i1);
            lemma_leaf_write_wf(s0, b, i1 as int, spec_level1_idx(c));
            assert(b.idx(b.sroot()) == ri && b.words_of(ri as int) == s0.words_of(ri as int));
            assert(b.w4_of(c) == s0.w4_of(c));
            assert(b.idx(spec_entry_addr(b.w4_of(c))) == i3 && b.words_of(i3 as int)
                == s0.words_of(i3 as int));
            assert(b.w3_of(c) == s0.w3_of(c));
            assert(b.idx(spec_entry_addr(b.w3_of(c))) == i2 && b.words_of(i2 as int)
                == s0.words_of(i2 as int));
            assert(b.w2_of(c) == s0.w2_of(c));
            assert(b.idx(spec_entry_addr(b.w2_of(c))) == i1);
            assert(b.words_of(i1 as int)[spec_level1_idx(c)] == 0);
            assert(b.spec_page_entry(c) == Ok::<u64, PageEntryError>(0u64));
            assert(!spec_entry_present(0u64)) by {
                assert(0u64 & 1u64 != 1u64) by (bit_vector);
            }
            assert forall|c2: u64|
                c2 < MAX_PAGE_CANONICAL_NUM && c2 != c implies b.spec_page_entry(c2)
                == s0.spec_page_entry(c2) by {
                lemma_leaf_write_preserves(s0, b, i1 as int, spec_level1_idx(c), c, c2);
            }
        }
        r
    }

    /// Install a huge mapping for the 2 MiB block of `page`: the walk for
    /// every page of that block then stops at the level-2 entry with the
    /// huge condition, and counts as present. Such entries model the large
    /// translations a kernel inherits from boot firmware; the allocator
    /// itself never creates them. Missing intermediate tables are created
    /// as for an ordinary mapping, without the huge flag.
    pub fn map_huge_page_unchecked(
        &mut self,
        page: Page,
        phy_addr: PhyAddr,
        flags: PageTableEntryFlags,
        phy_mem_alloc: &mut BasicPhysicalAllocator,
    )
        requires
            old(self).wf(),
            old(phy_mem_alloc).wf(),
            frames_marked(*old(self), *old(phy_mem_alloc)),
            count_clear(old(phy_mem_alloc).bits()) >= 2,
            addr_fits_entry(phy_addr.0),
            flags.wf(),
            flags.spec_bits() & PRESENT_BIT == PRESENT_BIT,
            flags.spec_bits() & HUGE_PAGE_BIT == HUGE_PAGE_BIT,
            old(self).spec_page_entry(page.spec_canonical()) matches Err(
                PageEntryError::PageTableLevelIsNotPresent { .. },
            ),
        ensures
            final(self).wf(),
            final(phy_mem_alloc).wf(),
            frames_marked(*final(self), *final(phy_mem_alloc)),
            final(phy_mem_alloc).spec_offset() == old(phy_mem_alloc).spec_offset(),
            final(phy_mem_alloc).spec_limit() == old(phy_mem_alloc).spec_limit(),
            final(phy_mem_alloc).bits().len() == old(phy_mem_alloc).bits().len(),
            final(self).sroot() == old(self).sroot(),
            // the whole block of the page stops at the huge entry
            forall|c2: u64|
                c2 < MAX_PAGE_CANONICAL_NUM && c2 / 512 == page.spec_canonical() / 512 ==> final(self).spec_page_entry(c2) == Err::<u64, PageEntryError>(PageEntryError::HugePage)
                    && final(self).spec_is_present(c2),
            // every page outside the block keeps its translation
            forall|c2: u64|
                c2 < MAX_PAGE_CANONICAL_NUM && c2 / 512 != page.spec_canonical() / 512 ==> final(self).spec_is_present(c2) == old(self).spec_is_present(c2),
            forall|c2: u64|
                c2 < MAX_PAGE_CANONICAL_NUM && c2 / 512 != page.spec_canonical() / 512 && old(self).spec_page_entry(c2) is Ok ==> final(self).spec_page_entry(c2) == old(self).spec_page_entry(c2),
            forall|j: int|
                0 <= j < old(phy_mem_alloc).bits().len() && old(phy_mem_alloc).bits()[j]
                    ==> final(phy_mem_alloc).bits()[j],
            count_clear(final(phy_mem_alloc).bits()) >= count_clear(
                old(phy_mem_alloc).bits(),
            ) - 2,
    {
        let ghost c = page.spec_canonical();
        let ghost s0 = *self;
        let ghost pa0 = *phy_mem_alloc;
        proof {
            crate::page::lemma_canonical_is_mod(page.spec_num());
            crate::page::lemma_level_decomposition(c);
        }
        let l4i = page.level4_idx();
        let l3i = page.level3_idx();
        let l2i = page.level2_idx();
        let tflags = PageTableEntryFlags::from_bits_retain(flags.bits() & !HUGE_PAGE_BIT);
        proof {
            let fb = flags.spec_bits();
            assert((fb & 0x000f_ffff_ffff_f000u64 == 0 && fb & 1u64 == 1u64) ==> ((fb
                & !128u64) & !0x000f_ffff_ffff_f000u64 == (fb & !128u64) && (fb & !128u64)
                & 1u64 == 1u64 && (fb & !128u64) & 128u64 == 0u64)) by (bit_vector);
        }
        let ri = match self.table_index(self.root) {
            Some(i) => i,
            None => {
                proof {
                    assert(false);
                }
                0
            },
        };
        let ci3 = self.ensure_child(ri, l4i, tflags, phy_mem_alloc);
        let ghost s1 = *self;
        proof {
            assert(s1.idx(s1.sroot()) == ri && s1.lvl(s1.sroot()) == 4) by {
                if spec_entry_present(s0.words_of(ri as int)[spec_level4_idx(c)]) {
                } else {
                    lemma_arena_extend_wf(
                        s0,
                        s1,
                        ri as int,
                        spec_level4_idx(c),
                        s1.sframes()[ci3 as int],
                    );
                }
            }
            assert(s1.slevels()[ci3 as int] == 3);
            assert(ci3 != ri);
        }
        let ci2 = self.ensure_child(ci3, l3i, tflags, phy_mem_alloc);
        let ghost s2 = *self;
        let ghost pa2 = *phy_mem_alloc;
        proof {
            assert(s2.idx(s2.sroot()) == ri && s2.lvl(s2.sroot()) == 4) by {
                if spec_entry_present(s1.words_of(ci3 as int)[spec_level3_idx(c)]) {
                } else {
                    lemma_arena_extend_wf(
                        s1,
                        s2,
                        ci3 as int,
                        spec_level3_idx(c),
                        s2.sframes()[ci2 as int],
                    );
                    assert(s1.has_frame(s1.sroot()));
                }
            }
            assert(s2.slevels()[ci2 as int] == 2);
            assert(ci2 != ri && ci2 != ci3 && ci3 != ri);
            // the level-2 slot the walk targets is absent: either it sits
            // in a freshly zeroed table, or the caller's condition says so
            assert(!spec_entry_present(s2.words_of(ci2 as int)[spec_level2_idx(c)])) by {
                assert(!spec_entry_present(0u64)) by {
                    assert(0u64 & 1u64 != 1u64) by (bit_vector);
                }
                if spec_entry_present(s0.words_of(ri as int)[spec_level4_idx(c)]) {
                    assert(s1 == s0);
                    if spec_entry_present(s1.words_of(ci3 as int)[spec_level3_idx(c)]) {
                        assert(s2 == s1);
                        assert(s0.tbl(s0.sroot()) == s0.words_of(ri as int));
                        assert(spec_entry_present(s0.w4_of(c)));
                        assert(s0.idx(spec_entry_addr(s0.w4_of(c))) == ci3);
                        assert(s0.w3_of(c) == s0.words_of(ci3 as int)[spec_level3_idx(c)]);
                        assert(spec_entry_present(s0.w3_of(c)));
                        assert(s0.idx(spec_entry_addr(s0.w3_of(c))) == ci2);
                        assert(s0.w2_of(c) == s0.words_of(ci2 as int)[spec_level2_idx(c)]);
                        if spec_entry_present(s0.w2_of(c)) {
                            assert(!(s0.spec_page_entry(c) matches Err(
                                PageEntryError::PageTableLevelIsNotPresent { .. },
                            )));
                            assert(false);
                        }
                    } else {
                        assert(ci2 == s1.num_tables());
                        assert(s2.words_of(ci2 as int)[spec_level2_idx(c)] == 0);
                    }
                } else {
                    assert(ci3 == s0.num_tables());
                    assert(s1.words_of(ci3 as int)[spec_level3_idx(c)] == 0);
                    assert(ci2 == s1.num_tables());
                    assert(s2.words_of(ci2 as int)[spec_level2_idx(c)] == 0);
                }
            }
        }
        let mut ne = PageTableEntry::new();
        ne.set_addr(phy_addr, flags);
        proof {
            let fv = phy_addr.0;
            let fb = flags.spec_bits();
            crate::entry::lemma_entry_pack(fv, fb);
            assert((fv % 0x1000u64 == 0 && fb & 128u64 == 128u64) ==> (fv | fb) & 128u64
                == 128u64) by (bit_vector);
            assert(spec_entry_huge(ne.word()));
            assert(s2.words_of(ci2 as int).len() == 512);
        }
        self.write_entry(ci2, l2i, ne);
        proof {
            let b = *self;
            assert(s2.tbl(s2.sroot()) == s2.words_of(ri as int));
            assert(s2.w4_of(c) == s2.words_of(ri as int)[spec_level4_idx(c)]);
            assert(spec_entry_present(s2.w4_of(c)));
            assert(s2.idx(spec_entry_addr(s2.w4_of(c))) == ci3);
            assert(s2.w3_of(c) == s2.words_of(ci3 as int)[spec_level3_idx(c)]);
            assert(spec_entry_present(s2.w3_of(c)));
            assert(s2.idx(spec_entry_addr(s2.w3_of(c))) == ci2);
            assert(huge_write_step(s2, b, ci2 as int, spec_level2_idx(c)));
            lemma_huge_write_wf(s2, b, ci2 as int, spec_level2_idx(c));
            assert forall|f: u64| #[trigger] b.has_frame(f) && pa2.tracks(f) implies pa2.bits()[
                pa2.index_of(f)
            ] by {
                assert(s2.has_frame(f));
            }
            assert forall|c2: u64| c2 < MAX_PAGE_CANONICAL_NUM implies {
                &&& (c2 / 512 == c / 512 ==> b.spec_page_entry(c2) == Err::<
                    u64,
                    PageEntryError,
                >(PageEntryError::HugePage) && b.spec_is_present(c2))
                &&& (c2 / 512 != c / 512 ==> b.spec_page_entry(c2) == s2.spec_page_entry(c2))
            } by {
                lemma_huge_write_walks(s2, b, ci2 as int, spec_level2_idx(c), c, c2);
            }
        }
    }

    /// Whether a table is filed under frame `f`.
    pub fn holds_frame(&self, f: u64) -> (r: bool)
        requires
            self.wf(),
        ensures
            r == self.has_frame(f),
    {
        match self.table_index(f) {
            Some(_) => true,
            None => false,
        }
    }

    /// Whether any table sits in a frame of `[lo, hi)`. Lets a caller test
    /// that a physical region about to be configured holds no live table.
    pub fn any_frame_in(&self, lo: u64, hi: u64) -> (r: bool)
        requires
            self.wf(),
        ensures
            r == exists|f: u64| lo <= f < hi && #[trigger] self.has_frame(f),
    {
        let n = self.frames.len();
        let mut i: usize = 0;
        while i < n
            invariant
                self.wf(),
                n == self.sframes().len(),
                i <= n,
                forall|k: int| 0 <= k < i ==> !(lo <= #[trigger] self.sframes()[k] < hi),
            decreases n - i,
        {
            let f = self.frames[i];
            if lo <= f && f < hi {
                proof {
                    assert(self.sframes()[i as int] == f);
                    assert(self.has_frame(f));
                }
                return true;
            }
            i = i + 1;
        }
        proof {
            if exists|f: u64| lo <= f < hi && #[trigger] self.has_frame(f) {
                let f = choose|f: u64| lo <= f < hi && #[trigger] self.has_frame(f);
                let j = choose|j: int| 0 <= j < self.sframes().len() && self.sframes()[j] == f;
                assert(!(lo <= self.sframes()[j] < hi));
            }
        }
        false
    }

    /// Read-only walk for `page`: either the level-1 entry, or the typed
    /// condition that broke the walk, naming the first absent level.
    pub fn page_entry(&self, page: Page) -> (r: Result<PageTableEntry, PageEntryError>)
        requires
            self.wf(),
        ensures
            match r {
                Ok(e) => self.spec_page_entry(page.spec_canonical()) == Ok::<u64, PageEntryError>(
                    e.word(),
                ),
                Err(e) => self.spec_page_entry(page.spec_canonical()) == Err::<
                    u64,
                    PageEntryError,
                >(e),
            },
    {
        let ri = match self.table_index(self.root) {
            Some(i) => i,
            None => {
                proof {
                    assert(false);
                }
                0
            },
        };
        let e4 = self.tables[ri].entry_at(page.level4_idx());
        if !e4.present() {
            return Err(PageEntryError::PageTableLevelIsNotPresent { level: 4 });
        }
        let i3 = match self.table_index(e4.addr().0) {
            Some(i) => i,
            None => {
                proof {
                    assert(followed(4, e4.word()));
                    assert(false);
                }
                0
            },
        };
        let e3 = self.tables[i3].entry_at(page.level3_idx());
        if !e3.present() {
            return Err(PageEntryError::PageTableLevelIsNotPresent { level: 3 });
        }
        let i2 = match self.table_index(e3.addr().0) {
            Some(i) => i,
            None => {
                proof {
                    assert(followed(3, e3.word()));
                    assert(false);
                }
                0
            },
        };
        let e2 = self.tables[i2].entry_at(page.level2_idx());
        if e2.flags().contains(crate::flags::PageTableEntryFlags::huge_page()) {
            proof {
                crate::entry::lemma_entry_flag_bits(e2.word());
            }
            return Err(PageEntryError::HugePage);
        }
        proof {
            crate::entry::lemma_entry_flag_bits(e2.word());
        }
        if !e2.present() {
            return Err(PageEntryError::PageTableLevelIsNotPresent { level: 2 });
        }
        let i1 = match self.table_index(e2.addr().0) {
            Some(i) => i,
            None => {
                proof {
                    assert(followed(2, e2.word()));
                    assert(false);
                }
                0
            },
        };
        let e1 = self.tables[i1].entry_at(page.level1_idx());
        Ok(e1)
    }

    /// Whether `page` currently translates.
    pub fn is_present(&self, page: Page) -> (r: bool)
        requires
            self.wf(),
        ensures
            r == self.spec_is_present(page.spec_canonical()),
    {
        match self.page_entry(page) {
            Ok(p) => p.present(),
            Err(PageEntryError::HugePage) => true,
            Err(PageEntryError::PageTableLevelIsNotPresent { .. }) => false,
        }
    }

    /// Greedy forward search for `num_pages` consecutive absent pages,
    /// starting at `start_page`: the earliest such run wins, and the search
    /// gives up where the canonical space ends.
    pub fn find_free_pages(&self, start_page: Page, num_pages: usize) -> (r: Option<PageIter>)
        requires
            self.wf(),
            num_pages >= 1,
        ensures
            match r {
                Some(it) => {
                    let f = it.start.spec_canonical();
                    &&& it.start.spec_num() == start_page.spec_num() + (f
                        - start_page.spec_canonical())
                    &&& it.end.spec_num() == it.start.spec_num() + (num_pages - 1)
                    &&& it.end.spec_canonical() == f + num_pages - 1
                    &&& f >= start_page.spec_canonical()
                    &&& f + num_pages <= MAX_PAGE_CANONICAL_NUM
                    &&& self.window_free(f, num_pages as nat)
                    &&& forall|w: u64|
                        start_page.spec_canonical() <= w < f ==> !self.window_free(
                            w,
                            num_pages as nat,
                        )
                },
                None => forall|w: u64|
                    start_page.spec_canonical() <= w && w + num_pages <= MAX_PAGE_CANONICAL_NUM
                        ==> !self.window_free(w, num_pages as nat),
            },
    {
        let ghost c0 = start_page.spec_canonical();
        let n = num_pages as u64;
        let mut first_page = start_page;
        let mut free_page_count: u64 = if self.is_present(first_page) {
            0
        } else {
            1
        };
        let mut page = first_page;
        proof {
            crate::page::lemma_canonical_is_mod(start_page.spec_num());
        }
        loop
            invariant
                self.wf(),
                1 <= n <= u64::MAX,
                n == num_pages,
                c0 == start_page.spec_canonical(),
                c0 <= page.spec_canonical() < MAX_PAGE_CANONICAL_NUM,
                page.spec_num() == start_page.spec_num() + (page.spec_canonical() - c0),
                free_page_count <= n,
                free_page_count <= page.spec_canonical() - c0 + 1,
                free_page_count > 0 ==> {
                    &&& first_page.spec_canonical() == page.spec_canonical() - free_page_count
                        + 1
                    &&& first_page.spec_num() == start_page.spec_num() + (
                    first_page.spec_canonical() - c0)
                    &&& self.window_free(first_page.spec_canonical(), free_page_count as nat)
                },
                forall|w: u64|
                    c0 <= w && w + free_page_count <= page.spec_canonical()
                        ==> !self.window_free(w, num_pages as nat),
            decreases MAX_PAGE_CANONICAL_NUM - page.spec_canonical(),
        {
            if free_page_count >= n {
                proof {
                    assert(free_page_count == n);
                }
                return Some(PageIter { start: first_page, end: page });
            }
            let next_page = match page.next() {
                Some(p) => p,
                None => {
                    proof {
                        assert(page.spec_canonical() + 1 >= MAX_PAGE_CANONICAL_NUM);
                        assert forall|w: u64|
                            c0 <= w && w + num_pages <= MAX_PAGE_CANONICAL_NUM implies !self.window_free(
                            w,
                            num_pages as nat,
                        ) by {
                            if w + free_page_count <= page.spec_canonical() {
                            } else {
                                assert(w + num_pages <= MAX_PAGE_CANONICAL_NUM);
                                assert(page.spec_canonical() == MAX_PAGE_CANONICAL_NUM - 1);
                                assert(num_pages <= free_page_count);
                                assert(false);
                            }
                        }
                    }
                    return None;
                },
            };
            proof {
                crate::page::lemma_canonical_is_mod(page.spec_num());
                crate::page::lemma_canonical_is_mod(next_page.spec_num());
                assert(next_page.spec_num() == page.spec_num() + 1);
                let pn = page.spec_num();
                assert((pn & 0xf_ffff_ffffu64) + 1 < 0x10_0000_0000u64 ==> ((pn + 1) as u64)
                    & 0xf_ffff_ffffu64 == (pn & 0xf_ffff_ffffu64) + 1) by (bit_vector);
            }
            if !self.is_present(next_page) {
                if free_page_count == 0 {
                    first_page = next_page;
                }
                proof {
                    let fc = first_page.spec_canonical();
                    let nc = next_page.spec_canonical();
                    let cnt = free_page_count as nat + 1;
                    assert forall|p: u64| fc <= p < fc + cnt implies !self.spec_is_present(
                        p,
                    ) by {
                        if p < fc + cnt - 1 {
                            assert(self.window_free(fc, (cnt - 1) as nat));
                        } else {
                            assert(p == nc);
                        }
                    }
                }
                free_page_count = free_page_count + 1;
            } else {
                proof {
                    let pc = page.spec_canonical();
                    let nc = next_page.spec_canonical();
                    assert forall|w: u64| c0 <= w && w + 0 <= nc implies !self.window_free(
                        w,
                        num_pages as nat,
                    ) by {
                        if w + free_page_count <= pc {
                        } else {
                            // The window would have to start inside the
                            // current free streak and so cover the present
                            // page just hit, or be shorter than asked.
                            if w + num_pages <= nc {
                                assert(num_pages <= pc + 1 - w);
                                assert(w >= pc + 1 - free_page_count);
                                assert(num_pages <= free_page_count);
                                assert(false);
                            } else {
                                if self.window_free(w, num_pages as nat) {
                                    assert(w <= nc < w + num_pages);
                                    assert(!self.spec_is_present(nc));
                                    assert(false);
                                }
                            }
                        }
                    }
                }
                free_page_count = 0;
            }
            page = next_page;
        }
    }
}


} // verus!

verus! {

/// Shared shape of an install step: arena `b` is arena `a` with a fresh
/// empty table filed under frame `f` and the previously absent slot
/// `(ti, slot)` rewritten to lead to it.
pub open spec fn install_step(a: PageTableArena, b: PageTableArena, ti: int, slot: int, f: u64) -> bool {
    &&& a.wf()
    &&& 0 <= ti < a.num_tables()
    &&& 0 <= slot < 512
    &&& 2 <= a.slevels()[ti] <= 4
    &&& !spec_entry_present(a.words_of(ti)[slot])
    &&& (a.slevels()[ti] == 2 ==> !spec_entry_huge(a.words_of(ti)[slot]))
    &&& !a.has_frame(f)
    &&& addr_fits_entry(f)
    &&& b.sroot() == a.sroot()
    &&& b.sframes() == a.sframes().push(f)
    &&& b.slevels() == a.slevels().push((a.slevels()[ti] - 1) as u8)
    &&& b.num_tables() == a.num_tables() + 1
    &&& (forall|j: int| 0 <= j < a.num_tables() && j != ti ==> b.words_of(j) == a.words_of(j))
    &&& b.words_of(ti) == a.words_of(ti).update(slot, b.words_of(ti)[slot])
    &&& spec_entry_present(b.words_of(ti)[slot])
    &&& !spec_entry_huge(b.words_of(ti)[slot])
    &&& spec_entry_addr(b.words_of(ti)[slot]) == f
    &&& b.words_of(a.num_tables()).len() == 512
    &&& (forall|k: int| 0 <= k < 512 ==> b.words_of(a.num_tables())[k] == 0)
}

/// After an install step the arena is well formed again, and every frame
/// already filed keeps its index and level.
proof fn lemma_arena_extend_wf(a: PageTableArena, b: PageTableArena, ti: int, slot: int, f: u64)
    requires
        install_step(a, b, ti, slot, f),
    ensures
        b.wf(),
        forall|g: u64|
            #[trigger] a.has_frame(g) ==> b.has_frame(g) && b.idx(g) == a.idx(g) && b.lvl(g)
                == a.lvl(g),
        b.has_frame(f),
        b.idx(f) == a.num_tables(),
        b.lvl(f) == a.slevels()[ti] - 1,
        forall|g: u64| #[trigger] b.has_frame(g) ==> a.has_frame(g) || g == f,
{
    let n = a.num_tables();
    assert(!spec_entry_present(0u64)) by {
        assert(0u64 & 1u64 != 1u64) by (bit_vector);
    }
    // a's frames never equal f
    assert forall|i: int| 0 <= i < n implies a.sframes()[i] != f by {
        if a.sframes()[i] == f {
            assert(a.has_frame(f));
        }
    }
    // membership in b
    assert forall|g: u64| #[trigger] b.has_frame(g) implies a.has_frame(g) || g == f by {
        let j = choose|j: int| 0 <= j < b.sframes().len() && b.sframes()[j] == g;
        if j < n {
            assert(a.sframes()[j] == g);
        }
    }
    assert forall|g: u64|
        #[trigger] a.has_frame(g) implies b.has_frame(g) && b.idx(g) == a.idx(g) && b.lvl(g)
        == a.lvl(g) by {
        let j = a.idx(g);
        assert(a.sframes()[j] == g);
        assert(b.sframes()[j] == g);
        assert(b.has_frame(g));
        let j2 = b.idx(g);
        assert(b.sframes()[j2] == g);
        if j2 != j {
            if j2 < n {
                assert(a.sframes()[j2] == g);
                assert(false);
            } else {
                assert(g == f);
                assert(false);
            }
        }
    }
    assert(b.sframes()[n] == f);
    assert(b.has_frame(f));
    let jf = b.idx(f);
    assert(b.sframes()[jf] == f);
    if jf != n {
        assert(a.sframes()[jf] == f);
        assert(false);
    }
    // well-formedness, piece by piece
    assert forall|i: int, j: int| 0 <= i < j < b.num_tables() implies b.sframes()[i]
        != b.sframes()[j] by {
        if j < n {
        } else {
            assert(b.sframes()[j] == f);
            assert(a.sframes()[i] != f);
        }
    }
    assert forall|i: int| 0 <= i < b.num_tables() implies (#[trigger] b.words_of(i)).len()
        == 512 by {
        if i < n {
            if i != ti {
                assert(b.words_of(i) == a.words_of(i));
            }
        }
    }
    assert(b.lvl(b.sroot()) == 4 && b.has_frame(b.sroot())) by {
        assert(a.has_frame(a.sroot()));
    }
    assert forall|i: int, k: int|
        0 <= i < b.num_tables() && 0 <= k < 512 && b.slevels()[i] >= 2 && followed(
            b.slevels()[i] as int,
            #[trigger] b.words_of(i)[k],
        ) implies b.has_frame(spec_entry_addr(b.words_of(i)[k])) && b.lvl(
        spec_entry_addr(b.words_of(i)[k]),
    ) == b.slevels()[i] - 1 && spec_entry_addr(b.words_of(i)[k]) != b.sroot() by {
        if i == n {
            assert(b.words_of(i)[k] == 0);
            assert(!followed(b.slevels()[i] as int, 0u64));
        } else if i == ti && k == slot {
            assert(spec_entry_addr(b.words_of(ti)[slot]) == f);
            assert(a.has_frame(a.sroot()));
            assert(f != a.sroot());
        } else {
            assert(b.words_of(i)[k] == a.words_of(i)[k]);
            assert(b.slevels()[i] == a.slevels()[i]);
            if followed(a.slevels()[i] as int, a.words_of(i)[k]) {
                let g = spec_entry_addr(a.words_of(i)[k]);
                assert(a.has_frame(g) && a.lvl(g) == a.slevels()[i] - 1);
            }
        }
    }
    assert forall|i: int, k: int, i2: int, k2: int|
        0 <= i < b.num_tables() && 0 <= k < 512 && b.slevels()[i] >= 2 && 0 <= i2
            < b.num_tables() && 0 <= k2 < 512 && b.slevels()[i2] >= 2 && followed(
            b.slevels()[i] as int,
            #[trigger] b.words_of(i)[k],
        ) && followed(b.slevels()[i2] as int, #[trigger] b.words_of(i2)[k2]) && spec_entry_addr(
            b.words_of(i)[k],
        ) == spec_entry_addr(b.words_of(i2)[k2]) implies i == i2 && k == k2 by {
        if i == n {
            assert(b.words_of(i)[k] == 0);
            assert(!followed(b.slevels()[i] as int, 0u64));
        } else if i2 == n {
            assert(b.words_of(i2)[k2] == 0);
            assert(!followed(b.slevels()[i2] as int, 0u64));
        } else {
            if i == ti && k == slot {
                if !(i2 == ti && k2 == slot) {
                    assert(b.words_of(i2)[k2] == a.words_of(i2)[k2]);
                    let g = spec_entry_addr(a.words_of(i2)[k2]);
                    assert(a.has_frame(g) && g == f);
                    assert(false);
                }
            } else if i2 == ti && k2 == slot {
                assert(b.words_of(i)[k] == a.words_of(i)[k]);
                let g = spec_entry_addr(a.words_of(i)[k]);
                assert(a.has_frame(g) && g == f);
                assert(false);
            } else {
                assert(b.words_of(i)[k] == a.words_of(i)[k]);
                assert(b.words_of(i2)[k2] == a.words_of(i2)[k2]);
            }
        }
    }
}

/// An install step changes no translation: a walk that meets the new
/// entry falls into the empty child and stays absent, and every other walk
/// reads exactly what it read before.
proof fn lemma_install_preserves(
    a: PageTableArena,
    b: PageTableArena,
    ti: int,
    slot: int,
    f: u64,
    c2: u64,
)
    requires
        install_step(a, b, ti, slot, f),
        c2 < MAX_PAGE_CANONICAL_NUM,
    ensures
        b.spec_is_present(c2) == a.spec_is_present(c2),
        a.spec_page_entry(c2) is Ok ==> b.spec_page_entry(c2) == a.spec_page_entry(c2),
        a.spec_page_entry(c2) == Err::<u64, PageEntryError>(PageEntryError::HugePage)
            ==> b.spec_page_entry(c2) == a.spec_page_entry(c2),
{
    lemma_arena_extend_wf(a, b, ti, slot, f);
    crate::page::lemma_level_decomposition(c2);
    let n = a.num_tables();
    assert(!spec_entry_present(0u64) && !spec_entry_huge(0u64)) by {
        assert(0u64 & 1u64 != 1u64 && !(0u64 & 128u64 == 128u64)) by (bit_vector);
    }
    let l4 = spec_level4_idx(c2);
    let l3 = spec_level3_idx(c2);
    let l2 = spec_level2_idx(c2);
    let root = a.sroot();
    let ri = a.idx(root);
    assert(b.idx(root) == ri && b.lvl(root) == 4);
    let w4a = a.tbl(root)[l4];
    let w4b = b.tbl(root)[l4];
    if ri == ti && l4 == slot {
        assert(a.slevels()[ti] == 4);
        assert(!spec_entry_present(w4a));
        assert(spec_entry_addr(w4b) == f && spec_entry_present(w4b));
        assert(b.tbl(f) == b.words_of(n));
        assert(b.tbl(f)[l3] == 0);
    } else {
        if ri == ti {
            assert(w4b == a.words_of(ti).update(slot, b.words_of(ti)[slot])[l4]);
        }
        assert(w4b == w4a);
        if spec_entry_present(w4a) {
            assert(followed(a.slevels()[ri] as int, a.words_of(ri)[l4]));
            let g3 = spec_entry_addr(w4a);
            assert(a.has_frame(g3) && a.lvl(g3) == 3);
            let i3 = a.idx(g3);
            assert(b.idx(g3) == i3 && b.lvl(g3) == 3);
            let w3a = a.tbl(g3)[l3];
            let w3b = b.tbl(g3)[l3];
            if i3 == ti && l3 == slot {
                assert(a.slevels()[ti] == 3);
                assert(!spec_entry_present(w3a));
                assert(spec_entry_addr(w3b) == f && spec_entry_present(w3b));
                assert(b.tbl(f) == b.words_of(n));
                assert(b.tbl(f)[l2] == 0);
            } else {
                if i3 == ti {
                    assert(w3b == a.words_of(ti).update(slot, b.words_of(ti)[slot])[l3]);
                }
                assert(w3b == w3a);
                if spec_entry_present(w3a) {
                    assert(followed(a.slevels()[i3] as int, a.words_of(i3)[l3]));
                    let g2 = spec_entry_addr(w3a);
                    assert(a.has_frame(g2) && a.lvl(g2) == 2);
                    let i2 = a.idx(g2);
                    assert(b.idx(g2) == i2 && b.lvl(g2) == 2);
                    let w2a = a.tbl(g2)[l2];
                    let w2b = b.tbl(g2)[l2];
                    if i2 == ti && l2 == slot {
                        assert(a.slevels()[ti] == 2);
                        assert(!spec_entry_present(w2a));
                        assert(!spec_entry_huge(w2a));
                        assert(spec_entry_addr(w2b) == f && spec_entry_present(w2b)
                            && !spec_entry_huge(w2b));
                        assert(b.tbl(f) == b.words_of(n));
                        assert(b.tbl(f)[spec_level1_idx(c2)] == 0);
                    } else {
                        if i2 == ti {
                            assert(w2b == a.words_of(ti).update(slot, b.words_of(ti)[slot])[l2]);
                        }
                        assert(w2b == w2a);
                        if !spec_entry_huge(w2a) && spec_entry_present(w2a) {
                            assert(followed(a.slevels()[i2] as int, a.words_of(i2)[l2]));
                            let g1 = spec_entry_addr(w2a);
                            assert(a.has_frame(g1) && a.lvl(g1) == 1);
                            let i1 = a.idx(g1);
                            assert(b.idx(g1) == i1 && b.lvl(g1) == 1);
                            assert(a.slevels()[ti] >= 2);
                            assert(i1 != ti);
                            assert(b.words_of(i1) == a.words_of(i1));
                            assert(b.tbl(g1) == a.tbl(g1));
                        }
                    }
                }
            }
        }
    }
}

} // verus!

verus! {

/// Shared shape of the final step of a mapping: arena `b` is arena `a`
/// with one slot of the level-1 table `ti` rewritten.
pub open spec fn leaf_write_step(a: PageTableArena, b: PageTableArena, ti: int, slot: int) -> bool {
    &&& a.wf()
    &&& 0 <= ti < a.num_tables()
    &&& 0 <= slot < 512
    &&& a.slevels()[ti] == 1
    &&& b.sroot() == a.sroot()
    &&& b.sframes() == a.sframes()
    &&& b.slevels() == a.slevels()
    &&& b.num_tables() == a.num_tables()
    &&& (forall|j: int| 0 <= j < a.num_tables() && j != ti ==> b.words_of(j) == a.words_of(j))
    &&& b.words_of(ti) == a.words_of(ti).update(slot, b.words_of(ti)[slot])
}

/// Rewriting a slot of a level-1 table leaves the arena well formed: the
/// structural conditions only speak of the upper levels.
proof fn lemma_leaf_write_wf(a: PageTableArena, b: PageTableArena, ti: int, slot: int)
    requires
        leaf_write_step(a, b, ti, slot),
    ensures
        b.wf(),
        forall|g: u64|
            #[trigger] a.has_frame(g) ==> b.has_frame(g) && b.idx(g) == a.idx(g) && b.lvl(g)
                == a.lvl(g),
{
    assert forall|g: u64|
        #[trigger] a.has_frame(g) implies b.has_frame(g) && b.idx(g) == a.idx(g) && b.lvl(g)
        == a.lvl(g) by {
        let j = a.idx(g);
        assert(a.sframes()[j] == g);
    }
    assert forall|i: int| 0 <= i < b.num_tables() implies (#[trigger] b.words_of(i)).len()
        == 512 by {
        if i != ti {
            assert(b.words_of(i) == a.words_of(i));
        }
    }
    assert forall|i: int, k: int|
        0 <= i < b.num_tables() && 0 <= k < 512 && b.slevels()[i] >= 2 && followed(
            b.slevels()[i] as int,
            #[trigger] b.words_of(i)[k],
        ) implies b.has_frame(spec_entry_addr(b.words_of(i)[k])) && b.lvl(
        spec_entry_addr(b.words_of(i)[k]),
    ) == b.slevels()[i] - 1 && spec_entry_addr(b.words_of(i)[k]) != b.sroot() by {
        assert(i != ti);
        assert(b.words_of(i)[k] == a.words_of(i)[k]);
        let g = spec_entry_addr(a.words_of(i)[k]);
        assert(a.has_frame(g) && a.lvl(g) == a.slevels()[i] - 1);
    }
    assert forall|i: int, k: int, i2: int, k2: int|
        0 <= i < b.num_tables() && 0 <= k < 512 && b.slevels()[i] >= 2 && 0 <= i2
            < b.num_tables() && 0 <= k2 < 512 && b.slevels()[i2] >= 2 && followed(
            b.slevels()[i] as int,
            #[trigger] b.words_of(i)[k],
        ) && followed(b.slevels()[i2] as int, #[trigger] b.words_of(i2)[k2]) && spec_entry_addr(
            b.words_of(i)[k],
        ) == spec_entry_addr(b.words_of(i2)[k2]) implies i == i2 && k == k2 by {
        assert(i != ti && i2 != ti);
        assert(b.words_of(i)[k] == a.words_of(i)[k]);
        assert(b.words_of(i2)[k2] == a.words_of(i2)[k2]);
    }
}

/// On a table where every page at or after `start` is present, no free
/// window exists, so the free-run search must come back empty.
pub proof fn lemma_no_window_when_all_present(a: PageTableArena, c0: u64, n: int)
    requires
        n >= 1,
        forall|c: u64| c0 <= c < MAX_PAGE_CANONICAL_NUM ==> #[trigger] a.spec_is_present(c),
    ensures
        forall|w: u64|
            c0 <= w && w + n <= MAX_PAGE_CANONICAL_NUM ==> !(#[trigger] a.window_free(
                w,
                n as nat,
            )),
{
    assert forall|w: u64| c0 <= w && w + n <= MAX_PAGE_CANONICAL_NUM implies !(
    #[trigger] a.window_free(w, n as nat)) by {
        assert(a.spec_is_present(w));
    }
}

/// On a table where every page at or after `start` is absent, the free-run
/// search finds its window right at `start`.
pub proof fn lemma_window_at_start_when_all_absent(a: PageTableArena, c0: u64, n: int)
    requires
        n >= 1,
        c0 + n <= MAX_PAGE_CANONICAL_NUM,
        forall|c: u64| c0 <= c < MAX_PAGE_CANONICAL_NUM ==> !(#[trigger] a.spec_is_present(c)),
    ensures
        a.window_free(c0, n as nat),
{
    assert forall|p: u64| c0 <= p < c0 + n implies !(#[trigger] a.spec_is_present(p)) by {
        assert(c0 <= p < MAX_PAGE_CANONICAL_NUM);
    }
}

/// Membership in a pushed sequence: the new element, or one already
/// there.
pub proof fn lemma_contains_push(s: Seq<u64>, x: u64, g: u64)
    ensures
        s.push(x).contains(g) <==> (s.contains(g) || g == x),
{
    if s.push(x).contains(g) {
        let j = choose|j: int| 0 <= j < s.push(x).len() && s.push(x)[j] == g;
        if j < s.len() {
            assert(s[j] == g);
        }
    }
    if s.contains(g) {
        let j = choose|j: int| 0 <= j < s.len() && s[j] == g;
        assert(s.push(x)[j] == g);
    }
    if g == x {
        assert(s.push(x)[s.len() as int] == g);
    }
}

/// The final write of a mapping changes the translation of its own page
/// alone: any other page either walks through different tables — targets
/// are never shared — or ends at a different slot of the same table.
proof fn lemma_leaf_write_preserves(
    a: PageTableArena,
    b: PageTableArena,
    ti: int,
    slot: int,
    c: u64,
    c2: u64,
)
    requires
        leaf_write_step(a, b, ti, slot),
        c < MAX_PAGE_CANONICAL_NUM,
        c2 < MAX_PAGE_CANONICAL_NUM,
        c2 != c,
        a.chain_present(c),
        a.idx(a.l1_frame(c)) == ti,
        spec_level1_idx(c) == slot,
    ensures
        b.spec_page_entry(c2) == a.spec_page_entry(c2),
{
    lemma_leaf_write_wf(a, b, ti, slot);
    crate::page::lemma_level_decomposition(c);
    crate::page::lemma_level_decomposition(c2);
    let root = a.sroot();
    let ri = a.idx(root);
    assert(a.sframes()[ri] == root);
    let l4 = spec_level4_idx(c2);
    let l3 = spec_level3_idx(c2);
    let l2 = spec_level2_idx(c2);
    let l1 = spec_level1_idx(c2);
    assert(a.lvl(root) == 4);
    assert(ri != ti);
    assert(b.words_of(ri) == a.words_of(ri));
    let w4 = a.tbl(root)[l4];
    if spec_entry_present(w4) {
        assert(followed(a.slevels()[ri] as int, a.words_of(ri)[l4]));
        let g3 = spec_entry_addr(w4);
        assert(a.has_frame(g3) && a.lvl(g3) == 3);
        let i3 = a.idx(g3);
        assert(i3 != ti);
        assert(b.words_of(i3) == a.words_of(i3));
        let w3 = a.tbl(g3)[l3];
        if spec_entry_present(w3) {
            assert(followed(a.slevels()[i3] as int, a.words_of(i3)[l3]));
            let g2 = spec_entry_addr(w3);
            assert(a.has_frame(g2) && a.lvl(g2) == 2);
            let i2 = a.idx(g2);
            assert(i2 != ti);
            assert(b.words_of(i2) == a.words_of(i2));
            let w2 = a.tbl(g2)[l2];
            if !spec_entry_huge(w2) && spec_entry_present(w2) {
                assert(followed(a.slevels()[i2] as int, a.words_of(i2)[l2]));
                let g1 = spec_entry_addr(w2);
                assert(a.has_frame(g1) && a.lvl(g1) == 1);
                let i1 = a.idx(g1);
                if i1 == ti {
                    // same level-1 table: the two paths must coincide,
                    // entry targets being unique
                    let cl4 = spec_level4_idx(c);
                    let cl3 = spec_level3_idx(c);
                    let cl2 = spec_level2_idx(c);
                    let cg3 = spec_entry_addr(a.w4_of(c));
                    let cg2 = spec_entry_addr(a.w3_of(c));
                    let cg1 = a.l1_frame(c);
                    assert(a.sframes()[ti] == g1);
                    assert(a.sframes()[a.idx(cg1)] == cg1);
                    assert(cg1 == g1);
                    let ci3 = a.idx(cg3);
                    let ci2 = a.idx(cg2);
                    assert(followed(a.slevels()[ri] as int, a.words_of(ri)[cl4]));
                    assert(a.has_frame(cg3) && a.lvl(cg3) == 3);
                    assert(followed(a.slevels()[ci3] as int, a.words_of(ci3)[cl3]));
                    assert(a.has_frame(cg2) && a.lvl(cg2) == 2);
                    assert(followed(a.slevels()[ci2] as int, a.words_of(ci2)[cl2]));
                    // unique parent of the level-1 table
                    assert(spec_entry_addr(a.words_of(i2)[l2]) == spec_entry_addr(
                        a.words_of(ci2)[cl2],
                    ));
                    assert(i2 == ci2 && l2 == cl2);
                    // unique parent of the level-2 table
                    assert(g2 == cg2);
                    assert(spec_entry_addr(a.words_of(i3)[l3]) == spec_entry_addr(
                        a.words_of(ci3)[cl3],
                    ));
                    assert(i3 == ci3 && l3 == cl3);
                    // unique parent of the level-3 table
                    assert(g3 == cg3);
                    assert(spec_entry_addr(a.words_of(ri)[l4]) == spec_entry_addr(
                        a.words_of(ri)[cl4],
                    ));
                    assert(l4 == cl4);
                    // all digits agree, so the pages agree
                    assert(l1 != slot);
                    assert(b.words_of(ti)[l1] == a.words_of(ti)[l1]);
                } else {
                    assert(b.words_of(i1) == a.words_of(i1));
                }
            }
        }
    }
}

} // verus!

verus! {

/// Shared shape of installing a huge mapping: arena `b` is arena `a` with
/// one previously absent slot of the level-2 table `ti` rewritten to a
/// word whose huge flag is set.
pub open spec fn huge_write_step(a: PageTableArena, b: PageTableArena, ti: int, slot: int) -> bool {
    &&& a.wf()
    &&& 0 <= ti < a.num_tables()
    &&& 0 <= slot < 512
    &&& a.slevels()[ti] == 2
    &&& !spec_entry_present(a.words_of(ti)[slot])
    &&& b.sroot() == a.sroot()
    &&& b.sframes() == a.sframes()
    &&& b.slevels() == a.slevels()
    &&& b.num_tables() == a.num_tables()
    &&& (forall|j: int| 0 <= j < a.num_tables() && j != ti ==> b.words_of(j) == a.words_of(j))
    &&& b.words_of(ti) == a.words_of(ti).update(slot, b.words_of(ti)[slot])
    &&& spec_entry_huge(b.words_of(ti)[slot])
}

/// A huge word is never followed, so writing one leaves the arena well
/// formed.
proof fn lemma_huge_write_wf(a: PageTableArena, b: PageTableArena, ti: int, slot: int)
    requires
        huge_write_step(a, b, ti, slot),
    ensures
        b.wf(),
        forall|g: u64|
            #[trigger] a.has_frame(g) ==> b.has_frame(g) && b.idx(g) == a.idx(g) && b.lvl(g)
                == a.lvl(g),
{
    assert forall|g: u64|
        #[trigger] a.has_frame(g) implies b.has_frame(g) && b.idx(g) == a.idx(g) && b.lvl(g)
        == a.lvl(g) by {
        let j = a.idx(g);
        assert(a.sframes()[j] == g);
    }
    assert forall|i: int| 0 <= i < b.num_tables() implies (#[trigger] b.words_of(i)).len()
        == 512 by {
        if i != ti {
            assert(b.words_of(i) == a.words_of(i));
        }
    }
    assert forall|i: int, k: int|
        0 <= i < b.num_tables() && 0 <= k < 512 && b.slevels()[i] >= 2 && followed(
            b.slevels()[i] as int,
            #[trigger] b.words_of(i)[k],
        ) implies b.has_frame(spec_entry_addr(b.words_of(i)[k])) && b.lvl(
        spec_entry_addr(b.words_of(i)[k]),
    ) == b.slevels()[i] - 1 && spec_entry_addr(b.words_of(i)[k]) != b.sroot() by {
        if i == ti && k == slot {
            assert(!followed(2, b.words_of(ti)[slot]));
        } else {
            assert(b.words_of(i)[k] == a.words_of(i)[k]);
            let g = spec_entry_addr(a.words_of(i)[k]);
            assert(a.has_frame(g) && a.lvl(g) == a.slevels()[i] - 1);
        }
    }
    assert forall|i: int, k: int, i2: int, k2: int|
        0 <= i < b.num_tables() && 0 <= k < 512 && b.slevels()[i] >= 2 && 0 <= i2
            < b.num_tables() && 0 <= k2 < 512 && b.slevels()[i2] >= 2 && followed(
            b.slevels()[i] as int,
            #[trigger] b.words_of(i)[k],
        ) && followed(b.slevels()[i2] as int, #[trigger] b.words_of(i2)[k2]) && spec_entry_addr(
            b.words_of(i)[k],
        ) == spec_entry_addr(b.words_of(i2)[k2]) implies i == i2 && k == k2 by {
        if i == ti && k == slot {
            assert(!followed(2, b.words_of(ti)[slot]));
        } else if i2 == ti && k2 == slot {
            assert(!followed(2, b.words_of(ti)[slot]));
        } else {
            assert(b.words_of(i)[k] == a.words_of(i)[k]);
            assert(b.words_of(i2)[k2] == a.words_of(i2)[k2]);
        }
    }
}

/// What a huge write does to each walk: pages whose first three level
/// indices lead to the written slot now stop there with the huge
/// condition; every other page reads exactly what it read before.
proof fn lemma_huge_write_walks(
    a: PageTableArena,
    b: PageTableArena,
    ti: int,
    slot: int,
    c: u64,
    c2: u64,
)
    requires
        huge_write_step(a, b, ti, slot),
        c < MAX_PAGE_CANONICAL_NUM,
        c2 < MAX_PAGE_CANONICAL_NUM,
        spec_entry_present(a.w4_of(c)),
        spec_entry_present(a.w3_of(c)),
        a.idx(spec_entry_addr(a.w3_of(c))) == ti,
        spec_level2_idx(c) == slot,
    ensures
        c2 / 512 == c / 512 ==> b.spec_page_entry(c2) == Err::<u64, PageEntryError>(
            PageEntryError::HugePage,
        ) && b.spec_is_present(c2),
        c2 / 512 != c / 512 ==> b.spec_page_entry(c2) == a.spec_page_entry(c2),
{
    lemma_huge_write_wf(a, b, ti, slot);
    crate::page::lemma_level_decomposition(c);
    crate::page::lemma_level_decomposition(c2);
    lemma_block_digits(c);
    lemma_block_digits(c2);
    let root = a.sroot();
    let ri = a.idx(root);
    assert(a.sframes()[ri] == root);
    assert(ri != ti);
    assert(b.words_of(ri) == a.words_of(ri));
    let l4 = spec_level4_idx(c2);
    let l3 = spec_level3_idx(c2);
    let l2 = spec_level2_idx(c2);
    let cl4 = spec_level4_idx(c);
    let cl3 = spec_level3_idx(c);
    let cg3 = spec_entry_addr(a.w4_of(c));
    assert(followed(a.slevels()[ri] as int, a.words_of(ri)[cl4]));
    assert(a.has_frame(cg3) && a.lvl(cg3) == 3);
    let ci3 = a.idx(cg3);
    assert(followed(a.slevels()[ci3] as int, a.words_of(ci3)[cl3]));
    if c2 / 512 == c / 512 {
        assert(l4 == cl4 && l3 == cl3 && l2 == slot);
        assert(b.w4_of(c2) == a.w4_of(c));
        assert(b.idx(cg3) == ci3 && b.words_of(ci3) == a.words_of(ci3)) by {
            assert(ci3 != ti);
        }
        assert(b.w3_of(c2) == a.w3_of(c));
        assert(b.idx(spec_entry_addr(b.w3_of(c2))) == ti);
        assert(b.w2_of(c2) == b.words_of(ti)[slot]);
        assert(spec_entry_huge(b.w2_of(c2)));
    } else {
        let w4 = a.tbl(root)[l4];
        assert(b.tbl(b.sroot())[l4] == w4);
        if spec_entry_present(w4) {
            assert(followed(a.slevels()[ri] as int, a.words_of(ri)[l4]));
            let g3 = spec_entry_addr(w4);
            assert(a.has_frame(g3) && a.lvl(g3) == 3);
            let i3 = a.idx(g3);
            assert(i3 != ti);
            assert(b.idx(g3) == i3 && b.words_of(i3) == a.words_of(i3));
            let w3 = a.tbl(g3)[l3];
            if spec_entry_present(w3) {
                assert(followed(a.slevels()[i3] as int, a.words_of(i3)[l3]));
                let g2 = spec_entry_addr(w3);
                assert(a.has_frame(g2) && a.lvl(g2) == 2);
                let i2 = a.idx(g2);
                assert(b.idx(g2) == i2);
                if i2 == ti && l2 == slot {
                    // the two walks would share the written slot, so all
                    // three leading digits agree: targets are unique
                    assert(spec_entry_addr(a.words_of(i3)[l3]) == spec_entry_addr(
                        a.words_of(ci3)[cl3],
                    ));
                    assert(i3 == ci3 && l3 == cl3);
                    assert(g3 == cg3);
                    assert(spec_entry_addr(a.words_of(ri)[l4]) == spec_entry_addr(
                        a.words_of(ri)[cl4],
                    ));
                    assert(l4 == cl4);
                    assert(c2 / 512 == c / 512);
                } else {
                    if i2 == ti {
                        assert(b.words_of(ti)[l2] == a.words_of(ti)[l2]);
                    } else {
                        assert(b.words_of(i2) == a.words_of(i2));
                    }
                    let w2 = a.tbl(g2)[l2];
                    assert(b.tbl(g2)[l2] == w2);
                    if !spec_entry_huge(w2) && spec_entry_present(w2) {
                        assert(followed(a.slevels()[i2] as int, a.words_of(i2)[l2]));
                        let g1 = spec_entry_addr(w2);
                        assert(a.has_frame(g1) && a.lvl(g1) == 1);
                        let i1 = a.idx(g1);
                        assert(i1 != ti);
                        assert(b.idx(g1) == i1 && b.words_of(i1) == a.words_of(i1));
                    }
                }
            }
        }
    }
}

/// The first three level indices of a canonical page number are exactly
/// its quotient by 512: pages of one 2 MiB block share them.
proof fn lemma_block_digits(c: u64)
    by (nonlinear_arith)
    requires
        c < 0x10_0000_0000u64,
    ensures
        c as int / 512 == spec_level4_idx(c) * (512 * 512) + spec_level3_idx(c) * 512
            + spec_level2_idx(c),
{
}

} // verus!
