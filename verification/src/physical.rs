//! The physical frame allocator: a fixed-capacity bitmap over one
//! contiguous physical region.
//!
//! Bit `i` set means the frame at `offset + i * PAGE_SIZE` is in use.
//! Allocation takes the first clear bit; freeing clears the frame's bit and
//! must never hit an already-clear one; a fixed range can be reserved
//! whole, or not at all.
use crate::addr::PhyAddr;
use crate::entry::{addr_fits_entry, ADDRESS_SPACE_END, PAGE_SIZE};
use vstd::prelude::*;

verus! {

/// Number of frames the bitmap can track: enough for 32 GiB of memory.
pub const BITMAP_SIZE: usize = 8388608;

/// Index of the first clear bit at or after `i`, if any.
pub open spec fn first_clear_from(s: Seq<bool>, i: int) -> Option<int>
    decreases s.len() - i,
{
    if i < 0 || i >= s.len() {
        None
    } else if !s[i] {
        Some(i)
    } else {
        first_clear_from(s, i + 1)
    }
}

pub open spec fn first_clear(s: Seq<bool>) -> Option<int> {
    first_clear_from(s, 0)
}

/// Number of clear bits at or after `i`.
pub open spec fn count_clear_from(s: Seq<bool>, i: int) -> nat
    decreases s.len() - i,
{
    if i < 0 || i >= s.len() {
        0
    } else {
        (if !s[i] {
            1nat
        } else {
            0nat
        }) + count_clear_from(s, i + 1)
    }
}

pub open spec fn count_clear(s: Seq<bool>) -> nat {
    count_clear_from(s, 0)
}

/// What `first_clear_from` finds: the least clear index, every bit before
/// it being set; or nothing, when every bit from `i` on is set.
pub proof fn lemma_first_clear_from(s: Seq<bool>, i: int)
    requires
        0 <= i <= s.len(),
    ensures
        match first_clear_from(s, i) {
            Some(j) => i <= j < s.len() && !s[j] && (forall|k: int| i <= k < j ==> s[k]),
            None => forall|k: int| i <= k < s.len() ==> s[k],
        },
    decreases s.len() - i,
{
    if i < s.len() {
        if s[i] {
            lemma_first_clear_from(s, i + 1);
        }
    }
}

/// A positive clear count guarantees that a clear bit is found.
pub proof fn lemma_count_clear_pos(s: Seq<bool>, i: int)
    requires
        0 <= i <= s.len(),
        count_clear_from(s, i) > 0,
    ensures
        first_clear_from(s, i) is Some,
    decreases s.len() - i,
{
    if i < s.len() && s[i] {
        lemma_count_clear_pos(s, i + 1);
    }
}

/// How updating one bit moves the clear count.
pub proof fn lemma_count_clear_update(s: Seq<bool>, i: int, j: int, b: bool)
    requires
        0 <= i <= s.len(),
        0 <= j < s.len(),
    ensures
        count_clear_from(s.update(j, b), i) == count_clear_from(s, i) + (if j >= i {
            (if !b {
                1int
            } else {
                0int
            }) - (if !s[j] {
                1int
            } else {
                0int
            })
        } else {
            0int
        }),
    decreases s.len() - i,
{
    if i < s.len() {
        lemma_count_clear_update(s, i + 1, j, b);
    }
}

/// The fixed-capacity bitmap allocator over one physical region.
pub struct BasicPhysicalAllocator {
    bitmap: Vec<bool>,
    offset: PhyAddr,
    limit: u64,
}

impl BasicPhysicalAllocator {
    /// One bit per frame.
    pub closed spec fn bits(self) -> Seq<bool> {
        self.bitmap@
    }

    /// Base physical address of the tracked region.
    pub closed spec fn spec_offset(self) -> u64 {
        self.offset.0
    }

    /// Usable byte span reported at configuration time.
    pub closed spec fn spec_limit(self) -> u64 {
        self.limit
    }

    /// The bitmap is full-sized and the region base is frame-aligned and
    /// low enough that every tracked frame fits a page-table entry.
    pub open spec fn wf(self) -> bool {
        &&& self.bits().len() == BITMAP_SIZE
        &&& self.spec_offset() % PAGE_SIZE == 0
        &&& self.spec_offset() + BITMAP_SIZE * PAGE_SIZE <= ADDRESS_SPACE_END
    }

    /// The physical frame base that bit `i` stands for.
    pub open spec fn frame_at(self, i: int) -> u64 {
        (self.spec_offset() + i * PAGE_SIZE) as u64
    }

    /// Whether `f` is a frame base the bitmap tracks.
    pub open spec fn tracks(self, f: u64) -> bool {
        &&& f % PAGE_SIZE == 0
        &&& self.spec_offset() <= f
        &&& f < self.spec_offset() + BITMAP_SIZE * PAGE_SIZE
    }

    /// The bit index of a tracked frame.
    pub open spec fn index_of(self, f: u64) -> int {
        (f - self.spec_offset()) / PAGE_SIZE as int
    }

    /// A tracked frame is recovered exactly from its bit index.
    pub proof fn lemma_track_round_trip(self, f: u64)
        requires
            self.wf(),
            self.tracks(f),
        ensures
            0 <= self.index_of(f) < BITMAP_SIZE,
            self.frame_at(self.index_of(f)) == f,
    {
        let off = self.spec_offset() as int;
        let d = f - off;
        assert(d % 0x1000 == 0 && d / 0x1000 * 0x1000 == d) by (nonlinear_arith)
            requires
                f % 0x1000 == 0,
                off % 0x1000 == 0,
                0 <= off <= f,
                d == f - off,
        ;
        assert(d / 0x1000 < BITMAP_SIZE) by (nonlinear_arith)
            requires
                0 <= d < BITMAP_SIZE * 0x1000,
        ;
    }

    /// Conversely, every bit of the map stands for a tracked frame.
    pub proof fn lemma_frame_at_tracked(self, i: int)
        requires
            self.wf(),
            0 <= i < BITMAP_SIZE,
        ensures
            self.tracks(self.frame_at(i)),
            self.index_of(self.frame_at(i)) == i,
            addr_fits_entry(self.frame_at(i)),
    {
        let off = self.spec_offset() as int;
        assert((off + i * 0x1000) % 0x1000 == 0 && (off + i * 0x1000 - off) / 0x1000 == i && 0
            <= i * 0x1000 < BITMAP_SIZE * 0x1000) by (nonlinear_arith)
            requires
                off % 0x1000 == 0,
                off >= 0,
                0 <= i < BITMAP_SIZE,
        ;
    }

    /// A fresh allocator over the region starting at `offset`, with every
    /// frame free and a zero limit.
    pub fn new(offset: PhyAddr) -> (r: BasicPhysicalAllocator)
        requires
            offset.0 % PAGE_SIZE == 0,
            offset.0 + BITMAP_SIZE * PAGE_SIZE <= ADDRESS_SPACE_END,
        ensures
            r.wf(),
            r.spec_offset() == offset.0,
            r.spec_limit() == 0,
            forall|k: int| 0 <= k < BITMAP_SIZE ==> !r.bits()[k],
    {
        let mut bitmap: Vec<bool> = Vec::new();
        let mut i: usize = 0;
        while i < BITMAP_SIZE
            invariant
                i <= BITMAP_SIZE,
                bitmap@.len() == i,
                forall|k: int| 0 <= k < i ==> !bitmap@[k],
            decreases BITMAP_SIZE - i,
        {
            bitmap.push(false);
            i = i + 1;
        }
        BasicPhysicalAllocator { bitmap, offset, limit: 0 }
    }

    /// The base of the tracked region.
    pub fn offset(&self) -> (r: PhyAddr)
        ensures
            r.0 == self.spec_offset(),
    {
        self.offset
    }

    /// The configured usable byte span.
    pub fn limit(&self) -> (r: u64)
        ensures
            r == self.spec_limit(),
    {
        self.limit
    }

    /// Number of free frames: the clear bits of the map. Callers can test
    /// with it that enough frames remain before asking for pages.
    pub fn free_frames(&self) -> (r: usize)
        ensures
            r == count_clear(self.bits()),
    {
        let n = self.bitmap.len();
        let mut cnt: usize = 0;
        let mut i: usize = 0;
        while i < n
            invariant
                n == self.bits().len(),
                i <= n,
                cnt <= i,
                cnt + count_clear_from(self.bits(), i as int) == count_clear(self.bits()),
            decreases n - i,
        {
            if !self.bitmap[i] {
                cnt = cnt + 1;
            }
            i = i + 1;
        }
        cnt
    }

    /// Whether bit `index` is marked used.
    pub fn is_frame_used(&self, index: usize) -> (r: bool)
        requires
            index < self.bits().len(),
        ensures
            r == self.bits()[index as int],
    {
        self.bitmap[index]
    }

    /// Move the tracked region to a new frame-aligned base.
    pub fn set_offset(&mut self, offset: PhyAddr)
        requires
            offset.0 % PAGE_SIZE == 0,
            offset.0 + BITMAP_SIZE * PAGE_SIZE <= ADDRESS_SPACE_END,
        ensures
            final(self).spec_offset() == offset.0,
            final(self).bits() == old(self).bits(),
            final(self).spec_limit() == old(self).spec_limit(),
    {
        self.offset = offset;
    }

    /// The usable byte span, open for the caller to set.
    pub fn limit_mut(&mut self) -> (r: &mut u64)
        ensures
            *r == old(self).spec_limit(),
            final(self).spec_limit() == *final(r),
            final(self).bits() == old(self).bits(),
            final(self).spec_offset() == old(self).spec_offset(),
    {
        &mut self.limit
    }

    /// Bytes of one frame.
    pub fn frame_size() -> (r: u64)
        ensures
            r == PAGE_SIZE,
    {
        4096
    }

    /// Take the first free frame, marking its bit; with every bit already
    /// set, hand back address zero and change nothing. (Address zero is
    /// also a real frame when the region starts at zero: the caller cannot
    /// tell exhaustion apart from that frame.)
    pub fn allocate_frame(&mut self) -> (r: PhyAddr)
        requires
            old(self).wf(),
        ensures
            final(self).wf(),
            final(self).spec_offset() == old(self).spec_offset(),
            final(self).spec_limit() == old(self).spec_limit(),
            match first_clear(old(self).bits()) {
                Some(i) => {
                    &&& r.0 == old(self).frame_at(i)
                    &&& final(self).bits() == old(self).bits().update(i, true)
                    &&& addr_fits_entry(r.0)
                    &&& old(self).tracks(r.0)
                    &&& old(self).index_of(r.0) == i
                },
                None => r.0 == 0 && final(self).bits() == old(self).bits(),
            },
    {
        let ghost s = self.bitmap@;
        let mut i: usize = 0;
        loop
            invariant
                *self == *old(self),
                self.wf(),
                s == self.bitmap@,
                i <= BITMAP_SIZE,
                forall|k: int| 0 <= k < i ==> s[k],
            decreases BITMAP_SIZE - i,
        {
            if i == BITMAP_SIZE {
                proof {
                    lemma_first_clear_from(s, 0);
                    if first_clear(s) is Some {
                        let j = first_clear(s)->Some_0;
                        assert(s[j]);
                    }
                }
                return PhyAddr(0);
            }
            if !self.bitmap[i] {
                proof {
                    lemma_first_clear_from(s, 0);
                    lemma_first_clear_is(s, i as int);
                    self.lemma_frame_at_tracked(i as int);
                }
                self.bitmap[i] = true;
                return PhyAddr((i as u64) * 4096 + self.offset.0);
            }
            i = i + 1;
        }
    }

    /// Release one tracked frame: its bit must be set, and is cleared.
    /// Freeing a misaligned address, an untracked one, or a frame that is
    /// already free is the caller's fault and stays outside this contract.
    pub fn free_frame(&mut self, frame: PhyAddr)
        requires
            old(self).wf(),
            old(self).tracks(frame.0),
            old(self).bits()[old(self).index_of(frame.0)],
        ensures
            final(self).wf(),
            final(self).spec_offset() == old(self).spec_offset(),
            final(self).spec_limit() == old(self).spec_limit(),
            final(self).bits() == old(self).bits().update(old(self).index_of(frame.0), false),
    {
        proof {
            self.lemma_track_round_trip(frame.0);
        }
        let index: u64 = (frame.0 - self.offset.0) / 4096;
        self.bitmap[index as usize] = false;
    }

    /// Reserve the `frame_count` frames starting exactly at `phy_addr`:
    /// all of them are marked used, unless any is already used, in which
    /// case nothing changes and the reservation is refused.
    pub fn alloc_phy_addr(&mut self, phy_addr: PhyAddr, frame_count: usize) -> (r: Option<
        PhyAddr,
    >)
        requires
            old(self).wf(),
            old(self).tracks(phy_addr.0),
            old(self).index_of(phy_addr.0) + frame_count <= BITMAP_SIZE,
        ensures
            final(self).wf(),
            final(self).spec_offset() == old(self).spec_offset(),
            final(self).spec_limit() == old(self).spec_limit(),
            ({
                let idx = old(self).index_of(phy_addr.0);
                if forall|k: int| idx <= k < idx + frame_count ==> !old(self).bits()[k] {
                    &&& r == Some(phy_addr)
                    &&& final(self).bits().len() == old(self).bits().len()
                    &&& count_clear(final(self).bits()) == count_clear(old(self).bits())
                        - frame_count
                    &&& forall|k: int|
                        0 <= k < BITMAP_SIZE ==> final(self).bits()[k] == (if idx <= k < idx
                            + frame_count {
                            true
                        } else {
                            old(self).bits()[k]
                        })
                } else {
                    r is None && final(self).bits() == old(self).bits()
                }
            }),
    {
        proof {
            self.lemma_track_round_trip(phy_addr.0);
        }
        let index: u64 = (phy_addr.0 - self.offset.0) / 4096;
        let idx: usize = index as usize;
        let ghost s = self.bitmap@;
        let mut i: usize = 0;
        while i < frame_count
            invariant
                *self == *old(self),
                self.wf(),
                s == self.bitmap@,
                idx == old(self).index_of(phy_addr.0),
                idx + frame_count <= BITMAP_SIZE,
                i <= frame_count,
                forall|k: int| idx <= k < idx + i ==> !s[k],
            decreases frame_count - i,
        {
            if self.bitmap[idx + i] {
                return None;
            }
            i = i + 1;
        }
        let mut j: usize = 0;
        while j < frame_count
            invariant
                self.wf(),
                self.bitmap@.len() == s.len(),
                self.spec_offset() == old(self).spec_offset(),
                self.spec_limit() == old(self).spec_limit(),
                s == old(self).bits(),
                idx == old(self).index_of(phy_addr.0),
                idx + frame_count <= BITMAP_SIZE,
                j <= frame_count,
                forall|k: int| idx <= k < idx + frame_count ==> !s[k],
                count_clear(self.bitmap@) == count_clear(s) - j,
                forall|k: int|
                    0 <= k < BITMAP_SIZE ==> self.bitmap@[k] == (if idx <= k < idx + j {
                        true
                    } else {
                        s[k]
                    }),
            decreases frame_count - j,
        {
            proof {
                lemma_count_clear_update(self.bitmap@, 0, (idx + j) as int, true);
            }
            self.bitmap[idx + j] = true;
            j = j + 1;
        }
        Some(phy_addr)
    }
}

/// A clear bit preceded only by set bits is exactly what the first-fit
/// search finds.
pub proof fn lemma_first_clear_is(s: Seq<bool>, i: int)
    requires
        0 <= i < s.len(),
        !s[i],
        forall|k: int| 0 <= k < i ==> s[k],
    ensures
        first_clear(s) == Some(i),
{
    lemma_first_clear_is_from(s, 0, i);
}

proof fn lemma_first_clear_is_from(s: Seq<bool>, lo: int, i: int)
    requires
        0 <= lo <= i < s.len(),
        !s[i],
        forall|k: int| lo <= k < i ==> s[k],
    ensures
        first_clear_from(s, lo) == Some(i),
    decreases i - lo,
{
    if lo < i {
        lemma_first_clear_is_from(s, lo + 1, i);
    }
}

} // verus!

verus! {

/// The bitmap after one first-fit allocation.
pub open spec fn mark_one(s: Seq<bool>) -> Seq<bool> {
    match first_clear(s) {
        Some(i) => s.update(i, true),
        None => s,
    }
}

/// The bitmap after `n` first-fit allocations in a row.
pub open spec fn mark_n(s: Seq<bool>, n: nat) -> Seq<bool>
    decreases n,
{
    if n == 0 {
        s
    } else {
        mark_n(mark_one(s), (n - 1) as nat)
    }
}

/// The bit taken by the `i`-th of those allocations.
pub open spec fn clear_at(s: Seq<bool>, i: nat) -> int {
    match first_clear(mark_n(s, i)) {
        Some(j) => j,
        None => -1,
    }
}

/// Appending one more allocation to a row of `n`.
pub proof fn lemma_mark_n_snoc(s: Seq<bool>, n: nat)
    ensures
        mark_n(s, (n + 1) as nat) == mark_one(mark_n(s, n)),
    decreases n,
{
    if n == 0 {
        assert(mark_n(s, 1) == mark_n(mark_one(s), 0));
        assert(mark_n(mark_one(s), 0) == mark_one(s));
        assert(mark_n(s, 0) == s);
    } else {
        lemma_mark_n_snoc(mark_one(s), (n - 1) as nat);
        assert(mark_n(s, (n + 1) as nat) == mark_n(mark_one(s), n));
        assert(mark_n(s, n) == mark_n(mark_one(s), (n - 1) as nat));
    }
}

/// What a row of `n` first-fit allocations does to the bitmap: it takes
/// `n` distinct bits that were clear, sets exactly those, and leaves the
/// clear count lower by `n`.
pub proof fn lemma_mark_n_props(s: Seq<bool>, n: nat)
    requires
        count_clear(s) >= n,
    ensures
        mark_n(s, n).len() == s.len(),
        count_clear(mark_n(s, n)) == count_clear(s) - n,
        forall|i: nat| i < n ==> 0 <= #[trigger] clear_at(s, i) < s.len() && !s[clear_at(s, i)],
        forall|i: nat, j: nat|
            i < j < n ==> #[trigger] clear_at(s, i) != #[trigger] clear_at(s, j),
        forall|k: int|
            0 <= k < s.len() && !(exists|i: nat| i < n && k == #[trigger] clear_at(s, i))
                ==> mark_n(s, n)[k] == s[k],
        forall|i: nat| i < n ==> mark_n(s, n)[#[trigger] clear_at(s, i)],
    decreases n,
{
    if n > 0 {
        lemma_count_clear_pos(s, 0);
        let fc = first_clear(s)->Some_0;
        lemma_first_clear_from(s, 0);
        lemma_count_clear_update(s, 0, fc, true);
        let mo = mark_one(s);
        assert(mo == s.update(fc, true));
        lemma_mark_n_props(mo, (n - 1) as nat);
        assert(mark_n(s, 0) == s);
        assert(clear_at(s, 0) == fc);
        assert forall|i: nat| 1 <= i < n implies #[trigger] clear_at(s, i) == clear_at(
            mo,
            (i - 1) as nat,
        ) by {
            assert(mark_n(s, i) == mark_n(mo, (i - 1) as nat));
        }
        assert forall|i: nat|
            i < n implies 0 <= #[trigger] clear_at(s, i) < s.len() && !s[clear_at(s, i)] by {
            if i >= 1 {
                let ca = clear_at(mo, (i - 1) as nat);
                assert(!mo[ca]);
                assert(ca != fc);
            }
        }
        assert forall|i: nat, j: nat|
            i < j < n implies #[trigger] clear_at(s, i) != #[trigger] clear_at(s, j) by {
            let caj = clear_at(mo, (j - 1) as nat);
            assert(!mo[caj]);
            if i == 0 {
                assert(mo[fc]);
            }
        }
        assert forall|k: int|
            0 <= k < s.len() && !(exists|i: nat| i < n && k == #[trigger] clear_at(s, i))
                implies mark_n(s, n)[k] == s[k] by {
            assert(k != fc) by {
                if k == fc {
                    assert(0nat < n && k == clear_at(s, 0nat));
                }
            }
            assert(!(exists|i: nat| i < n - 1 && k == #[trigger] clear_at(mo, i))) by {
                if exists|i: nat| i < n - 1 && k == #[trigger] clear_at(mo, i) {
                    let i = choose|i: nat| i < n - 1 && k == #[trigger] clear_at(mo, i);
                    assert(clear_at(s, (i + 1) as nat) == clear_at(mo, i));
                    assert(((i + 1) as nat) < n && k == clear_at(s, (i + 1) as nat));
                }
            }
            assert(mark_n(s, n) == mark_n(mo, (n - 1) as nat));
            assert(mark_n(mo, (n - 1) as nat)[k] == mo[k]);
            assert(mo[k] == s[k]);
        }
        assert forall|i: nat| i < n implies mark_n(s, n)[#[trigger] clear_at(s, i)] by {
            assert(mark_n(s, n) == mark_n(mo, (n - 1) as nat));
            if i == 0 {
                assert(mo[fc]);
                assert(!(exists|j: nat| j < n - 1 && fc == #[trigger] clear_at(mo, j))) by {
                    if exists|j: nat| j < n - 1 && fc == #[trigger] clear_at(mo, j) {
                        let j = choose|j: nat| j < n - 1 && fc == #[trigger] clear_at(mo, j);
                        assert(!mo[clear_at(mo, j)]);
                    }
                }
                assert(mark_n(mo, (n - 1) as nat)[fc] == mo[fc]);
            } else {
                assert(mark_n(mo, (n - 1) as nat)[clear_at(mo, (i - 1) as nat)]);
            }
        }
    } else {
        assert(mark_n(s, 0) == s);
    }
}

} // verus!

verus! {

/// Up to three conditional first-fit allocations in a row — each taken
/// only when its level of the walk was missing — amount to `mark_n` of
/// the count of missing levels, and each takes exactly the next first-fit
/// pick.
pub proof fn lemma_mark_chain(
    bits0: Seq<bool>,
    bits1: Seq<bool>,
    bits2: Seq<bool>,
    bits3: Seq<bool>,
    m3: bool,
    m2: bool,
    m1: bool,
)
    requires
        count_clear(bits0) >= 3,
        bits1 == if m3 {
            mark_one(bits0)
        } else {
            bits0
        },
        bits2 == if m2 {
            mark_one(bits1)
        } else {
            bits1
        },
        bits3 == if m1 {
            mark_one(bits2)
        } else {
            bits2
        },
        m3 ==> m2,
        m2 ==> m1,
    ensures
        bits3 == mark_n(
            bits0,
            ((if m3 {
                1int
            } else {
                0int
            }) + (if m2 {
                1int
            } else {
                0int
            }) + (if m1 {
                1int
            } else {
                0int
            })) as nat,
        ),
        m3 ==> first_clear(bits0) is Some && first_clear(bits0)->Some_0 == clear_at(bits0, 0),
        m2 ==> first_clear(bits1) is Some && first_clear(bits1)->Some_0 == clear_at(
            bits0,
            if m3 {
                1nat
            } else {
                0nat
            },
        ),
        m1 ==> first_clear(bits2) is Some && first_clear(bits2)->Some_0 == clear_at(
            bits0,
            ((if m3 {
                1int
            } else {
                0int
            }) + (if m2 {
                1int
            } else {
                0int
            })) as nat,
        ),
{
    let mo1 = mark_one(bits0);
    let mo2 = mark_one(mo1);
    let mo3 = mark_one(mo2);
    assert(mark_n(bits0, 0) == bits0);
    assert(mark_n(bits0, 1) == mark_n(mo1, 0));
    assert(mark_n(mo1, 0) == mo1);
    assert(mark_n(bits0, 2) == mark_n(mo1, 1));
    assert(mark_n(mo1, 1) == mark_n(mo2, 0));
    assert(mark_n(mo2, 0) == mo2);
    assert(mark_n(bits0, 3) == mark_n(mo1, 2));
    assert(mark_n(mo1, 2) == mark_n(mo2, 1));
    assert(mark_n(mo2, 1) == mark_n(mo3, 0));
    assert(mark_n(mo3, 0) == mo3);
    lemma_count_clear_pos(bits0, 0);
    lemma_first_clear_from(bits0, 0);
    let f0 = first_clear(bits0)->Some_0;
    lemma_count_clear_update(bits0, 0, f0, true);
    assert(count_clear(mo1) >= 2);
    lemma_count_clear_pos(mo1, 0);
    lemma_first_clear_from(mo1, 0);
    let f1 = first_clear(mo1)->Some_0;
    lemma_count_clear_update(mo1, 0, f1, true);
    assert(count_clear(mo2) >= 1);
    lemma_count_clear_pos(mo2, 0);
}

} // verus!
