//! Virtual page numbers and their decomposition into the four 9-bit
//! page-table indices.
//!
//! A page number is the virtual address divided by the page size. Only its
//! low 36 bits — the canonical page number, matching the four-level, 512-way
//! table — take part in table indexing: `level4` is the most significant
//! base-512 digit and `level1` the least.
use crate::addr::{is_canonical, VirtAddr};
use crate::entry::PAGE_SIZE;
use vstd::prelude::*;

verus! {

/// Number of entries in one page table.
pub const PAGE_TABLE_ENTRY_NUM: usize = 512;

/// Mask keeping the 36 bits of a page number that index the tables.
pub const CANONICAL_MASK: u64 = 0xf_ffff_ffff;

/// One past the largest canonical page number: `512^4`.
pub const MAX_PAGE_CANONICAL_NUM: u64 = 512 * 512 * 512 * 512;

/// A page number with its sign-extension bits masked away.
pub open spec fn canonical_of(num: u64) -> u64 {
    num & 0xf_ffff_ffffu64
}

/// Base-512 digits of a canonical page number.
pub open spec fn spec_level4_idx(c: u64) -> int {
    c as int / (512int * 512 * 512)
}

pub open spec fn spec_level3_idx(c: u64) -> int {
    (c as int / (512int * 512)) % 512int
}

pub open spec fn spec_level2_idx(c: u64) -> int {
    (c as int / 512int) % 512int
}

pub open spec fn spec_level1_idx(c: u64) -> int {
    c as int % 512int
}

/// Masking to 36 bits is the same as reducing modulo `512^4`.
pub proof fn lemma_canonical_is_mod(num: u64)
    by (bit_vector)
    ensures
        num & 0xf_ffff_ffffu64 == num % 0x10_0000_0000u64,
        num & 0xf_ffff_ffffu64 < 0x10_0000_0000u64,
{
}

/// The four level indices are the base-512 digits of the canonical page
/// number: they each stay below 512 and reassemble it positionally.
pub proof fn lemma_level_decomposition(c: u64)
    by (nonlinear_arith)
    requires
        c < 0x10_0000_0000u64,
    ensures
        0 <= spec_level4_idx(c) < 512,
        0 <= spec_level3_idx(c) < 512,
        0 <= spec_level2_idx(c) < 512,
        0 <= spec_level1_idx(c) < 512,
        spec_level4_idx(c) * (512 * 512 * 512) + spec_level3_idx(c) * (512 * 512)
            + spec_level2_idx(c) * 512 + spec_level1_idx(c) == c,
{
}

/// A page of the virtual address space.
#[derive(Clone, Copy, PartialEq, Eq, Structural, Debug)]
pub struct Page {
    num: u64,
}

impl Page {
    pub closed spec fn spec_num(self) -> u64 {
        self.num
    }

    /// The canonical (table-indexing) part of the page number.
    pub open spec fn spec_canonical(self) -> u64 {
        canonical_of(self.spec_num())
    }

    pub fn new(num: u64) -> (r: Page)
        ensures
            r.spec_num() == num,
    {
        Page { num }
    }

    /// Make a page out of the virtual address it starts at.
    pub fn from_virt_addr(value: VirtAddr) -> (r: Page)
        requires
            is_canonical(value.0),
        ensures
            r.spec_num() == value.0 / PAGE_SIZE,
    {
        Page { num: value.0 / PAGE_SIZE }
    }

    /// The virtual address at which the page starts.
    pub fn to_virt_addr(self) -> (r: VirtAddr)
        requires
            self.spec_num() * PAGE_SIZE <= u64::MAX,
        ensures
            r.0 == self.spec_num() * PAGE_SIZE,
    {
        VirtAddr(self.num * PAGE_SIZE)
    }

    pub fn num(&self) -> (r: u64)
        ensures
            r == self.spec_num(),
    {
        self.num
    }

    /// The canonical page number.
    fn canonical_num(&self) -> (r: u64)
        ensures
            r == self.spec_canonical(),
            r < MAX_PAGE_CANONICAL_NUM,
    {
        proof {
            lemma_canonical_is_mod(self.num);
        }
        self.num & CANONICAL_MASK
    }

    pub fn level4_idx(&self) -> (r: usize)
        ensures
            r == spec_level4_idx(self.spec_canonical()),
            r < 512,
    {
        proof {
            lemma_canonical_is_mod(self.num);
            lemma_level_decomposition(self.spec_canonical());
        }
        (self.canonical_num() / (512 * 512 * 512)) as usize
    }

    pub fn level3_idx(&self) -> (r: usize)
        ensures
            r == spec_level3_idx(self.spec_canonical()),
            r < 512,
    {
        proof {
            lemma_canonical_is_mod(self.num);
            lemma_level_decomposition(self.spec_canonical());
        }
        ((self.canonical_num() / (512 * 512)) % 512) as usize
    }

    pub fn level2_idx(&self) -> (r: usize)
        ensures
            r == spec_level2_idx(self.spec_canonical()),
            r < 512,
    {
        proof {
            lemma_canonical_is_mod(self.num);
            lemma_level_decomposition(self.spec_canonical());
        }
        ((self.canonical_num() / 512) % 512) as usize
    }

    pub fn level1_idx(&self) -> (r: usize)
        ensures
            r == spec_level1_idx(self.spec_canonical()),
            r < 512,
    {
        proof {
            lemma_canonical_is_mod(self.num);
            lemma_level_decomposition(self.spec_canonical());
        }
        (self.canonical_num() % 512) as usize
    }

    /// The page right after this one, while the canonical space lasts.
    pub fn next(&self) -> (r: Option<Page>)
        ensures
            self.spec_canonical() + 1 < MAX_PAGE_CANONICAL_NUM ==> (r matches Some(p)
                && p.spec_num() == self.spec_num() + 1),
            self.spec_canonical() + 1 >= MAX_PAGE_CANONICAL_NUM ==> r is None,
    {
        self.next_by(1)
    }

    /// Step `num` pages forward, refusing to leave the canonical space.
    pub fn next_by(&self, num: u64) -> (r: Option<Page>)
        ensures
            self.spec_canonical() + num < MAX_PAGE_CANONICAL_NUM ==> (r matches Some(p)
                && p.spec_num() == self.spec_num() + num),
            self.spec_canonical() + num >= MAX_PAGE_CANONICAL_NUM ==> r is None,
    {
        proof {
            lemma_canonical_is_mod(self.num);
            let x = self.num;
            let k = num;
            assert((x & 0xf_ffff_ffffu64) + k < 0x10_0000_0000u64 ==> x + k
                <= 0xffff_ffff_ffff_ffffu64) by (bit_vector);
        }
        if num < MAX_PAGE_CANONICAL_NUM && self.canonical_num() + num <= u64::MAX
            && self.canonical_num() + num < MAX_PAGE_CANONICAL_NUM {
            Some(Page { num: self.num + num })
        } else {
            None
        }
    }
}

/// Round trip between pages and virtual addresses: any page whose starting
/// address exists and is canonical is recovered exactly from that address.
pub proof fn lemma_page_virt_round_trip(num: u64)
    requires
        num * PAGE_SIZE <= u64::MAX,
    ensures
        (num * PAGE_SIZE) as u64 / PAGE_SIZE == num,
{
    assert(num * 0x1000 as int / 0x1000 as int == num) by (nonlinear_arith);
}

/// A contiguous, inclusive range of pages.
#[derive(Clone, Copy, PartialEq, Eq, Structural, Debug)]
pub struct PageIter {
    pub start: Page,
    pub end: Page,
}

impl PageIter {
    /// The first page of the range.
    pub fn first(&self) -> (r: Page)
        ensures
            r == self.start,
    {
        self.start
    }

    /// The last page of the range.
    pub fn last_page(&self) -> (r: Page)
        ensures
            r == self.end,
    {
        self.end
    }
}

} // verus!
