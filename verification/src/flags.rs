//! Flag bits of a page-table entry.
//!
//! An entry word packs a frame-aligned physical address into bits 12..51;
//! every other bit is flag territory. A flag set is therefore any 64-bit
//! word that is disjoint from the address mask.
use vstd::prelude::*;

verus! {

/// Mask of the bits of an entry word that hold the physical address.
pub const PHYSICAL_ADDRESS_MASK: u64 = 0x000f_ffff_ffff_f000u64;

pub const PRESENT_BIT: u64 = 1u64;
pub const WRITABLE_BIT: u64 = 2u64;
pub const USER_ALLOWED_BIT: u64 = 4u64;
pub const CACHE_WRITE_THROUGH_BIT: u64 = 8u64;
pub const NO_CACHE_BIT: u64 = 16u64;
pub const ACCESSED_BIT: u64 = 32u64;
pub const DIRTY_BIT: u64 = 64u64;
pub const HUGE_PAGE_BIT: u64 = 128u64;
pub const GLOBAL_BIT: u64 = 256u64;
pub const NO_EXECUTE_BIT: u64 = 0x8000_0000_0000_0000u64;

/// A set of page-table entry flags: a word with no bits inside the
/// address mask.
#[derive(Clone, Copy, PartialEq, Eq, Structural, Debug)]
pub struct PageTableEntryFlags {
    bits: u64,
}

/// A word qualifies as a flag set when it stays clear of the address bits.
pub open spec fn flag_bits_ok(bits: u64) -> bool {
    bits & PHYSICAL_ADDRESS_MASK == 0
}

impl PageTableEntryFlags {
    pub closed spec fn spec_bits(self) -> u64 {
        self.bits
    }

    pub open spec fn wf(self) -> bool {
        flag_bits_ok(self.spec_bits())
    }

    /// The raw flag word.
    pub fn bits(&self) -> (r: u64)
        ensures
            r == self.spec_bits(),
    {
        self.bits
    }

    /// Keep whatever non-address bits the word holds, exactly as given.
    pub fn from_bits_retain(bits: u64) -> (r: PageTableEntryFlags)
        ensures
            r.spec_bits() == bits & !PHYSICAL_ADDRESS_MASK,
            r.wf(),
    {
        proof {
            assert((bits & !PHYSICAL_ADDRESS_MASK) & PHYSICAL_ADDRESS_MASK == 0) by (bit_vector);
        }
        PageTableEntryFlags { bits: bits & !PHYSICAL_ADDRESS_MASK }
    }

    /// No flags at all.
    pub fn empty() -> (r: PageTableEntryFlags)
        ensures
            r.spec_bits() == 0,
            r.wf(),
    {
        proof {
            assert(0u64 & PHYSICAL_ADDRESS_MASK == 0) by (bit_vector);
        }
        PageTableEntryFlags { bits: 0 }
    }

    /// The union of two flag sets.
    pub fn union(self, other: PageTableEntryFlags) -> (r: PageTableEntryFlags)
        requires
            self.wf(),
            other.wf(),
        ensures
            r.spec_bits() == self.spec_bits() | other.spec_bits(),
            r.wf(),
    {
        proof {
            let a = self.bits;
            let b = other.bits;
            assert(a & PHYSICAL_ADDRESS_MASK == 0 && b & PHYSICAL_ADDRESS_MASK == 0 ==> (a
                | b) & PHYSICAL_ADDRESS_MASK == 0) by (bit_vector);
        }
        PageTableEntryFlags { bits: self.bits | other.bits }
    }

    /// Whether every flag of `other` is also in `self`.
    pub fn contains(self, other: PageTableEntryFlags) -> (r: bool)
        ensures
            r == (self.spec_bits() & other.spec_bits() == other.spec_bits()),
    {
        self.bits & other.bits == other.bits
    }

    pub fn present() -> (r: PageTableEntryFlags)
        ensures
            r.spec_bits() == PRESENT_BIT,
            r.wf(),
    {
        proof {
            assert(1u64 & PHYSICAL_ADDRESS_MASK == 0) by (bit_vector);
        }
        PageTableEntryFlags { bits: PRESENT_BIT }
    }

    pub fn writable() -> (r: PageTableEntryFlags)
        ensures
            r.spec_bits() == WRITABLE_BIT,
            r.wf(),
    {
        proof {
            assert(2u64 & PHYSICAL_ADDRESS_MASK == 0) by (bit_vector);
        }
        PageTableEntryFlags { bits: WRITABLE_BIT }
    }

    pub fn user_allowed() -> (r: PageTableEntryFlags)
        ensures
            r.spec_bits() == USER_ALLOWED_BIT,
            r.wf(),
    {
        proof {
            assert(4u64 & PHYSICAL_ADDRESS_MASK == 0) by (bit_vector);
        }
        PageTableEntryFlags { bits: USER_ALLOWED_BIT }
    }

    pub fn cache_write_through() -> (r: PageTableEntryFlags)
        ensures
            r.spec_bits() == CACHE_WRITE_THROUGH_BIT,
            r.wf(),
    {
        proof {
            assert(8u64 & PHYSICAL_ADDRESS_MASK == 0) by (bit_vector);
        }
        PageTableEntryFlags { bits: CACHE_WRITE_THROUGH_BIT }
    }

    pub fn no_cache() -> (r: PageTableEntryFlags)
        ensures
            r.spec_bits() == NO_CACHE_BIT,
            r.wf(),
    {
        proof {
            assert(16u64 & PHYSICAL_ADDRESS_MASK == 0) by (bit_vector);
        }
        PageTableEntryFlags { bits: NO_CACHE_BIT }
    }

    pub fn accessed() -> (r: PageTableEntryFlags)
        ensures
            r.spec_bits() == ACCESSED_BIT,
            r.wf(),
    {
        proof {
            assert(32u64 & PHYSICAL_ADDRESS_MASK == 0) by (bit_vector);
        }
        PageTableEntryFlags { bits: ACCESSED_BIT }
    }

    pub fn dirty() -> (r: PageTableEntryFlags)
        ensures
            r.spec_bits() == DIRTY_BIT,
            r.wf(),
    {
        proof {
            assert(64u64 & PHYSICAL_ADDRESS_MASK == 0) by (bit_vector);
        }
        PageTableEntryFlags { bits: DIRTY_BIT }
    }

    pub fn huge_page() -> (r: PageTableEntryFlags)
        ensures
            r.spec_bits() == HUGE_PAGE_BIT,
            r.wf(),
    {
        proof {
            assert(128u64 & PHYSICAL_ADDRESS_MASK == 0) by (bit_vector);
        }
        PageTableEntryFlags { bits: HUGE_PAGE_BIT }
    }

    pub fn global() -> (r: PageTableEntryFlags)
        ensures
            r.spec_bits() == GLOBAL_BIT,
            r.wf(),
    {
        proof {
            assert(256u64 & PHYSICAL_ADDRESS_MASK == 0) by (bit_vector);
        }
        PageTableEntryFlags { bits: GLOBAL_BIT }
    }

    pub fn no_execute() -> (r: PageTableEntryFlags)
        ensures
            r.spec_bits() == NO_EXECUTE_BIT,
            r.wf(),
    {
        proof {
            assert(0x8000_0000_0000_0000u64 & PHYSICAL_ADDRESS_MASK == 0) by (bit_vector);
        }
        PageTableEntryFlags { bits: NO_EXECUTE_BIT }
    }
}

} // verus!
