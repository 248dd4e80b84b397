//! A single page-table entry: one 64-bit word packing a frame-aligned
//! physical address (bits 12..51) together with its flag bits. Address and
//! flags always coexist in the same word, so setting one preserves or
//! explicitly overwrites the other.
use crate::addr::PhyAddr;
use crate::flags::{
    flag_bits_ok, PageTableEntryFlags, HUGE_PAGE_BIT, PHYSICAL_ADDRESS_MASK, PRESENT_BIT,
};
use vstd::prelude::*;

verus! {

/// Size in bytes of one page, and of one physical frame.
pub const PAGE_SIZE: u64 = 0x1000;

/// One past the largest physical address an entry can carry.
pub const ADDRESS_SPACE_END: u64 = 0x0010_0000_0000_0000u64;

/// The address packed into an entry word.
pub open spec fn spec_entry_addr(word: u64) -> u64 {
    word & PHYSICAL_ADDRESS_MASK
}

/// The flag bits packed into an entry word.
pub open spec fn spec_entry_flags(word: u64) -> u64 {
    word & !PHYSICAL_ADDRESS_MASK
}

/// Whether the entry word has its present flag set.
pub open spec fn spec_entry_present(word: u64) -> bool {
    word & PRESENT_BIT == PRESENT_BIT
}

/// Whether the entry word has its huge-page flag set.
pub open spec fn spec_entry_huge(word: u64) -> bool {
    word & HUGE_PAGE_BIT == HUGE_PAGE_BIT
}

/// An address fits into an entry word exactly when it is frame-aligned and
/// below the 52-bit physical address space.
pub open spec fn addr_fits_entry(addr: u64) -> bool {
    addr % PAGE_SIZE == 0 && addr < ADDRESS_SPACE_END
}

/// Packing a fitting address with disjoint flag bits loses neither: the
/// address and the flags can each be read back from the packed word.
pub proof fn lemma_entry_pack(addr: u64, fb: u64)
    by (bit_vector)
    requires
        addr % 0x1000u64 == 0,
        addr < 0x0010_0000_0000_0000u64,
        fb & 0x000f_ffff_ffff_f000u64 == 0,
    ensures
        (addr | fb) & 0x000f_ffff_ffff_f000u64 == addr,
        (addr | fb) & !0x000f_ffff_ffff_f000u64 == fb,
{
}

/// An address read back out of an entry word always fits an entry.
pub proof fn lemma_entry_addr_fits(word: u64)
    by (bit_vector)
    ensures
        (word & 0x000f_ffff_ffff_f000u64) % 0x1000u64 == 0,
        (word & 0x000f_ffff_ffff_f000u64) < 0x0010_0000_0000_0000u64,
{
}

/// The present and huge flags live outside the address mask, so they can be
/// read equally from the whole word or from its flag part.
pub proof fn lemma_entry_flag_bits(word: u64)
    by (bit_vector)
    ensures
        ((word & !0x000f_ffff_ffff_f000u64) & 1u64 == 1u64) == (word & 1u64 == 1u64),
        ((word & !0x000f_ffff_ffff_f000u64) & 128u64 == 128u64) == (word & 128u64 == 128u64),
        (word & !0x000f_ffff_ffff_f000u64) & 0x000f_ffff_ffff_f000u64 == 0,
{
}

#[derive(Clone, Copy, PartialEq, Eq, Structural, Debug)]
pub struct PageTableEntry {
    entry: u64,
}

impl PageTableEntry {
    /// The raw entry word.
    pub closed spec fn word(self) -> u64 {
        self.entry
    }

    /// An all-zero entry: no address, no flags, not present.
    pub fn default() -> (r: PageTableEntry)
        ensures
            r.word() == 0,
    {
        PageTableEntry { entry: 0 }
    }

    pub fn new() -> (r: PageTableEntry)
        ensures
            r.word() == 0,
    {
        PageTableEntry::default()
    }

    /// Reset the entry to the all-zero word.
    pub fn clear(&mut self)
        ensures
            final(self).word() == 0,
    {
        self.entry = 0
    }

    /// The physical address held by the entry.
    pub fn addr(&self) -> (r: PhyAddr)
        ensures
            r.0 == spec_entry_addr(self.word()),
            addr_fits_entry(r.0),
    {
        proof {
            lemma_entry_addr_fits(self.entry);
        }
        PhyAddr(self.entry & PHYSICAL_ADDRESS_MASK)
    }

    /// The flags held by the entry.
    pub fn flags(&self) -> (r: PageTableEntryFlags)
        ensures
            r.spec_bits() == spec_entry_flags(self.word()),
            r.wf(),
    {
        proof {
            assert(!0x000f_ffff_ffff_f000u64 & !0x000f_ffff_ffff_f000u64
                == !0x000f_ffff_ffff_f000u64) by (bit_vector);
            let w = self.entry;
            assert((w & !0x000f_ffff_ffff_f000u64) & !0x000f_ffff_ffff_f000u64 == w
                & !0x000f_ffff_ffff_f000u64) by (bit_vector);
        }
        PageTableEntryFlags::from_bits_retain(self.entry & !PHYSICAL_ADDRESS_MASK)
    }

    /// Replace the flags while keeping the packed address.
    pub fn set_flags(&mut self, flags: PageTableEntryFlags)
        requires
            flags.wf(),
        ensures
            final(self).word() == spec_entry_addr(old(self).word()) | flags.spec_bits(),
            spec_entry_addr(final(self).word()) == spec_entry_addr(old(self).word()),
            spec_entry_flags(final(self).word()) == flags.spec_bits(),
    {
        proof {
            lemma_entry_addr_fits(self.entry);
            lemma_entry_pack(self.entry & PHYSICAL_ADDRESS_MASK, flags.spec_bits());
        }
        self.entry = self.addr().0 | flags.bits();
    }

    /// Write a fresh address together with fresh flags, overwriting both.
    pub fn set_addr(&mut self, addr: PhyAddr, flags: PageTableEntryFlags)
        requires
            addr_fits_entry(addr.0),
            flags.wf(),
        ensures
            final(self).word() == addr.0 | flags.spec_bits(),
            spec_entry_addr(final(self).word()) == addr.0,
            spec_entry_flags(final(self).word()) == flags.spec_bits(),
    {
        proof {
            lemma_entry_pack(addr.0, flags.spec_bits());
        }
        self.entry = addr.0 | flags.bits()
    }

    /// Whether the entry is marked present.
    pub fn present(&self) -> (r: bool)
        ensures
            r == spec_entry_present(self.word()),
    {
        proof {
            lemma_entry_flag_bits(self.entry);
        }
        self.flags().contains(PageTableEntryFlags::present())
    }
}

} // verus!
