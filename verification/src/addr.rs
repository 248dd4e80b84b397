//! Typed physical and virtual byte addresses.
//!
//! A physical address is frame-aligned whenever it is used as a frame base;
//! a virtual address is usable only when it is canonical (bits 48..63 copy
//! bit 47). A physical address becomes a virtual one by adding the fixed
//! direct-map offset reported at boot.
use vstd::prelude::*;

verus! {

/// The remainder of a division by a positive number lies between zero and
/// both the divisor and the dividend.
proof fn lemma_mod_properties(x: int, a: int)
    by (nonlinear_arith)
    requires
        x >= 0,
        a > 0,
    ensures
        0 <= x % a < a,
        x % a <= x,
{
}

/// A physical byte address.
#[derive(Clone, Copy, PartialEq, Eq, Structural, Debug)]
pub struct PhyAddr(pub u64);

/// A virtual byte address.
#[derive(Clone, Copy, PartialEq, Eq, Structural, Debug)]
pub struct VirtAddr(pub u64);

impl PhyAddr {
    /// Translate into virtual space through the boot-reported direct map,
    /// which keeps all physical memory visible at a fixed offset.
    pub fn as_virtual(&self, direct_map_offset: u64) -> (r: VirtAddr)
        requires
            self.0 + direct_map_offset <= u64::MAX,
        ensures
            r.0 == self.0 + direct_map_offset,
    {
        VirtAddr(self.0 + direct_map_offset)
    }

    /// Round up to a multiple of `alignment`.
    pub fn align_up(&self, alignment: usize) -> (r: PhyAddr)
        requires
            alignment > 0,
            self.0 + alignment as u64 <= u64::MAX,
        ensures
            r.0 == if self.0 as int % alignment as int == 0 {
                self.0 as int
            } else {
                self.0 - self.0 as int % alignment as int + alignment as int
            },
            r.0 as int % alignment as int == 0,
            self.0 <= r.0 < self.0 + alignment,
    {
        let a: u64 = alignment as u64;
        let rem: u64 = self.0 % a;
        proof {
            lemma_mod_properties(self.0 as int, a as int);
            assert(((self.0 - rem + a) % a as int) == 0) by (nonlinear_arith)
                requires
                    a > 0,
                    rem == self.0 as int % a as int,
            ;
        }
        if rem == 0 {
            PhyAddr(self.0)
        } else {
            PhyAddr(self.0 - rem + a)
        }
    }

    /// Round down to a multiple of `alignment`.
    pub fn align_down(&self, alignment: usize) -> (r: PhyAddr)
        requires
            alignment > 0,
        ensures
            r.0 == self.0 - self.0 as int % alignment as int,
            r.0 as int % alignment as int == 0,
            r.0 <= self.0,
            self.0 - r.0 < alignment,
    {
        let a: u64 = alignment as u64;
        let rem: u64 = self.0 % a;
        proof {
            lemma_mod_properties(self.0 as int, a as int);
            assert(((self.0 - rem) % a as int) == 0) by (nonlinear_arith)
                requires
                    a > 0,
                    rem == self.0 as int % a as int,
            ;
        }
        PhyAddr(self.0 - rem)
    }
}

/// A virtual address is canonical when bits 48..63 are a sign extension
/// of bit 47: the top seventeen bits are all ones or all zeroes.
pub open spec fn is_canonical(addr: u64) -> bool {
    addr >> 47 == 0x1ffff || addr >> 47 == 0
}

impl VirtAddr {
    /// Whether the address is canonical, and so accepted by the hardware.
    pub fn is_valid(&self) -> (r: bool)
        ensures
            r == is_canonical(self.0),
    {
        let top_17_bits: u64 = self.0 >> 47;
        top_17_bits == 0x1ffff || top_17_bits == 0
    }
}

} // verus!
