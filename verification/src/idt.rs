//! Entries of the interrupt descriptor table.
//!
//! An entry pairs the 64-bit address of a handler with the kernel code
//! selector, and tells interrupt gates from trap gates.
use vstd::prelude::*;

verus! {

/// The kind of gate: an interrupt gate masks further interrupts on entry,
/// a trap gate leaves them enabled and resumes at the trapping
/// instruction. Each carries the address of its handler routine.
#[derive(Clone, Copy, PartialEq, Eq, Structural, Debug)]
pub enum IdtEntryType {
    Interrupt(u64),
    Trap(u64),
}

/// One entry of the interrupt descriptor table, before packing.
#[derive(Clone, Copy, PartialEq, Eq, Structural, Debug)]
pub struct IdtEntry {
    entry_type: IdtEntryType,
    gdt_kernel_cs: u16,
}

/// The raw in-memory form: the handler address split across three
/// fields, the selector, and the options word.
#[derive(Clone, Copy, PartialEq, Eq, Structural, Debug)]
pub struct IdtEntryRaw {
    pub fn_ptr_low: u16,
    pub gdt_kernel_cs: u16,
    pub options: u16,
    pub fn_ptr_mid: u16,
    pub fn_ptr_high: u32,
    pub reserved: u32,
}

impl IdtEntry {
    pub closed spec fn spec_entry_type(self) -> IdtEntryType {
        self.entry_type
    }

    pub closed spec fn spec_cs(self) -> u16 {
        self.gdt_kernel_cs
    }

    /// An entry for the given gate in the given kernel code segment.
    pub fn new(entry_type: IdtEntryType, gdt_kernel_cs: u16) -> (r: IdtEntry)
        ensures
            r.spec_entry_type() == entry_type,
            r.spec_cs() == gdt_kernel_cs,
    {
        IdtEntry { entry_type, gdt_kernel_cs }
    }

    /// The handler address carried by the entry.
    pub open spec fn spec_handler(self) -> u64 {
        match self.spec_entry_type() {
            IdtEntryType::Interrupt(f) => f,
            IdtEntryType::Trap(f) => f,
        }
    }

    /// Pack the entry into the processor's layout: address bits 0..15,
    /// 16..31 and 32..63 in their three fields, and the options word
    /// telling interrupt and trap gates apart.
    pub fn to_raw(&self) -> (r: IdtEntryRaw)
        ensures
            r.fn_ptr_low == self.spec_handler() & 0xffff,
            r.fn_ptr_mid == (self.spec_handler() >> 16) & 0xffff,
            r.fn_ptr_high == (self.spec_handler() >> 32) & 0xffff_ffff,
            r.gdt_kernel_cs == self.spec_cs(),
            r.options == (match self.spec_entry_type() {
                IdtEntryType::Interrupt(_) => 0x8E00u16,
                IdtEntryType::Trap(_) => 0x8F00u16,
            }),
            r.reserved == 0,
    {
        let fn_ptr = match self.entry_type {
            IdtEntryType::Interrupt(f) => f,
            IdtEntryType::Trap(f) => f,
        };
        proof {
            let p = fn_ptr;
            assert(p & 0xffff <= 0xffff && (p >> 16) & 0xffff <= 0xffff && (p >> 32)
                & 0xffff_ffff <= 0xffff_ffffu64 && (p >> 16) % 0x10000 == (p >> 16) & 0xffff
                && (p >> 32) % 0x1_0000_0000 == (p >> 32) & 0xffff_ffff && p % 0x10000 == p
                & 0xffff) by (bit_vector);
        }
        let fn_ptr_low = (fn_ptr % 0x10000) as u16;
        let fn_ptr_mid = ((fn_ptr >> 16) % 0x10000) as u16;
        let fn_ptr_high = ((fn_ptr >> 32) % 0x1_0000_0000) as u32;
        let options: u16 = match self.entry_type {
            IdtEntryType::Interrupt(_) => 0x8E00,
            IdtEntryType::Trap(_) => 0x8F00,
        };
        IdtEntryRaw {
            fn_ptr_low,
            gdt_kernel_cs: self.gdt_kernel_cs,
            options,
            fn_ptr_mid,
            fn_ptr_high,
            reserved: 0,
        }
    }
}

} // verus!
