//! Memory-management core of a small 64-bit kernel: typed physical and
//! virtual addresses, a bitmap physical-frame allocator, a four-level
//! page-table model, and the virtual page allocator that combines them.
pub mod addr;
pub mod boot;
pub mod entry;
pub mod flags;
pub mod hexdump;
pub mod idt;
pub mod ioapic;
pub mod page;
pub mod path;
pub mod physical;
pub mod screen;
pub mod table;
pub mod time;
pub mod valloc;

use vstd::prelude::*;

verus! {

} // verus!
