//! Choosing the physical region the allocator will manage.
//!
//! At boot the firmware reports a list of physical memory regions; only
//! the single largest usable one is handed to the allocator.
use vstd::prelude::*;

verus! {

/// One region of the boot-time physical memory map.
#[derive(Clone, Copy, PartialEq, Eq, Structural, Debug)]
pub struct MemRegion {
    pub base: u64,
    pub length: u64,
    pub usable: bool,
}

/// Pick the largest usable region of the map; among equally long ones the
/// last wins. Nothing comes back when no region is usable.
pub fn largest_usable_region(regions: &Vec<MemRegion>) -> (r: Option<MemRegion>)
    ensures
        match r {
            Some(m) => exists|j: int|
                {
                    &&& 0 <= j < regions@.len()
                    &&& #[trigger] regions@[j] == m
                    &&& m.usable
                    &&& (forall|k: int|
                        0 <= k < regions@.len() && (#[trigger] regions@[k]).usable
                            ==> regions@[k].length <= m.length)
                    &&& (forall|k: int|
                        j < k < regions@.len() && (#[trigger] regions@[k]).usable
                            ==> regions@[k].length < m.length)
                },
            None => forall|k: int|
                0 <= k < regions@.len() ==> !(#[trigger] regions@[k]).usable,
        },
{
    let n = regions.len();
    let mut best: Option<MemRegion> = None;
    let ghost mut best_at: int = 0;
    let mut i: usize = 0;
    while i < n
        invariant
            n == regions@.len(),
            i <= n,
            match best {
                Some(m) => {
                    &&& 0 <= best_at < i
                    &&& regions@[best_at] == m
                    &&& m.usable
                    &&& (forall|k: int|
                        0 <= k < i && (#[trigger] regions@[k]).usable ==> regions@[k].length
                            <= m.length)
                    &&& (forall|k: int|
                        best_at < k < i && (#[trigger] regions@[k]).usable
                            ==> regions@[k].length < m.length)
                },
                None => forall|k: int| 0 <= k < i ==> !(#[trigger] regions@[k]).usable,
            },
        decreases n - i,
    {
        let e = regions[i];
        if e.usable {
            let take = match best {
                None => true,
                Some(b) => e.length >= b.length,
            };
            if take {
                best = Some(e);
                proof {
                    best_at = i as int;
                }
            }
        }
        i = i + 1;
    }
    best
}

} // verus!
