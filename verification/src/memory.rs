//! Unified-memory accounting from VM page categories.

use vstd::prelude::*;

verus! {

/// The memory that macOS can hand out without paging: free, inactive and
/// purgeable pages, never more than the installed total.
pub open spec fn spec_available(total: u64, free: u64, inactive: u64, purgeable: u64) -> int {
    let sum = free + inactive + purgeable;
    if sum < total { sum } else { total as int }
}

/// Splits the installed memory into what is available and what is used.
pub fn calculate_usage(total: u64, free: u64, inactive: u64, purgeable: u64) -> (r: (u64, u64))
    ensures
        r.0 == spec_available(total, free, inactive, purgeable),
        r.1 == total - r.0,
        r.0 + r.1 == total,
{
    let available = free.saturating_add(inactive).saturating_add(purgeable);
    let available = if available < total { available } else { total };
    (available, total - available)
}

/// The page counts of the VM statistics that the memory figures use.
#[derive(Clone, Copy, Debug)]
pub struct PageCounts {
    pub free: u32,
    pub inactive: u32,
    pub purgeable: u32,
    pub wired: u32,
    pub compressed: u32,
}

/// Every page count, in bytes, fits a `u64`.
pub open spec fn pages_fit(page: u64, counts: PageCounts) -> bool {
    &&& counts.free * page <= u64::MAX
    &&& counts.inactive * page <= u64::MAX
    &&& counts.purgeable * page <= u64::MAX
    &&& counts.wired * page <= u64::MAX
    &&& counts.compressed * page <= u64::MAX
}

/// The memory figures of one sample, in bytes.
#[derive(Clone, Copy, Debug, PartialEq, Eq, Structural)]
pub struct MemoryFigures {
    pub total: u64,
    pub used: u64,
    pub available: u64,
    pub wired: u64,
    pub compressed: u64,
    pub cached: u64,
}

/// The figures for installed memory `total` and VM page counts of pages of
/// `page` bytes: available and used as `calculate_usage` splits them, wired
/// and compressed pages, and cached memory (inactive plus purgeable pages,
/// saturated).
pub open spec fn figures(total: u64, page: u64, counts: PageCounts) -> MemoryFigures {
    let free = (counts.free * page) as u64;
    let inactive = (counts.inactive * page) as u64;
    let purgeable = (counts.purgeable * page) as u64;
    let available = spec_available(total, free, inactive, purgeable) as u64;
    MemoryFigures {
        total,
        used: (total - available) as u64,
        available,
        wired: (counts.wired * page) as u64,
        compressed: (counts.compressed * page) as u64,
        cached: if inactive + purgeable <= u64::MAX { (inactive + purgeable) as u64 } else { u64::MAX },
    }
}

/// The memory figures of one sample (see `figures`).
pub fn memory_figures(total: u64, page: u64, counts: PageCounts) -> (f: MemoryFigures)
    requires
        pages_fit(page, counts),
    ensures
        f == figures(total, page, counts),
{
    let free = counts.free as u64 * page;
    let inactive = counts.inactive as u64 * page;
    let purgeable = counts.purgeable as u64 * page;
    let (available, used) = calculate_usage(total, free, inactive, purgeable);
    MemoryFigures {
        total,
        used,
        available,
        wired: counts.wired as u64 * page,
        compressed: counts.compressed as u64 * page,
        cached: inactive.saturating_add(purgeable),
    }
}

/// A sample's figures: the installed memory splits into available memory,
/// the free, inactive and purgeable pages together but never more than the
/// installed total, and used memory, the rest; wired and compressed memory
/// are their pages' bytes, and cached memory is the inactive and purgeable
/// pages' bytes together.
pub proof fn lemma_memory_split(total: u64, page: u64, counts: PageCounts)
    requires
        pages_fit(page, counts),
    ensures
        ({
            let f = figures(total, page, counts);
            let reclaimable = counts.free * page + counts.inactive * page + counts.purgeable * page;
            let cached = counts.inactive * page + counts.purgeable * page;
            &&& f.total == total
            &&& reclaimable <= total ==> f.available == reclaimable
            &&& reclaimable >= total ==> f.available == total
            &&& f.used == total - f.available
            &&& f.wired == counts.wired * page
            &&& f.compressed == counts.compressed * page
            &&& cached <= u64::MAX ==> f.cached == cached
            &&& cached > u64::MAX ==> f.cached == u64::MAX
        }),
{
}

} // verus!
