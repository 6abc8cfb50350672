//! Stated and proved properties that relate several operations.

use vstd::prelude::*;

use crate::PAGE_SIZE;
use crate::aspace::AddrSpace;
use crate::aspace::lemma_regions_disjoint;
use crate::aspace::region_at;
use crate::aspace::region_index_of;
use crate::aspace::covers;
use crate::aspace::regions_wf;
use crate::flags::MappingFlags;
use crate::frames::FramePool;
use crate::page_table::spec_page_of;

verus! {

/// In any well-formed address space the regions are pairwise disjoint and
/// sorted by start address: of two regions in index order, the first ends at
/// or before the second starts.
pub proof fn lemma_wf_regions_sorted_disjoint(a: AddrSpace, i: int, j: int)
    requires
        a.wf(),
        0 <= i < j < a.regions().len(),
    ensures
        a.regions()[i].start < a.regions()[j].start,
        a.regions()[i].spec_end() <= a.regions()[j].start,
{
    lemma_regions_disjoint(a.regions(), a.spec_base() as int, a.spec_end(), i, j);
}

/// A fault on a page of an eagerly populated region that is mapped with an
/// exclusively owned frame is always reported as satisfied, for any
/// permitted access: it never takes the lazy-allocation path, and it cannot
/// fail for want of a free frame.
pub proof fn lemma_populated_fault_satisfied(
    a: AddrSpace,
    pool: FramePool,
    va: usize,
    access: MappingFlags,
)
    requires
        a.wf(),
        a.spec_base() <= va < a.spec_end(),
        covers(a.regions(), va as int),
        region_at(a.regions(), va as int).flags.spec_contains(access),
        a.pt_map().contains_key(spec_page_of(va)),
        pool.count_of(a.pt_map()[spec_page_of(va)].paddr as int) == 1,
    ensures
        a.fault_handled(pool, va as int, access),
{
}

} // verus!
