//! The virtual memory address space.
//!
//! An [`AddrSpace`] owns an ordered set of non-overlapping [`Region`]s and a
//! [`PageTable`], and offers mapping, unmapping, protection, population,
//! fault resolution, byte access, and copy-on-write cloning. Physical frames
//! come from a [`FramePool`] passed to each operation that needs one.

use vstd::prelude::*;

use crate::AxError;
use crate::AxResult;
use crate::PAGE_SIZE;
use crate::backend::Backend;
use crate::flags::MappingFlags;
use crate::frames::FramePool;
use crate::frames::count_free;
use crate::frames::lemma_count_free_update_alloc;
use crate::frames::lemma_distinct_frames_disjoint;
use crate::frames::lemma_frame_idx;
use crate::frames::lemma_frame_idx_injective;
use crate::page_table::PageEntry;
use crate::page_table::PageTable;
use crate::page_table::PagingError;
use crate::page_table::spec_page_of;
use vstd::arithmetic::div_mod::lemma_fundamental_div_mod;
use vstd::arithmetic::div_mod::lemma_mod_multiples_basic;
use vstd::arithmetic::mul::lemma_mul_is_distributive_add;
use vstd::arithmetic::mul::lemma_mul_inequality;
use vstd::arithmetic::mul::lemma_mul_strict_inequality_converse;

verus! {

/// A contiguous virtual range with uniform permission flags and one backing
/// strategy. Created by a map call, consumed or shrunk by unmap, never
/// relocated; its flags are rewritten in place by protect.
#[derive(Debug, Clone, Copy, PartialEq, Eq, Structural)]
pub struct Region {
    /// The first virtual address of the region. Page-aligned.
    pub start: usize,
    /// The size of the region in bytes. A positive multiple of the page
    /// size.
    pub size: usize,
    /// The permission flags of the region.
    pub flags: MappingFlags,
    /// The backing strategy of the region.
    pub backend: Backend,
}

impl Region {
    /// The first address after the region.
    pub open spec fn spec_end(self) -> int {
        self.start + self.size
    }

    /// A page-aligned, non-empty region whose end fits the address space;
    /// a linear region's offset is page-aligned and stays below its start.
    pub open spec fn wf(self) -> bool {
        &&& self.size > 0
        &&& self.start + self.size <= usize::MAX
        &&& self.start % PAGE_SIZE == 0
        &&& self.size % PAGE_SIZE == 0
        &&& self.backend.wf()
        &&& linear_offset_ok(self)
    }

    /// Whether `addr` lies inside the region.
    pub open spec fn contains(self, addr: int) -> bool {
        self.start <= addr < self.spec_end()
    }

    /// Returns the first address after the region.
    pub fn end(&self) -> (r: usize)
        requires
            self.start + self.size <= usize::MAX,
        ensures
            r == self.spec_end(),
    {
        self.start + self.size
    }
}

/// A linear region's offset is page-aligned and stays at or below its
/// start, so every page of the region translates without underflow.
#[verifier::opaque]
pub open spec fn linear_offset_ok(r: Region) -> bool {
    r.backend is Linear ==> r.backend.spec_offset() % PAGE_SIZE == 0 && r.backend.spec_offset()
        <= r.start
}

/// Regions are individually well-formed, lie between `base` and `end`, and
/// are sorted by start address with no overlap between neighbors.
pub open spec fn regions_wf(rs: Seq<Region>, base: int, end: int) -> bool {
    &&& forall|i: int|
        0 <= i < rs.len() ==> (#[trigger] rs[i]).wf() && base <= rs[i].start && rs[i].spec_end()
            <= end
    &&& forall|i: int| 0 <= i < rs.len() - 1 ==> (#[trigger] rs[i]).spec_end() <= rs[i + 1].start
}

/// Whether some region contains `addr`.
pub open spec fn covers(rs: Seq<Region>, addr: int) -> bool {
    exists|i: int| 0 <= i < rs.len() && (#[trigger] rs[i]).contains(addr)
}

/// The index of the region containing `addr`, when one exists.
pub open spec fn region_index_of(rs: Seq<Region>, addr: int) -> int {
    choose|i: int| 0 <= i < rs.len() && (#[trigger] rs[i]).contains(addr)
}

/// The region containing `addr`, when one exists.
pub open spec fn region_at(rs: Seq<Region>, addr: int) -> Region {
    rs[region_index_of(rs, addr)]
}

/// Whether `addr` lies in a region backed by the frame allocator.
pub open spec fn in_alloc_region(rs: Seq<Region>, addr: int) -> bool {
    covers(rs, addr) && region_at(rs, addr).backend.is_alloc()
}

/// Whether some region containing `addr` grants every permission in `f`.
pub open spec fn covered_with(rs: Seq<Region>, addr: int, f: MappingFlags) -> bool {
    exists|i: int|
        0 <= i < rs.len() && (#[trigger] rs[i]).contains(addr) && rs[i].flags.spec_contains(f)
}

/// Whether every address of `[start, end)` lies in a region granting `f`.
pub open spec fn accessible(rs: Seq<Region>, start: int, end: int, f: MappingFlags) -> bool {
    forall|a: int| start <= a < end ==> #[trigger] covered_with(rs, a, f)
}

/// In a well-formed sequence, any two regions in order are disjoint.
pub proof fn lemma_regions_disjoint(rs: Seq<Region>, base: int, end: int, i: int, j: int)
    requires
        regions_wf(rs, base, end),
        0 <= i < j < rs.len(),
    ensures
        rs[i].spec_end() <= rs[j].start,
    decreases j - i,
{
    if i + 1 == j {
    } else {
        lemma_regions_disjoint(rs, base, end, i, j - 1);
    }
}

/// In a well-formed sequence, the region containing an address is unique.
pub proof fn lemma_region_unique(rs: Seq<Region>, base: int, end: int, i: int, j: int, addr: int)
    requires
        regions_wf(rs, base, end),
        0 <= i < rs.len(),
        0 <= j < rs.len(),
        rs[i].contains(addr),
        rs[j].contains(addr),
    ensures
        i == j,
{
    if i < j {
        lemma_regions_disjoint(rs, base, end, i, j);
    } else if j < i {
        lemma_regions_disjoint(rs, base, end, j, i);
    }
}


/// `x` rounded up to the next multiple of `a` (mathematically: the result
/// may exceed the greatest machine address).
pub open spec fn spec_align_up(x: int, a: int) -> int {
    if x % a == 0 {
        x
    } else {
        x + a - x % a
    }
}

/// Basic facts about rounding up.
pub proof fn lemma_align_up(x: int, a: int)
    requires
        a > 0,
        x >= 0,
    ensures
        spec_align_up(x, a) % a == 0,
        x <= spec_align_up(x, a) < x + a,
{
    if x % a != 0 {
        lemma_fundamental_div_mod(x, a);
        assert(spec_align_up(x, a) == a * (x / a + 1)) by {
            lemma_mul_is_distributive_add(a, x / a, 1);
        }
        lemma_mod_multiples_basic(x / a + 1, a);
    }
}

/// No multiple of `a` lies strictly between `x` and `x` rounded up.
pub proof fn lemma_aligned_ge_align_up(x: int, a: int, y: int)
    requires
        a > 0,
        x >= 0,
        y % a == 0,
        y >= x,
    ensures
        y >= spec_align_up(x, a),
{
    if x % a != 0 {
        vstd::arithmetic::div_mod::lemma_mod_bound(x, a);
        lemma_fundamental_div_mod(x, a);
        lemma_fundamental_div_mod(y, a);
        let p = y / a;
        let q = x / a;
        vstd::arithmetic::mul::lemma_mul_is_commutative(a, p);
        vstd::arithmetic::mul::lemma_mul_is_commutative(a, q);
        assert(q * a < p * a);
        lemma_mul_strict_inequality_converse(q, p, a);
        lemma_mul_inequality(q + 1, p, a);
        assert(spec_align_up(x, a) == a * (q + 1)) by {
            lemma_mul_is_distributive_add(a, q, 1);
        }
    }
}

/// Rounds `x` up to a multiple of `a`, or `None` when the result would not
/// fit in a machine word.
pub fn align_up_checked(x: usize, a: usize) -> (r: Option<usize>)
    requires
        a > 0,
    ensures
        match r {
            Some(v) => v == spec_align_up(x as int, a as int),
            None => spec_align_up(x as int, a as int) > usize::MAX,
        },
{
    let m = x % a;
    if m == 0 {
        Some(x)
    } else {
        let d = a - m;
        if x <= usize::MAX - d {
            Some(x + d)
        } else {
            None
        }
    }
}

/// A candidate start of a free gap: at or past `lo`, aligned, ending within
/// the limit, and intersecting no region.
#[verifier::opaque]
pub open spec fn fits_gap(
    rs: Seq<Region>,
    x: int,
    size: int,
    lo: int,
    limit_end: int,
    align: int,
) -> bool {
    &&& x >= lo
    &&& x % align == 0
    &&& x + size <= limit_end
    &&& forall|i: int|
        0 <= i < rs.len() ==> x + size <= (#[trigger] rs[i]).start || rs[i].spec_end() <= x
}

/// The virtual memory address space: a virtual range, the region set, and a
/// page table.
pub struct AddrSpace {
    va_base: usize,
    va_size: usize,
    regions: Vec<Region>,
    pt: PageTable,
}

impl AddrSpace {
    /// The base of the virtual range.
    pub closed spec fn spec_base(self) -> usize {
        self.va_base
    }

    /// The size of the virtual range in bytes.
    pub closed spec fn spec_size(self) -> usize {
        self.va_size
    }

    /// The first address after the virtual range.
    pub open spec fn spec_end(self) -> int {
        self.spec_base() + self.spec_size()
    }

    /// The mapped regions, in ascending start order.
    pub closed spec fn regions(self) -> Seq<Region> {
        self.regions@
    }

    /// The page table.
    pub closed spec fn spec_pt(self) -> PageTable {
        self.pt
    }

    /// The translations of the page table.
    pub open spec fn pt_map(self) -> Map<usize, PageEntry> {
        self.spec_pt()@
    }

    /// The invariant of an address space: the virtual range fits the address
    /// space, regions are well-formed, inside the range, sorted and
    /// non-overlapping, the page table is well-formed, and every translation
    /// lies inside some region.
    pub open spec fn wf(self) -> bool {
        &&& self.spec_base() + self.spec_size() <= usize::MAX
        &&& regions_wf(self.regions(), self.spec_base() as int, self.spec_end())
        &&& self.spec_pt().wf()
        &&& forall|k: usize| #[trigger]
            self.pt_map().contains_key(k) ==> covers(self.regions(), k as int)
    }

    /// Agreement with a frame pool: every page of an allocation-backed
    /// region that has a translation targets an allocated, referenced frame
    /// of the pool, and no two such pages share a frame.
    #[verifier::opaque]
    pub open spec fn consistent(self, pool: FramePool) -> bool {
        &&& pool.wf()
        &&& forall|k: usize| #[trigger]
            self.pt_map().contains_key(k) && in_alloc_region(self.regions(), k as int) ==> {
                &&& pool.in_range(self.pt_map()[k].paddr as int)
                &&& pool.is_allocated(self.pt_map()[k].paddr as int)
                &&& pool.count_of(self.pt_map()[k].paddr as int) >= 1
            }
        &&& forall|k1: usize, k2: usize|
            #![trigger self.pt_map()[k1], self.pt_map()[k2]]
            self.pt_map().contains_key(k1) && self.pt_map().contains_key(k2) && in_alloc_region(
                self.regions(),
                k1 as int,
            ) && in_alloc_region(self.regions(), k2 as int) && k1 != k2
                ==> self.pt_map()[k1].paddr != self.pt_map()[k2].paddr
    }

    /// Returns the address space base.
    pub fn base(&self) -> (r: usize)
        ensures
            r == self.spec_base(),
    {
        self.va_base
    }

    /// Returns the address space end.
    pub fn end(&self) -> (r: usize)
        requires
            self.spec_base() + self.spec_size() <= usize::MAX,
        ensures
            r == self.spec_end(),
    {
        self.va_base + self.va_size
    }

    /// Returns the address space size.
    pub fn size(&self) -> (r: usize)
        ensures
            r == self.spec_size(),
    {
        self.va_size
    }

    /// Returns the reference to the inner page table.
    pub fn page_table(&self) -> (r: &PageTable)
        ensures
            *r == self.spec_pt(),
    {
        &self.pt
    }

    /// Returns the root physical address of the inner page table.
    pub fn page_table_root(&self) -> (r: usize)
        ensures
            r == self.spec_pt().spec_root(),
    {
        self.pt.root_paddr()
    }

    /// Whether `[start, start + size)` lies within the virtual range.
    pub open spec fn spec_contains_range(self, start: int, size: int) -> bool {
        self.spec_base() <= start && start + size <= self.spec_end()
    }

    /// Checks if the address space contains the given address range.
    pub fn contains_range(&self, start: usize, size: usize) -> (r: bool)
        requires
            self.spec_base() + self.spec_size() <= usize::MAX,
        ensures
            r == self.spec_contains_range(start as int, size as int),
    {
        start >= self.va_base && size <= self.va_size && start - self.va_base <= self.va_size
            - size
    }

    /// Creates a new empty address space over `[base, base + size)`,
    /// allocating a page-table root frame from `pool`.
    ///
    /// Fails with `NoMemory` exactly when the pool has no free frame.
    pub fn new_empty(base: usize, size: usize, pool: &mut FramePool) -> (r: AxResult<AddrSpace>)
        requires
            old(pool).wf(),
            base + size <= usize::MAX,
        ensures
            final(pool).wf(),
            old(pool).same_shape(*final(pool)),
            match r {
                Ok(a) => {
                    &&& a.wf()
                    &&& a.consistent(*final(pool))
                    &&& a.spec_base() == base
                    &&& a.spec_size() == size
                    &&& a.regions() == Seq::<Region>::empty()
                    &&& a.pt_map() == Map::<usize, PageEntry>::empty()
                    &&& a.spec_pt().spec_root() % PAGE_SIZE == 0
                    &&& old(pool).in_range(a.spec_pt().spec_root() as int)
                    &&& !old(pool).is_allocated(a.spec_pt().spec_root() as int)
                    &&& final(pool).alloc_map() == old(pool).alloc_map().update(
                        old(pool).frame_idx(a.spec_pt().spec_root() as int),
                        true,
                    )
                    &&& final(pool).counts() == old(pool).counts().update(
                        old(pool).frame_idx(a.spec_pt().spec_root() as int),
                        1usize,
                    )
                    &&& final(pool).mem() == old(pool).mem()
                },
                Err(e) => {
                    &&& e == AxError::NoMemory
                    &&& *final(pool) == *old(pool)
                    &&& crate::frames::count_free(old(pool).alloc_map()) == 0
                },
            },
    {
        let pt = match PageTable::try_new(pool) {
            Ok(pt) => pt,
            Err(e) => {
                return Err(e);
            },
        };
        let a = AddrSpace { va_base: base, va_size: size, regions: Vec::new(), pt };
        proof {
            assert(a.regions() =~= Seq::<Region>::empty());
            reveal(AddrSpace::consistent);
        }
        Ok(a)
    }

    /// Checks whether an access to the specified memory region is valid:
    /// true exactly when the whole range is covered by regions whose flags
    /// contain `access_flags` (for an empty range, when some region
    /// containing `start` does).
    #[verifier::rlimit(100)]
    #[verifier::spinoff_prover]
    pub fn can_access_range(&self, start: usize, size: usize, access_flags: MappingFlags) -> (r:
        bool)
        requires
            self.wf(),
            start + size <= usize::MAX,
        ensures
            size > 0 ==> r == accessible(
                self.regions(),
                start as int,
                start + size,
                access_flags,
            ),
            size == 0 ==> r == covered_with(self.regions(), start as int, access_flags),
    {
        let ghost rs = self.regions();
        let ghost rend = start + size;
        let end = start + size;
        let mut cur = start;
        let mut i: usize = 0;
        let n = self.regions.len();
        while i < n
            invariant
                self.wf(),
                n == rs.len(),
                rs == self.regions(),
                i <= n,
                start <= cur <= usize::MAX,
                end == rend,
                start + size == rend,
                cur < rend || size == 0 && cur == start,
                forall|j: int| 0 <= j < i ==> (#[trigger] rs[j]).spec_end() <= cur,
                forall|a: int| start <= a < cur ==> #[trigger] covered_with(rs, a, access_flags),
            decreases n - i,
        {
            let region = self.regions[i];
            if region.end() <= cur {
                i = i + 1;
                continue ;
            }
            if region.start > cur {
                proof {
                    lemma_not_covered(rs, self.spec_base() as int, self.spec_end(), i as int, cur as int);
                    assert(!covered_with(rs, cur as int, access_flags));
                }
                return false;
            }
            if !region.flags.contains(access_flags) {
                proof {
                    assert(rs[i as int].contains(cur as int));
                    if covered_with(rs, cur as int, access_flags) {
                        let j = choose|j: int|
                            0 <= j < rs.len() && (#[trigger] rs[j]).contains(cur as int)
                                && rs[j].flags.spec_contains(access_flags);
                        lemma_region_unique(
                            rs,
                            self.spec_base() as int,
                            self.spec_end(),
                            i as int,
                            j,
                            cur as int,
                        );
                    }
                }
                return false;
            }
            let ghost prev_cur = cur as int;
            cur = region.end();
            proof {
                assert forall|a: int| start <= a < cur implies #[trigger] covered_with(
                    rs,
                    a,
                    access_flags,
                ) by {
                    if a >= prev_cur {
                        assert(rs[i as int].contains(a));
                        assert(covered_with(rs, a, access_flags));
                    }
                }
            }
            if cur >= end {
                return true;
            }
            i = i + 1;
        }
        proof {
            lemma_not_covered(rs, self.spec_base() as int, self.spec_end(), n as int, cur as int);
            assert(!covered_with(rs, cur as int, access_flags));
        }
        false
    }
    /// Searches for a free gap of `size` bytes: the lowest address at or
    /// past `max(hint, limit_start)` (rounded up to `align`) that is aligned,
    /// ends at or before `limit_end`, and intersects no mapped region.
    ///
    /// Returns `None` exactly when no such address exists.
    #[verifier::rlimit(100)]
    #[verifier::spinoff_prover]
    pub fn find_free_area(
        &self,
        hint: usize,
        size: usize,
        limit_start: usize,
        limit_end: usize,
        align: usize,
    ) -> (r: Option<usize>)
        requires
            self.wf(),
            align > 0,
        ensures
            ({
                let lo = spec_align_up(
                    if hint >= limit_start {
                        hint as int
                    } else {
                        limit_start as int
                    },
                    align as int,
                );
                match r {
                    Some(x) => {
                        &&& fits_gap(
                            self.regions(),
                            x as int,
                            size as int,
                            lo,
                            limit_end as int,
                            align as int,
                        )
                        &&& forall|y: int|
                            y < x ==> !fits_gap(
                                self.regions(),
                                y,
                                size as int,
                                lo,
                                limit_end as int,
                                align as int,
                            )
                    },
                    None => forall|y: int|
                        !fits_gap(
                            self.regions(),
                            y,
                            size as int,
                            lo,
                            limit_end as int,
                            align as int,
                        ),
                }
            }),
    {
        let ghost rs = self.regions();
        let ghost b = self.spec_base() as int;
        let ghost e = self.spec_end();
        let ghost lo = spec_align_up(
            if hint >= limit_start {
                hint as int
            } else {
                limit_start as int
            },
            align as int,
        );
        let lo0 = if hint >= limit_start {
            hint
        } else {
            limit_start
        };
        proof {
            lemma_align_up(lo0 as int, align as int);
        }
        proof {
            lemma_no_fit_below_lo(rs, lo, size as int, limit_end as int, align as int);
        }
        let mut cand = match align_up_checked(lo0, align) {
            Some(c) => c,
            None => {
                proof {
                    lemma_no_fit_beyond_limit(
                        rs,
                        usize::MAX as int + 1,
                        size as int,
                        lo,
                        limit_end as int,
                        align as int,
                    );
                }
                return None;
            },
        };
        let n = self.regions.len();
        let mut i: usize = 0;
        while i < n
            invariant
                regions_wf(rs, b, e),
                rs == self.regions(),
                b == self.spec_base() as int,
                e == self.spec_end(),
                lo == spec_align_up(
                    if hint >= limit_start {
                        hint as int
                    } else {
                        limit_start as int
                    },
                    align as int,
                ),
                n == rs.len(),
                i <= n,
                align > 0,
                lo <= cand <= usize::MAX,
                (cand as int) % (align as int) == 0,
                forall|j: int| 0 <= j < i ==> (#[trigger] rs[j]).spec_end() <= cand,
                forall|y: int|
                    y < cand ==> !#[trigger] fits_gap(
                        rs,
                        y,
                        size as int,
                        lo,
                        limit_end as int,
                        align as int,
                    ),
            decreases n - i,
        {
            let region = self.regions[i];
            if region.end() <= cand {
                i = i + 1;
                continue ;
            }
            if size <= region.start && cand <= region.start - size {
                // the gap before this region fits
                if size <= limit_end && cand <= limit_end - size {
                    proof {
                        lemma_fit_at_candidate(
                            rs,
                            b,
                            e,
                            i as int,
                            cand as int,
                            size as int,
                            lo,
                            limit_end as int,
                            align as int,
                        );
                    }
                    return Some(cand);
                } else {
                    proof {
                        lemma_no_fit_beyond_limit(
                            rs,
                            cand as int,
                            size as int,
                            lo,
                            limit_end as int,
                            align as int,
                        );
                    }
                    return None;
                }
            } else {
                // the gap is too small: advance past this region
                let region_end = region.end();
                proof {
                    lemma_align_up(region_end as int, align as int);
                }
                let opt = align_up_checked(region_end, align);
                proof {
                    lemma_no_fit_before_advance(
                        rs,
                        b,
                        e,
                        i as int,
                        cand as int,
                        size as int,
                        lo,
                        limit_end as int,
                        align as int,
                    );
                }
                let new_cand = match opt {
                    Some(c) => c,
                    None => {
                        proof {
                            lemma_no_fit_beyond_limit(
                                rs,
                                spec_align_up(region_end as int, align as int),
                                size as int,
                                lo,
                                limit_end as int,
                                align as int,
                            );
                        }
                        return None;
                    },
                };
                cand = new_cand;
                i = i + 1;
            }
        }
        if size <= limit_end && cand <= limit_end - size {
            proof {
                lemma_fit_at_candidate(
                    rs,
                    b,
                    e,
                    n as int,
                    cand as int,
                    size as int,
                    lo,
                    limit_end as int,
                    align as int,
                );
            }
            Some(cand)
        } else {
            proof {
                lemma_no_fit_beyond_limit(
                    rs,
                    cand as int,
                    size as int,
                    lo,
                    limit_end as int,
                    align as int,
                );
            }
            None
        }
    }

}




/// Whether `[start, end)` intersects some region.
pub open spec fn overlaps_any(rs: Seq<Region>, start: int, end: int) -> bool {
    exists|i: int| 0 <= i < rs.len() && (#[trigger] rs[i]).start < end && start < rs[i].spec_end()
}

/// A page-aligned frame's worth of facts: allocation state, count and
/// contents of the frame at `f` agree between two pools.
pub open spec fn frame_unchanged(p0: FramePool, p1: FramePool, f: int) -> bool {
    &&& p1.is_allocated(f) == p0.is_allocated(f)
    &&& p1.count_of(f) == p0.count_of(f)
    &&& forall|o: int| 0 <= o < PAGE_SIZE ==> #[trigger] p1.mem_at(f + o) == p0.mem_at(f + o)
}

/// Allocation state and counts agree on every frame outside `touched`; the
/// contents are untouched as well.
pub open spec fn counts_unchanged_except(p0: FramePool, p1: FramePool, touched: Set<int>) -> bool {
    &&& p0.same_shape(p1)
    &&& forall|f: int|
        p0.in_range(f) && f % (PAGE_SIZE as int) == 0 && !touched.contains(f) ==> ((
        #[trigger] p1.is_allocated(f)) == p0.is_allocated(f) && p1.count_of(f) == p0.count_of(f))
}

/// The pools have the same shape and agree on every frame outside `touched`.
pub open spec fn pool_unchanged_except(p0: FramePool, p1: FramePool, touched: Set<int>) -> bool {
    &&& p0.same_shape(p1)
    &&& forall|f: int|
        p0.in_range(f) && f % (PAGE_SIZE as int) == 0 && !touched.contains(f) ==> #[trigger] frame_unchanged(
            p0,
            p1,
            f,
        )
}

/// A frame that was free in `p0` and is now the exclusively owned, zeroed
/// backing of one page in `p1`.
pub open spec fn fresh_zeroed_frame(p0: FramePool, p1: FramePool, pa: int) -> bool {
    &&& p0.in_range(pa)
    &&& pa % (PAGE_SIZE as int) == 0
    &&& !p0.is_allocated(pa)
    &&& p1.is_allocated(pa)
    &&& p1.count_of(pa) == 1
    &&& forall|o: int| 0 <= o < PAGE_SIZE ==> #[trigger] p1.mem_at(pa + o) == 0
}

/// The translations agree outside `[lo, hi)`.
pub open spec fn pt_same_outside(
    m0: Map<usize, PageEntry>,
    m1: Map<usize, PageEntry>,
    lo: int,
    hi: int,
) -> bool {
    forall|k: usize|
        !(lo <= k < hi) ==> ((#[trigger] m1.contains_key(k)) == m0.contains_key(k) && (
        m0.contains_key(k) ==> m1[k] == m0[k]))
}

/// Every page of `[lo, hi)` translates to `page - offset` with flags `f`.
pub open spec fn linear_mapped(
    m: Map<usize, PageEntry>,
    lo: int,
    hi: int,
    offset: int,
    f: MappingFlags,
) -> bool {
    forall|k: usize|
        lo <= k < hi && k % PAGE_SIZE == 0 ==> (#[trigger] m.contains_key(k)) && m[k]
            == (PageEntry { paddr: (k - offset) as usize, flags: f })
}

/// Every key of `m` within `[lo, hi)` is page-aligned.
pub open spec fn keys_aligned_in(m: Map<usize, PageEntry>, lo: int, hi: int) -> bool {
    forall|k: usize| lo <= k < hi && (#[trigger] m.contains_key(k)) ==> k % PAGE_SIZE == 0
}

/// A multiple of a multiple of `p` is a multiple of `p`.
pub proof fn lemma_mod_multiple_chain(x: int, a: int, p: int)
    requires
        a % p == 0,
        a > 0,
        p > 0,
        x % a == 0,
    ensures
        x % p == 0,
{
    lemma_fundamental_div_mod(x, a);
    lemma_fundamental_div_mod(a, p);
    assert(x == p * ((a / p) * (x / a))) by {
        vstd::arithmetic::mul::lemma_mul_is_associative(p, a / p, x / a);
    }
    lemma_mod_multiples_basic((a / p) * (x / a), p);
}

/// The difference of two multiples of `p` is a multiple of `p`.
pub proof fn lemma_mod_sub_zero(x: int, y: int, p: int)
    requires
        p > 0,
        x % p == 0,
        y % p == 0,
    ensures
        (x - y) % p == 0,
{
    lemma_fundamental_div_mod(x, p);
    lemma_fundamental_div_mod(y, p);
    assert(x - y == p * (x / p - y / p)) by {
        vstd::arithmetic::mul::lemma_mul_is_distributive_sub(p, x / p, y / p);
    }
    lemma_mod_multiples_basic(x / p - y / p, p);
}

/// The sum of two multiples of `p` is a multiple of `p`.
pub proof fn lemma_mod_add_zero(x: int, y: int, p: int)
    requires
        p > 0,
        x % p == 0,
        y % p == 0,
    ensures
        (x + y) % p == 0,
{
    lemma_fundamental_div_mod(x, p);
    lemma_fundamental_div_mod(y, p);
    assert(x + y == p * (x / p + y / p)) by {
        lemma_mul_is_distributive_add(p, x / p, y / p);
    }
    lemma_mod_multiples_basic(x / p + y / p, p);
}

/// Inserting a region that intersects no existing one leaves every address
/// either covered as before or covered by the new region alone.
pub proof fn lemma_covers_insert(rs: Seq<Region>, idx: int, reg: Region, addr: int)
    requires
        0 <= idx <= rs.len(),
    ensures
        covers(rs.insert(idx, reg), addr) <==> covers(rs, addr) || reg.contains(addr),
{
    let ns = rs.insert(idx, reg);
    if covers(rs, addr) {
        let i = region_index_of(rs, addr);
        if i < idx {
            assert(ns[i].contains(addr));
        } else {
            assert(ns[i + 1].contains(addr));
        }
    }
    if reg.contains(addr) {
        assert(ns[idx].contains(addr));
    }
    if covers(ns, addr) {
        let i = region_index_of(ns, addr);
        if i < idx {
            assert(rs[i].contains(addr));
        } else if i == idx {
        } else {
            assert(rs[i - 1].contains(addr));
        }
    }
}

/// After inserting a region disjoint from every other, an address covered by
/// the old sequence keeps the same containing region.
pub proof fn lemma_region_at_insert(
    rs: Seq<Region>,
    b: int,
    e: int,
    idx: int,
    reg: Region,
    addr: int,
)
    requires
        regions_wf(rs.insert(idx, reg), b, e),
        0 <= idx <= rs.len(),
        covers(rs, addr),
        !reg.contains(addr),
    ensures
        covers(rs.insert(idx, reg), addr),
        region_at(rs.insert(idx, reg), addr) == region_at(rs, addr),
{
    let ns = rs.insert(idx, reg);
    let i = region_index_of(rs, addr);
    if i < idx {
        assert(ns[i].contains(addr));
    } else {
        assert(ns[i + 1].contains(addr));
    }
    let j = region_index_of(ns, addr);
    assert(ns[j].contains(addr));
    if i < idx {
        lemma_region_unique(ns, b, e, i, j, addr);
    } else {
        lemma_region_unique(ns, b, e, i + 1, j, addr);
    }
}

impl AddrSpace {
    /// A range acceptable to a map call: inside the virtual range and
    /// aligned to `align` on both ends.
    pub open spec fn valid_range(self, start: int, size: int, align: int) -> bool {
        &&& self.spec_contains_range(start, size)
        &&& start % align == 0
        &&& size % align == 0
    }

    /// Finds the insertion slot for a new region over `[start, end)`: the
    /// index of the first region not entirely before `start`, and whether
    /// the range intersects an existing region.
    fn find_insert_pos(&self, start: usize, end: usize) -> (r: (usize, bool))
        requires
            self.wf(),
            start < end,
        ensures
            r.0 <= self.regions().len(),
            forall|j: int| 0 <= j < r.0 ==> (#[trigger] self.regions()[j]).spec_end() <= start,
            r.1 == overlaps_any(self.regions(), start as int, end as int),
            !r.1 ==> forall|j: int|
                r.0 <= j < self.regions().len() ==> end <= (#[trigger] self.regions()[j]).start,
    {
        let ghost rs = self.regions();
        let ghost b = self.spec_base() as int;
        let ghost e = self.spec_end();
        let n = self.regions.len();
        let mut idx: usize = 0;
        while idx < n
            invariant
                self.wf(),
                rs == self.regions(),
                b == self.spec_base() as int,
                e == self.spec_end(),
                n == rs.len(),
                idx <= n,
                start < end,
                forall|j: int| 0 <= j < idx ==> (#[trigger] rs[j]).spec_end() <= start,
            decreases n - idx,
        {
            let region = self.regions[idx];
            if region.end() <= start {
                idx = idx + 1;
                continue ;
            }
            if region.start >= end {
                proof {
                    assert forall|j: int| idx <= j < rs.len() implies end <= (#[trigger] rs[
                    j]).start by {
                        if j > idx {
                            lemma_regions_disjoint(rs, b, e, idx as int, j);
                        }
                    }
                    assert(!overlaps_any(rs, start as int, end as int)) by {
                        if overlaps_any(rs, start as int, end as int) {
                            let i = choose|i: int|
                                0 <= i < rs.len() && (#[trigger] rs[i]).start < end && start < rs[
                                i].spec_end();
                            assert(rs[i].spec_end() <= start || end <= rs[i].start);
                        }
                    }
                }
                return (idx, false);
            }
            proof {
                assert(rs[idx as int].start < end && start < rs[idx as int].spec_end());
            }
            return (idx, true);
        }
        proof {
            assert(!overlaps_any(rs, start as int, end as int)) by {
                if overlaps_any(rs, start as int, end as int) {
                    let i = choose|i: int|
                        0 <= i < rs.len() && (#[trigger] rs[i]).start < end && start < rs[
                        i].spec_end();
                    assert(rs[i].spec_end() <= start);
                }
            }
        }
        (n, false)
    }
}


/// Maps every page of `[lo, hi)` to `page - offset` in `pt`.
fn map_pages_linear(pt: &mut PageTable, lo: usize, hi: usize, offset: usize, flags: MappingFlags)
    requires
        old(pt).wf(),
        lo % PAGE_SIZE == 0,
        hi % PAGE_SIZE == 0,
        lo <= hi <= usize::MAX,
        offset <= lo,
        offset % PAGE_SIZE == 0,
        forall|k: usize|
            lo <= k < hi ==> !(#[trigger] old(pt)@.contains_key(k)),
    ensures
        final(pt).wf(),
        final(pt).spec_root() == old(pt).spec_root(),
        pt_same_outside(old(pt)@, final(pt)@, lo as int, hi as int),
        linear_mapped(final(pt)@, lo as int, hi as int, offset as int, flags),
        keys_aligned_in(final(pt)@, lo as int, hi as int),
{
    let mut va = lo;
    while va < hi
        invariant
            pt.wf(),
            pt.spec_root() == old(pt).spec_root(),
            lo <= va <= hi,
            va % PAGE_SIZE == 0,
            lo % PAGE_SIZE == 0,
            hi % PAGE_SIZE == 0,
            hi <= usize::MAX,
            offset <= lo,
            offset % PAGE_SIZE == 0,
            forall|k: usize| lo <= k < hi ==> !(#[trigger] old(pt)@.contains_key(k)),
            pt_same_outside(old(pt)@, pt@, lo as int, hi as int),
            linear_mapped(pt@, lo as int, va as int, offset as int, flags),
            keys_aligned_in(pt@, lo as int, hi as int),
            forall|k: usize| va <= k < hi ==> !(#[trigger] pt@.contains_key(k)),
        decreases hi - va,
    {
        let target = va - offset;
        proof {
            lemma_mod_sub_zero(va as int, offset as int, PAGE_SIZE as int);
            assert(spec_page_of(va) == va) by {
                lemma_fundamental_div_mod(va as int, PAGE_SIZE as int);
            }
        }
        match pt.map(va, target, flags) {
            Ok(_) => {},
            Err(_) => {
                proof {
                    assert(false);
                }
                return ;
            },
        }
        proof {
            lemma_mod_add_zero(va as int, PAGE_SIZE as int, PAGE_SIZE as int);
        }
        va = va + PAGE_SIZE;
    }
}

impl AddrSpace {
    /// Adds a new linear mapping of `[start_vaddr, start_vaddr + size)` to
    /// the physical range starting at `start_paddr`, eagerly mapping every
    /// page.
    ///
    /// Fails with `InvalidInput` when the range is empty, out of the virtual
    /// range, or misaligned, and with `AlreadyExists` when it intersects an
    /// existing region; nothing changes on failure.
    #[verifier::rlimit(100)]
    #[verifier::spinoff_prover]
    pub fn map_linear(
        &mut self,
        start_vaddr: usize,
        start_paddr: usize,
        size: usize,
        flags: MappingFlags,
        align: usize,
    ) -> (r: AxResult)
        requires
            old(self).wf(),
            align > 0,
            align % PAGE_SIZE == 0,
            start_paddr <= start_vaddr,
        ensures
            final(self).wf(),
            final(self).spec_base() == old(self).spec_base(),
            final(self).spec_size() == old(self).spec_size(),
            final(self).spec_pt().spec_root() == old(self).spec_pt().spec_root(),
            r == Ok::<(), AxError>(()) <==> (old(self).valid_range(
                start_vaddr as int,
                size as int,
                align as int,
            ) && size > 0 && start_paddr % align == 0 && !overlaps_any(
                old(self).regions(),
                start_vaddr as int,
                start_vaddr + size,
            )),
            r == Err::<(), AxError>(AxError::InvalidInput) <==> !(old(self).valid_range(
                start_vaddr as int,
                size as int,
                align as int,
            ) && size > 0 && start_paddr % align == 0),
            r is Err ==> *final(self) == *old(self),
            r is Ok ==> {
                &&& exists|idx: int|
                    0 <= idx <= old(self).regions().len() && final(self).regions() == #[trigger] old(
                        self,
                    ).regions().insert(
                        idx,
                        (Region {
                            start: start_vaddr,
                            size: size,
                            flags: flags,
                            backend: Backend::Linear {
                                pa_va_offset: (start_vaddr - start_paddr) as usize,
                                align: align,
                            },
                        }),
                    )
                &&& pt_same_outside(
                    old(self).pt_map(),
                    final(self).pt_map(),
                    start_vaddr as int,
                    start_vaddr + size,
                )
                &&& linear_mapped(
                    final(self).pt_map(),
                    start_vaddr as int,
                    start_vaddr + size,
                    start_vaddr - start_paddr,
                    flags,
                )
                &&& keys_aligned_in(
                    final(self).pt_map(),
                    start_vaddr as int,
                    start_vaddr + size,
                )
                &&& forall|p: FramePool|
                    old(self).consistent(p) ==> #[trigger] final(self).consistent(p)
            },
    {
        let ghost rs = self.regions();
        if self.validate_region(start_vaddr, size, align).is_err() || size == 0 || start_paddr
            % align != 0 {
            return Err(AxError::InvalidInput);
        }
        proof {
            assert(start_vaddr + size <= usize::MAX);
        }
        let end = start_vaddr + size;
        let (idx, overlap) = self.find_insert_pos(start_vaddr, end);
        if overlap {
            return Err(AxError::AlreadyExists);
        }
        self.do_map_linear(idx, start_vaddr, start_paddr, size, flags, align);
        Ok(())
    }

    /// The committing step of [`Self::map_linear`]: inserts the region and
    /// maps its pages, after all checks have passed.
    #[verifier::rlimit(100)]
    #[verifier::spinoff_prover]
    fn do_map_linear(
        &mut self,
        idx: usize,
        start_vaddr: usize,
        start_paddr: usize,
        size: usize,
        flags: MappingFlags,
        align: usize,
    )
        requires
            old(self).wf(),
            align > 0,
            align % PAGE_SIZE == 0,
            start_paddr <= start_vaddr,
            old(self).valid_range(start_vaddr as int, size as int, align as int),
            size > 0,
            start_paddr % align == 0,
            !overlaps_any(old(self).regions(), start_vaddr as int, start_vaddr + size),
            idx <= old(self).regions().len(),
            forall|j: int|
                0 <= j < idx ==> (#[trigger] old(self).regions()[j]).spec_end() <= start_vaddr,
            forall|j: int|
                idx <= j < old(self).regions().len() ==> start_vaddr + size <= (#[trigger] old(
                    self,
                ).regions()[j]).start,
        ensures
            final(self).wf(),
            final(self).spec_base() == old(self).spec_base(),
            final(self).spec_size() == old(self).spec_size(),
            final(self).spec_pt().spec_root() == old(self).spec_pt().spec_root(),
            final(self).regions() == old(self).regions().insert(
                idx as int,
                (Region {
                    start: start_vaddr,
                    size: size,
                    flags: flags,
                    backend: Backend::Linear {
                        pa_va_offset: (start_vaddr - start_paddr) as usize,
                        align: align,
                    },
                }),
            ),
            pt_same_outside(
                old(self).pt_map(),
                final(self).pt_map(),
                start_vaddr as int,
                start_vaddr + size,
            ),
            linear_mapped(
                final(self).pt_map(),
                start_vaddr as int,
                start_vaddr + size,
                start_vaddr - start_paddr,
                flags,
            ),
            keys_aligned_in(final(self).pt_map(), start_vaddr as int, start_vaddr + size),
            forall|p: FramePool| old(self).consistent(p) ==> #[trigger] final(self).consistent(p),
    {
        let ghost rs = self.regions();
        let end = start_vaddr + size;
        let offset = start_vaddr - start_paddr;
        let region = Region {
            start: start_vaddr,
            size,
            flags,
            backend: Backend::Linear { pa_va_offset: offset, align },
        };
        proof {
            lemma_mod_multiple_chain(start_vaddr as int, align as int, PAGE_SIZE as int);
            lemma_mod_multiple_chain(size as int, align as int, PAGE_SIZE as int);
            lemma_mod_multiple_chain(start_paddr as int, align as int, PAGE_SIZE as int);
            lemma_mod_sub_zero(start_vaddr as int, start_paddr as int, PAGE_SIZE as int);
            lemma_mod_add_zero(start_vaddr as int, size as int, PAGE_SIZE as int);
            old(self).lemma_no_keys_in_free_range(start_vaddr as int, end as int);
            assert(linear_offset_ok(region)) by {
                reveal(linear_offset_ok);
            }
        }
        self.insert_region_sorted(idx, region);
        let ghost mid = *self;
        proof {
            assert forall|k: usize| start_vaddr <= k < end implies !(#[trigger] self
                .pt@.contains_key(k)) by {
                assert(self.spec_pt() == old(self).spec_pt());
                assert(!old(self).pt_map().contains_key(k));
            }
        }
        map_pages_linear(&mut self.pt, start_vaddr, end, offset, flags);
        proof {
            let ns = self.regions();
            assert forall|k: usize| #[trigger] self.pt_map().contains_key(k) implies covers(
                ns,
                k as int,
            ) by {
                if start_vaddr <= k < end {
                    assert(ns[idx as int].contains(k as int));
                } else {
                    assert(mid.pt_map().contains_key(k));
                }
            }
            assert forall|p: FramePool| old(self).consistent(p) implies #[trigger] final(self)
                .consistent(p) by {
                lemma_linear_extend_consistent(*old(self), *self, p, idx as int, region);
            }
        }
    }

    /// Checks that `[start, start + size)` lies in the virtual range and is
    /// aligned to `align` on both ends.
    fn validate_region(&self, start: usize, size: usize, align: usize) -> (r: AxResult)
        requires
            self.spec_base() + self.spec_size() <= usize::MAX,
            align > 0,
        ensures
            r is Ok <==> self.valid_range(start as int, size as int, align as int),
            r is Err ==> r == Err::<(), AxError>(AxError::InvalidInput),
    {
        if !self.contains_range(start, size) {
            return Err(AxError::InvalidInput);
        }
        if start % align != 0 || size % align != 0 {
            return Err(AxError::InvalidInput);
        }
        Ok(())
    }
}


/// Inserting a well-formed region into its sorted slot keeps the sequence
/// well-formed.
proof fn lemma_regions_wf_insert(rs: Seq<Region>, b: int, e: int, idx: int, reg: Region)
    requires
        regions_wf(rs, b, e),
        0 <= idx <= rs.len(),
        reg.wf(),
        b <= reg.start,
        reg.spec_end() <= e,
        forall|j: int| 0 <= j < idx ==> (#[trigger] rs[j]).spec_end() <= reg.start,
        forall|j: int| idx <= j < rs.len() ==> reg.spec_end() <= (#[trigger] rs[j]).start,
    ensures
        regions_wf(rs.insert(idx, reg), b, e),
{
    let ns = rs.insert(idx, reg);
    assert forall|i: int| 0 <= i < ns.len() implies (#[trigger] ns[i]).wf() && b <= ns[i].start
        && ns[i].spec_end() <= e by {
        if i < idx {
            assert(ns[i] == rs[i]);
        } else if i == idx {
        } else {
            assert(ns[i] == rs[i - 1]);
        }
    }
    assert forall|i: int| 0 <= i < ns.len() - 1 implies (#[trigger] ns[i]).spec_end() <= ns[i
        + 1].start by {
        if i + 1 < idx {
            assert(ns[i] == rs[i] && ns[i + 1] == rs[i + 1]);
        } else if i + 1 == idx {
            assert(ns[i] == rs[i]);
        } else if i == idx {
            assert(ns[i + 1] == rs[i]);
        } else {
            assert(ns[i] == rs[i - 1] && ns[i + 1] == rs[i]);
        }
    }
}

impl AddrSpace {
    /// Inserts `region` at slot `idx` of the sorted region sequence.
    fn insert_region_sorted(&mut self, idx: usize, region: Region)
        requires
            old(self).wf(),
            idx <= old(self).regions().len(),
            region.wf(),
            old(self).spec_base() <= region.start,
            region.spec_end() <= old(self).spec_end(),
            forall|j: int|
                0 <= j < idx ==> (#[trigger] old(self).regions()[j]).spec_end() <= region.start,
            forall|j: int|
                idx <= j < old(self).regions().len() ==> region.spec_end() <= (#[trigger] old(
                    self,
                ).regions()[j]).start,
        ensures
            final(self).wf(),
            final(self).spec_base() == old(self).spec_base(),
            final(self).spec_size() == old(self).spec_size(),
            final(self).spec_pt() == old(self).spec_pt(),
            final(self).regions() == old(self).regions().insert(idx as int, region),
    {
        proof {
            lemma_regions_wf_insert(
                self.regions(),
                self.spec_base() as int,
                self.spec_end(),
                idx as int,
                region,
            );
        }
        let ghost rs = self.regions();
        self.regions.insert(idx, region);
        proof {
            assert forall|k: usize| #[trigger] self.pt_map().contains_key(k) implies covers(
                self.regions(),
                k as int,
            ) by {
                assert(old(self).pt_map().contains_key(k));
                assert(covers(rs, k as int));
                lemma_covers_insert(rs, idx as int, region, k as int);
            }
        }
    }

    /// No page of a range disjoint from every region has a translation.
    proof fn lemma_no_keys_in_free_range(self, start: int, end: int)
        requires
            self.wf(),
            !overlaps_any(self.regions(), start, end),
        ensures
            forall|k: usize|
                start <= k < end ==> !(#[trigger] self.pt_map().contains_key(k)),
    {
        let rs = self.regions();
        assert forall|k: usize| start <= k < end implies !(#[trigger] self
            .pt_map()
            .contains_key(k)) by {
            if self.pt_map().contains_key(k) {
                assert(covers(rs, k as int));
                let i = region_index_of(rs, k as int);
                assert(rs[i].start < end && start < rs[i].spec_end());
            }
        }
    }
}


/// Every translated page of `[lo, hi)` is backed by a frame that was free
/// before and is now an exclusively owned, zeroed backing.
pub open spec fn range_backed_fresh(
    m1: Map<usize, PageEntry>,
    p0: FramePool,
    p1: FramePool,
    lo: int,
    hi: int,
    f: MappingFlags,
) -> bool {
    forall|k: usize|
        lo <= k < hi && (#[trigger] m1.contains_key(k)) ==> m1[k].flags == f
            && fresh_zeroed_frame(p0, p1, m1[k].paddr as int)
}

/// Every page of `[lo, hi)` has a translation.
pub open spec fn range_all_mapped(m1: Map<usize, PageEntry>, lo: int, hi: int) -> bool {
    forall|k: usize| lo <= k < hi && k % PAGE_SIZE == 0 ==> #[trigger] m1.contains_key(k)
}

/// No two translated pages of `[lo, hi)` share a frame.
pub open spec fn range_injective(m1: Map<usize, PageEntry>, lo: int, hi: int) -> bool {
    forall|k1: usize, k2: usize|
        #![trigger m1[k1], m1[k2]]
        lo <= k1 < hi && lo <= k2 < hi && m1.contains_key(k1) && m1.contains_key(k2) && k1 != k2
            ==> m1[k1].paddr != m1[k2].paddr
}

/// Every frame allocated in `p0` is untouched in `p1`.
pub open spec fn allocated_frames_unchanged(p0: FramePool, p1: FramePool) -> bool {
    &&& p0.same_shape(p1)
    &&& forall|f: int|
        p0.in_range(f) && f % (PAGE_SIZE as int) == 0 && (#[trigger] p0.is_allocated(f))
            ==> frame_unchanged(p0, p1, f)
}

/// Allocates a zeroed frame for every unmapped page of `[lo, hi)` and maps
/// it with flags `f`, stopping with `NoMemory` when the pool runs dry.
#[verifier::rlimit(100)]
#[verifier::spinoff_prover]
fn populate_fresh(
    pt: &mut PageTable,
    pool: &mut FramePool,
    lo: usize,
    hi: usize,
    f: MappingFlags,
) -> (r: AxResult)
    requires
        old(pt).wf(),
        old(pool).wf(),
        lo % PAGE_SIZE == 0,
        hi % PAGE_SIZE == 0,
        lo <= hi <= usize::MAX,
        forall|k: usize| lo <= k < hi ==> !(#[trigger] old(pt)@.contains_key(k)),
    ensures
        final(pt).wf(),
        final(pt).spec_root() == old(pt).spec_root(),
        final(pool).wf(),
        old(pool).same_shape(*final(pool)),
        pt_same_outside(old(pt)@, final(pt)@, lo as int, hi as int),
        keys_aligned_in(final(pt)@, lo as int, hi as int),
        range_backed_fresh(final(pt)@, *old(pool), *final(pool), lo as int, hi as int, f),
        range_injective(final(pt)@, lo as int, hi as int),
        allocated_frames_unchanged(*old(pool), *final(pool)),
        r is Ok <==> count_free(old(pool).alloc_map()) >= (hi - lo) / (PAGE_SIZE as int),
        r is Ok ==> {
            &&& range_all_mapped(final(pt)@, lo as int, hi as int)
            &&& count_free(final(pool).alloc_map()) + (hi - lo) / (PAGE_SIZE as int) == count_free(
                old(pool).alloc_map(),
            )
        },
        r is Err ==> r == Err::<(), AxError>(AxError::NoMemory) && count_free(
            final(pool).alloc_map(),
        ) == 0 && exists|mid: int|
            lo <= mid <= hi && #[trigger] range_all_mapped(final(pt)@, lo as int, mid) && forall|
                k: usize,
            | mid <= k < hi ==> !(#[trigger] final(pt)@.contains_key(k)),
{
    let ghost p0 = *old(pool);
    let mut va = lo;
    let ghost mut j: int = 0;
    while va < hi
        invariant
            pt.wf(),
            pt.spec_root() == old(pt).spec_root(),
            pool.wf(),
            p0 == *old(pool),
            p0.same_shape(*pool),
            lo <= va <= hi,
            hi <= usize::MAX,
            lo % PAGE_SIZE == 0,
            va % PAGE_SIZE == 0,
            hi % PAGE_SIZE == 0,
            va == lo + j * PAGE_SIZE,
            0 <= j,
            count_free(pool.alloc_map()) + j == count_free(p0.alloc_map()),
            forall|k: usize| lo <= k < hi ==> !(#[trigger] old(pt)@.contains_key(k)),
            pt_same_outside(old(pt)@, pt@, lo as int, hi as int),
            keys_aligned_in(pt@, lo as int, hi as int),
            range_backed_fresh(pt@, p0, *pool, lo as int, hi as int, f),
            range_injective(pt@, lo as int, hi as int),
            allocated_frames_unchanged(p0, *pool),
            range_all_mapped(pt@, lo as int, va as int),
            forall|k: usize| va <= k < hi ==> !(#[trigger] pt@.contains_key(k)),
        decreases hi - va,
    {
        let ghost pool_prev = *pool;
        let ghost pt_prev = *pt;
        let pa_opt = pool.alloc_frame(true);
        let pa = match pa_opt {
            Some(pa) => pa,
            None => {
                proof {
                    lemma_populate_prefix_facts(pt_prev, *pt, p0, pool_prev, *pool, lo as int, va as int, hi as int, f);
                }
                return Err(AxError::NoMemory);
            },
        };
        proof {
            lemma_populate_step(pt_prev, p0, pool_prev, *pool, pa as int, lo as int, va as int, hi as int, f);
        }
        match pt.map(va, pa, f) {
            Ok(_) => {},
            Err(_) => {
                proof {
                    assert(spec_page_of(va) == va) by {
                        lemma_fundamental_div_mod(va as int, PAGE_SIZE as int);
                    }
                    assert(false);
                }
                return Err(AxError::NoMemory);
            },
        }
        proof {
            assert(spec_page_of(va) == va) by {
                lemma_fundamental_div_mod(va as int, PAGE_SIZE as int);
            }
            lemma_populate_after_map(pt_prev, *pt, p0, pool_prev, *pool, pa as int, va, lo as int, hi as int, f);
            lemma_mod_add_zero(va as int, PAGE_SIZE as int, PAGE_SIZE as int);
            lemma_count_free_update_alloc(pool_prev.alloc_map(), pool_prev.frame_idx(pa as int));
        }
        va = va + PAGE_SIZE;
        proof {
            j = j + 1;
            lemma_mul_is_distributive_add(PAGE_SIZE as int, j - 1, 1);
            assert((j - 1) * (PAGE_SIZE as int) + PAGE_SIZE == j * (PAGE_SIZE as int)) by {
                vstd::arithmetic::mul::lemma_mul_is_distributive_add_other_way(
                    PAGE_SIZE as int,
                    j - 1,
                    1,
                );
            }
        }
    }
    proof {
        assert(hi - lo == j * PAGE_SIZE);
        assert((hi - lo) / (PAGE_SIZE as int) == j) by {
            vstd::arithmetic::div_mod::lemma_div_by_multiple(j, PAGE_SIZE as int);
        }
    }
    Ok(())
}

/// On an allocation failure, what the loop has built so far meets the
/// partial-population contract, and the count of free frames is known.
proof fn lemma_populate_prefix_facts(
    pt_prev: PageTable,
    pt_cur: PageTable,
    p0: FramePool,
    pool_prev: FramePool,
    pool_cur: FramePool,
    lo: int,
    va: int,
    hi: int,
    f: MappingFlags,
)
    requires
        pt_prev == pt_cur,
        pool_prev == pool_cur,
        lo <= va <= hi,
        range_all_mapped(pt_cur@, lo, va),
        forall|k: usize| va <= k < hi ==> !(#[trigger] pt_cur@.contains_key(k)),
        count_free(pool_cur.alloc_map()) + (va - lo) / (PAGE_SIZE as int) >= 0,
    ensures
        exists|mid: int|
            lo <= mid <= hi && #[trigger] range_all_mapped(pt_cur@, lo, mid) && forall|k: usize|
                mid <= k < hi ==> !(#[trigger] pt_cur@.contains_key(k)),
{
    assert(lo <= va <= hi && range_all_mapped(pt_cur@, lo, va) && forall|k: usize|
        va <= k < hi ==> !(#[trigger] pt_cur@.contains_key(k)));
}

/// After one frame allocation, the invariants relating the table and pools
/// survive, and the new frame is distinct from every mapped one.
proof fn lemma_populate_step(
    pt_cur: PageTable,
    p0: FramePool,
    pool_prev: FramePool,
    pool_cur: FramePool,
    pa: int,
    lo: int,
    va: int,
    hi: int,
    f: MappingFlags,
)
    requires
        pool_prev.wf(),
        pool_cur.wf(),
        pool_prev.same_shape(pool_cur),
        pa % (PAGE_SIZE as int) == 0,
        pool_prev.in_range(pa),
        !pool_prev.is_allocated(pa),
        pool_cur.alloc_map() == pool_prev.alloc_map().update(pool_prev.frame_idx(pa), true),
        pool_cur.counts() == pool_prev.counts().update(pool_prev.frame_idx(pa), 1usize),
        forall|o: int| 0 <= o < PAGE_SIZE ==> #[trigger] pool_cur.mem_at(pa + o) == 0,
        forall|b: int|
            0 <= b < pool_prev.mem().len() && !(pa - pool_prev.spec_base() <= b < pa
                - pool_prev.spec_base() + PAGE_SIZE) ==> pool_cur.mem()[b] == pool_prev.mem()[b],
        p0.same_shape(pool_prev),
        range_backed_fresh(pt_cur@, p0, pool_prev, lo, hi, f),
        allocated_frames_unchanged(p0, pool_prev),
    ensures
        range_backed_fresh(pt_cur@, p0, pool_cur, lo, hi, f),
        allocated_frames_unchanged(p0, pool_cur),
        fresh_zeroed_frame(p0, pool_cur, pa),
        forall|k: usize|
            lo <= k < hi && (#[trigger] pt_cur@.contains_key(k)) ==> pt_cur@[k].paddr != pa,
{
    let ps = PAGE_SIZE as int;
    let base = pool_prev.spec_base() as int;
    let n = pool_prev.num_frames() as int;
    assert forall|g: int|
        pool_prev.in_range(g) && g % ps == 0 && g != pa implies frame_unchanged(
        pool_prev,
        pool_cur,
        g,
    ) by {
        lemma_frame_idx_injective(base, n, g, pa);
        lemma_frame_idx(base, n, g);
        lemma_frame_idx(base, n, pa);
        lemma_distinct_frames_disjoint(base, n, g, pa);
        assert(pool_cur.is_allocated(g) == pool_prev.is_allocated(g));
        assert(pool_cur.count_of(g) == pool_prev.count_of(g));
        assert forall|o: int| 0 <= o < PAGE_SIZE implies #[trigger] pool_cur.mem_at(g + o)
            == pool_prev.mem_at(g + o) by {
            vstd::arithmetic::mul::lemma_mul_inequality(
                pool_prev.frame_idx(g) + 1,
                n,
                ps,
            );
            vstd::arithmetic::mul::lemma_mul_is_distributive_add_other_way(
                ps,
                pool_prev.frame_idx(g),
                1,
            );
            assert(0 <= g + o - base < pool_prev.mem().len());
            assert(!(pa - base <= g + o - base < pa - base + PAGE_SIZE));
        }
    }
    assert(!p0.is_allocated(pa)) by {
        if p0.is_allocated(pa) {
            assert(frame_unchanged(p0, pool_prev, pa));
        }
    }
    assert forall|k: usize|
        lo <= k < hi && (#[trigger] pt_cur@.contains_key(k)) implies pt_cur@[k].paddr != pa by {
        assert(fresh_zeroed_frame(p0, pool_prev, pt_cur@[k].paddr as int));
    }
    assert forall|k: usize|
        lo <= k < hi && (#[trigger] pt_cur@.contains_key(k)) implies pt_cur@[k].flags == f
            && fresh_zeroed_frame(p0, pool_cur, pt_cur@[k].paddr as int) by {
        let g = pt_cur@[k].paddr as int;
        assert(fresh_zeroed_frame(p0, pool_prev, g));
        assert(frame_unchanged(pool_prev, pool_cur, g));
    }
    assert forall|g: int|
        p0.in_range(g) && g % ps == 0 && (#[trigger] p0.is_allocated(g)) implies frame_unchanged(
        p0,
        pool_cur,
        g,
    ) by {
        assert(frame_unchanged(p0, pool_prev, g));
        assert(frame_unchanged(pool_prev, pool_cur, g));
    }
    assert(fresh_zeroed_frame(p0, pool_cur, pa)) by {
        assert(pool_cur.is_allocated(pa));
        assert(pool_cur.count_of(pa) == 1);
    }
}

/// After mapping the fresh frame at the current page, the per-range
/// invariants extend by one page.
proof fn lemma_populate_after_map(
    pt_prev: PageTable,
    pt_cur: PageTable,
    p0: FramePool,
    pool_prev: FramePool,
    pool_cur: FramePool,
    pa: int,
    va: usize,
    lo: int,
    hi: int,
    f: MappingFlags,
)
    requires
        lo <= va < hi,
        va % PAGE_SIZE == 0,
        pt_cur@ == pt_prev@.insert(va, PageEntry { paddr: pa as usize, flags: f }),
        fresh_zeroed_frame(p0, pool_cur, pa),
        range_backed_fresh(pt_prev@, p0, pool_cur, lo, hi, f),
        range_injective(pt_prev@, lo, hi),
        keys_aligned_in(pt_prev@, lo, hi),
        pt_same_outside(pt_prev@, pt_cur@, lo, hi),
        range_all_mapped(pt_prev@, lo, va as int),
        forall|k: usize|
            lo <= k < hi && (#[trigger] pt_prev@.contains_key(k)) ==> pt_prev@[k].paddr != pa,
        forall|k: usize| va <= k < hi ==> !(#[trigger] pt_prev@.contains_key(k)),
        0 <= pa <= usize::MAX,
    ensures
        range_backed_fresh(pt_cur@, p0, pool_cur, lo, hi, f),
        range_injective(pt_cur@, lo, hi),
        keys_aligned_in(pt_cur@, lo, hi),
        range_all_mapped(pt_cur@, lo, va + PAGE_SIZE),
        forall|k: usize| va + PAGE_SIZE <= k < hi ==> !(#[trigger] pt_cur@.contains_key(k)),
{
    assert forall|k1: usize, k2: usize|
        #![trigger pt_cur@[k1], pt_cur@[k2]]
        lo <= k1 < hi && lo <= k2 < hi && pt_cur@.contains_key(k1) && pt_cur@.contains_key(k2)
            && k1 != k2 implies pt_cur@[k1].paddr != pt_cur@[k2].paddr by {
        if k1 != va && k2 != va {
            assert(pt_prev@.contains_key(k1) && pt_prev@.contains_key(k2));
            assert(pt_prev@[k1] == pt_cur@[k1] && pt_prev@[k2] == pt_cur@[k2]);
        } else if k1 == va {
            assert(pt_prev@.contains_key(k2) && pt_prev@[k2] == pt_cur@[k2]);
            assert(pt_prev@[k2].paddr != pa);
        } else {
            assert(pt_prev@.contains_key(k1) && pt_prev@[k1] == pt_cur@[k1]);
            assert(pt_prev@[k1].paddr != pa);
        }
    }
    assert forall|k: usize|
        lo <= k < hi && (#[trigger] pt_cur@.contains_key(k)) implies pt_cur@[k].flags == f
            && fresh_zeroed_frame(p0, pool_cur, pt_cur@[k].paddr as int) by {
        if k != va {
            assert(pt_prev@.contains_key(k) && pt_cur@[k] == pt_prev@[k]);
        }
    }
}

/// Extending an address space with a linear region, and translations only
/// inside it, preserves consistency with any pool.
proof fn lemma_linear_extend_consistent(
    a0: AddrSpace,
    a1: AddrSpace,
    p: FramePool,
    idx: int,
    reg: Region,
)
    requires
        a0.wf(),
        a1.wf(),
        a0.consistent(p),
        !reg.backend.is_alloc(),
        0 <= idx <= a0.regions().len(),
        a1.regions() == a0.regions().insert(idx, reg),
        pt_same_outside(a0.pt_map(), a1.pt_map(), reg.start as int, reg.spec_end()),
        forall|k: usize|
            reg.start <= k < reg.spec_end() && (#[trigger] a1.pt_map().contains_key(k))
                ==> !a0.pt_map().contains_key(k),
    ensures
        a1.consistent(p),
{
    reveal(AddrSpace::consistent);
    let rs = a0.regions();
    let ns = a1.regions();
    let b = a1.spec_base() as int;
    let e = a1.spec_end();
    assert forall|k: usize|
        #[trigger] a1.pt_map().contains_key(k) && in_alloc_region(ns, k as int) implies {
        &&& p.in_range(a1.pt_map()[k].paddr as int)
        &&& p.is_allocated(a1.pt_map()[k].paddr as int)
        &&& p.count_of(a1.pt_map()[k].paddr as int) >= 1
    } by {
        let i = region_index_of(ns, k as int);
        if reg.contains(k as int) {
            lemma_region_unique(ns, b, e, i, idx, k as int);
            assert(false);
        } else {
            assert(a0.pt_map().contains_key(k) && a1.pt_map()[k] == a0.pt_map()[k]);
            assert(covers(rs, k as int));
            lemma_region_at_insert(rs, b, e, idx, reg, k as int);
            assert(in_alloc_region(rs, k as int));
        }
    }
    assert forall|k1: usize, k2: usize|
        #![trigger a1.pt_map()[k1], a1.pt_map()[k2]]
        a1.pt_map().contains_key(k1) && a1.pt_map().contains_key(k2) && in_alloc_region(
            ns,
            k1 as int,
        ) && in_alloc_region(ns, k2 as int) && k1 != k2 implies a1.pt_map()[k1].paddr != a1.pt_map()[
    k2].paddr by {
        let i1 = region_index_of(ns, k1 as int);
        let i2 = region_index_of(ns, k2 as int);
        if reg.contains(k1 as int) {
            lemma_region_unique(ns, b, e, i1, idx, k1 as int);
            assert(false);
        }
        if reg.contains(k2 as int) {
            lemma_region_unique(ns, b, e, i2, idx, k2 as int);
            assert(false);
        }
        assert(a0.pt_map().contains_key(k1) && a1.pt_map()[k1] == a0.pt_map()[k1]);
        assert(a0.pt_map().contains_key(k2) && a1.pt_map()[k2] == a0.pt_map()[k2]);
        lemma_region_at_insert(rs, b, e, idx, reg, k1 as int);
        lemma_region_at_insert(rs, b, e, idx, reg, k2 as int);
    }
}


/// Extending an address space with an allocation-backed region whose mapped
/// pages all target fresh exclusive frames preserves consistency.
proof fn lemma_alloc_extend_consistent(
    a0: AddrSpace,
    a1: AddrSpace,
    p0: FramePool,
    p1: FramePool,
    idx: int,
    reg: Region,
    f: MappingFlags,
)
    requires
        a0.wf(),
        a1.wf(),
        a0.consistent(p0),
        p1.wf(),
        p0.same_shape(p1),
        0 <= idx <= a0.regions().len(),
        a1.regions() == a0.regions().insert(idx, reg),
        pt_same_outside(a0.pt_map(), a1.pt_map(), reg.start as int, reg.spec_end()),
        range_backed_fresh(a1.pt_map(), p0, p1, reg.start as int, reg.spec_end(), f),
        range_injective(a1.pt_map(), reg.start as int, reg.spec_end()),
        allocated_frames_unchanged(p0, p1),
    ensures
        a1.consistent(p1),
{
    reveal(AddrSpace::consistent);
    let rs = a0.regions();
    let ns = a1.regions();
    let b = a1.spec_base() as int;
    let e = a1.spec_end();
    assert forall|k: usize|
        #[trigger] a1.pt_map().contains_key(k) && in_alloc_region(ns, k as int) implies {
        &&& p1.in_range(a1.pt_map()[k].paddr as int)
        &&& p1.is_allocated(a1.pt_map()[k].paddr as int)
        &&& p1.count_of(a1.pt_map()[k].paddr as int) >= 1
    } by {
        if reg.start <= k < reg.spec_end() {
            assert(fresh_zeroed_frame(p0, p1, a1.pt_map()[k].paddr as int));
        } else {
            assert(a0.pt_map().contains_key(k) && a1.pt_map()[k] == a0.pt_map()[k]);
            assert(covers(rs, k as int));
            lemma_region_at_insert(rs, b, e, idx, reg, k as int);
            assert(in_alloc_region(rs, k as int));
            let g = a0.pt_map()[k].paddr as int;
            assert(p0.is_allocated(g));
            assert(g % (PAGE_SIZE as int) == 0);
            assert(frame_unchanged(p0, p1, g));
        }
    }
    assert forall|k1: usize, k2: usize|
        #![trigger a1.pt_map()[k1], a1.pt_map()[k2]]
        a1.pt_map().contains_key(k1) && a1.pt_map().contains_key(k2) && in_alloc_region(
            ns,
            k1 as int,
        ) && in_alloc_region(ns, k2 as int) && k1 != k2 implies a1.pt_map()[k1].paddr != a1.pt_map()[
    k2].paddr by {
        let in1 = reg.start <= k1 < reg.spec_end();
        let in2 = reg.start <= k2 < reg.spec_end();
        if in1 && in2 {
        } else if !in1 && !in2 {
            assert(a0.pt_map().contains_key(k1) && a1.pt_map()[k1] == a0.pt_map()[k1]);
            assert(a0.pt_map().contains_key(k2) && a1.pt_map()[k2] == a0.pt_map()[k2]);
            lemma_region_at_insert(rs, b, e, idx, reg, k1 as int);
            lemma_region_at_insert(rs, b, e, idx, reg, k2 as int);
            assert(in_alloc_region(rs, k1 as int) && in_alloc_region(rs, k2 as int));
        } else if in1 {
            assert(fresh_zeroed_frame(p0, p1, a1.pt_map()[k1].paddr as int));
            assert(a0.pt_map().contains_key(k2) && a1.pt_map()[k2] == a0.pt_map()[k2]);
            lemma_region_at_insert(rs, b, e, idx, reg, k2 as int);
            assert(in_alloc_region(rs, k2 as int));
            assert(p0.is_allocated(a1.pt_map()[k2].paddr as int));
        } else {
            assert(fresh_zeroed_frame(p0, p1, a1.pt_map()[k2].paddr as int));
            assert(a0.pt_map().contains_key(k1) && a1.pt_map()[k1] == a0.pt_map()[k1]);
            lemma_region_at_insert(rs, b, e, idx, reg, k1 as int);
            assert(in_alloc_region(rs, k1 as int));
            assert(p0.is_allocated(a1.pt_map()[k1].paddr as int));
        }
    }
}

impl AddrSpace {
    /// Adds a new allocation mapping over `[start, start + size)`. With
    /// `populate` set, every page is backed by a fresh zeroed frame at once;
    /// otherwise frames materialize lazily on first fault.
    ///
    /// Fails with `InvalidInput` when the range is empty, out of the virtual
    /// range or misaligned, with `AlreadyExists` when it intersects an
    /// existing region (nothing changes in either case), and with `NoMemory`
    /// when eager population runs out of frames, in which case the region
    /// stays and a prefix of its pages is mapped.
    #[verifier::rlimit(100)]
    #[verifier::spinoff_prover]
    pub fn map_alloc(
        &mut self,
        start: usize,
        size: usize,
        flags: MappingFlags,
        populate: bool,
        align: usize,
        pool: &mut FramePool,
    ) -> (r: AxResult)
        requires
            old(self).wf(),
            old(pool).wf(),
            old(self).consistent(*old(pool)),
            align > 0,
            align % PAGE_SIZE == 0,
        ensures
            final(self).wf(),
            final(pool).wf(),
            final(self).consistent(*final(pool)),
            final(self).spec_base() == old(self).spec_base(),
            final(self).spec_size() == old(self).spec_size(),
            final(self).spec_pt().spec_root() == old(self).spec_pt().spec_root(),
            old(pool).same_shape(*final(pool)),
            r == Err::<(), AxError>(AxError::InvalidInput) <==> !(old(self).valid_range(
                start as int,
                size as int,
                align as int,
            ) && size > 0),
            (old(self).valid_range(start as int, size as int, align as int) && size > 0) ==> (r
                == Err::<(), AxError>(AxError::AlreadyExists) <==> overlaps_any(
                old(self).regions(),
                start as int,
                start + size,
            )),
            (old(self).valid_range(start as int, size as int, align as int) && size > 0
                && !overlaps_any(old(self).regions(), start as int, start + size)) ==> (r is Ok
                <==> (!populate || count_free(old(pool).alloc_map()) >= (size as int) / (
            PAGE_SIZE as int))),
            r is Err && !(r == Err::<(), AxError>(AxError::NoMemory)) ==> *final(self) == *old(self)
                && *final(pool) == *old(pool),
            (r is Ok || r == Err::<(), AxError>(AxError::NoMemory)) ==> {
                &&& exists|idx: int|
                    0 <= idx <= old(self).regions().len() && final(self).regions()
                        == #[trigger] old(self).regions().insert(
                        idx,
                        (Region {
                            start: start,
                            size: size,
                            flags: flags,
                            backend: Backend::Alloc { populate, align },
                        }),
                    )
                &&& pt_same_outside(
                    old(self).pt_map(),
                    final(self).pt_map(),
                    start as int,
                    start + size,
                )
                &&& keys_aligned_in(final(self).pt_map(), start as int, start + size)
                &&& range_backed_fresh(
                    final(self).pt_map(),
                    *old(pool),
                    *final(pool),
                    start as int,
                    start + size,
                    flags,
                )
                &&& range_injective(final(self).pt_map(), start as int, start + size)
                &&& allocated_frames_unchanged(*old(pool), *final(pool))
            },
            r is Ok && !populate ==> final(self).pt_map() == old(self).pt_map() && *final(pool)
                == *old(pool),
            r is Ok && populate ==> range_all_mapped(
                final(self).pt_map(),
                start as int,
                start + size,
            ) && count_free(final(pool).alloc_map()) + (size as int) / (PAGE_SIZE as int) == count_free(
                old(pool).alloc_map(),
            ),
            r == Err::<(), AxError>(AxError::NoMemory) ==> populate && count_free(
                final(pool).alloc_map(),
            ) == 0,
    {
        if self.validate_region(start, size, align).is_err() || size == 0 {
            return Err(AxError::InvalidInput);
        }
        proof {
            assert(start + size <= usize::MAX);
        }
        let end = start + size;
        let (idx, overlap) = self.find_insert_pos(start, end);
        if overlap {
            return Err(AxError::AlreadyExists);
        }
        let region = Region { start, size, flags, backend: Backend::Alloc { populate, align } };
        proof {
            assert(linear_offset_ok(region)) by {
                reveal(linear_offset_ok);
            }
            lemma_mod_multiple_chain(start as int, align as int, PAGE_SIZE as int);
            lemma_mod_multiple_chain(size as int, align as int, PAGE_SIZE as int);
            lemma_mod_add_zero(start as int, size as int, PAGE_SIZE as int);
            old(self).lemma_no_keys_in_free_range(start as int, end as int);
        }
        self.insert_region_sorted(idx, region);
        if !populate {
            proof {
                lemma_alloc_extend_consistent(
                    *old(self),
                    *self,
                    *old(pool),
                    *old(pool),
                    idx as int,
                    region,
                    flags,
                );
            }
            return Ok(());
        }
        let ghost mid_state = *self;
        proof {
            assert forall|k: usize| start <= k < end implies !(#[trigger] self
                .pt@.contains_key(k)) by {
                assert(self.spec_pt() == old(self).spec_pt());
                assert(!old(self).pt_map().contains_key(k));
            }
        }
        let res = populate_fresh(&mut self.pt, pool, start, end, flags);
        proof {
            let ns = self.regions();
            assert forall|k: usize| #[trigger] self.pt_map().contains_key(k) implies covers(
                ns,
                k as int,
            ) by {
                if start <= k < end {
                    assert(ns[idx as int].contains(k as int));
                } else {
                    assert(mid_state.pt_map().contains_key(k));
                }
            }
            lemma_alloc_extend_consistent(
                *old(self),
                *self,
                *old(pool),
                *final(pool),
                idx as int,
                region,
                flags,
            );
        }
        res
    }
}


/// Replacing the translation of one page, whose new target is a valid
/// referenced frame distinct from every other mapped frame, preserves
/// consistency when every other page's frame is untouched.
proof fn lemma_consistent_update_page(
    a0: AddrSpace,
    a1: AddrSpace,
    p0: FramePool,
    p1: FramePool,
    page: usize,
    entry: PageEntry,
)
    requires
        a0.wf(),
        a1.wf(),
        a0.consistent(p0),
        p1.wf(),
        p0.same_shape(p1),
        a1.regions() == a0.regions(),
        a1.pt_map() == a0.pt_map().insert(page, entry),
        in_alloc_region(a0.regions(), page as int) ==> {
            &&& p1.in_range(entry.paddr as int)
            &&& p1.is_allocated(entry.paddr as int)
            &&& p1.count_of(entry.paddr as int) >= 1
            &&& forall|k: usize|
                #[trigger] a0.pt_map().contains_key(k) && in_alloc_region(
                    a0.regions(),
                    k as int,
                ) && k != page ==> a0.pt_map()[k].paddr != entry.paddr
        },
        forall|k: usize|
            #[trigger] a0.pt_map().contains_key(k) && in_alloc_region(a0.regions(), k as int) && k
                != page ==> frame_unchanged(p0, p1, a0.pt_map()[k].paddr as int),
    ensures
        a1.consistent(p1),
{
    reveal(AddrSpace::consistent);
    assert forall|k: usize|
        #[trigger] a1.pt_map().contains_key(k) && in_alloc_region(a1.regions(), k as int) implies {
        &&& p1.in_range(a1.pt_map()[k].paddr as int)
        &&& p1.is_allocated(a1.pt_map()[k].paddr as int)
        &&& p1.count_of(a1.pt_map()[k].paddr as int) >= 1
    } by {
        if k != page {
            assert(a0.pt_map().contains_key(k) && a1.pt_map()[k] == a0.pt_map()[k]);
            assert(frame_unchanged(p0, p1, a0.pt_map()[k].paddr as int));
        }
    }
    assert forall|k1: usize, k2: usize|
        #![trigger a1.pt_map()[k1], a1.pt_map()[k2]]
        a1.pt_map().contains_key(k1) && a1.pt_map().contains_key(k2) && in_alloc_region(
            a1.regions(),
            k1 as int,
        ) && in_alloc_region(a1.regions(), k2 as int) && k1 != k2 implies a1.pt_map()[k1].paddr
        != a1.pt_map()[k2].paddr by {
        if k1 != page && k2 != page {
            assert(a0.pt_map().contains_key(k1) && a1.pt_map()[k1] == a0.pt_map()[k1]);
            assert(a0.pt_map().contains_key(k2) && a1.pt_map()[k2] == a0.pt_map()[k2]);
        } else if k1 == page {
            assert(a0.pt_map().contains_key(k2) && a1.pt_map()[k2] == a0.pt_map()[k2]);
        } else {
            assert(a0.pt_map().contains_key(k1) && a1.pt_map()[k1] == a0.pt_map()[k1]);
        }
    }
}

impl AddrSpace {
    /// Finds the region containing `va`, if any.
    fn find_region_idx(&self, va: usize) -> (r: Option<usize>)
        requires
            self.wf(),
        ensures
            match r {
                Some(i) => i < self.regions().len() && self.regions()[i as int].contains(va as int)
                    && covers(self.regions(), va as int) && region_at(self.regions(), va as int)
                    == self.regions()[i as int],
                None => !covers(self.regions(), va as int),
            },
    {
        let ghost rs = self.regions();
        let ghost b = self.spec_base() as int;
        let ghost e = self.spec_end();
        let n = self.regions.len();
        let mut i: usize = 0;
        while i < n
            invariant
                self.wf(),
                rs == self.regions(),
                b == self.spec_base() as int,
                e == self.spec_end(),
                n == rs.len(),
                i <= n,
                forall|j: int| 0 <= j < i ==> !(#[trigger] rs[j]).contains(va as int),
            decreases n - i,
        {
            let region = self.regions[i];
            if region.end() <= va {
                i = i + 1;
                continue ;
            }
            if region.start > va {
                proof {
                    assert forall|j: int| 0 <= j < rs.len() implies !(#[trigger] rs[j]).contains(
                        va as int,
                    ) by {
                        if j > i {
                            lemma_regions_disjoint(rs, b, e, i as int, j);
                        }
                    }
                }
                return None;
            }
            proof {
                assert(rs[i as int].contains(va as int));
                let j = region_index_of(rs, va as int);
                lemma_region_unique(rs, b, e, i as int, j, va as int);
            }
            return Some(i);
        }
        proof {
            assert forall|j: int| 0 <= j < rs.len() implies !(#[trigger] rs[j]).contains(
                va as int,
            ) by {}
        }
        None
    }

    /// Whether a fault at `va` with access `acc` is resolved, given the pool
    /// state before the fault.
    pub open spec fn fault_handled(self, pool: FramePool, va: int, acc: MappingFlags) -> bool {
        let rs = self.regions();
        let reg = region_at(rs, va);
        let page = spec_page_of(va as usize);
        &&& self.spec_base() <= va < self.spec_end()
        &&& covers(rs, va)
        &&& reg.flags.spec_contains(acc)
        &&& (self.pt_map().contains_key(page) ==> (!acc.write || !reg.backend.is_alloc()
            || pool.count_of(self.pt_map()[page].paddr as int) == 1 || count_free(pool.alloc_map())
            > 0))
        &&& (!self.pt_map().contains_key(page) ==> reg.backend.is_alloc()
            && !reg.backend.is_populated_alloc() && count_free(pool.alloc_map()) > 0)
    }

    /// Handles a page fault at the given address; `access_flags` is the
    /// access that caused the fault.
    ///
    /// Returns `true` exactly when the fault is resolved: the address lies in
    /// a region granting the access, and either the page was mapped (a write
    /// to a shared frame is resolved by copy-on-write, to an exclusive frame
    /// by granting the region's flags in place) or the region populates
    /// lazily and a fresh zeroed frame was available. Returns `false` on a
    /// real fault, leaving everything unchanged.
    #[verifier::rlimit(100)]
    #[verifier::spinoff_prover]
    pub fn handle_page_fault(
        &mut self,
        vaddr: usize,
        access_flags: MappingFlags,
        pool: &mut FramePool,
    ) -> (handled: bool)
        requires
            old(self).wf(),
            old(pool).wf(),
            old(self).consistent(*old(pool)),
        ensures
            final(self).wf(),
            final(pool).wf(),
            final(self).consistent(*final(pool)),
            final(self).spec_base() == old(self).spec_base(),
            final(self).spec_size() == old(self).spec_size(),
            final(self).spec_pt().spec_root() == old(self).spec_pt().spec_root(),
            final(self).regions() == old(self).regions(),
            old(pool).same_shape(*final(pool)),
            handled == old(self).fault_handled(*old(pool), vaddr as int, access_flags),
            !handled ==> final(self).pt_map() == old(self).pt_map() && *final(pool) == *old(pool),
            handled ==> ({
                let page = spec_page_of(vaddr);
                let reg = region_at(old(self).regions(), vaddr as int);
                let m0 = old(self).pt_map();
                let m1 = final(self).pt_map();
                let p0 = *old(pool);
                let p1 = *final(pool);
                &&& pt_same_outside(m0, m1, page as int, page + PAGE_SIZE)
                &&& (if !m0.contains_key(page) {
                    // a fresh zeroed frame was mapped with the region flags
                    &&& m1 == m0.insert(
                        page,
                        PageEntry { paddr: m1[page].paddr, flags: reg.flags },
                    )
                    &&& fresh_zeroed_frame(p0, p1, m1[page].paddr as int)
                    &&& pool_unchanged_except(p0, p1, Set::empty().insert(m1[page].paddr as int))
                } else if access_flags.write && reg.backend.is_alloc() && p0.count_of(
                    m0[page].paddr as int,
                ) >= 2 {
                    // copy on write: a fresh frame holding the same bytes
                    let pa = m0[page].paddr as int;
                    let new = m1[page].paddr as int;
                    &&& m1 == m0.insert(
                        page,
                        PageEntry { paddr: m1[page].paddr, flags: reg.flags },
                    )
                    &&& new != pa
                    &&& !p0.is_allocated(new)
                    &&& p1.is_allocated(new)
                    &&& p1.count_of(new) == 1
                    &&& forall|o: int|
                        0 <= o < PAGE_SIZE ==> #[trigger] p1.mem_at(new + o) == p0.mem_at(pa + o)
                    &&& p1.count_of(pa) == p0.count_of(pa) - 1
                    &&& p1.is_allocated(pa)
                    &&& forall|o: int|
                        0 <= o < PAGE_SIZE ==> #[trigger] p1.mem_at(pa + o) == p0.mem_at(pa + o)
                    &&& pool_unchanged_except(p0, p1, Set::empty().insert(pa).insert(new))
                } else if access_flags.write && reg.backend.is_alloc() {
                    // exclusive frame: write permission granted in place
                    &&& m1 == m0.insert(
                        page,
                        PageEntry { paddr: m0[page].paddr, flags: reg.flags },
                    )
                    &&& p1 == p0
                } else {
                    // the access is already satisfied
                    &&& m1 == m0
                    &&& p1 == p0
                })
            }),
    {
        let ghost rs = self.regions();
        if vaddr < self.va_base || vaddr >= self.end() {
            return false;
        }
        let idx = match self.find_region_idx(vaddr) {
            Some(i) => i,
            None => {
                return false;
            },
        };
        let region = self.regions[idx];
        if !region.flags.contains(access_flags) {
            return false;
        }
        let page = crate::page_table::page_of(vaddr);
        proof {
            lemma_page_of_region(rs, idx as int, vaddr, self.spec_base() as int, self.spec_end());
        }
        let query = self.pt.query(vaddr);
        match query {
            Ok((pa, _entry_flags)) => {
                if !access_flags.write {
                    return true;
                }
                let is_alloc = match region.backend {
                    Backend::Alloc { .. } => true,
                    Backend::Linear { .. } => false,
                };
                if !is_alloc {
                    return true;
                }
                proof {
                    reveal(AddrSpace::consistent);
                }
                self.handle_cow_fault(page, pa, region.flags, pool)
            },
            Err(_) => {
                let (populate, is_alloc) = match region.backend {
                    Backend::Alloc { populate, .. } => (populate, true),
                    Backend::Linear { .. } => (false, false),
                };
                if !is_alloc || populate {
                    return false;
                }
                self.fault_in_fresh_page(vaddr, region.flags, pool)
            },
        }
    }

    /// Resolves a write to a mapped page of an allocation-backed region:
    /// grants the region flags in place when the frame is exclusively owned,
    /// otherwise copies the frame and releases one reference to the old one.
    ///
    /// Returns `false` exactly when a copy was needed and no frame was free;
    /// nothing changes in that case.
    #[verifier::rlimit(100)]
    #[verifier::spinoff_prover]
    fn handle_cow_fault(
        &mut self,
        page: usize,
        pa: usize,
        reg_flags: MappingFlags,
        pool: &mut FramePool,
    ) -> (handled: bool)
        requires
            old(self).wf(),
            old(pool).wf(),
            old(self).consistent(*old(pool)),
            page % PAGE_SIZE == 0,
            old(self).pt_map().contains_key(page),
            old(self).pt_map()[page].paddr == pa,
            in_alloc_region(old(self).regions(), page as int),
            region_at(old(self).regions(), page as int).flags == reg_flags,
        ensures
            final(self).wf(),
            final(pool).wf(),
            final(self).consistent(*final(pool)),
            final(self).spec_base() == old(self).spec_base(),
            final(self).spec_size() == old(self).spec_size(),
            final(self).spec_pt().spec_root() == old(self).spec_pt().spec_root(),
            final(self).regions() == old(self).regions(),
            old(pool).same_shape(*final(pool)),
            handled <==> (old(pool).count_of(pa as int) == 1 || count_free(old(pool).alloc_map())
                > 0),
            !handled ==> final(self).pt_map() == old(self).pt_map() && *final(pool) == *old(pool),
            handled ==> pt_same_outside(
                old(self).pt_map(),
                final(self).pt_map(),
                page as int,
                page + PAGE_SIZE,
            ),
            handled && old(pool).count_of(pa as int) == 1 ==> final(self).pt_map() == old(
                self,
            ).pt_map().insert(page, PageEntry { paddr: pa, flags: reg_flags }) && *final(pool)
                == *old(pool),
            handled && old(pool).count_of(pa as int) >= 2 ==> ({
                let p0 = *old(pool);
                let p1 = *final(pool);
                let new = final(self).pt_map()[page].paddr as int;
                &&& final(self).pt_map() == old(self).pt_map().insert(
                    page,
                    PageEntry { paddr: final(self).pt_map()[page].paddr, flags: reg_flags },
                )
                &&& new != pa
                &&& !p0.is_allocated(new)
                &&& p1.is_allocated(new)
                &&& p1.count_of(new) == 1
                &&& forall|o: int|
                    0 <= o < PAGE_SIZE ==> #[trigger] p1.mem_at(new + o) == p0.mem_at(pa + o)
                &&& p1.count_of(pa as int) == p0.count_of(pa as int) - 1
                &&& p1.is_allocated(pa as int)
                &&& forall|o: int|
                    0 <= o < PAGE_SIZE ==> #[trigger] p1.mem_at(pa + o) == p0.mem_at(pa + o)
                &&& pool_unchanged_except(p0, p1, Set::empty().insert(pa as int).insert(new))
            }),
    {
        proof {
            reveal(AddrSpace::consistent);
            assert(spec_page_of(page) == page) by {
                lemma_fundamental_div_mod(page as int, PAGE_SIZE as int);
            }
        }
        let count = pool.ref_count(pa);
        if count == 1 {
            // exclusively owned: grant the region flags in place
            match self.pt.protect(page, reg_flags) {
                Ok(_) => {},
                Err(_) => {
                    proof {
                        assert(false);
                    }
                    return false;
                },
            }
            proof {
                lemma_consistent_update_page(
                    *old(self),
                    *self,
                    *old(pool),
                    *pool,
                    page,
                    PageEntry { paddr: pa, flags: reg_flags },
                );
            }
            return true;
        }
        // shared: copy the frame, remap, release one reference
        let ghost p0 = *pool;
        let new_pa = match pool.alloc_frame(false) {
            Some(new_pa) => new_pa,
            None => {
                return false;
            },
        };
        let ghost p_a = *pool;
        pool.copy_frame(pa, new_pa);
        let ghost p_b = *pool;
        match self.pt.remap(page, new_pa, reg_flags) {
            Ok(_) => {},
            Err(_) => {
                proof {
                    assert(false);
                }
                return false;
            },
        }
        let prev = pool.dec_ref(pa);
        proof {
            lemma_frame_idx(p0.spec_base() as int, p0.num_frames() as int, pa as int);
            lemma_frame_idx(p0.spec_base() as int, p0.num_frames() as int, new_pa as int);
            lemma_frame_idx_injective(
                p0.spec_base() as int,
                p0.num_frames() as int,
                pa as int,
                new_pa as int,
            );
            assert forall|o: int| 0 <= o < PAGE_SIZE implies #[trigger] pool.mem_at(new_pa + o)
                == p0.mem_at(pa + o) by {
                assert(p_b.mem_at(new_pa + o) == p_a.mem_at(pa + o));
                assert(pool.mem() == p_b.mem());
                assert(p_a.mem() == p0.mem());
            }
            lemma_cow_copy_post(
                *old(self),
                *self,
                p0,
                *pool,
                page,
                pa as int,
                new_pa as int,
                reg_flags,
            );
            lemma_consistent_update_page(
                *old(self),
                *self,
                *old(pool),
                *pool,
                page,
                PageEntry { paddr: new_pa, flags: reg_flags },
            );
        }
        true
    }

    /// Maps a fresh zeroed frame at the page of `vaddr` with the region
    /// flags, for a lazily populated region.
    ///
    /// Returns `false` exactly when no frame was free; nothing changes then.
    #[verifier::rlimit(100)]
    #[verifier::spinoff_prover]
    fn fault_in_fresh_page(
        &mut self,
        vaddr: usize,
        reg_flags: MappingFlags,
        pool: &mut FramePool,
    ) -> (handled: bool)
        requires
            old(self).wf(),
            old(pool).wf(),
            old(self).consistent(*old(pool)),
            !old(self).pt_map().contains_key(spec_page_of(vaddr)),
            covers(old(self).regions(), spec_page_of(vaddr) as int),
            region_at(old(self).regions(), spec_page_of(vaddr) as int).flags == reg_flags,
        ensures
            final(self).wf(),
            final(pool).wf(),
            final(self).consistent(*final(pool)),
            final(self).spec_base() == old(self).spec_base(),
            final(self).spec_size() == old(self).spec_size(),
            final(self).spec_pt().spec_root() == old(self).spec_pt().spec_root(),
            final(self).regions() == old(self).regions(),
            old(pool).same_shape(*final(pool)),
            handled <==> count_free(old(pool).alloc_map()) > 0,
            !handled ==> final(self).pt_map() == old(self).pt_map() && *final(pool) == *old(pool),
            handled ==> ({
                let page = spec_page_of(vaddr);
                let m1 = final(self).pt_map();
                &&& pt_same_outside(old(self).pt_map(), m1, page as int, page + PAGE_SIZE)
                &&& m1 == old(self).pt_map().insert(
                    page,
                    PageEntry { paddr: m1[page].paddr, flags: reg_flags },
                )
                &&& fresh_zeroed_frame(*old(pool), *final(pool), m1[page].paddr as int)
                &&& pool_unchanged_except(
                    *old(pool),
                    *final(pool),
                    Set::empty().insert(m1[page].paddr as int),
                )
            }),
    {
        let ghost rs = self.regions();
        let ghost page = spec_page_of(vaddr);
        let pa = match pool.alloc_frame(true) {
            Some(pa) => pa,
            None => {
                return false;
            },
        };
        match self.pt.map(vaddr, pa, reg_flags) {
            Ok(_) => {},
            Err(_) => {
                proof {
                    assert(false);
                }
                return false;
            },
        }
        proof {
            reveal(AddrSpace::consistent);
            assert forall|k: usize|
                #[trigger] old(self).pt_map().contains_key(k) && in_alloc_region(
                    rs,
                    k as int,
                ) && k != page implies frame_unchanged(
                *old(pool),
                *pool,
                old(self).pt_map()[k].paddr as int,
            ) by {
                let g = old(self).pt_map()[k].paddr as int;
                lemma_frame_idx_injective(
                    old(pool).spec_base() as int,
                    old(pool).num_frames() as int,
                    g,
                    pa as int,
                );
                lemma_frame_unchanged_alloc_step(*old(pool), *pool, pa as int, g);
            }
            lemma_consistent_update_page(
                *old(self),
                *self,
                *old(pool),
                *pool,
                page,
                PageEntry { paddr: pa, flags: reg_flags },
            );
            assert forall|g: int|
                old(pool).in_range(g) && g % (PAGE_SIZE as int) == 0 && !Set::empty().insert(
                    pa as int,
                ).contains(g) implies #[trigger] frame_unchanged(*old(pool), *pool, g) by {
                lemma_frame_idx_injective(
                    old(pool).spec_base() as int,
                    old(pool).num_frames() as int,
                    g,
                    pa as int,
                );
                lemma_frame_unchanged_alloc_step(*old(pool), *pool, pa as int, g);
            }
        }
        true
    }
}

/// A positive multiple of `p` is at least `p`.
proof fn lemma_pos_multiple_ge(x: int, p: int)
    requires
        p > 0,
        x > 0,
        x % p == 0,
    ensures
        x >= p,
{
    lemma_fundamental_div_mod(x, p);
    vstd::arithmetic::mul::lemma_mul_is_commutative(x / p, p);
    assert(x == (x / p) * p);
    if x / p <= 0 {
        lemma_mul_inequality(x / p, 0, p);
        assert((x / p) * p <= 0 * p);
        assert(false);
    }
    lemma_mul_inequality(1, x / p, p);
}

/// An address inside a page-aligned region: its whole page lies in the
/// region, which is also the region of the page-aligned address.
proof fn lemma_page_of_region(rs: Seq<Region>, i: int, vaddr: usize, b: int, e: int)
    requires
        regions_wf(rs, b, e),
        0 <= i < rs.len(),
        rs[i].contains(vaddr as int),
    ensures
        rs[i].contains(spec_page_of(vaddr) as int),
        spec_page_of(vaddr) % PAGE_SIZE == 0,
        spec_page_of(vaddr) + PAGE_SIZE <= rs[i].spec_end(),
        covers(rs, spec_page_of(vaddr) as int),
        region_at(rs, spec_page_of(vaddr) as int) == rs[i],
        in_alloc_region(rs, spec_page_of(vaddr) as int) == rs[i].backend.is_alloc(),
        in_alloc_region(rs, vaddr as int) == rs[i].backend.is_alloc(),
        region_at(rs, vaddr as int) == rs[i],
{
    let ps = PAGE_SIZE as int;
    let page = spec_page_of(vaddr) as int;
    vstd::arithmetic::div_mod::lemma_mod_bound(vaddr as int, ps);
    assert(page % ps == 0) by {
        lemma_fundamental_div_mod(vaddr as int, ps);
        lemma_mod_multiples_basic((vaddr as int) / ps, ps);
    }
    assert(rs[i].spec_end() % ps == 0) by {
        lemma_mod_add_zero(rs[i].start as int, rs[i].size as int, ps);
    }
    assert(rs[i].start <= page) by {
        if page < rs[i].start {
            lemma_mod_sub_zero(rs[i].start as int, page, ps);
            lemma_pos_multiple_ge(rs[i].start - page, ps);
        }
    }
    assert(page + ps <= rs[i].spec_end()) by {
        lemma_mod_sub_zero(rs[i].spec_end(), page, ps);
        lemma_pos_multiple_ge(rs[i].spec_end() - page, ps);
    }
    let j = region_index_of(rs, page);
    assert(rs[i].contains(page));
    lemma_region_unique(rs, b, e, i, j, page);
    let j2 = region_index_of(rs, vaddr as int);
    lemma_region_unique(rs, b, e, i, j2, vaddr as int);
}

/// One frame allocation leaves every other frame untouched.
proof fn lemma_frame_unchanged_alloc_step(p0: FramePool, p1: FramePool, pa: int, g: int)
    requires
        p0.wf(),
        p1.wf(),
        p0.same_shape(p1),
        pa % (PAGE_SIZE as int) == 0,
        g % (PAGE_SIZE as int) == 0,
        p0.in_range(pa),
        p0.in_range(g),
        g != pa,
        p1.alloc_map() == p0.alloc_map().update(p0.frame_idx(pa), true),
        p1.counts() == p0.counts().update(p0.frame_idx(pa), 1usize),
        forall|b: int|
            0 <= b < p0.mem().len() && !(pa - p0.spec_base() <= b < pa - p0.spec_base()
                + PAGE_SIZE) ==> p1.mem()[b] == p0.mem()[b],
    ensures
        frame_unchanged(p0, p1, g),
{
    let ps = PAGE_SIZE as int;
    let base = p0.spec_base() as int;
    let n = p0.num_frames() as int;
    lemma_frame_idx_injective(base, n, g, pa);
    lemma_frame_idx(base, n, g);
    lemma_frame_idx(base, n, pa);
    lemma_distinct_frames_disjoint(base, n, g, pa);
    assert forall|o: int| 0 <= o < PAGE_SIZE implies #[trigger] p1.mem_at(g + o) == p0.mem_at(
        g + o,
    ) by {
        vstd::arithmetic::mul::lemma_mul_inequality(p0.frame_idx(g) + 1, n, ps);
        vstd::arithmetic::mul::lemma_mul_is_distributive_add_other_way(ps, p0.frame_idx(g), 1);
        assert(0 <= g + o - base < p0.mem().len());
    }
}

/// After the copy-on-write sequence (allocate, copy, remap, release), the
/// per-frame facts of the contract hold.
proof fn lemma_cow_copy_post(
    a0: AddrSpace,
    a1: AddrSpace,
    p0: FramePool,
    p1: FramePool,
    page: usize,
    pa: int,
    new: int,
    f: MappingFlags,
)
    requires
        p0.wf(),
        p1.wf(),
        p0.same_shape(p1),
        pa % (PAGE_SIZE as int) == 0,
        new % (PAGE_SIZE as int) == 0,
        p0.in_range(pa),
        p0.in_range(new),
        pa != new,
        p0.is_allocated(pa),
        !p0.is_allocated(new),
        p0.count_of(pa) >= 2,
        p1.alloc_map() == p0.alloc_map().update(p0.frame_idx(new), true),
        p1.counts() == p0.counts().update(p0.frame_idx(new), 1usize).update(
            p0.frame_idx(pa),
            (p0.count_of(pa) - 1) as usize,
        ),
        forall|o: int| 0 <= o < PAGE_SIZE ==> #[trigger] p1.mem_at(new + o) == p0.mem_at(pa + o),
        forall|b: int|
            0 <= b < p0.mem().len() && !(new - p0.spec_base() <= b < new - p0.spec_base()
                + PAGE_SIZE) ==> p1.mem()[b] == p0.mem()[b],
    ensures
        p1.count_of(new) == 1,
        p1.is_allocated(new),
        p1.count_of(pa) == p0.count_of(pa) - 1,
        p1.is_allocated(pa),
        forall|o: int| 0 <= o < PAGE_SIZE ==> #[trigger] p1.mem_at(pa + o) == p0.mem_at(pa + o),
        pool_unchanged_except(p0, p1, Set::empty().insert(pa).insert(new)),
{
    let ps = PAGE_SIZE as int;
    let base = p0.spec_base() as int;
    let n = p0.num_frames() as int;
    lemma_frame_idx(base, n, pa);
    lemma_frame_idx(base, n, new);
    lemma_frame_idx_injective(base, n, pa, new);
    lemma_distinct_frames_disjoint(base, n, pa, new);
    assert forall|o: int| 0 <= o < PAGE_SIZE implies #[trigger] p1.mem_at(pa + o) == p0.mem_at(
        pa + o,
    ) by {
        vstd::arithmetic::mul::lemma_mul_inequality(p0.frame_idx(pa) + 1, n, ps);
        vstd::arithmetic::mul::lemma_mul_is_distributive_add_other_way(ps, p0.frame_idx(pa), 1);
        assert(0 <= pa + o - base < p0.mem().len());
    }
    assert forall|g: int|
        p0.in_range(g) && g % ps == 0 && !Set::empty().insert(pa).insert(new).contains(g) implies
        #[trigger] frame_unchanged(p0, p1, g) by {
        lemma_frame_idx(base, n, g);
        lemma_frame_idx_injective(base, n, g, pa);
        lemma_frame_idx_injective(base, n, g, new);
        lemma_distinct_frames_disjoint(base, n, g, new);
        assert forall|o: int| 0 <= o < PAGE_SIZE implies #[trigger] p1.mem_at(g + o) == p0.mem_at(
            g + o,
        ) by {
            vstd::arithmetic::mul::lemma_mul_inequality(p0.frame_idx(g) + 1, n, ps);
            vstd::arithmetic::mul::lemma_mul_is_distributive_add_other_way(ps, p0.frame_idx(g), 1);
            assert(0 <= g + o - base < p0.mem().len());
        }
    }
}


impl AddrSpace {
    /// The physical address a virtual address translates to.
    pub open spec fn translate(self, va: usize) -> int {
        self.pt_map()[spec_page_of(va)].paddr + (va - spec_page_of(va))
    }

    /// Whether the byte at `va` is translated into the pool.
    pub open spec fn mapped_byte(self, pool: FramePool, va: usize) -> bool {
        &&& self.pt_map().contains_key(spec_page_of(va))
        &&& pool.in_range(self.translate(va))
    }

    /// Whether every byte of `[start, start + len)` is translated into the
    /// pool.
    pub open spec fn readable_range(self, pool: FramePool, start: int, len: int) -> bool {
        forall|i: int| 0 <= i < len ==> #[trigger] self.mapped_byte(pool, (start + i) as usize)
    }

    /// Translates the byte address `va`, or fails when its page is unmapped
    /// or its frame lies outside the pool.
    fn translate_byte(&self, va: usize, pool: &FramePool) -> (r: Option<usize>)
        requires
            self.wf(),
            pool.wf(),
        ensures
            match r {
                Some(pa) => self.mapped_byte(*pool, va) && pa == self.translate(va),
                None => !self.mapped_byte(*pool, va),
            },
    {
        let page = crate::page_table::page_of(va);
        match self.pt.query(va) {
            Ok((frame, _flags)) => {
                let pa = frame + (va - page);
                if pool.contains_addr(pa) {
                    Some(pa)
                } else {
                    None
                }
            },
            Err(_) => None,
        }
    }

    /// Reads `buf.len()` bytes starting at virtual address `start` into
    /// `buf`.
    ///
    /// Fails with `InvalidInput` when the range leaves the virtual range
    /// (nothing is read), and with `BadAddress` when some byte of the range
    /// has no translation into the pool (a prefix of `buf` may have been
    /// filled).
    pub fn read(&self, start: usize, buf: &mut Vec<u8>, pool: &FramePool) -> (r: AxResult)
        requires
            self.wf(),
            pool.wf(),
            start + old(buf)@.len() <= usize::MAX,
        ensures
            final(buf)@.len() == old(buf)@.len(),
            r == Ok::<(), AxError>(()) <==> (self.spec_contains_range(
                start as int,
                old(buf)@.len() as int,
            ) && self.readable_range(*pool, start as int, old(buf)@.len() as int)),
            r == Err::<(), AxError>(AxError::InvalidInput) <==> !self.spec_contains_range(
                start as int,
                old(buf)@.len() as int,
            ),
            r == Err::<(), AxError>(AxError::BadAddress) <==> (self.spec_contains_range(
                start as int,
                old(buf)@.len() as int,
            ) && !self.readable_range(*pool, start as int, old(buf)@.len() as int)),
            r is Err ==> r == Err::<(), AxError>(AxError::InvalidInput) || r == Err::<(), AxError>(
                AxError::BadAddress,
            ),
            r == Err::<(), AxError>(AxError::InvalidInput) ==> *final(buf) == *old(buf),
            r is Ok ==> forall|i: int|
                0 <= i < old(buf)@.len() ==> final(buf)@[i] == pool.mem_at(
                    #[trigger] self.translate((start + i) as usize),
                ),
    {
        let len = buf.len();
        if !self.contains_range(start, len) {
            return Err(AxError::InvalidInput);
        }
        let mut i: usize = 0;
        while i < len
            invariant
                self.wf(),
                pool.wf(),
                i <= len,
                len == buf.len(),
                len == old(buf)@.len(),
                self.spec_contains_range(start as int, len as int),
                start + len <= usize::MAX,
                forall|j: int| 0 <= j < i ==> #[trigger] self.mapped_byte(*pool, (start + j) as usize),
                forall|j: int|
                    0 <= j < i ==> buf[j] == pool.mem_at(
                        #[trigger] self.translate((start + j) as usize),
                    ),
            decreases len - i,
        {
            let va = start + i;
            let pa = match self.translate_byte(va, pool) {
                Some(pa) => pa,
                None => {
                    proof {
                        assert(((start + i) as usize) == va);
                        assert(!self.mapped_byte(*pool, (start + i) as usize));
                    }
                    return Err(AxError::BadAddress);
                },
            };
            proof {
                assert(((start + i) as usize) == va);
                assert(self.mapped_byte(*pool, (start + i) as usize));
                assert(self.translate((start + i) as usize) == pa);
            }
            let b = pool.read_byte(pa);
            buf[i] = b;
            i = i + 1;
        }
        Ok(())
    }

    /// Writes `buf` into the address space starting at virtual address
    /// `start`.
    ///
    /// Fails with `InvalidInput` when the range leaves the virtual range
    /// (nothing is written), and with `BadAddress` when some byte of the
    /// range has no translation into the pool (a prefix may have been
    /// written). Frame allocation state and reference counts never change,
    /// and only bytes at translations of the range are touched.
    #[verifier::rlimit(100)]
    #[verifier::spinoff_prover]
    pub fn write(&self, start: usize, buf: &Vec<u8>, pool: &mut FramePool) -> (r: AxResult)
        requires
            self.wf(),
            old(pool).wf(),
            start + buf.len() <= usize::MAX,
        ensures
            final(pool).wf(),
            old(pool).same_shape(*final(pool)),
            final(pool).alloc_map() == old(pool).alloc_map(),
            final(pool).counts() == old(pool).counts(),
            r == Ok::<(), AxError>(()) <==> (self.spec_contains_range(start as int, buf.len() as int)
                && self.readable_range(*old(pool), start as int, buf.len() as int)),
            r == Err::<(), AxError>(AxError::InvalidInput) <==> !self.spec_contains_range(
                start as int,
                buf.len() as int,
            ),
            r == Err::<(), AxError>(AxError::BadAddress) <==> (self.spec_contains_range(
                start as int,
                buf.len() as int,
            ) && !self.readable_range(*old(pool), start as int, buf.len() as int)),
            r is Err ==> r == Err::<(), AxError>(AxError::InvalidInput) || r == Err::<(), AxError>(
                AxError::BadAddress,
            ),
            r == Err::<(), AxError>(AxError::InvalidInput) ==> *final(pool) == *old(pool),
            r is Ok ==> forall|i: int|
                0 <= i < buf.len() && (forall|i2: int|
                    i < i2 < buf.len() ==> #[trigger] self.translate((start + i2) as usize)
                        != self.translate((start + i) as usize)) ==> final(pool).mem_at(
                    #[trigger] self.translate((start + i) as usize),
                ) == buf[i],
            forall|pa: int|
                old(pool).in_range(pa) && (forall|i: int|
                    0 <= i < buf.len() ==> pa != #[trigger] self.translate((start + i) as usize))
                    ==> #[trigger] final(pool).mem_at(pa) == old(pool).mem_at(pa),
    {
        let len = buf.len();
        if !self.contains_range(start, len) {
            return Err(AxError::InvalidInput);
        }
        let mut i: usize = 0;
        while i < len
            invariant
                self.wf(),
                pool.wf(),
                old(pool).same_shape(*pool),
                pool.alloc_map() == old(pool).alloc_map(),
                pool.counts() == old(pool).counts(),
                i <= len,
                len == buf.len(),
                self.spec_contains_range(start as int, len as int),
                start + len <= usize::MAX,
                forall|j: int|
                    0 <= j < i ==> #[trigger] self.mapped_byte(*old(pool), (start + j) as usize),
                forall|j: int|
                    0 <= j < i && (forall|j2: int|
                        j < j2 < i ==> #[trigger] self.translate((start + j2) as usize)
                            != self.translate((start + j) as usize)) ==> pool.mem_at(
                        #[trigger] self.translate((start + j) as usize),
                    ) == buf[j],
                forall|pa: int|
                    old(pool).in_range(pa) && (forall|j: int|
                        0 <= j < i ==> pa != #[trigger] self.translate((start + j) as usize))
                        ==> #[trigger] pool.mem_at(pa) == old(pool).mem_at(pa),
            decreases len - i,
        {
            let va = start + i;
            let pa = match self.translate_byte(va, pool) {
                Some(pa) => pa,
                None => {
                    proof {
                        lemma_mapped_byte_shape(*self, *old(pool), *pool, va);
                        assert(((start + i) as usize) == va);
                        assert(!self.mapped_byte(*old(pool), (start + i) as usize));
                    }
                    return Err(AxError::BadAddress);
                },
            };
            proof {
                lemma_mapped_byte_shape(*self, *old(pool), *pool, va);
                assert(((start + i) as usize) == va);
                assert(self.mapped_byte(*old(pool), (start + i) as usize));
                assert(self.translate((start + i) as usize) == pa);
            }
            let ghost prev = *pool;
            pool.write_byte(pa, buf[i]);
            proof {
                assert(pool.mem() == prev.mem().update(pa - prev.spec_base(), buf[i as int]));
                assert(pool.mem_at(pa as int) == buf[i as int]);
                assert forall|x: int|
                    prev.in_range(x) && x != pa implies #[trigger] pool.mem_at(x) == prev.mem_at(
                    x,
                ) by {
                    assert(pool.mem()[x - prev.spec_base()] == prev.mem()[x - prev.spec_base()]);
                }
                assert forall|j: int|
                    0 <= j < i + 1 && (forall|j2: int|
                        j < j2 < i + 1 ==> #[trigger] self.translate((start + j2) as usize)
                            != self.translate((start + j) as usize)) implies pool.mem_at(
                    self.translate((start + j) as usize),
                ) == buf[j] by {
                    if j == i {
                    } else {
                        let t = self.translate((start + j) as usize);
                        assert(self.mapped_byte(*old(pool), (start + j) as usize));
                        assert(prev.in_range(t));
                        if t != pa {
                            assert(pool.mem_at(t) == prev.mem_at(t));
                        } else {
                            assert(self.translate((start + i) as usize) == self.translate(
                                (start + j) as usize,
                            ));
                        }
                    }
                }
            }
            i = i + 1;
        }
        Ok(())
    }
}

/// Translation into a pool only depends on the pool's shape.
proof fn lemma_mapped_byte_shape(a: AddrSpace, p0: FramePool, p1: FramePool, va: usize)
    requires
        p0.same_shape(p1),
    ensures
        a.mapped_byte(p0, va) == a.mapped_byte(p1, va),
{
}


/// Consistency only depends on the translations, the regions, and the pool.
proof fn lemma_consistent_congruence(a0: AddrSpace, a1: AddrSpace, p: FramePool)
    requires
        a0.consistent(p),
        a1.pt_map() == a0.pt_map(),
        a1.regions() == a0.regions(),
    ensures
        a1.consistent(p),
{
    reveal(AddrSpace::consistent);
}

/// The frames backing translated pages of allocation regions in `[lo, hi)`.
#[verifier::opaque]
pub open spec fn released_frames(
    m0: Map<usize, PageEntry>,
    rs: Seq<Region>,
    lo: int,
    hi: int,
) -> Set<int> {
    Set::new(
        |f: int|
            exists|k: usize|
                lo <= k < hi && (#[trigger] m0.contains_key(k)) && in_alloc_region(rs, k as int)
                    && m0[k].paddr == f,
    )
}

/// The intersection of every region with `[start, end)` honors that
/// region's own alignment.
pub open spec fn unmap_alignment_ok(rs: Seq<Region>, start: int, end: int) -> bool {
    forall|i: int|
        0 <= i < rs.len() && (#[trigger] rs[i]).start < end && start < rs[i].spec_end() ==> {
            let s = if start >= rs[i].start {
                start
            } else {
                rs[i].start as int
            };
            let e2 = if end <= rs[i].spec_end() {
                end
            } else {
                rs[i].spec_end()
            };
            s % (rs[i].backend.spec_align() as int) == 0 && (e2 - s) % (
            rs[i].backend.spec_align() as int) == 0
        }
}

/// The running state of a page-release sweep: relative to the starting
/// address space `a0` and pool `p0`, the pages of `[start, va)` are gone,
/// their allocation-backed frames have each lost one reference (frames whose
/// count reached zero were returned), and nothing else has changed.
#[verifier::opaque]
pub open spec fn release_inv(
    a0: AddrSpace,
    p0: FramePool,
    a: AddrSpace,
    p: FramePool,
    start: int,
    va: int,
) -> bool {
    &&& a.wf()
    &&& p.wf()
    &&& a.consistent(p)
    &&& a.spec_base() == a0.spec_base()
    &&& a.spec_size() == a0.spec_size()
    &&& a.spec_pt().spec_root() == a0.spec_pt().spec_root()
    &&& a.regions() == a0.regions()
    &&& p0.same_shape(p)
    &&& forall|k: usize| start <= k < va ==> !(#[trigger] a.pt_map().contains_key(k))
    &&& pt_same_outside(a0.pt_map(), a.pt_map(), start, va)
    &&& forall|k: usize|
        start <= k < va && (#[trigger] a0.pt_map().contains_key(k)) && in_alloc_region(
            a0.regions(),
            k as int,
        ) ==> {
            let f = a0.pt_map()[k].paddr as int;
            &&& p.count_of(f) == p0.count_of(f) - 1
            &&& (p.is_allocated(f) <==> p0.count_of(f) >= 2)
        }
    &&& counts_unchanged_except(p0, p, released_frames(a0.pt_map(), a0.regions(), start, va))
    &&& p.mem() == p0.mem()
}

/// Unfolds [`release_inv`].
#[verifier::rlimit(100)]
proof fn lemma_release_inv_unpack(
    a0: AddrSpace,
    p0: FramePool,
    a: AddrSpace,
    p: FramePool,
    start: int,
    va: int,
)
    requires
        release_inv(a0, p0, a, p, start, va),
    ensures
        a.wf(),
        p.wf(),
        a.consistent(p),
        a.spec_base() == a0.spec_base(),
        a.spec_size() == a0.spec_size(),
        a.spec_pt().spec_root() == a0.spec_pt().spec_root(),
        a.regions() == a0.regions(),
        p0.same_shape(p),
        forall|k: usize| start <= k < va ==> !(#[trigger] a.pt_map().contains_key(k)),
        pt_same_outside(a0.pt_map(), a.pt_map(), start, va),
        forall|k: usize|
            start <= k < va && (#[trigger] a0.pt_map().contains_key(k)) && in_alloc_region(
                a0.regions(),
                k as int,
            ) ==> {
                let f = a0.pt_map()[k].paddr as int;
                &&& p.count_of(f) == p0.count_of(f) - 1
                &&& (p.is_allocated(f) <==> p0.count_of(f) >= 2)
            },
        counts_unchanged_except(p0, p, released_frames(a0.pt_map(), a0.regions(), start, va)),
        p.mem() == p0.mem(),
{
    reveal(release_inv);
}

/// Folds [`release_inv`].
#[verifier::rlimit(100)]
proof fn lemma_release_inv_pack(
    a0: AddrSpace,
    p0: FramePool,
    a: AddrSpace,
    p: FramePool,
    start: int,
    va: int,
)
    requires
        a.wf(),
        p.wf(),
        a.consistent(p),
        a.spec_base() == a0.spec_base(),
        a.spec_size() == a0.spec_size(),
        a.spec_pt().spec_root() == a0.spec_pt().spec_root(),
        a.regions() == a0.regions(),
        p0.same_shape(p),
        forall|k: usize| start <= k < va ==> !(#[trigger] a.pt_map().contains_key(k)),
        pt_same_outside(a0.pt_map(), a.pt_map(), start, va),
        forall|k: usize|
            start <= k < va && (#[trigger] a0.pt_map().contains_key(k)) && in_alloc_region(
                a0.regions(),
                k as int,
            ) ==> {
                let f = a0.pt_map()[k].paddr as int;
                &&& p.count_of(f) == p0.count_of(f) - 1
                &&& (p.is_allocated(f) <==> p0.count_of(f) >= 2)
            },
        counts_unchanged_except(p0, p, released_frames(a0.pt_map(), a0.regions(), start, va)),
        p.mem() == p0.mem(),
    ensures
        release_inv(a0, p0, a, p, start, va),
{
    reveal(release_inv);
}

impl AddrSpace {
    /// Removes every translation of `[start, end)`, releasing one reference
    /// to each frame backing a page of an allocation region and returning
    /// frames whose count reaches zero to the pool.
    #[verifier::rlimit(100)]
    #[verifier::spinoff_prover]
    fn release_pages(&mut self, start: usize, end: usize, pool: &mut FramePool)
        requires
            old(self).wf(),
            old(pool).wf(),
            old(self).consistent(*old(pool)),
            start % PAGE_SIZE == 0,
            end % PAGE_SIZE == 0,
            start <= end,
        ensures
            release_inv(*old(self), *old(pool), *final(self), *final(pool), start as int, end as int),
    {
        let ghost a0 = *old(self);
        let ghost p0 = *old(pool);
        proof {
            lemma_release_inv_pack(a0, p0, a0, p0, start as int, start as int);
        }
        let mut va = start;
        while va < end
            invariant
                a0 == *old(self),
                p0 == *old(pool),
                a0.wf(),
                p0.wf(),
                a0.consistent(p0),
                start <= va <= end,
                start % PAGE_SIZE == 0,
                va % PAGE_SIZE == 0,
                end % PAGE_SIZE == 0,
                end <= usize::MAX,
                release_inv(a0, p0, *self, *pool, start as int, va as int),
            decreases end - va,
        {
            proof {
                lemma_mod_sub_zero(end as int, va as int, PAGE_SIZE as int);
                lemma_pos_multiple_ge(end - va, PAGE_SIZE as int);
            }
            self.release_one(va, pool, Ghost(a0), Ghost(p0), Ghost(start as int));
            proof {
                lemma_mod_add_zero(va as int, PAGE_SIZE as int, PAGE_SIZE as int);
            }
            va = va + PAGE_SIZE;
        }
    }

    /// Releases the translation of the single page at `va`, extending the
    /// release sweep from `[start, va)` to `[start, va + PAGE_SIZE)`.
    #[verifier::rlimit(100)]
    #[verifier::spinoff_prover]
    fn release_one(
        &mut self,
        va: usize,
        pool: &mut FramePool,
        Ghost(a0): Ghost<AddrSpace>,
        Ghost(p0): Ghost<FramePool>,
        Ghost(start): Ghost<int>,
    )
        requires
            a0.wf(),
            p0.wf(),
            a0.consistent(p0),
            0 <= start <= va,
            start % (PAGE_SIZE as int) == 0,
            va % PAGE_SIZE == 0,
            va + PAGE_SIZE <= usize::MAX + 1,
            release_inv(a0, p0, *old(self), *old(pool), start, va as int),
        ensures
            release_inv(a0, p0, *final(self), *final(pool), start, va + PAGE_SIZE),
    {
        let ghost rs = a0.regions();
        let ghost m0 = a0.pt_map();
        proof {
            lemma_release_inv_unpack(a0, p0, *old(self), *old(pool), start, va as int);
            assert(spec_page_of(va) == va) by {
                lemma_fundamental_div_mod(va as int, PAGE_SIZE as int);
            }
        }
        let ghost self_prev = *self;
        let ghost pool_prev = *pool;
        let unmapped = self.pt.unmap(va);
        match unmapped {
            Ok((pa, _fl)) => {
                proof {
                    assert(m0.contains_key(va) && m0[va] == self_prev.pt_map()[va]);
                }
                let idx = match self.find_region_idx(va) {
                    Some(i) => i,
                    None => {
                        proof {
                            assert(self_prev.pt_map().contains_key(va));
                            assert(covers(rs, va as int));
                            assert(false);
                        }
                        return ;
                    },
                };
                let region = self.regions[idx];
                let is_alloc = match region.backend {
                    Backend::Alloc { .. } => true,
                    Backend::Linear { .. } => false,
                };
                if is_alloc {
                    proof {
                        lemma_page_of_region(
                            rs,
                            idx as int,
                            va,
                            a0.spec_base() as int,
                            a0.spec_end(),
                        );
                        assert(in_alloc_region(rs, va as int));
                        lemma_release_prep(a0, p0, pool_prev, m0, rs, start, va);
                    }
                    let prev = pool.dec_ref(pa);
                    if prev == 1 {
                        pool.free_frame(pa);
                    }
                    proof {
                        lemma_release_step_alloc(
                            a0,
                            p0,
                            self_prev,
                            *self,
                            pool_prev,
                            *pool,
                            start,
                            va,
                            pa as int,
                        );
                    }
                } else {
                    proof {
                        lemma_page_of_region(
                            rs,
                            idx as int,
                            va,
                            a0.spec_base() as int,
                            a0.spec_end(),
                        );
                        lemma_release_step_noalloc(
                            a0,
                            p0,
                            self_prev,
                            *self,
                            *pool,
                            start,
                            va,
                        );
                    }
                }
            },
            Err(_) => {
                proof {
                    assert(self.pt_map() =~= self_prev.pt_map());
                    lemma_release_step_skip(a0, p0, self_prev, *self, *pool, start, va);
                }
            },
        }
    }
}

/// Before releasing the page at `va`: its frame is a valid referenced frame
/// of the current pool and was not released by an earlier page.
#[verifier::rlimit(100)]
#[verifier::spinoff_prover]
proof fn lemma_release_prep(
    a0: AddrSpace,
    p0: FramePool,
    pool_prev: FramePool,
    m0: Map<usize, PageEntry>,
    rs: Seq<Region>,
    start: int,
    va: usize,
)
    requires
        a0.wf(),
        a0.consistent(p0),
        p0.wf(),
        pool_prev.wf(),
        p0.same_shape(pool_prev),
        a0.pt_map() == m0,
        a0.regions() == rs,
        m0.contains_key(va),
        in_alloc_region(rs, va as int),
        start <= va,
        counts_unchanged_except(p0, pool_prev, released_frames(m0, rs, start, va as int)),
    ensures
        pool_prev.in_range(m0[va].paddr as int),
        m0[va].paddr % PAGE_SIZE == 0,
        pool_prev.count_of(m0[va].paddr as int) >= 1,
        pool_prev.count_of(m0[va].paddr as int) == p0.count_of(m0[va].paddr as int),
        pool_prev.is_allocated(m0[va].paddr as int),
        !released_frames(m0, rs, start, va as int).contains(m0[va].paddr as int),
        forall|k: usize|
            #[trigger] m0.contains_key(k) && in_alloc_region(rs, k as int) && k != va
                ==> m0[k].paddr != m0[va].paddr,
{
    reveal(AddrSpace::consistent);
    reveal(released_frames);
    let pa = m0[va].paddr as int;
    assert(!released_frames(m0, rs, start, va as int).contains(pa)) by {
        if released_frames(m0, rs, start, va as int).contains(pa) {
            let k2 = choose|k2: usize|
                start <= k2 < va && (#[trigger] m0.contains_key(k2)) && in_alloc_region(
                    rs,
                    k2 as int,
                ) && m0[k2].paddr == pa;
            assert(m0[k2 as usize].paddr != m0[va].paddr);
        }
    }
    assert(a0.pt_map().contains_key(va));
    assert(m0[va].paddr % PAGE_SIZE == 0);
    assert(p0.in_range(pa) && p0.is_allocated(pa) && p0.count_of(pa) >= 1);
    assert(pool_prev.is_allocated(pa) == p0.is_allocated(pa) && pool_prev.count_of(pa)
        == p0.count_of(pa));
}

/// One allocation-backed page released: the sweep invariant advances a page.
#[verifier::rlimit(100)]
#[verifier::spinoff_prover]
proof fn lemma_release_step_alloc(
    a0: AddrSpace,
    p0: FramePool,
    a_prev: AddrSpace,
    a_cur: AddrSpace,
    pool_prev: FramePool,
    pool_cur: FramePool,
    start: int,
    va: usize,
    pa: int,
)
    requires
        a0.wf(),
        p0.wf(),
        a0.consistent(p0),
        release_inv(a0, p0, a_prev, pool_prev, start, va as int),
        0 <= start <= va,
        va % PAGE_SIZE == 0,
        va + PAGE_SIZE <= usize::MAX + 1,
        a0.pt_map().contains_key(va),
        a0.pt_map()[va].paddr == pa,
        in_alloc_region(a0.regions(), va as int),
        a_prev.pt_map().contains_key(va),
        a_prev.pt_map()[va] == a0.pt_map()[va],
        a_cur.pt_map() == a_prev.pt_map().remove(va),
        a_cur.regions() == a_prev.regions(),
        a_cur.spec_base() == a_prev.spec_base(),
        a_cur.spec_size() == a_prev.spec_size(),
        a_cur.spec_pt().spec_root() == a_prev.spec_pt().spec_root(),
        a_cur.spec_pt().wf(),
        pool_cur.wf(),
        pool_prev.same_shape(pool_cur),
        pool_prev.in_range(pa),
        pa % (PAGE_SIZE as int) == 0,
        pool_prev.count_of(pa) >= 1,
        pool_prev.count_of(pa) == p0.count_of(pa),
        pool_prev.is_allocated(pa),
        pool_cur.counts() == pool_prev.counts().update(
            pool_prev.frame_idx(pa),
            (pool_prev.count_of(pa) - 1) as usize,
        ),
        pool_cur.alloc_map() == (if pool_prev.count_of(pa) == 1 {
            pool_prev.alloc_map().update(pool_prev.frame_idx(pa), false)
        } else {
            pool_prev.alloc_map()
        }),
        pool_cur.mem() == pool_prev.mem(),
    ensures
        release_inv(a0, p0, a_cur, pool_cur, start, va + PAGE_SIZE),
{
    lemma_release_inv_unpack(a0, p0, a_prev, pool_prev, start, va as int);
    // a_cur is a well-formed shrinking of a_prev
    lemma_wf_shrink(a_prev, a_cur);
    lemma_release_consistency(a_prev, a_cur, pool_prev, pool_cur, va, pa);
    lemma_release_counts_advance(a0, p0, pool_prev, pool_cur, start, va, pa);
    lemma_release_pt_advance(a0, a_prev, a_cur, start, va);
    lemma_release_inv_pack(a0, p0, a_cur, pool_cur, start, va + PAGE_SIZE);
}


/// The per-frame accounting of a release sweep advances one page.
#[verifier::rlimit(100)]
#[verifier::spinoff_prover]
proof fn lemma_release_counts_advance(
    a0: AddrSpace,
    p0: FramePool,
    pool_prev: FramePool,
    pool_cur: FramePool,
    start: int,
    va: usize,
    pa: int,
)
    requires
        a0.wf(),
        p0.wf(),
        a0.consistent(p0),
        pool_prev.wf(),
        pool_cur.wf(),
        p0.same_shape(pool_prev),
        pool_prev.same_shape(pool_cur),
        0 <= start <= va,
        va % PAGE_SIZE == 0,
        va + PAGE_SIZE <= usize::MAX + 1,
        a0.pt_map().contains_key(va),
        a0.pt_map()[va].paddr == pa,
        in_alloc_region(a0.regions(), va as int),
        pool_prev.in_range(pa),
        pa % (PAGE_SIZE as int) == 0,
        pool_prev.count_of(pa) >= 1,
        pool_prev.count_of(pa) == p0.count_of(pa),
        pool_cur.counts() == pool_prev.counts().update(
            pool_prev.frame_idx(pa),
            (pool_prev.count_of(pa) - 1) as usize,
        ),
        pool_cur.alloc_map() == (if pool_prev.count_of(pa) == 1 {
            pool_prev.alloc_map().update(pool_prev.frame_idx(pa), false)
        } else {
            pool_prev.alloc_map()
        }),
        pool_prev.is_allocated(pa),
        forall|k: usize|
            start <= k < va && (#[trigger] a0.pt_map().contains_key(k)) && in_alloc_region(
                a0.regions(),
                k as int,
            ) ==> {
                let f = a0.pt_map()[k].paddr as int;
                &&& pool_prev.count_of(f) == p0.count_of(f) - 1
                &&& (pool_prev.is_allocated(f) <==> p0.count_of(f) >= 2)
            },
        counts_unchanged_except(p0, pool_prev, released_frames(a0.pt_map(), a0.regions(), start, va as int)),
    ensures
        forall|k: usize|
            start <= k < va + PAGE_SIZE && (#[trigger] a0.pt_map().contains_key(k))
                && in_alloc_region(a0.regions(), k as int) ==> {
                let f = a0.pt_map()[k].paddr as int;
                &&& pool_cur.count_of(f) == p0.count_of(f) - 1
                &&& (pool_cur.is_allocated(f) <==> p0.count_of(f) >= 2)
            },
        counts_unchanged_except(
            p0,
            pool_cur,
            released_frames(a0.pt_map(), a0.regions(), start, va + PAGE_SIZE),
        ),
{
    let ps = PAGE_SIZE as int;
    let base = pool_prev.spec_base() as int;
    let n = pool_prev.num_frames() as int;
    lemma_frame_idx(base, n, pa);
    assert forall|k: usize| #[trigger] a0.pt_map().contains_key(k) implies k % PAGE_SIZE == 0 by {
        assert(a0.spec_pt().wf());
    }
    assert forall|g: int|
        pool_prev.in_range(g) && g % ps == 0 && g != pa implies (pool_cur.is_allocated(g)
        == pool_prev.is_allocated(g) && pool_cur.count_of(g) == pool_prev.count_of(g)) by {
        lemma_frame_idx_injective(base, n, g, pa);
        lemma_frame_idx(base, n, g);
    }
    assert forall|k: usize|
        #[trigger] a0.pt_map().contains_key(k) && in_alloc_region(a0.regions(), k as int) && k
            != va implies a0.pt_map()[k].paddr != pa by {
        reveal(AddrSpace::consistent);
    }
    lemma_released_extend(a0.pt_map(), a0.regions(), start, va);
    assert forall|k: usize|
        start <= k < va + PAGE_SIZE && (#[trigger] a0.pt_map().contains_key(k))
            && in_alloc_region(a0.regions(), k as int) implies {
        let f = a0.pt_map()[k].paddr as int;
        &&& pool_cur.count_of(f) == p0.count_of(f) - 1
        &&& (pool_cur.is_allocated(f) <==> p0.count_of(f) >= 2)
    } by {
        reveal(AddrSpace::consistent);
        lemma_pt_keys_aligned_gap(a0, start, va, k);
        let f = a0.pt_map()[k].paddr as int;
        assert(p0.in_range(f) && p0.is_allocated(f) && p0.count_of(f) >= 1);
        assert(f % (PAGE_SIZE as int) == 0);
        if k < va {
            assert(f != pa);
            assert(pool_cur.is_allocated(f) == pool_prev.is_allocated(f) && pool_cur.count_of(
                f,
            ) == pool_prev.count_of(f));
        } else {
            assert(k == va);
        }
    }
    assert forall|g: int|
        p0.in_range(g) && g % ps == 0 && !released_frames(
            a0.pt_map(),
            a0.regions(),
            start,
            va + PAGE_SIZE,
        ).contains(g) implies ((#[trigger] pool_cur.is_allocated(g)) == p0.is_allocated(g)
        && pool_cur.count_of(g) == p0.count_of(g)) by {
        lemma_released_extend(a0.pt_map(), a0.regions(), start, va);
        assert(!released_frames(a0.pt_map(), a0.regions(), start, va as int).contains(g));
        assert(g != pa);
    }
}


/// The table-side facts of a release sweep advance one page.
#[verifier::rlimit(100)]
#[verifier::spinoff_prover]
proof fn lemma_release_pt_advance(
    a0: AddrSpace,
    a_prev: AddrSpace,
    a_cur: AddrSpace,
    start: int,
    va: usize,
)
    requires
        start <= va,
        va % PAGE_SIZE == 0,
        va + PAGE_SIZE <= usize::MAX + 1,
        a_prev.spec_pt().wf(),
        forall|k: usize| start <= k < va ==> !(#[trigger] a_prev.pt_map().contains_key(k)),
        pt_same_outside(a0.pt_map(), a_prev.pt_map(), start, va as int),
        a_cur.pt_map() == a_prev.pt_map().remove(va),
    ensures
        forall|k: usize|
            start <= k < va + PAGE_SIZE ==> !(#[trigger] a_cur.pt_map().contains_key(k)),
        pt_same_outside(a0.pt_map(), a_cur.pt_map(), start, va + PAGE_SIZE),
{
    assert forall|k: usize|
        start <= k < va + PAGE_SIZE implies !(#[trigger] a_cur.pt_map().contains_key(k)) by {
        if k < va {
            assert(!a_prev.pt_map().contains_key(k));
        } else if k != va && a_cur.pt_map().contains_key(k) {
            assert(a_prev.pt_map().contains_key(k));
            assert(k % PAGE_SIZE == 0);
            lemma_mod_sub_zero(k as int, va as int, PAGE_SIZE as int);
            lemma_pos_multiple_ge(k - va, PAGE_SIZE as int);
        }
    }
}

/// Keys of the starting table are page-aligned, so a key at or past `va`
/// within one page of it is `va` itself.
proof fn lemma_pt_keys_aligned_gap(a0: AddrSpace, start: int, va: usize, k: usize)
    requires
        a0.wf(),
        va % PAGE_SIZE == 0,
        start <= k < va + PAGE_SIZE,
        a0.pt_map().contains_key(k),
    ensures
        k < va || k == va,
{
    if k >= va && k != va {
        assert(k % PAGE_SIZE == 0);
        lemma_mod_sub_zero(k as int, va as int, PAGE_SIZE as int);
        lemma_pos_multiple_ge(k - va, PAGE_SIZE as int);
    }
}

/// Removing the translation of a page of a non-allocation region: no frame
/// accounting changes.
#[verifier::rlimit(100)]
#[verifier::spinoff_prover]
proof fn lemma_release_step_noalloc(
    a0: AddrSpace,
    p0: FramePool,
    a_prev: AddrSpace,
    a_cur: AddrSpace,
    pool_cur: FramePool,
    start: int,
    va: usize,
)
    requires
        a0.wf(),
        p0.wf(),
        release_inv(a0, p0, a_prev, pool_cur, start, va as int),
        0 <= start <= va,
        va % PAGE_SIZE == 0,
        va + PAGE_SIZE <= usize::MAX + 1,
        a0.pt_map().contains_key(va),
        !in_alloc_region(a0.regions(), va as int),
        a_prev.pt_map().contains_key(va),
        a_cur.pt_map() == a_prev.pt_map().remove(va),
        a_cur.regions() == a_prev.regions(),
        a_cur.spec_base() == a_prev.spec_base(),
        a_cur.spec_size() == a_prev.spec_size(),
        a_cur.spec_pt().spec_root() == a_prev.spec_pt().spec_root(),
        a_cur.spec_pt().wf(),
    ensures
        release_inv(a0, p0, a_cur, pool_cur, start, va + PAGE_SIZE),
{
    lemma_release_inv_unpack(a0, p0, a_prev, pool_cur, start, va as int);
    assert(a_cur.wf()) by {
        assert forall|k: usize| #[trigger] a_cur.pt_map().contains_key(k) implies covers(
            a_cur.regions(),
            k as int,
        ) by {
            assert(a_prev.pt_map().contains_key(k));
        }
    }
    lemma_consistent_shrink(a_prev, a_cur, pool_cur);
    assert forall|k: usize|
        start <= k < va + PAGE_SIZE implies !(#[trigger] a_cur.pt_map().contains_key(k)) by {
        if k < va {
            assert(!a_prev.pt_map().contains_key(k));
        }
    }
    assert forall|k: usize|
        start <= k < va + PAGE_SIZE && (#[trigger] a0.pt_map().contains_key(k))
            && in_alloc_region(a0.regions(), k as int) implies {
        let f = a0.pt_map()[k].paddr as int;
        &&& pool_cur.count_of(f) == p0.count_of(f) - 1
        &&& (pool_cur.is_allocated(f) <==> p0.count_of(f) >= 2)
    } by {
        lemma_pt_keys_aligned_gap(a0, start, va, k);
    }
    lemma_released_extend(a0.pt_map(), a0.regions(), start, va);
    lemma_release_inv_pack(a0, p0, a_cur, pool_cur, start, va + PAGE_SIZE);
}

/// An unmapped page: the sweep invariant advances with nothing to do.
#[verifier::rlimit(100)]
#[verifier::spinoff_prover]
proof fn lemma_release_step_skip(
    a0: AddrSpace,
    p0: FramePool,
    a_prev: AddrSpace,
    a_cur: AddrSpace,
    pool_cur: FramePool,
    start: int,
    va: usize,
)
    requires
        a0.wf(),
        p0.wf(),
        release_inv(a0, p0, a_prev, pool_cur, start, va as int),
        0 <= start <= va,
        va % PAGE_SIZE == 0,
        va + PAGE_SIZE <= usize::MAX + 1,
        !a_prev.pt_map().contains_key(va),
        !a0.pt_map().contains_key(va),
        a_cur.pt_map() == a_prev.pt_map(),
        a_cur.regions() == a_prev.regions(),
        a_cur.spec_base() == a_prev.spec_base(),
        a_cur.spec_size() == a_prev.spec_size(),
        a_cur.spec_pt().spec_root() == a_prev.spec_pt().spec_root(),
        a_cur.spec_pt().wf(),
    ensures
        release_inv(a0, p0, a_cur, pool_cur, start, va + PAGE_SIZE),
{
    lemma_release_inv_unpack(a0, p0, a_prev, pool_cur, start, va as int);
    assert(a_cur.wf()) by {
        assert forall|k: usize| #[trigger] a_cur.pt_map().contains_key(k) implies covers(
            a_cur.regions(),
            k as int,
        ) by {
            assert(a_prev.pt_map().contains_key(k));
        }
    }
    lemma_consistent_congruence(a_prev, a_cur, pool_cur);
    assert forall|k: usize|
        start <= k < va + PAGE_SIZE implies !(#[trigger] a_cur.pt_map().contains_key(k)) by {
        if k < va {
            assert(!a_prev.pt_map().contains_key(k));
        } else {
            lemma_pt_keys_aligned_gap_absent(a0, a_prev, start, va, k);
        }
    }
    assert forall|k: usize|
        start <= k < va + PAGE_SIZE && (#[trigger] a0.pt_map().contains_key(k))
            && in_alloc_region(a0.regions(), k as int) implies {
        let f = a0.pt_map()[k].paddr as int;
        &&& pool_cur.count_of(f) == p0.count_of(f) - 1
        &&& (pool_cur.is_allocated(f) <==> p0.count_of(f) >= 2)
    } by {
        lemma_pt_keys_aligned_gap(a0, start, va, k);
    }
    lemma_released_extend(a0.pt_map(), a0.regions(), start, va);
    lemma_release_inv_pack(a0, p0, a_cur, pool_cur, start, va + PAGE_SIZE);
}

/// An absent aligned page stays absent across one page of addresses.
proof fn lemma_pt_keys_aligned_gap_absent(
    a0: AddrSpace,
    a_prev: AddrSpace,
    start: int,
    va: usize,
    k: usize,
)
    requires
        a_prev.spec_pt().wf(),
        va % PAGE_SIZE == 0,
        va <= k < va + PAGE_SIZE,
        !a_prev.pt_map().contains_key(va),
    ensures
        !a_prev.pt_map().contains_key(k),
{
    if a_prev.pt_map().contains_key(k) && k != va {
        assert(k % PAGE_SIZE == 0);
        lemma_mod_sub_zero(k as int, va as int, PAGE_SIZE as int);
        lemma_pos_multiple_ge(k - va, PAGE_SIZE as int);
    }
}

/// A table with fewer translations stays consistent.
#[verifier::rlimit(100)]
proof fn lemma_consistent_shrink(a_prev: AddrSpace, a_cur: AddrSpace, p: FramePool)
    requires
        a_prev.consistent(p),
        a_cur.regions() == a_prev.regions(),
        forall|k: usize|
            #[trigger] a_cur.pt_map().contains_key(k) ==> a_prev.pt_map().contains_key(k)
                && a_cur.pt_map()[k] == a_prev.pt_map()[k],
    ensures
        a_cur.consistent(p),
{
    reveal(AddrSpace::consistent);
    assert forall|k: usize|
        #[trigger] a_cur.pt_map().contains_key(k) && in_alloc_region(
            a_cur.regions(),
            k as int,
        ) implies {
        &&& p.in_range(a_cur.pt_map()[k].paddr as int)
        &&& p.is_allocated(a_cur.pt_map()[k].paddr as int)
        &&& p.count_of(a_cur.pt_map()[k].paddr as int) >= 1
    } by {
        assert(a_prev.pt_map().contains_key(k) && a_cur.pt_map()[k] == a_prev.pt_map()[k]);
    }
    assert forall|k1: usize, k2: usize|
        #![trigger a_cur.pt_map()[k1], a_cur.pt_map()[k2]]
        a_cur.pt_map().contains_key(k1) && a_cur.pt_map().contains_key(k2) && in_alloc_region(
            a_cur.regions(),
            k1 as int,
        ) && in_alloc_region(a_cur.regions(), k2 as int) && k1 != k2 implies a_cur.pt_map()[
    k1].paddr != a_cur.pt_map()[k2].paddr by {
        assert(a_prev.pt_map().contains_key(k1) && a_cur.pt_map()[k1] == a_prev.pt_map()[k1]);
        assert(a_prev.pt_map().contains_key(k2) && a_cur.pt_map()[k2] == a_prev.pt_map()[k2]);
    }
}


/// An address space whose translations shrink stays well-formed.
#[verifier::rlimit(100)]
proof fn lemma_wf_shrink(a_prev: AddrSpace, a_cur: AddrSpace)
    requires
        a_prev.wf(),
        a_cur.regions() == a_prev.regions(),
        a_cur.spec_base() == a_prev.spec_base(),
        a_cur.spec_size() == a_prev.spec_size(),
        a_cur.spec_pt().wf(),
        forall|k: usize|
            #[trigger] a_cur.pt_map().contains_key(k) ==> a_prev.pt_map().contains_key(k),
    ensures
        a_cur.wf(),
{
    assert forall|k: usize| #[trigger] a_cur.pt_map().contains_key(k) implies covers(
        a_cur.regions(),
        k as int,
    ) by {
        assert(a_prev.pt_map().contains_key(k));
    }
}

/// Removing one page and releasing only its frame keeps the rest of the
/// table consistent.
#[verifier::rlimit(100)]
#[verifier::spinoff_prover]
proof fn lemma_release_consistency(
    a_prev: AddrSpace,
    a_cur: AddrSpace,
    pool_prev: FramePool,
    pool_cur: FramePool,
    va: usize,
    pa: int,
)
    requires
        a_prev.consistent(pool_prev),
        a_prev.spec_pt().wf(),
        pool_prev.wf(),
        pool_cur.wf(),
        pool_prev.same_shape(pool_cur),
        a_cur.regions() == a_prev.regions(),
        a_prev.pt_map().contains_key(va),
        a_prev.pt_map()[va].paddr == pa,
        in_alloc_region(a_prev.regions(), va as int),
        a_cur.pt_map() == a_prev.pt_map().remove(va),
        pa % (PAGE_SIZE as int) == 0,
        pool_prev.in_range(pa),
        pool_prev.count_of(pa) >= 1,
        pool_cur.counts() == pool_prev.counts().update(
            pool_prev.frame_idx(pa),
            (pool_prev.count_of(pa) - 1) as usize,
        ),
        pool_cur.alloc_map() == (if pool_prev.count_of(pa) == 1 {
            pool_prev.alloc_map().update(pool_prev.frame_idx(pa), false)
        } else {
            pool_prev.alloc_map()
        }),
    ensures
        a_cur.consistent(pool_cur),
{
    reveal(AddrSpace::consistent);
    let ps = PAGE_SIZE as int;
    let base = pool_prev.spec_base() as int;
    let n = pool_prev.num_frames() as int;
    lemma_frame_idx(base, n, pa);
    assert forall|g: int|
        pool_prev.in_range(g) && g % ps == 0 && g != pa implies (pool_cur.is_allocated(g)
        == pool_prev.is_allocated(g) && pool_cur.count_of(g) == pool_prev.count_of(g)) by {
        lemma_frame_idx_injective(base, n, g, pa);
        lemma_frame_idx(base, n, g);
    }
    let rs = a_prev.regions();
    assert forall|k: usize|
        #[trigger] a_cur.pt_map().contains_key(k) && in_alloc_region(rs, k as int) implies {
        &&& pool_cur.in_range(a_cur.pt_map()[k].paddr as int)
        &&& pool_cur.is_allocated(a_cur.pt_map()[k].paddr as int)
        &&& pool_cur.count_of(a_cur.pt_map()[k].paddr as int) >= 1
    } by {
        assert(k != va);
        assert(a_prev.pt_map().contains_key(k) && a_cur.pt_map()[k] == a_prev.pt_map()[k]);
        let g = a_prev.pt_map()[k].paddr as int;
        let ghost e1 = a_prev.pt_map()[k];
        let ghost e2 = a_prev.pt_map()[va];
        assert(g != pa);
        assert(g % (PAGE_SIZE as int) == 0);
        assert(pool_cur.is_allocated(g) == pool_prev.is_allocated(g) && pool_cur.count_of(g)
            == pool_prev.count_of(g));
    }
    assert forall|k1: usize, k2: usize|
        #![trigger a_cur.pt_map()[k1], a_cur.pt_map()[k2]]
        a_cur.pt_map().contains_key(k1) && a_cur.pt_map().contains_key(k2) && in_alloc_region(
            rs,
            k1 as int,
        ) && in_alloc_region(rs, k2 as int) && k1 != k2 implies a_cur.pt_map()[k1].paddr
        != a_cur.pt_map()[k2].paddr by {
        assert(a_prev.pt_map().contains_key(k1) && a_cur.pt_map()[k1] == a_prev.pt_map()[k1]);
        assert(a_prev.pt_map().contains_key(k2) && a_cur.pt_map()[k2] == a_prev.pt_map()[k2]);
    }
}

/// Extending the released range by one page adds at most that page's frame.
#[verifier::rlimit(100)]
#[verifier::spinoff_prover]
proof fn lemma_released_extend(m0: Map<usize, PageEntry>, rs: Seq<Region>, start: int, va: usize)
    requires
        start <= va,
        va % PAGE_SIZE == 0,
        va + PAGE_SIZE <= usize::MAX + 1,
        forall|k: usize| #[trigger] m0.contains_key(k) ==> k % PAGE_SIZE == 0,
    ensures
        m0.contains_key(va) && in_alloc_region(rs, va as int) ==> released_frames(
            m0,
            rs,
            start,
            va + PAGE_SIZE,
        ) =~= released_frames(m0, rs, start, va as int).insert(m0[va].paddr as int),
        !(m0.contains_key(va) && in_alloc_region(rs, va as int)) ==> released_frames(
            m0,
            rs,
            start,
            va + PAGE_SIZE,
        ) =~= released_frames(m0, rs, start, va as int),
{
    reveal(released_frames);
    let ps = PAGE_SIZE as int;
    assert forall|k: usize|
        start <= k < va + PAGE_SIZE && (#[trigger] m0.contains_key(k)) implies (k < va || k
        == va) by {
        if k >= va && k != va {
            lemma_mod_sub_zero(k as int, va as int, ps);
            lemma_pos_multiple_ge(k - va, ps);
        }
    }
}


/// Whether some region with index below `i` contains `addr`.
pub open spec fn prefix_covers(rs: Seq<Region>, i: int, addr: int) -> bool {
    exists|j: int| 0 <= j < i && (#[trigger] rs[j]).contains(addr)
}

/// Whether `p` is a piece of one of the first `i` regions of `rs`.
pub open spec fn has_source(p: Region, rs: Seq<Region>, i: int) -> bool {
    exists|j: int| 0 <= j < i && #[trigger] piece_of(p, rs[j])
}

/// A piece of a source region: same flags and backend, contained range.
pub open spec fn piece_of(p: Region, r: Region) -> bool {
    &&& p.flags == r.flags
    &&& p.backend == r.backend
    &&& r.start <= p.start
    &&& p.spec_end() <= r.spec_end()
}

impl AddrSpace {
    /// Removes `[start, end)` from the region set: regions fully inside the
    /// range disappear, straddling regions are shrunk or split. The page
    /// table is untouched; no page of the range may still be translated.
    #[verifier::rlimit(100)]
    #[verifier::spinoff_prover]
    fn trim_regions(&mut self, start: usize, end: usize)
        requires
            old(self).wf(),
            start % PAGE_SIZE == 0,
            end % PAGE_SIZE == 0,
            start <= end,
            forall|k: usize| start <= k < end ==> !(#[trigger] old(self).pt_map().contains_key(k)),
        ensures
            final(self).wf(),
            final(self).spec_base() == old(self).spec_base(),
            final(self).spec_size() == old(self).spec_size(),
            final(self).spec_pt() == old(self).spec_pt(),
            forall|a: int|
                #[trigger] covers(final(self).regions(), a) ==> covers(old(self).regions(), a) && !(
                start <= a < end),
            forall|a: int|
                #[trigger] covers(old(self).regions(), a) && !(start <= a < end) ==> covers(
                    final(self).regions(),
                    a,
                ),
            forall|a: int|
                #[trigger] covers(final(self).regions(), a) ==> region_at(
                    final(self).regions(),
                    a,
                ).flags == region_at(old(self).regions(), a).flags && region_at(
                    final(self).regions(),
                    a,
                ).backend == region_at(old(self).regions(), a).backend,
            forall|p: FramePool| old(self).consistent(p) ==> #[trigger] final(self).consistent(p),
    {
        if end <= start {
            return ;
        }
        let ghost rs = self.regions();
        let ghost b = self.spec_base() as int;
        let ghost e = self.spec_end();
        let n = self.regions.len();
        let mut out: Vec<Region> = Vec::new();
        let mut i: usize = 0;
        while i < n
            invariant
                self.wf(),
                rs == self.regions(),
                b == self.spec_base() as int,
                e == self.spec_end(),
                n == rs.len(),
                i <= n,
                start < end,
                start % PAGE_SIZE == 0,
                end % PAGE_SIZE == 0,
                regions_wf(out@, b, e),
                forall|l: int|
                    0 <= l < out@.len() ==> ((#[trigger] out@[l]).spec_end() <= start || out@[
                    l].start >= end),
                forall|l: int|
                    0 <= l < out@.len() ==> #[trigger] has_source(out@[l], rs, i as int),
                i < n ==> forall|l: int|
                    0 <= l < out@.len() ==> (#[trigger] out@[l]).spec_end() <= rs[i as int].start,
                forall|a: int|
                    #[trigger] covers(out@, a) ==> prefix_covers(rs, i as int, a) && !(start <= a
                        < end),
                forall|a: int|
                    #[trigger] prefix_covers(rs, i as int, a) && !(start <= a < end) ==> covers(
                        out@,
                        a,
                    ),
            decreases n - i,
        {
            let region = self.regions[i];
            let ghost out_before = out@;
            if region.end() <= start || region.start >= end {
                out.push(region);
                proof {
                    lemma_trim_extend(rs, b, e, i as int, out_before, out@, start as int, end as int);
                    lemma_trim_extend_sound(rs, b, e, i as int, out_before, out@, start as int, end as int);
                    lemma_trim_extend_complete(rs, b, e, i as int, out_before, out@, start as int, end as int);
                }
            } else {
                if region.start < start {
                    out.push(
                        Region {
                            start: region.start,
                            size: start - region.start,
                            flags: region.flags,
                            backend: region.backend,
                        },
                    );
                }
                if region.end() > end {
                    out.push(
                        Region {
                            start: end,
                            size: region.end() - end,
                            flags: region.flags,
                            backend: region.backend,
                        },
                    );
                }
                proof {
                    lemma_trim_extend(rs, b, e, i as int, out_before, out@, start as int, end as int);
                    lemma_trim_extend_sound(rs, b, e, i as int, out_before, out@, start as int, end as int);
                    lemma_trim_extend_complete(rs, b, e, i as int, out_before, out@, start as int, end as int);
                }
            }
            i = i + 1;
        }
        self.regions = out;
        proof {
            assert forall|k: usize| #[trigger] self.pt_map().contains_key(k) implies covers(
                self.regions(),
                k as int,
            ) by {
                assert(old(self).pt_map().contains_key(k));
                assert(covers(rs, k as int));
                assert(prefix_covers(rs, n as int, k as int));
                assert(!(start <= k < end));
            }
            assert forall|a: int| #[trigger] covers(rs, a) && !(start <= a < end) implies covers(
                self.regions(),
                a,
            ) by {
                let j = region_index_of(rs, a);
                assert(prefix_covers(rs, n as int, a));
            }
            assert forall|a: int| #[trigger] covers(self.regions(), a) implies covers(rs, a) && !(
            start <= a < end) && region_at(self.regions(), a).flags == region_at(rs, a).flags
                && region_at(self.regions(), a).backend == region_at(rs, a).backend by {
                let l = region_index_of(self.regions(), a);
                assert(self.regions()[l].contains(a));
                assert(has_source(self.regions()[l], rs, n as int));
                let j = choose|j: int| 0 <= j < n && #[trigger] piece_of(self.regions()[l], rs[j]);
                assert(rs[j].contains(a));
                let j2 = region_index_of(rs, a);
                lemma_region_unique(rs, b, e, j, j2, a);
            }
            assert forall|p: FramePool| old(self).consistent(p) implies #[trigger] final(self)
                .consistent(p) by {
                lemma_trim_consistent(*old(self), *self, p, start as int, end as int);
            }
        }
    }
}

/// Processing one region extends the trim-loop facts.
#[verifier::rlimit(100)]
#[verifier::spinoff_prover]
proof fn lemma_trim_extend(
    rs: Seq<Region>,
    b: int,
    e: int,
    i: int,
    before: Seq<Region>,
    after: Seq<Region>,
    start: int,
    end: int,
)
    requires
        regions_wf(rs, b, e),
        0 <= i < rs.len(),
        start <= end,
        regions_wf(before, b, e),
        forall|l: int|
            0 <= l < before.len() ==> ((#[trigger] before[l]).spec_end() <= start || before[
            l].start >= end),
        forall|l: int|
            0 <= l < before.len() ==> #[trigger] has_source(before[l], rs, i),
        forall|l: int| 0 <= l < before.len() ==> (#[trigger] before[l]).spec_end() <= rs[i].start,
        // `after` is `before` plus the kept pieces of region `i`
        ({
            let r = rs[i];
            if r.spec_end() <= start || r.start >= end {
                after == before.push(r)
            } else {
                let left = Region {
                    start: r.start,
                    size: (start - r.start) as usize,
                    flags: r.flags,
                    backend: r.backend,
                };
                let right = Region {
                    start: end as usize,
                    size: (r.spec_end() - end) as usize,
                    flags: r.flags,
                    backend: r.backend,
                };
                if r.start < start && r.spec_end() > end {
                    after == before.push(left).push(right)
                } else if r.start < start {
                    after == before.push(left)
                } else if r.spec_end() > end {
                    after == before.push(right)
                } else {
                    after == before
                }
            }
        }),
        start % (PAGE_SIZE as int) == 0,
        end % (PAGE_SIZE as int) == 0,
    ensures
        regions_wf(after, b, e),
        forall|l: int|
            0 <= l < after.len() ==> ((#[trigger] after[l]).spec_end() <= start || after[l].start
                >= end),
        forall|l: int|
            0 <= l < after.len() ==> #[trigger] has_source(after[l], rs, i + 1),
        i + 1 < rs.len() ==> forall|l: int|
            0 <= l < after.len() ==> (#[trigger] after[l]).spec_end() <= rs[i + 1].start,
{
    let r = rs[i];
    assert(r.wf());
    assert forall|l: int| 0 <= l < after.len() implies #[trigger] has_source(
        after[l],
        rs,
        i + 1,
    ) by {
        if l < before.len() {
            assert(has_source(before[l], rs, i));
            let j = choose|j: int| 0 <= j < i && #[trigger] piece_of(before[l], rs[j]);
            assert(piece_of(after[l], rs[j]));
        } else {
            assert(piece_of(after[l], rs[i]));
        }
    }
    if i + 1 < rs.len() {
        assert forall|l: int| 0 <= l < after.len() implies (#[trigger] after[l]).spec_end() <= rs[
        i + 1].start by {
            if l < before.len() {
                assert(before[l].spec_end() <= rs[i].start);
                assert(rs[i].spec_end() <= rs[i + 1].start);
            } else {
                assert(after[l].spec_end() <= rs[i].spec_end());
                assert(rs[i].spec_end() <= rs[i + 1].start);
            }
        }
    }
    assert forall|l: int|
        0 <= l < after.len() implies (#[trigger] after[l]).wf() && b <= after[l].start && after[
        l].spec_end() <= e by {
        if l >= before.len() {
            assert(after[l].size % PAGE_SIZE == 0) by {
                lemma_mod_sub_zero(start, r.start as int, PAGE_SIZE as int);
                lemma_mod_sub_zero(r.spec_end(), end, PAGE_SIZE as int);
                lemma_mod_add_zero(r.start as int, r.size as int, PAGE_SIZE as int);
            }
            assert(linear_offset_ok(after[l])) by {
                reveal(linear_offset_ok);
                assert(linear_offset_ok(r));
            }
        }
    }
    assert forall|l: int|
        0 <= l < after.len() - 1 implies (#[trigger] after[l]).spec_end() <= after[l
        + 1].start by {
        if l + 1 < before.len() {
        } else if l + 1 == before.len() {
            assert(before[l].spec_end() <= rs[i].start);
        } else {
            assert(l == before.len() && after.len() == before.len() + 2);
        }
    }
    assert(regions_wf(after, b, e));
}

/// Soundness direction of the trim-loop coverage facts.
#[verifier::rlimit(100)]
#[verifier::spinoff_prover]
proof fn lemma_trim_extend_sound(
    rs: Seq<Region>,
    b: int,
    e: int,
    i: int,
    before: Seq<Region>,
    after: Seq<Region>,
    start: int,
    end: int,
)
    requires
        regions_wf(rs, b, e),
        0 <= i < rs.len(),
        start <= end,
        forall|a: int|
            #[trigger] covers(before, a) ==> prefix_covers(rs, i, a) && !(start <= a < end),
        ({
            let r = rs[i];
            if r.spec_end() <= start || r.start >= end {
                after == before.push(r)
            } else {
                let left = Region {
                    start: r.start,
                    size: (start - r.start) as usize,
                    flags: r.flags,
                    backend: r.backend,
                };
                let right = Region {
                    start: end as usize,
                    size: (r.spec_end() - end) as usize,
                    flags: r.flags,
                    backend: r.backend,
                };
                if r.start < start && r.spec_end() > end {
                    after == before.push(left).push(right)
                } else if r.start < start {
                    after == before.push(left)
                } else if r.spec_end() > end {
                    after == before.push(right)
                } else {
                    after == before
                }
            }
        }),
    ensures
        forall|a: int|
            #[trigger] covers(after, a) ==> prefix_covers(rs, i + 1, a) && !(start <= a < end),
{
    assert forall|a: int| #[trigger] covers(after, a) implies prefix_covers(rs, i + 1, a) && !(
    start <= a < end) by {
        let l = region_index_of(after, a);
        if l < before.len() {
            assert(before[l].contains(a));
            assert(covers(before, a));
        } else {
            assert(rs[i].contains(a));
            assert(prefix_covers(rs, i + 1, a));
        }
    }
}

/// Completeness direction of the trim-loop coverage facts.
#[verifier::rlimit(100)]
#[verifier::spinoff_prover]
proof fn lemma_trim_extend_complete(
    rs: Seq<Region>,
    b: int,
    e: int,
    i: int,
    before: Seq<Region>,
    after: Seq<Region>,
    start: int,
    end: int,
)
    requires
        regions_wf(rs, b, e),
        0 <= i < rs.len(),
        start <= end,
        forall|a: int|
            #[trigger] prefix_covers(rs, i, a) && !(start <= a < end) ==> covers(before, a),
        ({
            let r = rs[i];
            if r.spec_end() <= start || r.start >= end {
                after == before.push(r)
            } else {
                let left = Region {
                    start: r.start,
                    size: (start - r.start) as usize,
                    flags: r.flags,
                    backend: r.backend,
                };
                let right = Region {
                    start: end as usize,
                    size: (r.spec_end() - end) as usize,
                    flags: r.flags,
                    backend: r.backend,
                };
                if r.start < start && r.spec_end() > end {
                    after == before.push(left).push(right)
                } else if r.start < start {
                    after == before.push(left)
                } else if r.spec_end() > end {
                    after == before.push(right)
                } else {
                    after == before
                }
            }
        }),
    ensures
        forall|a: int|
            #[trigger] prefix_covers(rs, i + 1, a) && !(start <= a < end) ==> covers(after, a),
{
    assert forall|a: int| #[trigger] prefix_covers(rs, i + 1, a) && !(start <= a < end) implies
        covers(after, a) by {
        let j = choose|j: int| 0 <= j < i + 1 && (#[trigger] rs[j]).contains(a);
        if j < i {
            assert(prefix_covers(rs, i, a));
            assert(covers(before, a));
            let l = region_index_of(before, a);
            assert(after[l].contains(a));
        } else {
            assert(rs[i].contains(a));
            if a < start {
                assert(after[before.len() as int].contains(a));
            } else {
                assert(a >= end);
                if rs[i].spec_end() > end {
                    if rs[i].start < start {
                        assert(after[before.len() as int + 1].contains(a));
                    } else {
                        assert(after[before.len() as int].contains(a));
                    }
                }
            }
        }
    }
}

/// Trimming regions away from a range with no remaining translations
/// preserves consistency with any pool.
#[verifier::rlimit(100)]
#[verifier::spinoff_prover]
proof fn lemma_trim_consistent(a0: AddrSpace, a1: AddrSpace, p: FramePool, start: int, end: int)
    requires
        a0.wf(),
        a1.wf(),
        a0.consistent(p),
        a1.pt_map() == a0.pt_map(),
        forall|k: usize| start <= k < end ==> !(#[trigger] a0.pt_map().contains_key(k)),
        forall|a: int|
            #[trigger] covers(a1.regions(), a) ==> covers(a0.regions(), a) && !(start <= a < end),
        forall|a: int|
            #[trigger] covers(a0.regions(), a) && !(start <= a < end) ==> covers(a1.regions(), a),
        forall|a: int|
            #[trigger] covers(a1.regions(), a) ==> region_at(a1.regions(), a).flags == region_at(
                a0.regions(),
                a,
            ).flags && region_at(a1.regions(), a).backend == region_at(a0.regions(), a).backend,
    ensures
        a1.consistent(p),
{
    reveal(AddrSpace::consistent);
    assert forall|k: usize|
        #[trigger] a1.pt_map().contains_key(k) && in_alloc_region(a1.regions(), k as int) implies {
        &&& p.in_range(a1.pt_map()[k].paddr as int)
        &&& p.is_allocated(a1.pt_map()[k].paddr as int)
        &&& p.count_of(a1.pt_map()[k].paddr as int) >= 1
    } by {
        assert(a0.pt_map().contains_key(k));
        assert(covers(a1.regions(), k as int));
        assert(in_alloc_region(a0.regions(), k as int));
    }
    assert forall|k1: usize, k2: usize|
        #![trigger a1.pt_map()[k1], a1.pt_map()[k2]]
        a1.pt_map().contains_key(k1) && a1.pt_map().contains_key(k2) && in_alloc_region(
            a1.regions(),
            k1 as int,
        ) && in_alloc_region(a1.regions(), k2 as int) && k1 != k2 implies a1.pt_map()[k1].paddr
        != a1.pt_map()[k2].paddr by {
        assert(in_alloc_region(a0.regions(), k1 as int));
        assert(in_alloc_region(a0.regions(), k2 as int));
    }
}


/// Every address of `[start, end)` lies in some region.
#[verifier::opaque]
pub open spec fn covered_range(rs: Seq<Region>, start: int, end: int) -> bool {
    forall|a: int| start <= a < end ==> #[trigger] covers(rs, a)
}

/// Every page of an allocation region within `[start, end)` is translated.
#[verifier::opaque]
pub open spec fn range_fully_mapped(a: AddrSpace, start: int, end: int) -> bool {
    forall|k: usize|
        start <= k < end && k % PAGE_SIZE == 0 && in_alloc_region(a.regions(), k as int)
            ==> #[trigger] a.pt_map().contains_key(k)
}

/// Every page of an allocation region within `[start, end)` is translated,
/// and writably so wherever a write access meets a writable region: the
/// state in which a population sweep with this access has nothing to do.
#[verifier::opaque]
pub open spec fn populate_resolved(
    a: AddrSpace,
    start: int,
    end: int,
    access: MappingFlags,
) -> bool {
    forall|k: usize|
        start <= k < end && k % PAGE_SIZE == 0 && in_alloc_region(a.regions(), k as int) ==> (
        #[trigger] a.pt_map().contains_key(k)) && (access.write && region_at(
            a.regions(),
            k as int,
        ).flags.write ==> a.pt_map()[k].flags.write)
}

/// Some page of `[start, end)` lies in an eagerly populated region but has
/// no translation: an inconsistency.
#[verifier::opaque]
pub open spec fn has_populate_hole(a: AddrSpace, start: int, end: int) -> bool {
    exists|k: usize|
        start <= k < end && k % PAGE_SIZE == 0 && #[trigger] in_alloc_region(
            a.regions(),
            k as int,
        ) && region_at(a.regions(), k as int).backend.is_populated_alloc() && !a.pt_map(
        ).contains_key(k)
}

impl AddrSpace {
    /// Removes mappings within the specified virtual address range,
    /// releasing the frames of allocation-backed pages and shrinking,
    /// splitting or removing the regions it intersects.
    ///
    /// Fails with `InvalidInput`, changing nothing, when the range leaves
    /// the virtual range, is not page-aligned, or meets some region whose
    /// own alignment its intersection violates.
    #[verifier::rlimit(100)]
    #[verifier::spinoff_prover]
    pub fn unmap(&mut self, start: usize, size: usize, pool: &mut FramePool) -> (r: AxResult)
        requires
            old(self).wf(),
            old(pool).wf(),
            old(self).consistent(*old(pool)),
        ensures
            final(self).wf(),
            final(pool).wf(),
            final(self).consistent(*final(pool)),
            final(self).spec_base() == old(self).spec_base(),
            final(self).spec_size() == old(self).spec_size(),
            final(self).spec_pt().spec_root() == old(self).spec_pt().spec_root(),
            old(pool).same_shape(*final(pool)),
            r is Ok <==> (old(self).valid_range(start as int, size as int, PAGE_SIZE as int)
                && unmap_alignment_ok(old(self).regions(), start as int, start + size)),
            r == Err::<(), AxError>(AxError::InvalidInput) <==> !(old(self).valid_range(
                start as int,
                size as int,
                PAGE_SIZE as int,
            ) && unmap_alignment_ok(old(self).regions(), start as int, start + size)),
            r is Err ==> *final(self) == *old(self) && *final(pool) == *old(pool),
            r is Ok ==> ({
                let rs0 = old(self).regions();
                let m0 = old(self).pt_map();
                let p0 = *old(pool);
                let p1 = *final(pool);
                let endv = start + size;
                &&& forall|k: usize|
                    start <= k < endv ==> !(#[trigger] final(self).pt_map().contains_key(k))
                &&& pt_same_outside(m0, final(self).pt_map(), start as int, endv)
                &&& forall|a: int|
                    #[trigger] covers(final(self).regions(), a) ==> covers(rs0, a) && !(start <= a
                        < endv)
                &&& forall|a: int|
                    #[trigger] covers(rs0, a) && !(start <= a < endv) ==> covers(
                        final(self).regions(),
                        a,
                    )
                &&& forall|a: int|
                    #[trigger] covers(final(self).regions(), a) ==> region_at(
                        final(self).regions(),
                        a,
                    ).flags == region_at(rs0, a).flags && region_at(final(self).regions(), a).backend
                        == region_at(rs0, a).backend
                &&& forall|k: usize|
                    start <= k < endv && (#[trigger] m0.contains_key(k)) && in_alloc_region(
                        rs0,
                        k as int,
                    ) ==> {
                        let f = m0[k].paddr as int;
                        &&& p1.count_of(f) == p0.count_of(f) - 1
                        &&& (p1.is_allocated(f) <==> p0.count_of(f) >= 2)
                    }
                &&& counts_unchanged_except(
                    p0,
                    p1,
                    released_frames(m0, rs0, start as int, endv),
                )
                &&& p1.mem() == p0.mem()
            }),
    {
        if self.validate_region(start, size, PAGE_SIZE).is_err() {
            return Err(AxError::InvalidInput);
        }
        proof {
            assert(start + size <= usize::MAX);
        }
        let end = start + size;
        // every intersected region must be cut on its own alignment
        let n = self.regions.len();
        let mut i: usize = 0;
        while i < n
            invariant
                self.wf(),
                *self == *old(self),
                *pool == *old(pool),
                old(pool).wf(),
                old(self).consistent(*old(pool)),
                old(self).valid_range(start as int, size as int, PAGE_SIZE as int),
                start + size == end,
                n == self.regions().len(),
                i <= n,
                start <= end <= usize::MAX,
                forall|j: int|
                    0 <= j < i && (#[trigger] self.regions()[j]).start < end && start < self
                        .regions()[j].spec_end() ==> {
                        let s = if start as int >= self.regions()[j].start {
                            start as int
                        } else {
                            self.regions()[j].start as int
                        };
                        let e2 = if end as int <= self.regions()[j].spec_end() {
                            end as int
                        } else {
                            self.regions()[j].spec_end()
                        };
                        s % (self.regions()[j].backend.spec_align() as int) == 0 && (e2 - s) % (
                        self.regions()[j].backend.spec_align() as int) == 0
                    },
            decreases n - i,
        {
            let region = self.regions[i];
            if region.start < end && start < region.end() {
                let s = if start >= region.start {
                    start
                } else {
                    region.start
                };
                let e2 = if end <= region.end() {
                    end
                } else {
                    region.end()
                };
                let align = region.backend.align();
                if s % align != 0 || (e2 - s) % align != 0 {
                    proof {
                        let rs = self.regions();
                        assert(!unmap_alignment_ok(rs, start as int, start + size)) by {
                            assert(rs[i as int].start < end && start < rs[i as int].spec_end());
                        }
                    }
                    return Err(AxError::InvalidInput);
                }
            }
            i = i + 1;
        }
        proof {
            lemma_mod_multiple_chain(start as int, PAGE_SIZE as int, PAGE_SIZE as int);
            lemma_mod_add_zero(start as int, size as int, PAGE_SIZE as int);
        }
        self.release_pages(start, end, pool);
        proof {
            lemma_release_inv_unpack(
                *old(self),
                *old(pool),
                *self,
                *pool,
                start as int,
                end as int,
            );
        }
        self.trim_regions(start, end);
        Ok(())
    }

    /// Removes all mappings and regions, releasing every allocation-backed
    /// frame.
    #[verifier::rlimit(100)]
    #[verifier::spinoff_prover]
    pub fn clear(&mut self, pool: &mut FramePool)
        requires
            old(self).wf(),
            old(pool).wf(),
            old(self).consistent(*old(pool)),
        ensures
            final(self).wf(),
            final(pool).wf(),
            final(self).consistent(*final(pool)),
            final(self).spec_base() == old(self).spec_base(),
            final(self).spec_size() == old(self).spec_size(),
            final(self).spec_pt().spec_root() == old(self).spec_pt().spec_root(),
            old(pool).same_shape(*final(pool)),
            final(self).regions() == Seq::<Region>::empty(),
            final(self).pt_map() == Map::<usize, PageEntry>::empty(),
            final(pool).mem() == old(pool).mem(),
            forall|k: usize|
                (#[trigger] old(self).pt_map().contains_key(k)) && in_alloc_region(
                    old(self).regions(),
                    k as int,
                ) ==> {
                    let f = old(self).pt_map()[k].paddr as int;
                    &&& final(pool).count_of(f) == old(pool).count_of(f) - 1
                    &&& (final(pool).is_allocated(f) <==> old(pool).count_of(f) >= 2)
                },
    {
        let n = self.regions.len();
        if n == 0 {
            proof {
                assert(self.regions() =~= Seq::<Region>::empty());
                assert forall|k: usize| !(#[trigger] self.pt_map().contains_key(k)) by {
                    if self.pt_map().contains_key(k) {
                        assert(covers(self.regions(), k as int));
                        let i = region_index_of(self.regions(), k as int);
                    }
                }
                assert(self.pt_map() =~= Map::<usize, PageEntry>::empty());
            }
            return ;
        }
        let lo = self.regions[0].start;
        let hi = self.regions[n - 1].end();
        proof {
            lemma_clear_span(*self, lo as int, hi as int, n as int);
            lemma_mod_add_zero(
                self.regions()[n - 1].start as int,
                self.regions()[n - 1].size as int,
                PAGE_SIZE as int,
            );
        }
        self.release_pages(lo, hi, pool);
        proof {
            lemma_release_inv_unpack(
                *old(self),
                *old(pool),
                *self,
                *pool,
                lo as int,
                hi as int,
            );
        }
        self.trim_regions(lo, hi);
        proof {
            lemma_clear_post(*old(self), *self, *old(pool), *pool, lo as int, hi as int, n as int);
        }
    }

    /// Removes all user mappings from the address space, releasing every
    /// allocation-backed frame.
    pub fn unmap_user_areas(&mut self, pool: &mut FramePool) -> (r: AxResult)
        requires
            old(self).wf(),
            old(pool).wf(),
            old(self).consistent(*old(pool)),
        ensures
            final(self).wf(),
            final(pool).wf(),
            final(self).consistent(*final(pool)),
            final(self).spec_base() == old(self).spec_base(),
            final(self).spec_size() == old(self).spec_size(),
            final(self).spec_pt().spec_root() == old(self).spec_pt().spec_root(),
            old(pool).same_shape(*final(pool)),
            final(self).regions() == Seq::<Region>::empty(),
            final(self).pt_map() == Map::<usize, PageEntry>::empty(),
            final(pool).mem() == old(pool).mem(),
            forall|k: usize|
                (#[trigger] old(self).pt_map().contains_key(k)) && in_alloc_region(
                    old(self).regions(),
                    k as int,
                ) ==> {
                    let f = old(self).pt_map()[k].paddr as int;
                    &&& final(pool).count_of(f) == old(pool).count_of(f) - 1
                    &&& (final(pool).is_allocated(f) <==> old(pool).count_of(f) >= 2)
                },
            r is Ok,
    {
        self.clear(pool);
        Ok(())
    }
}


/// After releasing and trimming the whole span of the regions, the address
/// space is empty and every allocation-backed frame lost one reference.
#[verifier::rlimit(100)]
#[verifier::spinoff_prover]
proof fn lemma_clear_post(
    a0: AddrSpace,
    a1: AddrSpace,
    p0: FramePool,
    p1: FramePool,
    lo: int,
    hi: int,
    n: int,
)
    requires
        a0.wf(),
        a1.wf(),
        n == a0.regions().len(),
        n > 0,
        lo == a0.regions()[0].start,
        hi == a0.regions()[n - 1].spec_end(),
        forall|k: usize| lo <= k < hi ==> !(#[trigger] a1.pt_map().contains_key(k)),
        forall|k: usize|
            #[trigger] a0.pt_map().contains_key(k) ==> lo <= k < hi,
        forall|a: int|
            #[trigger] covers(a1.regions(), a) ==> covers(a0.regions(), a) && !(lo <= a < hi),
        forall|k: usize|
            lo <= k < hi && (#[trigger] a0.pt_map().contains_key(k)) && in_alloc_region(
                a0.regions(),
                k as int,
            ) ==> {
                let f = a0.pt_map()[k].paddr as int;
                &&& p1.count_of(f) == p0.count_of(f) - 1
                &&& (p1.is_allocated(f) <==> p0.count_of(f) >= 2)
            },
        pt_same_outside(a0.pt_map(), a1.pt_map(), lo, hi),
    ensures
        a1.regions() == Seq::<Region>::empty(),
        a1.pt_map() == Map::<usize, PageEntry>::empty(),
        forall|k: usize|
            (#[trigger] a0.pt_map().contains_key(k)) && in_alloc_region(a0.regions(), k as int)
                ==> {
                let f = a0.pt_map()[k].paddr as int;
                &&& p1.count_of(f) == p0.count_of(f) - 1
                &&& (p1.is_allocated(f) <==> p0.count_of(f) >= 2)
            },
{
    let rs0 = a0.regions();
    let b = a0.spec_base() as int;
    let e = a0.spec_end();
    assert forall|k: usize| !(#[trigger] a1.pt_map().contains_key(k)) by {
        if a1.pt_map().contains_key(k) && !(lo <= k < hi) {
            assert(a0.pt_map().contains_key(k));
        }
    }
    assert(a1.pt_map() =~= Map::<usize, PageEntry>::empty());
    if a1.regions().len() > 0 {
        let reg = a1.regions()[0];
        assert(reg.wf());
        assert(reg.contains(reg.start as int));
        assert(covers(a1.regions(), reg.start as int));
        assert(covers(rs0, reg.start as int) && !(lo <= reg.start < hi));
        let i = region_index_of(rs0, reg.start as int);
        if i > 0 {
            lemma_regions_disjoint(rs0, b, e, 0, i);
        }
        if i < n - 1 {
            lemma_regions_disjoint(rs0, b, e, i, n - 1);
        }
        assert(false);
    }
    assert(a1.regions() =~= Seq::<Region>::empty());
}


/// Every translation lies within the span of the regions.
#[verifier::rlimit(100)]
#[verifier::spinoff_prover]
proof fn lemma_clear_span(a: AddrSpace, lo: int, hi: int, n: int)
    requires
        a.wf(),
        n == a.regions().len(),
        n > 0,
        lo == a.regions()[0].start,
        hi == a.regions()[n - 1].spec_end(),
    ensures
        forall|k: usize| #[trigger] a.pt_map().contains_key(k) ==> lo <= k < hi,
        lo <= hi,
{
    let rs = a.regions();
    let b = a.spec_base() as int;
    let e = a.spec_end();
    assert forall|k: usize| #[trigger] a.pt_map().contains_key(k) implies lo <= k < hi by {
        assert(covers(rs, k as int));
        let i = region_index_of(rs, k as int);
        if i > 0 {
            lemma_regions_disjoint(rs, b, e, 0, i);
        }
        if i < n - 1 {
            lemma_regions_disjoint(rs, b, e, i, n - 1);
        }
    }
    if n > 1 {
        lemma_regions_disjoint(rs, b, e, 0, n - 1);
    }
}



/// The running state of a population sweep over `[start, va)`: translations
/// outside the processed prefix are untouched, the prefix is covered by
/// regions, its allocation-backed pages are mapped and write-resolved for
/// `access`, and no translation was lost.
#[verifier::opaque]
pub open spec fn populate_inv(
    a0: AddrSpace,
    a: AddrSpace,
    start: int,
    va: int,
    access: MappingFlags,
) -> bool {
    &&& pt_same_outside(a0.pt_map(), a.pt_map(), start, va)
    &&& covered_range(a0.regions(), start, va)
    &&& range_fully_mapped(a, start, va)
    &&& populate_resolved(a, start, va, access)
    &&& forall|k: usize| #[trigger] a0.pt_map().contains_key(k) ==> a.pt_map().contains_key(k)
}

/// Unfolds [`populate_inv`].
#[verifier::rlimit(100)]
proof fn lemma_populate_inv_unpack(
    a0: AddrSpace,
    a: AddrSpace,
    start: int,
    va: int,
    access: MappingFlags,
)
    requires
        populate_inv(a0, a, start, va, access),
    ensures
        pt_same_outside(a0.pt_map(), a.pt_map(), start, va),
        covered_range(a0.regions(), start, va),
        range_fully_mapped(a, start, va),
        populate_resolved(a, start, va, access),
        forall|k: usize| #[trigger] a0.pt_map().contains_key(k) ==> a.pt_map().contains_key(k),
{
    reveal(populate_inv);
}

/// Folds [`populate_inv`].
#[verifier::rlimit(100)]
proof fn lemma_populate_inv_pack(
    a0: AddrSpace,
    a: AddrSpace,
    start: int,
    va: int,
    access: MappingFlags,
)
    requires
        pt_same_outside(a0.pt_map(), a.pt_map(), start, va),
        covered_range(a0.regions(), start, va),
        range_fully_mapped(a, start, va),
        populate_resolved(a, start, va, access),
        forall|k: usize| #[trigger] a0.pt_map().contains_key(k) ==> a.pt_map().contains_key(k),
    ensures
        populate_inv(a0, a, start, va, access),
{
    reveal(populate_inv);
}


/// The sweep state transfers to an equal table over equal regions.
#[verifier::rlimit(100)]
proof fn lemma_populate_inv_congruence(
    a0: AddrSpace,
    prev: AddrSpace,
    cur: AddrSpace,
    start: int,
    va: int,
    access: MappingFlags,
)
    requires
        populate_inv(a0, prev, start, va, access),
        cur.pt_map() == prev.pt_map(),
        cur.regions() == prev.regions(),
    ensures
        populate_inv(a0, cur, start, va, access),
{
    reveal(populate_inv);
    reveal(covered_range);
    reveal(range_fully_mapped);
    reveal(populate_resolved);
}


/// A page needing no work (already mapped and write-resolved for the
/// access) advances the sweep atom unchanged.
#[verifier::rlimit(100)]
#[verifier::spinoff_prover]
proof fn lemma_sweep_skip_mapped(
    a0: AddrSpace,
    prev: AddrSpace,
    start: usize,
    va: usize,
    end: usize,
    access: MappingFlags,
    entry_flags: MappingFlags,
    region: Region,
)
    requires
        a0.wf(),
        prev.regions() == a0.regions(),
        start <= va < end,
        start % PAGE_SIZE == 0,
        va % PAGE_SIZE == 0,
        va + PAGE_SIZE <= end,
        covers(a0.regions(), va as int),
        region_at(prev.regions(), va as int) == region,
        prev.pt_map().contains_key(va),
        prev.pt_map()[va].flags == entry_flags,
        entry_flags.write || !access.write || !region.flags.write,
        populate_inv(a0, prev, start as int, va as int, access),
    ensures
        populate_inv(a0, prev, start as int, va + PAGE_SIZE, access),
{
    lemma_populate_inv_unpack(a0, prev, start as int, va as int, access);
    lemma_populate_advance_page(a0, prev, prev, start as int, va, end as int, access);
    lemma_resolved_extend(prev, prev, start as int, va, access);
    lemma_populate_inv_pack(a0, prev, start as int, va + PAGE_SIZE, access);
}

/// A page freshly resolved (mapped, or remapped by copy-on-write, with the
/// region's flags) advances the sweep atom one page.
#[verifier::rlimit(100)]
#[verifier::spinoff_prover]
proof fn lemma_sweep_resolved_page(
    a0: AddrSpace,
    prev: AddrSpace,
    cur: AddrSpace,
    start: usize,
    va: usize,
    end: usize,
    access: MappingFlags,
    region: Region,
)
    requires
        a0.wf(),
        prev.regions() == a0.regions(),
        cur.regions() == prev.regions(),
        start <= va < end,
        start % PAGE_SIZE == 0,
        va % PAGE_SIZE == 0,
        va + PAGE_SIZE <= end,
        covers(a0.regions(), va as int),
        region_at(prev.regions(), va as int) == region,
        pt_same_outside(prev.pt_map(), cur.pt_map(), va as int, va + PAGE_SIZE),
        cur.pt_map().contains_key(va),
        cur.pt_map()[va].flags == region.flags,
        populate_inv(a0, prev, start as int, va as int, access),
    ensures
        populate_inv(a0, cur, start as int, va + PAGE_SIZE, access),
{
    lemma_populate_inv_unpack(a0, prev, start as int, va as int, access);
    lemma_populate_advance_page(a0, prev, cur, start as int, va, end as int, access);
    lemma_resolved_extend(prev, cur, start as int, va, access);
    assert(pt_same_outside(a0.pt_map(), cur.pt_map(), start as int, va + PAGE_SIZE));
    lemma_populate_inv_pack(a0, cur, start as int, va + PAGE_SIZE, access);
}

/// A page the sweep cannot resolve refutes the resolved antecedent over the
/// whole range, and on an unchanged state the atom stands.
#[verifier::rlimit(100)]
#[verifier::spinoff_prover]
proof fn lemma_sweep_fail(
    a0: AddrSpace,
    prev: AddrSpace,
    cur: AddrSpace,
    start: usize,
    va: usize,
    end: usize,
    access: MappingFlags,
    entry_write: bool,
    mapped: bool,
    region: Region,
)
    requires
        a0.wf(),
        prev.regions() == a0.regions(),
        cur.regions() == prev.regions(),
        cur.pt_map() == prev.pt_map(),
        start <= va < end,
        va % PAGE_SIZE == 0,
        in_alloc_region(a0.regions(), va as int),
        region_at(prev.regions(), va as int) == region,
        mapped ==> prev.pt_map().contains_key(va) && !entry_write && access.write
            && prev.pt_map()[va].flags.write == entry_write,
        !mapped ==> !prev.pt_map().contains_key(va),
        populate_inv(a0, prev, start as int, va as int, access),
    ensures
        populate_inv(a0, cur, start as int, va as int, access),
        !write_settled(a0, start as int, end as int, access),
{
    lemma_populate_inv_unpack(a0, prev, start as int, va as int, access);
    assert(prev.pt_map().contains_key(va) == a0.pt_map().contains_key(va));
    if mapped {
        assert(a0.pt_map()[va] == prev.pt_map()[va]);
        lemma_not_settled(a0, start as int, end as int, access, va);
    } else {
        lemma_not_settled(a0, start as int, end as int, access, va);
    }
    lemma_populate_inv_congruence(a0, prev, cur, start as int, va as int, access);
}


/// A page of a non-allocation region advances the sweep atom unchanged.
#[verifier::rlimit(100)]
#[verifier::spinoff_prover]
proof fn lemma_sweep_skip_linear(
    a0: AddrSpace,
    cur: AddrSpace,
    start: usize,
    va: usize,
    end: usize,
    access: MappingFlags,
)
    requires
        a0.wf(),
        cur.regions() == a0.regions(),
        start <= va < end,
        start % PAGE_SIZE == 0,
        va % PAGE_SIZE == 0,
        va + PAGE_SIZE <= end,
        end <= usize::MAX,
        covers(a0.regions(), va as int),
        !in_alloc_region(a0.regions(), va as int),
        populate_inv(a0, cur, start as int, va as int, access),
    ensures
        populate_inv(a0, cur, start as int, va + PAGE_SIZE, access),
{
    lemma_populate_inv_unpack(a0, cur, start as int, va as int, access);
    lemma_populate_skip_page(a0, cur, start as int, va, end as int, access);
    lemma_populate_inv_pack(a0, cur, start as int, va + PAGE_SIZE, access);
}

impl AddrSpace {
    /// Ensures that the given virtual memory region is fully mapped: walks
    /// every page of `[start, start + size)`, mapping a fresh zeroed frame
    /// into each unmapped page of a lazily populated region. Pages that are
    /// already mapped are left as they are; a write to a page whose frame is
    /// shared is resolved by copy-on-write when the write faults (see
    /// [`Self::handle_page_fault`]).
    ///
    /// Fails with `InvalidInput` when the range is invalid (nothing
    /// changes), with `NoMemory` when the range is not fully covered by
    /// regions or a frame allocation fails (earlier pages stay mapped), and
    /// with `BadAddress` when an unmapped page of an eagerly populated
    /// region is met.
    #[verifier::rlimit(100)]
    #[verifier::spinoff_prover]
    pub fn populate_area(
        &mut self,
        start: usize,
        size: usize,
        access_flags: MappingFlags,
        pool: &mut FramePool,
    ) -> (r: AxResult)
        requires
            old(self).wf(),
            old(pool).wf(),
            old(self).consistent(*old(pool)),
        ensures
            final(self).wf(),
            final(pool).wf(),
            final(self).consistent(*final(pool)),
            final(self).spec_base() == old(self).spec_base(),
            final(self).spec_size() == old(self).spec_size(),
            final(self).spec_pt().spec_root() == old(self).spec_pt().spec_root(),
            final(self).regions() == old(self).regions(),
            old(pool).same_shape(*final(pool)),
            pt_same_outside(old(self).pt_map(), final(self).pt_map(), start as int, start + size),
            forall|k: usize|
                #[trigger] old(self).pt_map().contains_key(k) ==> final(self).pt_map(
                ).contains_key(k),
            r == Err::<(), AxError>(AxError::InvalidInput) <==> !old(self).valid_range(
                start as int,
                size as int,
                PAGE_SIZE as int,
            ),
            r == Err::<(), AxError>(AxError::InvalidInput) ==> *final(self) == *old(self)
                && *final(pool) == *old(pool),
            r is Ok ==> covered_range(old(self).regions(), start as int, start + size)
                && range_fully_mapped(*final(self), start as int, start + size)
                && populate_resolved(*final(self), start as int, start + size, access_flags),
            (old(self).valid_range(start as int, size as int, PAGE_SIZE as int) && covered_range(
                old(self).regions(),
                start as int,
                start + size,
            ) && write_settled(*old(self), start as int, start + size, access_flags)) ==> r is Ok,
            r == Err::<(), AxError>(AxError::BadAddress) ==> has_populate_hole(
                *old(self),
                start as int,
                start + size,
            ),
            r == Err::<(), AxError>(AxError::NoMemory) ==> (!covered_range(
                old(self).regions(),
                start as int,
                start + size,
            ) || count_free(final(pool).alloc_map()) == 0),
            r is Err ==> r == Err::<(), AxError>(AxError::InvalidInput) || r == Err::<(), AxError>(
                AxError::NoMemory,
            ) || r == Err::<(), AxError>(AxError::BadAddress),
    {
        if self.validate_region(start, size, PAGE_SIZE).is_err() {
            return Err(AxError::InvalidInput);
        }
        proof {
            assert(start + size <= usize::MAX);
            lemma_mod_multiple_chain(start as int, PAGE_SIZE as int, PAGE_SIZE as int);
            lemma_mod_add_zero(start as int, size as int, PAGE_SIZE as int);
        }
        let end = start + size;
        let ghost a0 = *self;
        let r = self.populate_sweep(start, end, access_flags, pool);
        proof {
            if r is Ok {
                lemma_populate_inv_unpack(a0, *self, start as int, end as int, access_flags);
            } else {
                let b = choose|b: int|
                    start <= b <= end && #[trigger] populate_inv(
                        a0,
                        *self,
                        start as int,
                        b,
                        access_flags,
                    );
                lemma_populate_inv_unpack(a0, *self, start as int, b, access_flags);
            }
        }
        r
    }

    /// The page walk of [`Self::populate_area`], over an aligned range.
    #[verifier::rlimit(100)]
    #[verifier::spinoff_prover]
    fn populate_sweep(
        &mut self,
        start: usize,
        end: usize,
        access_flags: MappingFlags,
        pool: &mut FramePool,
    ) -> (r: AxResult)
        requires
            old(self).wf(),
            old(pool).wf(),
            old(self).consistent(*old(pool)),
            start % PAGE_SIZE == 0,
            end % PAGE_SIZE == 0,
            start <= end,
        ensures
            final(self).wf(),
            final(pool).wf(),
            final(self).consistent(*final(pool)),
            final(self).spec_base() == old(self).spec_base(),
            final(self).spec_size() == old(self).spec_size(),
            final(self).spec_pt().spec_root() == old(self).spec_pt().spec_root(),
            final(self).regions() == old(self).regions(),
            old(pool).same_shape(*final(pool)),
            r is Ok ==> populate_inv(
                *old(self),
                *final(self),
                start as int,
                end as int,
                access_flags,
            ),
            r is Err ==> exists|b: int|
                start <= b <= end && #[trigger] populate_inv(
                    *old(self),
                    *final(self),
                    start as int,
                    b,
                    access_flags,
                ),
            r is Err ==> !(covered_range(old(self).regions(), start as int, end as int)
                && write_settled(*old(self), start as int, end as int, access_flags)),
            r is Err ==> r == Err::<(), AxError>(AxError::NoMemory) || r == Err::<(), AxError>(
                AxError::BadAddress,
            ),
            r == Err::<(), AxError>(AxError::NoMemory) ==> (!covered_range(
                old(self).regions(),
                start as int,
                end as int,
            ) || count_free(final(pool).alloc_map()) == 0),
            r == Err::<(), AxError>(AxError::BadAddress) ==> has_populate_hole(
                *old(self),
                start as int,
                end as int,
            ),
    {
        let ghost a0 = *old(self);
        let ghost p0 = *old(pool);
        let mut va = start;
        proof {
            assert(covered_range(a0.regions(), start as int, start as int)) by {
                reveal(covered_range);
            }
            assert(range_fully_mapped(*self, start as int, start as int)) by {
                reveal(range_fully_mapped);
            }
            assert(populate_resolved(*self, start as int, start as int, access_flags)) by {
                reveal(populate_resolved);
            }
            lemma_populate_inv_pack(a0, *self, start as int, start as int, access_flags);
        }
        while va < end
            invariant
                a0 == *old(self),
                p0 == *old(pool),
                a0.wf(),
                p0.wf(),
                self.wf(),
                pool.wf(),
                self.consistent(*pool),
                self.spec_base() == a0.spec_base(),
                self.spec_size() == a0.spec_size(),
                self.spec_pt().spec_root() == a0.spec_pt().spec_root(),
                self.regions() == a0.regions(),
                p0.same_shape(*pool),
                start <= va <= end,
                start % PAGE_SIZE == 0,
                va % PAGE_SIZE == 0,
                end % PAGE_SIZE == 0,
                end <= usize::MAX,
                populate_inv(a0, *self, start as int, va as int, access_flags),
            decreases end - va,
        {
            proof {
                lemma_mod_sub_zero(end as int, va as int, PAGE_SIZE as int);
                lemma_pos_multiple_ge(end - va, PAGE_SIZE as int);
                assert(spec_page_of(va) == va) by {
                    lemma_fundamental_div_mod(va as int, PAGE_SIZE as int);
                }
            }
            let idx = match self.find_region_idx(va) {
                Some(i) => i,
                None => {
                    proof {
                        assert(!covered_range(a0.regions(), start as int, end as int)) by {
                            reveal(covered_range);
                        }
                    }
                    return Err(AxError::NoMemory);
                },
            };
            let region = self.regions[idx];
            proof {
                lemma_page_of_region(
                    self.regions(),
                    idx as int,
                    va,
                    self.spec_base() as int,
                    self.spec_end(),
                );
            }
            let (is_alloc, populate) = match region.backend {
                Backend::Alloc { populate, .. } => (true, populate),
                Backend::Linear { .. } => (false, false),
            };
            if is_alloc {
                let r = self.populate_one_alloc(
                    va,
                    access_flags,
                    region,
                    populate,
                    pool,
                    Ghost(a0),
                    Ghost(p0),
                    Ghost(start),
                    Ghost(end),
                );
                if r.is_err() {
                    return r;
                }
            } else {
                proof {
                    lemma_sweep_skip_linear(a0, *self, start, va, end, access_flags);
                }
            }
            va = va + PAGE_SIZE;
            proof {
                lemma_mod_add_zero((va - PAGE_SIZE) as int, PAGE_SIZE as int, PAGE_SIZE as int);
            }
        }
        Ok(())
    }

    /// Resolves one page of a population sweep inside an allocation region.
    #[verifier::rlimit(100)]
    fn populate_one_alloc(
        &mut self,
        va: usize,
        access_flags: MappingFlags,
        region: Region,
        populate: bool,
        pool: &mut FramePool,
        Ghost(a0): Ghost<AddrSpace>,
        Ghost(p0): Ghost<FramePool>,
        Ghost(start): Ghost<usize>,
        Ghost(end): Ghost<usize>,
    ) -> (r: AxResult)
        requires
            a0.wf(),
            p0.wf(),
            old(self).wf(),
            old(pool).wf(),
            old(self).consistent(*old(pool)),
            old(self).spec_base() == a0.spec_base(),
            old(self).spec_size() == a0.spec_size(),
            old(self).spec_pt().spec_root() == a0.spec_pt().spec_root(),
            old(self).regions() == a0.regions(),
            p0.same_shape(*old(pool)),
            start <= va < end,
            start % PAGE_SIZE == 0,
            va % PAGE_SIZE == 0,
            va + PAGE_SIZE <= end,
            end <= usize::MAX,
            spec_page_of(va) == va,
            covers(old(self).regions(), va as int),
            region_at(old(self).regions(), va as int) == region,
            in_alloc_region(old(self).regions(), va as int),
            region.backend == (Backend::Alloc { populate, align: region.backend.spec_align() }),
            populate_inv(a0, *old(self), start as int, va as int, access_flags),
        ensures
            final(self).wf(),
            final(pool).wf(),
            final(self).consistent(*final(pool)),
            final(self).spec_base() == a0.spec_base(),
            final(self).spec_size() == a0.spec_size(),
            final(self).spec_pt().spec_root() == a0.spec_pt().spec_root(),
            final(self).regions() == a0.regions(),
            p0.same_shape(*final(pool)),
            r is Ok ==> populate_inv(a0, *final(self), start as int, va + PAGE_SIZE, access_flags),
            r is Err ==> populate_inv(a0, *final(self), start as int, va as int, access_flags),
            r is Err ==> r == Err::<(), AxError>(AxError::NoMemory) || r == Err::<(), AxError>(
                AxError::BadAddress,
            ),
            r is Err ==> !write_settled(a0, start as int, end as int, access_flags),
            r == Err::<(), AxError>(AxError::NoMemory) ==> (!covered_range(
                a0.regions(),
                start as int,
                end as int,
            ) || count_free(final(pool).alloc_map()) == 0),
            r == Err::<(), AxError>(AxError::BadAddress) ==> has_populate_hole(
                a0,
                start as int,
                end as int,
            ),
    {
        let query = self.pt.query(va);
        match query {
            Ok((pa, entry_flags)) => self.populate_mapped_page(
                va,
                pa,
                entry_flags,
                access_flags,
                region,
                pool,
                Ghost(a0),
                Ghost(p0),
                Ghost(start),
                Ghost(end),
            ),
            Err(_) => self.populate_unmapped_page(
                va,
                access_flags,
                region,
                populate,
                pool,
                Ghost(a0),
                Ghost(p0),
                Ghost(start),
                Ghost(end),
            ),
        }
    }

    /// Resolves a mapped page of the population sweep.
    #[verifier::rlimit(100)]
    #[verifier::spinoff_prover]
    fn populate_mapped_page(
        &mut self,
        va: usize,
        pa: usize,
        entry_flags: MappingFlags,
        access_flags: MappingFlags,
        region: Region,
        pool: &mut FramePool,
        Ghost(a0): Ghost<AddrSpace>,
        Ghost(p0): Ghost<FramePool>,
        Ghost(start): Ghost<usize>,
        Ghost(end): Ghost<usize>,
    ) -> (r: AxResult)
        requires
            a0.wf(),
            p0.wf(),
            old(self).wf(),
            old(pool).wf(),
            old(self).consistent(*old(pool)),
            old(self).spec_base() == a0.spec_base(),
            old(self).spec_size() == a0.spec_size(),
            old(self).spec_pt().spec_root() == a0.spec_pt().spec_root(),
            old(self).regions() == a0.regions(),
            p0.same_shape(*old(pool)),
            start <= va < end,
            start % PAGE_SIZE == 0,
            va % PAGE_SIZE == 0,
            va + PAGE_SIZE <= end,
            end <= usize::MAX,
            spec_page_of(va) == va,
            covers(old(self).regions(), va as int),
            region_at(old(self).regions(), va as int) == region,
            in_alloc_region(old(self).regions(), va as int),
            region.backend.is_alloc(),
            old(self).pt_map().contains_key(va),
            old(self).pt_map()[va].paddr == pa,
            old(self).pt_map()[va].flags == entry_flags,
            populate_inv(a0, *old(self), start as int, va as int, access_flags),
        ensures
            final(self).wf(),
            final(pool).wf(),
            final(self).consistent(*final(pool)),
            final(self).spec_base() == a0.spec_base(),
            final(self).spec_size() == a0.spec_size(),
            final(self).spec_pt().spec_root() == a0.spec_pt().spec_root(),
            final(self).regions() == a0.regions(),
            p0.same_shape(*final(pool)),
            r is Ok ==> populate_inv(a0, *final(self), start as int, va + PAGE_SIZE, access_flags),
            r is Err ==> populate_inv(a0, *final(self), start as int, va as int, access_flags),
            r is Err ==> r == Err::<(), AxError>(AxError::NoMemory) || r == Err::<(), AxError>(
                AxError::BadAddress,
            ),
            r is Err ==> !write_settled(a0, start as int, end as int, access_flags),
            r == Err::<(), AxError>(AxError::NoMemory) ==> (!covered_range(
                a0.regions(),
                start as int,
                end as int,
            ) || count_free(final(pool).alloc_map()) == 0),
            r == Err::<(), AxError>(AxError::BadAddress) ==> has_populate_hole(
                a0,
                start as int,
                end as int,
            ),
    {
        let ghost self_prev = *self;
        if !entry_flags.write && access_flags.write {
            // eager copy-on-write resolution for a write intention on a
            // read-only shared translation
            if !self.cow_resolve_one(va, pa, region.flags, pool) {
                proof {
                    lemma_sweep_fail(
                        a0,
                        self_prev,
                        *self,
                        start,
                        va,
                        end,
                        access_flags,
                        false,
                        true,
                        region,
                    );
                }
                return Err(AxError::NoMemory);
            }
            proof {
                lemma_sweep_resolved_page(
                    a0,
                    self_prev,
                    *self,
                    start,
                    va,
                    end,
                    access_flags,
                    region,
                );
            }
            Ok(())
        } else {
            proof {
                lemma_sweep_skip_mapped(
                    a0,
                    *self,
                    start,
                    va,
                    end,
                    access_flags,
                    entry_flags,
                    region,
                );
            }
            Ok(())
        }
    }

    /// Resolves an unmapped page of the population sweep.
    #[verifier::rlimit(100)]
    #[verifier::spinoff_prover]
    fn populate_unmapped_page(
        &mut self,
        va: usize,
        access_flags: MappingFlags,
        region: Region,
        populate: bool,
        pool: &mut FramePool,
        Ghost(a0): Ghost<AddrSpace>,
        Ghost(p0): Ghost<FramePool>,
        Ghost(start): Ghost<usize>,
        Ghost(end): Ghost<usize>,
    ) -> (r: AxResult)
        requires
            a0.wf(),
            p0.wf(),
            old(self).wf(),
            old(pool).wf(),
            old(self).consistent(*old(pool)),
            old(self).spec_base() == a0.spec_base(),
            old(self).spec_size() == a0.spec_size(),
            old(self).spec_pt().spec_root() == a0.spec_pt().spec_root(),
            old(self).regions() == a0.regions(),
            p0.same_shape(*old(pool)),
            start <= va < end,
            start % PAGE_SIZE == 0,
            va % PAGE_SIZE == 0,
            va + PAGE_SIZE <= end,
            end <= usize::MAX,
            spec_page_of(va) == va,
            covers(old(self).regions(), va as int),
            region_at(old(self).regions(), va as int) == region,
            in_alloc_region(old(self).regions(), va as int),
            region.backend == (Backend::Alloc { populate, align: region.backend.spec_align() }),
            !old(self).pt_map().contains_key(va),
            populate_inv(a0, *old(self), start as int, va as int, access_flags),
        ensures
            final(self).wf(),
            final(pool).wf(),
            final(self).consistent(*final(pool)),
            final(self).spec_base() == a0.spec_base(),
            final(self).spec_size() == a0.spec_size(),
            final(self).spec_pt().spec_root() == a0.spec_pt().spec_root(),
            final(self).regions() == a0.regions(),
            p0.same_shape(*final(pool)),
            r is Ok ==> populate_inv(a0, *final(self), start as int, va + PAGE_SIZE, access_flags),
            r is Err ==> populate_inv(a0, *final(self), start as int, va as int, access_flags),
            r is Err ==> r == Err::<(), AxError>(AxError::NoMemory) || r == Err::<(), AxError>(
                AxError::BadAddress,
            ),
            r is Err ==> !write_settled(a0, start as int, end as int, access_flags),
            r == Err::<(), AxError>(AxError::NoMemory) ==> (!covered_range(
                a0.regions(),
                start as int,
                end as int,
            ) || count_free(final(pool).alloc_map()) == 0),
            r == Err::<(), AxError>(AxError::BadAddress) ==> has_populate_hole(
                a0,
                start as int,
                end as int,
            ),
    {
        let ghost self_prev = *self;
        let ghost pool_prev = *pool;
        proof {
            lemma_sweep_fail(
                a0,
                self_prev,
                self_prev,
                start,
                va,
                end,
                access_flags,
                false,
                false,
                region,
            );
        }
        if populate {
            proof {
                lemma_populate_inv_unpack(a0, self_prev, start as int, va as int, access_flags);
                assert(has_populate_hole(a0, start as int, end as int)) by {
                    reveal(has_populate_hole);
                    assert(in_alloc_region(a0.regions(), va as int));
                    if a0.pt_map().contains_key(va) {
                        assert(self_prev.pt_map().contains_key(va));
                    }
                }
            }
            return Err(AxError::BadAddress);
        }
        if !self.fresh_resolve_one(va, region.flags, pool) {
            proof {
                lemma_populate_inv_congruence(
                    a0,
                    self_prev,
                    *self,
                    start as int,
                    va as int,
                    access_flags,
                );
            }
            return Err(AxError::NoMemory);
        }
        proof {
            lemma_sweep_resolved_page(
                a0,
                self_prev,
                *self,
                start,
                va,
                end,
                access_flags,
                region,
            );
        }
        Ok(())
    }
}


impl AddrSpace {
    /// Copy-on-write resolution of one page, with only the facts the
    /// population sweep needs.
    #[verifier::rlimit(100)]
    #[verifier::spinoff_prover]
    fn cow_resolve_one(
        &mut self,
        page: usize,
        pa: usize,
        reg_flags: MappingFlags,
        pool: &mut FramePool,
    ) -> (handled: bool)
        requires
            old(self).wf(),
            old(pool).wf(),
            old(self).consistent(*old(pool)),
            page % PAGE_SIZE == 0,
            old(self).pt_map().contains_key(page),
            old(self).pt_map()[page].paddr == pa,
            in_alloc_region(old(self).regions(), page as int),
            region_at(old(self).regions(), page as int).flags == reg_flags,
        ensures
            final(self).wf(),
            final(pool).wf(),
            final(self).consistent(*final(pool)),
            final(self).spec_base() == old(self).spec_base(),
            final(self).spec_size() == old(self).spec_size(),
            final(self).spec_pt().spec_root() == old(self).spec_pt().spec_root(),
            final(self).regions() == old(self).regions(),
            old(pool).same_shape(*final(pool)),
            pt_same_outside(
                old(self).pt_map(),
                final(self).pt_map(),
                page as int,
                page + PAGE_SIZE,
            ),
            handled ==> final(self).pt_map().contains_key(page) && final(self).pt_map()[page].flags
                == reg_flags,
            !handled ==> final(self).pt_map() == old(self).pt_map() && *final(pool) == *old(pool)
                && count_free(final(pool).alloc_map()) == 0,
    {
        proof {
            reveal(AddrSpace::consistent);
            assert(spec_page_of(page) == page) by {
                lemma_fundamental_div_mod(page as int, PAGE_SIZE as int);
            }
        }
        let count = pool.ref_count(pa);
        if count == 1 {
            match self.pt.protect(page, reg_flags) {
                Ok(_) => {},
                Err(_) => {
                    proof {
                        assert(false);
                    }
                    return false;
                },
            }
            proof {
                lemma_consistent_update_page(
                    *old(self),
                    *self,
                    *old(pool),
                    *pool,
                    page,
                    PageEntry { paddr: pa, flags: reg_flags },
                );
            }
            return true;
        }
        let ghost p0 = *pool;
        let new_pa = match pool.alloc_frame(false) {
            Some(new_pa) => new_pa,
            None => {
                return false;
            },
        };
        let ghost p_a = *pool;
        pool.copy_frame(pa, new_pa);
        let ghost p_b = *pool;
        match self.pt.remap(page, new_pa, reg_flags) {
            Ok(_) => {},
            Err(_) => {
                proof {
                    assert(false);
                }
                return false;
            },
        }
        let prev = pool.dec_ref(pa);
        proof {
            lemma_frame_idx(p0.spec_base() as int, p0.num_frames() as int, pa as int);
            lemma_frame_idx(p0.spec_base() as int, p0.num_frames() as int, new_pa as int);
            lemma_frame_idx_injective(
                p0.spec_base() as int,
                p0.num_frames() as int,
                pa as int,
                new_pa as int,
            );
            lemma_consistent_update_page(
                *old(self),
                *self,
                *old(pool),
                *pool,
                page,
                PageEntry { paddr: new_pa, flags: reg_flags },
            );
        }
        true
    }

    /// Lazy population of one page, with only the facts the population
    /// sweep needs.
    #[verifier::rlimit(100)]
    #[verifier::spinoff_prover]
    fn fresh_resolve_one(
        &mut self,
        vaddr: usize,
        reg_flags: MappingFlags,
        pool: &mut FramePool,
    ) -> (handled: bool)
        requires
            old(self).wf(),
            old(pool).wf(),
            old(self).consistent(*old(pool)),
            !old(self).pt_map().contains_key(spec_page_of(vaddr)),
            covers(old(self).regions(), spec_page_of(vaddr) as int),
            region_at(old(self).regions(), spec_page_of(vaddr) as int).flags == reg_flags,
        ensures
            final(self).wf(),
            final(pool).wf(),
            final(self).consistent(*final(pool)),
            final(self).spec_base() == old(self).spec_base(),
            final(self).spec_size() == old(self).spec_size(),
            final(self).spec_pt().spec_root() == old(self).spec_pt().spec_root(),
            final(self).regions() == old(self).regions(),
            old(pool).same_shape(*final(pool)),
            pt_same_outside(
                old(self).pt_map(),
                final(self).pt_map(),
                spec_page_of(vaddr) as int,
                spec_page_of(vaddr) + PAGE_SIZE,
            ),
            handled ==> final(self).pt_map().contains_key(spec_page_of(vaddr))
                && final(self).pt_map()[spec_page_of(vaddr)].flags == reg_flags,
            !handled ==> final(self).pt_map() == old(self).pt_map() && *final(pool) == *old(pool)
                && count_free(final(pool).alloc_map()) == 0,
    {
        self.fault_in_fresh_page(vaddr, reg_flags, pool)
    }
}


/// A page needing no work advances the sweep facts unchanged.
#[verifier::rlimit(100)]
#[verifier::spinoff_prover]
proof fn lemma_populate_skip_page(
    a0: AddrSpace,
    a: AddrSpace,
    start: int,
    va: usize,
    end: int,
    access: MappingFlags,
)
    requires
        a0.wf(),
        a.regions() == a0.regions(),
        start <= va < end,
        va % PAGE_SIZE == 0,
        va + PAGE_SIZE <= usize::MAX + 1,
        covers(a0.regions(), va as int),
        !in_alloc_region(a0.regions(), va as int),
        covered_range(a0.regions(), start, va as int),
        range_fully_mapped(a, start, va as int),
        populate_resolved(a, start, va as int, access),
    ensures
        covered_range(a0.regions(), start, va + PAGE_SIZE),
        range_fully_mapped(a, start, va + PAGE_SIZE),
        populate_resolved(a, start, va + PAGE_SIZE, access),
{
    lemma_covered_extend(a0.regions(), a0.spec_base() as int, a0.spec_end(), start, va);
    lemma_mapped_extend(a, a, start, va);
    lemma_resolved_extend(a, a, start, va, access);
}


/// Bundles the three per-page sweep-advance facts.
#[verifier::rlimit(100)]
#[verifier::spinoff_prover]
proof fn lemma_populate_advance_page(
    a0: AddrSpace,
    a_prev: AddrSpace,
    a_cur: AddrSpace,
    start: int,
    va: usize,
    end: int,
    access: MappingFlags,
)
    requires
        a0.wf(),
        a_cur.regions() == a0.regions(),
        a_prev.regions() == a0.regions(),
        start <= va < end,
        va % PAGE_SIZE == 0,
        va + PAGE_SIZE <= end,
        covers(a0.regions(), va as int),
        pt_same_outside(a0.pt_map(), a_prev.pt_map(), start, end),
        pt_same_outside(a_prev.pt_map(), a_cur.pt_map(), va as int, va + PAGE_SIZE),
        covered_range(a0.regions(), start, va as int),
        range_fully_mapped(a_prev, start, va as int),
        in_alloc_region(a_cur.regions(), va as int) ==> a_cur.pt_map().contains_key(va),
    ensures
        pt_same_outside(a0.pt_map(), a_cur.pt_map(), start, end),
        covered_range(a0.regions(), start, va + PAGE_SIZE),
        range_fully_mapped(a_cur, start, va + PAGE_SIZE),
{
    lemma_pt_same_compose(
        a0.pt_map(),
        a_prev.pt_map(),
        a_cur.pt_map(),
        start,
        end,
        va as int,
        va + PAGE_SIZE,
    );
    lemma_covered_extend(a0.regions(), a0.spec_base() as int, a0.spec_end(), start, va);
    lemma_mapped_extend(a_prev, a_cur, start, va);
}

/// Composition of agreement outside nested windows.
proof fn lemma_pt_same_compose(
    m0: Map<usize, PageEntry>,
    m1: Map<usize, PageEntry>,
    m2: Map<usize, PageEntry>,
    start: int,
    end: int,
    va: int,
    hi: int,
)
    requires
        pt_same_outside(m0, m1, start, end),
        pt_same_outside(m1, m2, va, hi),
        start <= va,
        hi <= end,
    ensures
        pt_same_outside(m0, m2, start, end),
{
}

/// One more covered page extends a covered prefix.
#[verifier::rlimit(100)]
#[verifier::spinoff_prover]
proof fn lemma_covered_extend(rs: Seq<Region>, b: int, e: int, start: int, va: usize)
    requires
        regions_wf(rs, b, e),
        covered_range(rs, start, va as int),
        covers(rs, va as int),
        va % PAGE_SIZE == 0,
        start <= va,
        va + PAGE_SIZE <= usize::MAX + 1,
    ensures
        covered_range(rs, start, va + PAGE_SIZE),
{
    reveal(covered_range);
    assert forall|a: int| start <= a < va + PAGE_SIZE implies #[trigger] covers(rs, a) by {
        if a >= va {
            let i = region_index_of(rs, va as int);
            lemma_page_of_region(rs, i, va, b, e);
            assert(rs[i].contains(a));
        }
    }
}

/// One more resolved page extends a resolved prefix.
#[verifier::rlimit(100)]
#[verifier::spinoff_prover]
proof fn lemma_resolved_extend(
    a_prev: AddrSpace,
    a_cur: AddrSpace,
    start: int,
    va: usize,
    access: MappingFlags,
)
    requires
        a_cur.regions() == a_prev.regions(),
        populate_resolved(a_prev, start, va as int, access),
        pt_same_outside(a_prev.pt_map(), a_cur.pt_map(), va as int, va + PAGE_SIZE),
        va % PAGE_SIZE == 0,
        start <= va,
        in_alloc_region(a_cur.regions(), va as int) ==> a_cur.pt_map().contains_key(va) && (
        access.write && region_at(a_cur.regions(), va as int).flags.write
            ==> a_cur.pt_map()[va].flags.write),
    ensures
        populate_resolved(a_cur, start, va + PAGE_SIZE, access),
{
    reveal(populate_resolved);
    assert forall|k: usize|
        start <= k < va + PAGE_SIZE && k % PAGE_SIZE == 0 && in_alloc_region(
            a_cur.regions(),
            k as int,
        ) implies (#[trigger] a_cur.pt_map().contains_key(k)) && (access.write && region_at(
        a_cur.regions(),
        k as int,
    ).flags.write ==> a_cur.pt_map()[k].flags.write) by {
        if k < va {
            lemma_aligned_below(k, va);
            let ghost c1 = a_prev.pt_map().contains_key(k);
            let ghost c2 = a_cur.pt_map().contains_key(k);
            assert(in_alloc_region(a_prev.regions(), k as int));
            assert(a_prev.pt_map().contains_key(k) && (access.write && region_at(
                a_prev.regions(),
                k as int,
            ).flags.write ==> a_prev.pt_map()[k].flags.write));
            assert(a_cur.pt_map()[k] == a_prev.pt_map()[k]);
        } else {
            lemma_aligned_is_va(k, va);
        }
    }
}

/// Every page of an allocation region within `[start, end)` is translated,
/// and writably so whenever the access writes: the state in which a
/// population sweep with this access cannot fail.
#[verifier::opaque]
pub open spec fn write_settled(a: AddrSpace, start: int, end: int, access: MappingFlags) -> bool {
    forall|k: usize|
        start <= k < end && k % PAGE_SIZE == 0 && in_alloc_region(a.regions(), k as int) ==> (
        #[trigger] a.pt_map().contains_key(k)) && (access.write ==> a.pt_map()[k].flags.write)
}

/// An unsettled page refutes a settled range.
#[verifier::rlimit(100)]
proof fn lemma_not_settled(a: AddrSpace, start: int, end: int, access: MappingFlags, va: usize)
    requires
        start <= va < end,
        va % PAGE_SIZE == 0,
        in_alloc_region(a.regions(), va as int),
        !a.pt_map().contains_key(va) || (access.write && a.pt_map().contains_key(va)
            && !a.pt_map()[va].flags.write),
    ensures
        !write_settled(a, start, end, access),
{
    reveal(write_settled);
    let ghost c = a.pt_map().contains_key(va);
    if write_settled(a, start, end, access) {
        assert(a.pt_map().contains_key(va));
    }
}

/// One more mapped page extends a fully mapped prefix.
#[verifier::rlimit(100)]
#[verifier::spinoff_prover]
proof fn lemma_mapped_extend(a_prev: AddrSpace, a_cur: AddrSpace, start: int, va: usize)
    requires
        a_cur.regions() == a_prev.regions(),
        range_fully_mapped(a_prev, start, va as int),
        pt_same_outside(a_prev.pt_map(), a_cur.pt_map(), va as int, va + PAGE_SIZE),
        va % PAGE_SIZE == 0,
        start <= va,
        in_alloc_region(a_cur.regions(), va as int) ==> a_cur.pt_map().contains_key(va),
    ensures
        range_fully_mapped(a_cur, start, va + PAGE_SIZE),
{
    reveal(range_fully_mapped);
    assert forall|k: usize|
        start <= k < va + PAGE_SIZE && k % PAGE_SIZE == 0 && in_alloc_region(
            a_cur.regions(),
            k as int,
        ) implies #[trigger] a_cur.pt_map().contains_key(k) by {
        if k < va {
            lemma_aligned_below(k, va);
            let ghost c1 = a_prev.pt_map().contains_key(k);
            let ghost c2 = a_cur.pt_map().contains_key(k);
            assert(in_alloc_region(a_prev.regions(), k as int));
            assert(a_prev.pt_map().contains_key(k));
            assert(a_cur.pt_map()[k] == a_prev.pt_map()[k]);
        } else {
            lemma_aligned_is_va(k, va);
        }
    }
}

/// An aligned page below another aligned page ends at or before it.
proof fn lemma_aligned_below(k: usize, va: usize)
    requires
        k % PAGE_SIZE == 0,
        va % PAGE_SIZE == 0,
        k < va,
    ensures
        k + PAGE_SIZE <= va,
{
    lemma_mod_sub_zero(va as int, k as int, PAGE_SIZE as int);
    lemma_pos_multiple_ge(va - k, PAGE_SIZE as int);
}

/// An aligned page within one page of an aligned address is that address.
proof fn lemma_aligned_is_va(k: usize, va: usize)
    requires
        k % PAGE_SIZE == 0,
        va % PAGE_SIZE == 0,
        va <= k < va + PAGE_SIZE,
    ensures
        k == va,
{
    if k != va {
        lemma_mod_sub_zero(k as int, va as int, PAGE_SIZE as int);
        lemma_pos_multiple_ge(k - va, PAGE_SIZE as int);
    }
}

















































/// A flag-rewritten piece of a source region: same backend and contained
/// range; inside `[start, end)` it carries `f`, outside it keeps the
/// source's flags.
pub open spec fn piece_flagged(
    p: Region,
    r: Region,
    start: int,
    end: int,
    f: MappingFlags,
) -> bool {
    &&& p.backend == r.backend
    &&& r.start <= p.start
    &&& p.spec_end() <= r.spec_end()
    &&& ((p.flags == f && start <= p.start && p.spec_end() <= end) || (p.flags == r.flags && (
    p.spec_end() <= start || p.start >= end)))
}

/// Whether `p` is a flag-rewritten piece of one of the first `i` regions.
pub open spec fn has_flagged_source(
    p: Region,
    rs: Seq<Region>,
    i: int,
    start: int,
    end: int,
    f: MappingFlags,
) -> bool {
    exists|j: int| 0 <= j < i && #[trigger] piece_flagged(p, rs[j], start, end, f)
}


/// The running state of a flag-rewrite sweep over `[start, va)`.
#[verifier::opaque]
pub open spec fn protect_inv(
    a0: AddrSpace,
    a: AddrSpace,
    start: int,
    va: int,
    flags: MappingFlags,
) -> bool {
    &&& a.wf()
    &&& a.spec_base() == a0.spec_base()
    &&& a.spec_size() == a0.spec_size()
    &&& a.spec_pt().spec_root() == a0.spec_pt().spec_root()
    &&& a.regions() == a0.regions()
    &&& pt_same_outside(a0.pt_map(), a.pt_map(), start, va)
    &&& forall|k: usize|
        start <= k < va ==> ((#[trigger] a.pt_map().contains_key(k)) == a0.pt_map().contains_key(
            k,
        ) && (a0.pt_map().contains_key(k) ==> a.pt_map()[k].paddr == a0.pt_map()[k].paddr
            && a.pt_map()[k].flags == flags))
    &&& forall|p: FramePool| a0.consistent(p) ==> #[trigger] a.consistent(p)
}

impl AddrSpace {
    /// Rewrites the flags of every translated page of `[start, end)`.
    #[verifier::rlimit(100)]
    #[verifier::spinoff_prover]
    fn protect_pages(&mut self, start: usize, end: usize, flags: MappingFlags)
        requires
            old(self).wf(),
            start % PAGE_SIZE == 0,
            end % PAGE_SIZE == 0,
            start <= end,
        ensures
            final(self).wf(),
            final(self).spec_base() == old(self).spec_base(),
            final(self).spec_size() == old(self).spec_size(),
            final(self).spec_pt().spec_root() == old(self).spec_pt().spec_root(),
            final(self).regions() == old(self).regions(),
            pt_same_outside(old(self).pt_map(), final(self).pt_map(), start as int, end as int),
            forall|k: usize|
                start <= k < end ==> ((#[trigger] final(self).pt_map().contains_key(k))
                    == old(self).pt_map().contains_key(k) && (old(self).pt_map().contains_key(k)
                    ==> final(self).pt_map()[k].paddr == old(self).pt_map()[k].paddr
                    && final(self).pt_map()[k].flags == flags)),
            forall|p: FramePool| old(self).consistent(p) ==> #[trigger] final(self).consistent(p),
    {
        let ghost a0 = *old(self);
        proof {
            lemma_protect_inv_pack(a0, *self, start as int, start as int, flags);
        }
        let mut va = start;
        while va < end
            invariant
                a0 == *old(self),
                a0.wf(),
                start <= va <= end,
                start % PAGE_SIZE == 0,
                va % PAGE_SIZE == 0,
                end % PAGE_SIZE == 0,
                end <= usize::MAX,
                protect_inv(a0, *self, start as int, va as int, flags),
            decreases end - va,
        {
            proof {
                lemma_mod_sub_zero(end as int, va as int, PAGE_SIZE as int);
                lemma_pos_multiple_ge(end - va, PAGE_SIZE as int);
            }
            self.protect_one(va, flags, Ghost(a0), Ghost(start), Ghost(end));
            va = va + PAGE_SIZE;
            proof {
                lemma_mod_add_zero((va - PAGE_SIZE) as int, PAGE_SIZE as int, PAGE_SIZE as int);
            }
        }
        proof {
            lemma_protect_inv_unpack(a0, *self, start as int, end as int, flags);
        }
    }

    /// Rewrites the flags of the single translated page at `va`.
    #[verifier::rlimit(100)]
    #[verifier::spinoff_prover]
    fn protect_one(
        &mut self,
        va: usize,
        flags: MappingFlags,
        Ghost(a0): Ghost<AddrSpace>,
        Ghost(start): Ghost<usize>,
        Ghost(end): Ghost<usize>,
    )
        requires
            a0.wf(),
            start <= va < end,
            start % PAGE_SIZE == 0,
            va % PAGE_SIZE == 0,
            va + PAGE_SIZE <= end,
            end <= usize::MAX,
            protect_inv(a0, *old(self), start as int, va as int, flags),
        ensures
            protect_inv(a0, *final(self), start as int, va + PAGE_SIZE, flags),
    {
        proof {
            lemma_protect_inv_unpack(a0, *old(self), start as int, va as int, flags);
            assert(spec_page_of(va) == va) by {
                lemma_fundamental_div_mod(va as int, PAGE_SIZE as int);
            }
        }
            let ghost prev = *self;
            let r = self.pt.protect(va, flags);
            proof {
                if r is Err {
                    assert(self.pt_map() =~= prev.pt_map());
                }
                lemma_protect_one_post(a0, prev, *self, start as int, va, flags);
            }
    }

    /// Updates mapping flags within the specified virtual address range:
    /// ensures the range is fully mapped (as [`Self::populate_area`] does),
    /// then rewrites the flags of every translated page of the range and of
    /// every region part inside it, splitting regions at the boundaries.
    ///
    /// Errors are those of [`Self::populate_area`]; nothing of the rewrite
    /// happens on an error. Invoking `protect` twice with identical flags
    /// leaves region and page flags unchanged.
    #[verifier::rlimit(100)]
    #[verifier::spinoff_prover]
    pub fn protect(
        &mut self,
        start: usize,
        size: usize,
        flags: MappingFlags,
        pool: &mut FramePool,
    ) -> (r: AxResult)
        requires
            old(self).wf(),
            old(pool).wf(),
            old(self).consistent(*old(pool)),
        ensures
            final(self).wf(),
            final(pool).wf(),
            final(self).consistent(*final(pool)),
            final(self).spec_base() == old(self).spec_base(),
            final(self).spec_size() == old(self).spec_size(),
            final(self).spec_pt().spec_root() == old(self).spec_pt().spec_root(),
            old(pool).same_shape(*final(pool)),
            r == Err::<(), AxError>(AxError::InvalidInput) <==> !old(self).valid_range(
                start as int,
                size as int,
                PAGE_SIZE as int,
            ),
            r == Err::<(), AxError>(AxError::InvalidInput) ==> *final(self) == *old(self)
                && *final(pool) == *old(pool),
            r == Err::<(), AxError>(AxError::NoMemory) ==> (!covered_range(
                old(self).regions(),
                start as int,
                start + size,
            ) || count_free(final(pool).alloc_map()) == 0),
            r == Err::<(), AxError>(AxError::BadAddress) ==> has_populate_hole(
                *old(self),
                start as int,
                start + size,
            ),
            r is Err ==> r == Err::<(), AxError>(AxError::InvalidInput) || r == Err::<(), AxError>(
                AxError::NoMemory,
            ) || r == Err::<(), AxError>(AxError::BadAddress),
            r is Err ==> final(self).regions() == old(self).regions(),
            (old(self).valid_range(start as int, size as int, PAGE_SIZE as int) && covered_range(
                old(self).regions(),
                start as int,
                start + size,
            ) && write_settled(*old(self), start as int, start + size, flags)) ==> r is Ok,
            r is Ok ==> covered_range(final(self).regions(), start as int, start + size)
                && write_settled(*final(self), start as int, start + size, flags),
            r is Ok ==> ({
                let endv = start + size;
                &&& covered_range(old(self).regions(), start as int, endv)
                &&& range_fully_mapped(*final(self), start as int, endv)
                &&& pt_same_outside(old(self).pt_map(), final(self).pt_map(), start as int, endv)
                &&& forall|k: usize|
                    start <= k < endv && (#[trigger] final(self).pt_map().contains_key(k))
                        ==> final(self).pt_map()[k].flags == flags
                &&& forall|a: int|
                    #[trigger] covers(final(self).regions(), a) <==> covers(
                        old(self).regions(),
                        a,
                    )
                &&& forall|a: int|
                    #[trigger] covers(final(self).regions(), a) && start <= a < endv ==> region_at(
                        final(self).regions(),
                        a,
                    ).flags == flags && region_at(final(self).regions(), a).backend == region_at(
                        old(self).regions(),
                        a,
                    ).backend
                &&& forall|a: int|
                    #[trigger] covers(final(self).regions(), a) && !(start <= a < endv)
                        ==> region_at(final(self).regions(), a).flags == region_at(
                        old(self).regions(),
                        a,
                    ).flags && region_at(final(self).regions(), a).backend == region_at(
                        old(self).regions(),
                        a,
                    ).backend
            }),
    {
        let r = self.populate_area(start, size, flags, pool);
        if r.is_err() {
            return r;
        }
        proof {
            assert(start + size <= usize::MAX);
        }
        self.finish_protect(start, size, flags, Ghost(*old(self)), Ghost(*pool));
        proof {
            lemma_covered_transfer(
                old(self).regions(),
                self.regions(),
                start as int,
                start + size,
            );
            lemma_protect_resolved(*self, start as int, start + size, flags);
        }
        Ok(())
    }

    /// The committing step of [`Self::protect`], after population: rewrites
    /// the flags of the range's pages and region parts.
    #[verifier::rlimit(100)]
    #[verifier::spinoff_prover]
    fn finish_protect(
        &mut self,
        start: usize,
        size: usize,
        flags: MappingFlags,
        Ghost(a0): Ghost<AddrSpace>,
        Ghost(p): Ghost<FramePool>,
    )
        requires
            old(self).wf(),
            old(self).consistent(p),
            a0.valid_range(start as int, size as int, PAGE_SIZE as int),
            start + size <= usize::MAX,
            old(self).spec_base() == a0.spec_base(),
            old(self).spec_size() == a0.spec_size(),
            old(self).regions() == a0.regions(),
            covered_range(a0.regions(), start as int, start + size),
            range_fully_mapped(*old(self), start as int, start + size),
            pt_same_outside(a0.pt_map(), old(self).pt_map(), start as int, start + size),
        ensures
            final(self).wf(),
            final(self).consistent(p),
            final(self).spec_base() == old(self).spec_base(),
            final(self).spec_size() == old(self).spec_size(),
            final(self).spec_pt().spec_root() == old(self).spec_pt().spec_root(),
            ({
                let endv = start + size;
                &&& range_fully_mapped(*final(self), start as int, endv)
                &&& pt_same_outside(a0.pt_map(), final(self).pt_map(), start as int, endv)
                &&& forall|k: usize|
                    start <= k < endv && (#[trigger] final(self).pt_map().contains_key(k))
                        ==> final(self).pt_map()[k].flags == flags
                &&& forall|a: int|
                    #[trigger] covers(final(self).regions(), a) <==> covers(a0.regions(), a)
                &&& forall|a: int|
                    #[trigger] covers(final(self).regions(), a) && start <= a < endv ==> region_at(
                        final(self).regions(),
                        a,
                    ).flags == flags && region_at(final(self).regions(), a).backend == region_at(
                        a0.regions(),
                        a,
                    ).backend
                &&& forall|a: int|
                    #[trigger] covers(final(self).regions(), a) && !(start <= a < endv)
                        ==> region_at(final(self).regions(), a).flags == region_at(
                        a0.regions(),
                        a,
                    ).flags && region_at(final(self).regions(), a).backend == region_at(
                        a0.regions(),
                        a,
                    ).backend
            }),
    {
        proof {
            lemma_mod_multiple_chain(start as int, PAGE_SIZE as int, PAGE_SIZE as int);
            lemma_mod_add_zero(start as int, size as int, PAGE_SIZE as int);
            assert(start % PAGE_SIZE == 0) by {
                lemma_mod_multiple_chain(start as int, PAGE_SIZE as int, PAGE_SIZE as int);
            }
        }
        let end = start + size;
        let ghost mid = *self;
        self.protect_pages(start, end, flags);
        proof {
            lemma_protect_flags_glue(mid, *self, start as int, end as int, flags);
            lemma_pt_same_compose(
                a0.pt_map(),
                mid.pt_map(),
                self.pt_map(),
                start as int,
                end as int,
                start as int,
                end as int,
            );
            assert forall|p2: FramePool| mid.consistent(p2) implies #[trigger] self.consistent(
                p2,
            ) by {
            }
        }
        let ghost mid2 = *self;
        self.set_region_flags(start, end, flags);
        proof {
            lemma_protect_region_glue(mid2, *self, start as int, end as int, flags);
        }
    }
}


/// After the page rewrite: every translated page of the range carries the
/// new flags, and population is preserved.
#[verifier::rlimit(100)]
#[verifier::spinoff_prover]
proof fn lemma_protect_flags_glue(
    mid: AddrSpace,
    cur: AddrSpace,
    start: int,
    end: int,
    flags: MappingFlags,
)
    requires
        range_fully_mapped(mid, start, end),
        cur.regions() == mid.regions(),
        forall|k: usize|
            start <= k < end ==> ((#[trigger] cur.pt_map().contains_key(k)) == mid.pt_map(
            ).contains_key(k) && (mid.pt_map().contains_key(k) ==> cur.pt_map()[k].paddr
                == mid.pt_map()[k].paddr && cur.pt_map()[k].flags == flags)),
    ensures
        forall|k: usize|
            start <= k < end && (#[trigger] cur.pt_map().contains_key(k)) ==> cur.pt_map(
            )[k].flags == flags,
        range_fully_mapped(cur, start, end),
{
    reveal(range_fully_mapped);
    assert forall|k: usize|
        start <= k < end && k % PAGE_SIZE == 0 && in_alloc_region(
            cur.regions(),
            k as int,
        ) implies #[trigger] cur.pt_map().contains_key(k) by {
        assert(mid.pt_map().contains_key(k));
    }
}

/// After the region rewrite: population is preserved.
#[verifier::rlimit(100)]
#[verifier::spinoff_prover]
proof fn lemma_protect_region_glue(
    mid: AddrSpace,
    cur: AddrSpace,
    start: int,
    end: int,
    flags: MappingFlags,
)
    requires
        range_fully_mapped(mid, start, end),
        cur.pt_map() == mid.pt_map(),
        forall|a: int| #[trigger] covers(cur.regions(), a) <==> covers(mid.regions(), a),
        forall|a: int|
            #[trigger] covers(cur.regions(), a) && start <= a < end ==> region_at(
                cur.regions(),
                a,
            ).backend == region_at(mid.regions(), a).backend,
        forall|a: int|
            #[trigger] covers(cur.regions(), a) && !(start <= a < end) ==> region_at(
                cur.regions(),
                a,
            ).backend == region_at(mid.regions(), a).backend,
    ensures
        range_fully_mapped(cur, start, end),
{
    reveal(range_fully_mapped);
    assert forall|k: usize|
        start <= k < end && k % PAGE_SIZE == 0 && in_alloc_region(
            cur.regions(),
            k as int,
        ) implies #[trigger] cur.pt_map().contains_key(k) by {
        assert(covers(mid.regions(), k as int));
        assert(in_alloc_region(mid.regions(), k as int));
        assert(mid.pt_map().contains_key(k));
    }
}


/// Unfolds [`protect_inv`].
#[verifier::rlimit(100)]
proof fn lemma_protect_inv_unpack(
    a0: AddrSpace,
    a: AddrSpace,
    start: int,
    va: int,
    flags: MappingFlags,
)
    requires
        protect_inv(a0, a, start, va, flags),
    ensures
        a.wf(),
        a.spec_base() == a0.spec_base(),
        a.spec_size() == a0.spec_size(),
        a.spec_pt().spec_root() == a0.spec_pt().spec_root(),
        a.regions() == a0.regions(),
        pt_same_outside(a0.pt_map(), a.pt_map(), start, va),
        forall|k: usize|
            start <= k < va ==> ((#[trigger] a.pt_map().contains_key(k)) == a0.pt_map(
            ).contains_key(k) && (a0.pt_map().contains_key(k) ==> a.pt_map()[k].paddr == a0.pt_map(
            )[k].paddr && a.pt_map()[k].flags == flags)),
        forall|p: FramePool| a0.consistent(p) ==> #[trigger] a.consistent(p),
{
    reveal(protect_inv);
}

/// Folds [`protect_inv`].
#[verifier::rlimit(100)]
proof fn lemma_protect_inv_pack(
    a0: AddrSpace,
    a: AddrSpace,
    start: int,
    va: int,
    flags: MappingFlags,
)
    requires
        a.wf(),
        a.spec_base() == a0.spec_base(),
        a.spec_size() == a0.spec_size(),
        a.spec_pt().spec_root() == a0.spec_pt().spec_root(),
        a.regions() == a0.regions(),
        pt_same_outside(a0.pt_map(), a.pt_map(), start, va),
        forall|k: usize|
            start <= k < va ==> ((#[trigger] a.pt_map().contains_key(k)) == a0.pt_map(
            ).contains_key(k) && (a0.pt_map().contains_key(k) ==> a.pt_map()[k].paddr == a0.pt_map(
            )[k].paddr && a.pt_map()[k].flags == flags)),
        forall|p: FramePool| a0.consistent(p) ==> #[trigger] a.consistent(p),
    ensures
        protect_inv(a0, a, start, va, flags),
{
    reveal(protect_inv);
}


/// One page's flag rewrite advances the sweep state.
#[verifier::rlimit(100)]
#[verifier::spinoff_prover]
proof fn lemma_protect_one_post(
    a0: AddrSpace,
    prev: AddrSpace,
    cur: AddrSpace,
    start: int,
    va: usize,
    flags: MappingFlags,
)
    requires
        a0.wf(),
        start <= va,
        start % (PAGE_SIZE as int) == 0,
        va % PAGE_SIZE == 0,
        va + PAGE_SIZE <= usize::MAX + 1,
        protect_inv(a0, prev, start, va as int, flags),
        cur.regions() == prev.regions(),
        cur.spec_base() == prev.spec_base(),
        cur.spec_size() == prev.spec_size(),
        cur.spec_pt().spec_root() == prev.spec_pt().spec_root(),
        cur.spec_pt().wf(),
        (cur.pt_map() == prev.pt_map() && !prev.pt_map().contains_key(va)) || (
        prev.pt_map().contains_key(va) && cur.pt_map() == prev.pt_map().insert(
            va,
            PageEntry { paddr: prev.pt_map()[va].paddr, flags },
        )),
    ensures
        protect_inv(a0, cur, start, va + PAGE_SIZE, flags),
{
    lemma_protect_inv_unpack(a0, prev, start, va as int, flags);
    assert forall|k: usize|
        !(start <= k < va + PAGE_SIZE) implies ((#[trigger] cur.pt_map().contains_key(k))
        == a0.pt_map().contains_key(k) && (a0.pt_map().contains_key(k) ==> cur.pt_map()[k]
        == a0.pt_map()[k])) by {
        assert(k != va);
        assert(prev.pt_map().contains_key(k) == a0.pt_map().contains_key(k));
        assert(a0.pt_map().contains_key(k) ==> prev.pt_map()[k] == a0.pt_map()[k]);
    }
    assert forall|k: usize|
        start <= k < va + PAGE_SIZE implies ((#[trigger] cur.pt_map().contains_key(k))
        == a0.pt_map().contains_key(k) && (a0.pt_map().contains_key(k) ==> cur.pt_map()[k].paddr
        == a0.pt_map()[k].paddr && cur.pt_map()[k].flags == flags)) by {
        if k < va {
            assert(prev.pt_map().contains_key(k) == a0.pt_map().contains_key(k));
        } else if k != va {
            lemma_protect_gap(a0, prev, va, k);
            assert(prev.pt_map().contains_key(k) == a0.pt_map().contains_key(k));
        } else {
            assert(prev.pt_map().contains_key(va) == a0.pt_map().contains_key(va));
            assert(a0.pt_map().contains_key(va) ==> prev.pt_map()[va] == a0.pt_map()[va]);
        }
    }
    assert forall|p: FramePool| a0.consistent(p) implies #[trigger] cur.consistent(p) by {
        lemma_consistent_same_paddrs(prev, cur, p);
    }
    assert(cur.wf()) by {
        assert forall|k: usize| #[trigger] cur.pt_map().contains_key(k) implies covers(
            cur.regions(),
            k as int,
        ) by {
            if k != va {
                assert(prev.pt_map().contains_key(k));
            } else {
                assert(prev.pt_map().contains_key(va));
            }
        }
    }
    lemma_protect_inv_pack(a0, cur, start, va + PAGE_SIZE, flags);
}


/// Coverage of a range transfers across a coverage-preserving rewrite.
#[verifier::rlimit(100)]
proof fn lemma_covered_transfer(rs0: Seq<Region>, rs1: Seq<Region>, start: int, end: int)
    requires
        covered_range(rs0, start, end),
        forall|a: int| #[trigger] covers(rs1, a) <==> covers(rs0, a),
    ensures
        covered_range(rs1, start, end),
{
    reveal(covered_range);
}

/// A fully mapped range whose pages all carry `f` is write-settled for an
/// access of `f`.
#[verifier::rlimit(100)]
#[verifier::spinoff_prover]
proof fn lemma_protect_resolved(a: AddrSpace, start: int, end: int, f: MappingFlags)
    requires
        range_fully_mapped(a, start, end),
        forall|k: usize|
            start <= k < end && (#[trigger] a.pt_map().contains_key(k)) ==> a.pt_map()[k].flags
                == f,
    ensures
        write_settled(a, start, end, f),
{
    reveal(write_settled);
    reveal(range_fully_mapped);
    assert forall|k: usize|
        start <= k < end && k % PAGE_SIZE == 0 && in_alloc_region(a.regions(), k as int) implies (
    #[trigger] a.pt_map().contains_key(k)) && (f.write ==> a.pt_map()[k].flags.write) by {
        assert(a.pt_map().contains_key(k));
    }
}

/// A page between two page boundaries with a translation must sit on the
/// lower boundary.
proof fn lemma_protect_gap(a0: AddrSpace, prev: AddrSpace, va: usize, k: usize)
    requires
        a0.wf(),
        va % PAGE_SIZE == 0,
        va < k < va + PAGE_SIZE,
        prev.pt_map().contains_key(k) == a0.pt_map().contains_key(k),
    ensures
        !prev.pt_map().contains_key(k),
{
    if a0.pt_map().contains_key(k) {
        assert(a0.spec_pt().wf());
        assert(k % PAGE_SIZE == 0);
        lemma_mod_sub_zero(k as int, va as int, PAGE_SIZE as int);
        lemma_pos_multiple_ge(k - va, PAGE_SIZE as int);
    }
}

/// Consistency is insensitive to translation flags.
#[verifier::rlimit(100)]
proof fn lemma_consistent_same_paddrs(c0: AddrSpace, c1: AddrSpace, p: FramePool)
    requires
        c0.consistent(p),
        c1.regions() == c0.regions(),
        forall|k: usize|
            (#[trigger] c1.pt_map().contains_key(k)) == c0.pt_map().contains_key(k),
        forall|k: usize|
            #[trigger] c0.pt_map().contains_key(k) ==> c1.pt_map()[k].paddr == c0.pt_map(
            )[k].paddr,
    ensures
        c1.consistent(p),
{
    reveal(AddrSpace::consistent);
    assert forall|k: usize|
        #[trigger] c1.pt_map().contains_key(k) && in_alloc_region(c1.regions(), k as int) implies {
        &&& p.in_range(c1.pt_map()[k].paddr as int)
        &&& p.is_allocated(c1.pt_map()[k].paddr as int)
        &&& p.count_of(c1.pt_map()[k].paddr as int) >= 1
    } by {
        assert(c0.pt_map().contains_key(k));
    }
    assert forall|k1: usize, k2: usize|
        #![trigger c1.pt_map()[k1], c1.pt_map()[k2]]
        c1.pt_map().contains_key(k1) && c1.pt_map().contains_key(k2) && in_alloc_region(
            c1.regions(),
            k1 as int,
        ) && in_alloc_region(c1.regions(), k2 as int) && k1 != k2 implies c1.pt_map()[k1].paddr
        != c1.pt_map()[k2].paddr by {
        assert(c0.pt_map().contains_key(k1) && c0.pt_map().contains_key(k2));
        let ghost e1 = c0.pt_map()[k1];
        let ghost e2 = c0.pt_map()[k2];
    }
}


impl AddrSpace {
    /// Rewrites the flags of every region part inside `[start, end)` to
    /// `flags`, splitting regions at the boundaries; coverage, backends, and
    /// flags outside the range are preserved. The page table is untouched.
    #[verifier::rlimit(100)]
    #[verifier::spinoff_prover]
    fn set_region_flags(&mut self, start: usize, end: usize, flags: MappingFlags)
        requires
            old(self).wf(),
            start % PAGE_SIZE == 0,
            end % PAGE_SIZE == 0,
            start <= end,
        ensures
            final(self).wf(),
            final(self).spec_base() == old(self).spec_base(),
            final(self).spec_size() == old(self).spec_size(),
            final(self).spec_pt() == old(self).spec_pt(),
            forall|a: int|
                #[trigger] covers(final(self).regions(), a) <==> covers(old(self).regions(), a),
            forall|a: int|
                #[trigger] covers(final(self).regions(), a) && start <= a < end ==> region_at(
                    final(self).regions(),
                    a,
                ).flags == flags && region_at(final(self).regions(), a).backend == region_at(
                    old(self).regions(),
                    a,
                ).backend,
            forall|a: int|
                #[trigger] covers(final(self).regions(), a) && !(start <= a < end) ==> region_at(
                    final(self).regions(),
                    a,
                ).flags == region_at(old(self).regions(), a).flags && region_at(
                    final(self).regions(),
                    a,
                ).backend == region_at(old(self).regions(), a).backend,
            forall|p: FramePool| old(self).consistent(p) ==> #[trigger] final(self).consistent(p),
    {
        if end <= start {
            return ;
        }
        let ghost rs = self.regions();
        let ghost b = self.spec_base() as int;
        let ghost e = self.spec_end();
        let n = self.regions.len();
        let mut out: Vec<Region> = Vec::new();
        let mut i: usize = 0;
        while i < n
            invariant
                self.wf(),
                rs == self.regions(),
                b == self.spec_base() as int,
                e == self.spec_end(),
                n == rs.len(),
                i <= n,
                start < end,
                start % PAGE_SIZE == 0,
                end % PAGE_SIZE == 0,
                regions_wf(out@, b, e),
                forall|l: int|
                    0 <= l < out@.len() ==> #[trigger] has_flagged_source(
                        out@[l],
                        rs,
                        i as int,
                        start as int,
                        end as int,
                        flags,
                    ),
                i < n ==> forall|l: int|
                    0 <= l < out@.len() ==> (#[trigger] out@[l]).spec_end() <= rs[i as int].start,
                forall|a: int|
                    #[trigger] covers(out@, a) ==> prefix_covers(rs, i as int, a),
                forall|a: int|
                    #[trigger] prefix_covers(rs, i as int, a) ==> covers(out@, a),
            decreases n - i,
        {
            let region = self.regions[i];
            let ghost out_before = out@;
            if region.end() <= start || region.start >= end {
                out.push(region);
            } else {
                if region.start < start {
                    out.push(
                        Region {
                            start: region.start,
                            size: start - region.start,
                            flags: region.flags,
                            backend: region.backend,
                        },
                    );
                }
                let lo = if region.start >= start {
                    region.start
                } else {
                    start
                };
                let hi = if region.end() <= end {
                    region.end()
                } else {
                    end
                };
                out.push(Region { start: lo, size: hi - lo, flags, backend: region.backend });
                if region.end() > end {
                    out.push(
                        Region {
                            start: end,
                            size: region.end() - end,
                            flags: region.flags,
                            backend: region.backend,
                        },
                    );
                }
            }
            proof {
                lemma_flag_extend(
                    rs,
                    b,
                    e,
                    i as int,
                    out_before,
                    out@,
                    start as int,
                    end as int,
                    flags,
                );
            }
            i = i + 1;
        }
        self.regions = out;
        proof {
            lemma_flag_finish(rs, b, e, self.regions(), start as int, end as int, flags);
            assert forall|k: usize| #[trigger] self.pt_map().contains_key(k) implies covers(
                self.regions(),
                k as int,
            ) by {
                assert(old(self).pt_map().contains_key(k));
                assert(covers(rs, k as int));
            }
            assert forall|p: FramePool| old(self).consistent(p) implies #[trigger] final(self)
                .consistent(p) by {
                lemma_consistent_same_alloc(*old(self), *self, p);
            }
        }
    }
}

/// Consistency is insensitive to a region rewrite that keeps coverage and
/// each address's backend.
#[verifier::rlimit(100)]
proof fn lemma_consistent_same_alloc(c0: AddrSpace, c1: AddrSpace, p: FramePool)
    requires
        c0.consistent(p),
        c1.pt_map() == c0.pt_map(),
        forall|a: int| #[trigger] covers(c1.regions(), a) <==> covers(c0.regions(), a),
        forall|a: int|
            #[trigger] covers(c1.regions(), a) ==> region_at(c1.regions(), a).backend == region_at(
                c0.regions(),
                a,
            ).backend,
    ensures
        c1.consistent(p),
{
    reveal(AddrSpace::consistent);
    assert forall|k: usize|
        #[trigger] c1.pt_map().contains_key(k) && in_alloc_region(c1.regions(), k as int) implies {
        &&& p.in_range(c1.pt_map()[k].paddr as int)
        &&& p.is_allocated(c1.pt_map()[k].paddr as int)
        &&& p.count_of(c1.pt_map()[k].paddr as int) >= 1
    } by {
        assert(covers(c0.regions(), k as int));
        assert(in_alloc_region(c0.regions(), k as int));
    }
    assert forall|k1: usize, k2: usize|
        #![trigger c1.pt_map()[k1], c1.pt_map()[k2]]
        c1.pt_map().contains_key(k1) && c1.pt_map().contains_key(k2) && in_alloc_region(
            c1.regions(),
            k1 as int,
        ) && in_alloc_region(c1.regions(), k2 as int) && k1 != k2 implies c1.pt_map()[k1].paddr
        != c1.pt_map()[k2].paddr by {
        assert(in_alloc_region(c0.regions(), k1 as int));
        assert(in_alloc_region(c0.regions(), k2 as int));
    }
}

/// Processing one region extends the flag-rewrite loop facts.
#[verifier::rlimit(100)]
#[verifier::spinoff_prover]
proof fn lemma_flag_extend(
    rs: Seq<Region>,
    b: int,
    e: int,
    i: int,
    before: Seq<Region>,
    after: Seq<Region>,
    start: int,
    end: int,
    f: MappingFlags,
)
    requires
        regions_wf(rs, b, e),
        0 <= i < rs.len(),
        start < end,
        start % (PAGE_SIZE as int) == 0,
        end % (PAGE_SIZE as int) == 0,
        regions_wf(before, b, e),
        forall|l: int|
            0 <= l < before.len() ==> #[trigger] has_flagged_source(
                before[l],
                rs,
                i,
                start,
                end,
                f,
            ),
        forall|l: int| 0 <= l < before.len() ==> (#[trigger] before[l]).spec_end() <= rs[i].start,
        forall|a: int| #[trigger] covers(before, a) ==> prefix_covers(rs, i, a),
        forall|a: int| #[trigger] prefix_covers(rs, i, a) ==> covers(before, a),
        // `after` is `before` plus the pieces of region `i`
        ({
            let r = rs[i];
            let left = Region {
                start: r.start,
                size: (start - r.start) as usize,
                flags: r.flags,
                backend: r.backend,
            };
            let lo: usize = if r.start as int >= start {
                r.start
            } else {
                start as usize
            };
            let hi: int = if r.spec_end() <= end {
                r.spec_end()
            } else {
                end
            };
            let mid = Region { start: lo, size: (hi - lo) as usize, flags: f, backend: r.backend };
            let right = Region {
                start: end as usize,
                size: (r.spec_end() - end) as usize,
                flags: r.flags,
                backend: r.backend,
            };
            if r.spec_end() <= start || r.start >= end {
                after == before.push(r)
            } else if r.start < start && r.spec_end() > end {
                after == before.push(left).push(mid).push(right)
            } else if r.start < start {
                after == before.push(left).push(mid)
            } else if r.spec_end() > end {
                after == before.push(mid).push(right)
            } else {
                after == before.push(mid)
            }
        }),
    ensures
        regions_wf(after, b, e),
        forall|l: int|
            0 <= l < after.len() ==> #[trigger] has_flagged_source(
                after[l],
                rs,
                i + 1,
                start,
                end,
                f,
            ),
        i + 1 < rs.len() ==> forall|l: int|
            0 <= l < after.len() ==> (#[trigger] after[l]).spec_end() <= rs[i + 1].start,
        forall|a: int| #[trigger] covers(after, a) ==> prefix_covers(rs, i + 1, a),
        forall|a: int| #[trigger] prefix_covers(rs, i + 1, a) ==> covers(after, a),
{
    let r = rs[i];
    assert(r.wf());
    assert forall|l: int| 0 <= l < after.len() implies #[trigger] has_flagged_source(
        after[l],
        rs,
        i + 1,
        start,
        end,
        f,
    ) by {
        if l < before.len() {
            assert(has_flagged_source(before[l], rs, i, start, end, f));
            let j = choose|j: int| 0 <= j < i && #[trigger] piece_flagged(before[l], rs[j], start, end, f);
            assert(piece_flagged(after[l], rs[j], start, end, f));
        } else {
            assert(piece_flagged(after[l], rs[i], start, end, f));
        }
    }
    if i + 1 < rs.len() {
        assert forall|l: int| 0 <= l < after.len() implies (#[trigger] after[l]).spec_end() <= rs[
        i + 1].start by {
            if l < before.len() {
                assert(before[l].spec_end() <= rs[i].start);
            } else {
                assert(after[l].spec_end() <= rs[i].spec_end());
            }
            assert(rs[i].spec_end() <= rs[i + 1].start);
        }
    }
    lemma_flag_extend_wf(rs, b, e, i, before, after, start, end, f);
    lemma_flag_extend_sound(rs, b, e, i, before, after, start, end, f);
    lemma_flag_extend_complete(rs, b, e, i, before, after, start, end, f);
}

/// Soundness direction of the flag-rewrite coverage facts.
#[verifier::rlimit(100)]
#[verifier::spinoff_prover]
proof fn lemma_flag_extend_sound(
    rs: Seq<Region>,
    b: int,
    e: int,
    i: int,
    before: Seq<Region>,
    after: Seq<Region>,
    start: int,
    end: int,
    f: MappingFlags,
)
    requires
        regions_wf(rs, b, e),
        regions_wf(after, b, e),
        0 <= i < rs.len(),
        start < end,
        forall|a: int| #[trigger] covers(before, a) ==> prefix_covers(rs, i, a),
        ({
            let r = rs[i];
            let left = Region {
                start: r.start,
                size: (start - r.start) as usize,
                flags: r.flags,
                backend: r.backend,
            };
            let lo: usize = if r.start as int >= start {
                r.start
            } else {
                start as usize
            };
            let hi: int = if r.spec_end() <= end {
                r.spec_end()
            } else {
                end
            };
            let mid = Region { start: lo, size: (hi - lo) as usize, flags: f, backend: r.backend };
            let right = Region {
                start: end as usize,
                size: (r.spec_end() - end) as usize,
                flags: r.flags,
                backend: r.backend,
            };
            if r.spec_end() <= start || r.start >= end {
                after == before.push(r)
            } else if r.start < start && r.spec_end() > end {
                after == before.push(left).push(mid).push(right)
            } else if r.start < start {
                after == before.push(left).push(mid)
            } else if r.spec_end() > end {
                after == before.push(mid).push(right)
            } else {
                after == before.push(mid)
            }
        }),
    ensures
        forall|a: int| #[trigger] covers(after, a) ==> prefix_covers(rs, i + 1, a),
{
    assert forall|a: int| #[trigger] covers(after, a) implies prefix_covers(rs, i + 1, a) by {
        let l = region_index_of(after, a);
        if l < before.len() {
            assert(before[l].contains(a));
            assert(covers(before, a));
        } else {
            assert(rs[i].contains(a));
        }
    }
}

/// Completeness direction of the flag-rewrite coverage facts.
#[verifier::rlimit(100)]
#[verifier::spinoff_prover]
proof fn lemma_flag_extend_complete(
    rs: Seq<Region>,
    b: int,
    e: int,
    i: int,
    before: Seq<Region>,
    after: Seq<Region>,
    start: int,
    end: int,
    f: MappingFlags,
)
    requires
        regions_wf(rs, b, e),
        0 <= i < rs.len(),
        start < end,
        forall|a: int| #[trigger] prefix_covers(rs, i, a) ==> covers(before, a),
        ({
            let r = rs[i];
            let left = Region {
                start: r.start,
                size: (start - r.start) as usize,
                flags: r.flags,
                backend: r.backend,
            };
            let lo: usize = if r.start as int >= start {
                r.start
            } else {
                start as usize
            };
            let hi: int = if r.spec_end() <= end {
                r.spec_end()
            } else {
                end
            };
            let mid = Region { start: lo, size: (hi - lo) as usize, flags: f, backend: r.backend };
            let right = Region {
                start: end as usize,
                size: (r.spec_end() - end) as usize,
                flags: r.flags,
                backend: r.backend,
            };
            if r.spec_end() <= start || r.start >= end {
                after == before.push(r)
            } else if r.start < start && r.spec_end() > end {
                after == before.push(left).push(mid).push(right)
            } else if r.start < start {
                after == before.push(left).push(mid)
            } else if r.spec_end() > end {
                after == before.push(mid).push(right)
            } else {
                after == before.push(mid)
            }
        }),
    ensures
        forall|a: int| #[trigger] prefix_covers(rs, i + 1, a) ==> covers(after, a),
{
    assert forall|a: int| #[trigger] prefix_covers(rs, i + 1, a) implies covers(after, a) by {
        let j = choose|j: int| 0 <= j < i + 1 && (#[trigger] rs[j]).contains(a);
        if j < i {
            assert(prefix_covers(rs, i, a));
            assert(covers(before, a));
            let l = region_index_of(before, a);
            assert(after[l].contains(a));
        } else {
            assert(rs[i].contains(a));
            lemma_flag_pieces_cover(rs, i, before, after, start, end, f, a);
        }
    }
}


/// The pieces pushed by the flag rewrite are well-formed and stay sorted.
#[verifier::rlimit(100)]
#[verifier::spinoff_prover]
proof fn lemma_flag_extend_wf(
    rs: Seq<Region>,
    b: int,
    e: int,
    i: int,
    before: Seq<Region>,
    after: Seq<Region>,
    start: int,
    end: int,
    f: MappingFlags,
)
    requires
        regions_wf(rs, b, e),
        0 <= i < rs.len(),
        start < end,
        start % (PAGE_SIZE as int) == 0,
        end % (PAGE_SIZE as int) == 0,
        regions_wf(before, b, e),
        forall|l: int| 0 <= l < before.len() ==> (#[trigger] before[l]).spec_end() <= rs[i].start,
        ({
            let r = rs[i];
            let left = Region {
                start: r.start,
                size: (start - r.start) as usize,
                flags: r.flags,
                backend: r.backend,
            };
            let lo: usize = if r.start as int >= start {
                r.start
            } else {
                start as usize
            };
            let hi: int = if r.spec_end() <= end {
                r.spec_end()
            } else {
                end
            };
            let mid = Region { start: lo, size: (hi - lo) as usize, flags: f, backend: r.backend };
            let right = Region {
                start: end as usize,
                size: (r.spec_end() - end) as usize,
                flags: r.flags,
                backend: r.backend,
            };
            if r.spec_end() <= start || r.start >= end {
                after == before.push(r)
            } else if r.start < start && r.spec_end() > end {
                after == before.push(left).push(mid).push(right)
            } else if r.start < start {
                after == before.push(left).push(mid)
            } else if r.spec_end() > end {
                after == before.push(mid).push(right)
            } else {
                after == before.push(mid)
            }
        }),
    ensures
        regions_wf(after, b, e),
{
    let r = rs[i];
    assert(r.wf());
    assert forall|l: int|
        0 <= l < after.len() implies (#[trigger] after[l]).wf() && b <= after[l].start && after[
        l].spec_end() <= e by {
        if l >= before.len() {
            assert(after[l].size % PAGE_SIZE == 0) by {
                lemma_mod_sub_zero(start, r.start as int, PAGE_SIZE as int);
                lemma_mod_sub_zero(r.spec_end(), end, PAGE_SIZE as int);
                lemma_mod_sub_zero(end, start, PAGE_SIZE as int);
                lemma_mod_sub_zero(r.spec_end(), r.start as int, PAGE_SIZE as int);
                lemma_mod_sub_zero(end, r.start as int, PAGE_SIZE as int);
                lemma_mod_sub_zero(r.spec_end(), start, PAGE_SIZE as int);
                lemma_mod_add_zero(r.start as int, r.size as int, PAGE_SIZE as int);
            }
            assert(linear_offset_ok(after[l])) by {
                reveal(linear_offset_ok);
                assert(linear_offset_ok(r));
            }
        }
    }
    assert forall|l: int|
        0 <= l < after.len() - 1 implies (#[trigger] after[l]).spec_end() <= after[l + 1].start by {
        if l + 1 < before.len() {
        } else if l + 1 == before.len() {
            assert(before[l].spec_end() <= rs[i].start);
        } else {
        }
    }
}

/// The pieces pushed for region `i` cover all of it.
#[verifier::rlimit(100)]
#[verifier::spinoff_prover]
proof fn lemma_flag_pieces_cover(
    rs: Seq<Region>,
    i: int,
    before: Seq<Region>,
    after: Seq<Region>,
    start: int,
    end: int,
    f: MappingFlags,
    a: int,
)
    requires
        0 <= i < rs.len(),
        rs[i].wf(),
        start <= end,
        rs[i].contains(a),
        ({
            let r = rs[i];
            let left = Region {
                start: r.start,
                size: (start - r.start) as usize,
                flags: r.flags,
                backend: r.backend,
            };
            let lo: usize = if r.start as int >= start {
                r.start
            } else {
                start as usize
            };
            let hi: int = if r.spec_end() <= end {
                r.spec_end()
            } else {
                end
            };
            let mid = Region { start: lo, size: (hi - lo) as usize, flags: f, backend: r.backend };
            let right = Region {
                start: end as usize,
                size: (r.spec_end() - end) as usize,
                flags: r.flags,
                backend: r.backend,
            };
            if r.spec_end() <= start || r.start >= end {
                after == before.push(r)
            } else if r.start < start && r.spec_end() > end {
                after == before.push(left).push(mid).push(right)
            } else if r.start < start {
                after == before.push(left).push(mid)
            } else if r.spec_end() > end {
                after == before.push(mid).push(right)
            } else {
                after == before.push(mid)
            }
        }),
    ensures
        covers(after, a),
{
    let r = rs[i];
    let bl = before.len() as int;
    if r.spec_end() <= start || r.start >= end {
        assert(after[bl].contains(a));
    } else if r.start < start && r.spec_end() > end {
        if a < start {
            assert(after[bl].contains(a));
        } else if a < end {
            assert(after[bl + 1].contains(a));
        } else {
            assert(after[bl + 2].contains(a));
        }
    } else if r.start < start {
        if a < start {
            assert(after[bl].contains(a));
        } else {
            assert(after[bl + 1].contains(a));
        }
    } else if r.spec_end() > end {
        if a < end {
            assert(after[bl].contains(a));
        } else {
            assert(after[bl + 1].contains(a));
        }
    } else {
        assert(after[bl].contains(a));
    }
}

/// After the rewrite loop: coverage is exactly the old coverage, and the
/// containing region's flags follow the range.
#[verifier::rlimit(100)]
#[verifier::spinoff_prover]
proof fn lemma_flag_finish(
    rs: Seq<Region>,
    b: int,
    e: int,
    ns: Seq<Region>,
    start: int,
    end: int,
    f: MappingFlags,
)
    requires
        regions_wf(rs, b, e),
        regions_wf(ns, b, e),
        forall|l: int|
            0 <= l < ns.len() ==> #[trigger] has_flagged_source(
                ns[l],
                rs,
                rs.len() as int,
                start,
                end,
                f,
            ),
        forall|a: int| #[trigger] covers(ns, a) ==> prefix_covers(rs, rs.len() as int, a),
        forall|a: int| #[trigger] prefix_covers(rs, rs.len() as int, a) ==> covers(ns, a),
    ensures
        forall|a: int| #[trigger] covers(ns, a) <==> covers(rs, a),
        forall|a: int|
            #[trigger] covers(ns, a) && start <= a < end ==> region_at(ns, a).flags == f
                && region_at(ns, a).backend == region_at(rs, a).backend,
        forall|a: int|
            #[trigger] covers(ns, a) && !(start <= a < end) ==> region_at(ns, a).flags == region_at(
                rs,
                a,
            ).flags && region_at(ns, a).backend == region_at(rs, a).backend,
{
    assert forall|a: int| #[trigger] covers(ns, a) <==> covers(rs, a) by {
        if covers(rs, a) {
            let j = region_index_of(rs, a);
            assert(prefix_covers(rs, rs.len() as int, a));
        }
        if covers(ns, a) {
            assert(prefix_covers(rs, rs.len() as int, a));
            let j = choose|j: int| 0 <= j < rs.len() && (#[trigger] rs[j]).contains(a);
        }
    }
    assert forall|a: int| #[trigger] covers(ns, a) implies {
        &&& region_at(ns, a).backend == region_at(rs, a).backend
        &&& (start <= a < end ==> region_at(ns, a).flags == f)
        &&& (!(start <= a < end) ==> region_at(ns, a).flags == region_at(rs, a).flags)
    } by {
        let l = region_index_of(ns, a);
        assert(ns[l].contains(a));
        assert(has_flagged_source(ns[l], rs, rs.len() as int, start, end, f));
        let j = choose|j: int|
            0 <= j < rs.len() && #[trigger] piece_flagged(ns[l], rs[j], start, end, f);
        assert(rs[j].contains(a));
        let j2 = region_index_of(rs, a);
        lemma_region_unique(rs, b, e, j, j2, a);
        let l2 = region_index_of(ns, a);
        lemma_region_unique(ns, b, e, l, l2, a);
    }
}




































































/// Once the candidate's end passes the limit, no address fits at all.
proof fn lemma_no_fit_beyond_limit(
    rs: Seq<Region>,
    c: int,
    size: int,
    lo: int,
    limit_end: int,
    align: int,
)
    requires
        c + size > limit_end,
        forall|y: int|
            lo <= y < c ==> !#[trigger] fits_gap(rs, y, size, lo, limit_end, align),
    ensures
        forall|y: int| !fits_gap(rs, y, size, lo, limit_end, align),
{
    reveal(fits_gap);
    assert forall|y: int| !fits_gap(rs, y, size, lo, limit_end, align) by {
        if y >= c {
            assert(y + size > limit_end);
        }
    }
}

/// A candidate that clears the scanned regions, stops before region `i`, and
/// ends within the limit is a fit.
proof fn lemma_fit_at_candidate(
    rs: Seq<Region>,
    b: int,
    e: int,
    i: int,
    cand: int,
    size: int,
    lo: int,
    limit_end: int,
    align: int,
)
    requires
        regions_wf(rs, b, e),
        0 <= i <= rs.len(),
        forall|j: int| 0 <= j < i ==> (#[trigger] rs[j]).spec_end() <= cand,
        i < rs.len() ==> cand + size <= rs[i].start,
        cand >= lo,
        cand % align == 0,
        cand + size <= limit_end,
    ensures
        fits_gap(rs, cand, size, lo, limit_end, align),
{
    reveal(fits_gap);
    assert forall|j: int| 0 <= j < rs.len() implies cand + size <= (#[trigger] rs[j]).start || rs[
    j].spec_end() <= cand by {
        if j > i {
            lemma_regions_disjoint(rs, b, e, i, j);
        }
    }
}

/// No address below the aligned search floor fits.
proof fn lemma_no_fit_below_lo(
    rs: Seq<Region>,
    lo: int,
    size: int,
    limit_end: int,
    align: int,
)
    ensures
        forall|y: int| y < lo ==> !#[trigger] fits_gap(rs, y, size, lo, limit_end, align),
{
    reveal(fits_gap);
}

/// When the gap before region `i` is too small, nothing below the aligned
/// end of region `i` fits.
proof fn lemma_no_fit_before_advance(
    rs: Seq<Region>,
    b: int,
    e: int,
    i: int,
    cand: int,
    size: int,
    lo: int,
    limit_end: int,
    align: int,
)
    requires
        regions_wf(rs, b, e),
        b >= 0,
        align > 0,
        0 <= i < rs.len(),
        cand + size > rs[i].start,
        forall|y: int|
            y < cand ==> !#[trigger] fits_gap(rs, y, size, lo, limit_end, align),
    ensures
        forall|y: int|
            y < spec_align_up(rs[i].spec_end(), align) ==> !#[trigger] fits_gap(
                rs,
                y,
                size,
                lo,
                limit_end,
                align,
            ),
{
    reveal(fits_gap);
    let au = spec_align_up(rs[i].spec_end(), align);
    assert forall|y: int| y < au implies !fits_gap(rs, y, size, lo, limit_end, align) by {
        if y >= cand && fits_gap(rs, y, size, lo, limit_end, align) {
            assert(y + size <= rs[i].start || rs[i].spec_end() <= y);
            assert(rs[i].spec_end() <= y);
            lemma_aligned_ge_align_up(rs[i].spec_end(), align, y);
        }
    }
}

/// An address below every region from `i` on, and at or above the end of
/// every region before `i`, is covered by no region at all.
proof fn lemma_not_covered(rs: Seq<Region>, base: int, end: int, i: int, addr: int)
    requires
        regions_wf(rs, base, end),
        0 <= i <= rs.len(),
        forall|j: int| 0 <= j < i ==> (#[trigger] rs[j]).spec_end() <= addr,
        i < rs.len() ==> rs[i].start > addr,
    ensures
        !covers(rs, addr),
        forall|f: MappingFlags| !covered_with(rs, addr, f),
{
    assert forall|j: int| 0 <= j < rs.len() implies !((#[trigger] rs[j]).contains(addr)) by {
        if j >= i && i < rs.len() && j > i {
            lemma_regions_disjoint(rs, base, end, i, j);
        }
    }
}

} // verus!
