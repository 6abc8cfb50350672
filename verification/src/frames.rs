//! Physical frames: contents, allocation state, and reference counts.
//!
//! [`FrameRefTable`] is a fixed table with one reference count per physical
//! frame: 0 means unowned, 1 exclusively owned by one mapping, 2 or more
//! shared across address spaces (a copy-on-write candidate).
//!
//! [`FramePool`] models the physical-frame capability an address space
//! consumes: a contiguous range of physical memory divided into frames, with
//! per-frame allocation state and contents, and an embedded [`FrameRefTable`].

use vstd::prelude::*;

use vstd::arithmetic::div_mod::lemma_div_pos_is_pos;
use vstd::arithmetic::div_mod::lemma_fundamental_div_mod;
use vstd::arithmetic::div_mod::lemma_mod_multiples_basic;
use vstd::arithmetic::div_mod::lemma_multiply_divide_lt;

use crate::PAGE_SIZE;

verus! {

/// The number of `false` entries of an allocation map.
pub open spec fn count_free(s: Seq<bool>) -> nat
    decreases s.len(),
{
    if s.len() == 0 {
        0
    } else {
        count_free(s.drop_last()) + (if s.last() {
            0nat
        } else {
            1nat
        })
    }
}

/// Allocating one free frame decreases the number of free frames by one.
pub proof fn lemma_count_free_update_alloc(s: Seq<bool>, i: int)
    requires
        0 <= i < s.len(),
        !s[i],
    ensures
        count_free(s.update(i, true)) + 1 == count_free(s),
    decreases s.len(),
{
    let t = s.update(i, true);
    if i == s.len() - 1 {
        assert(t.drop_last() =~= s.drop_last());
    } else {
        assert(t.drop_last() =~= s.drop_last().update(i, true));
        lemma_count_free_update_alloc(s.drop_last(), i);
    }
}

/// Releasing one allocated frame increases the number of free frames by one.
pub proof fn lemma_count_free_update_free(s: Seq<bool>, i: int)
    requires
        0 <= i < s.len(),
        s[i],
    ensures
        count_free(s.update(i, false)) == count_free(s) + 1,
    decreases s.len(),
{
    let t = s.update(i, false);
    if i == s.len() - 1 {
        assert(t.drop_last() =~= s.drop_last());
    } else {
        assert(t.drop_last() =~= s.drop_last().update(i, false));
        lemma_count_free_update_free(s.drop_last(), i);
    }
}

/// A fully allocated map has no free frame.
pub proof fn lemma_count_free_all_allocated(s: Seq<bool>)
    requires
        forall|i: int| 0 <= i < s.len() ==> s[i],
    ensures
        count_free(s) == 0,
    decreases s.len(),
{
    if s.len() > 0 {
        lemma_count_free_all_allocated(s.drop_last());
    }
}

/// The index of the frame holding physical address `pa`, in a table of
/// frames starting at `base`.
pub open spec fn spec_frame_idx(base: int, pa: int) -> int {
    (pa - base) / (PAGE_SIZE as int)
}

/// For a frame-aligned address in range, the frame index is in bounds and
/// maps back to the address.
pub proof fn lemma_frame_idx(base: int, n: int, pa: int)
    requires
        base % (PAGE_SIZE as int) == 0,
        pa % (PAGE_SIZE as int) == 0,
        n >= 0,
        base <= pa < base + n * (PAGE_SIZE as int),
    ensures
        0 <= spec_frame_idx(base, pa) < n,
        base + spec_frame_idx(base, pa) * (PAGE_SIZE as int) == pa,
{
    let ps = PAGE_SIZE as int;
    let off = pa - base;
    assert(off % ps == 0) by {
        lemma_fundamental_div_mod(pa, ps);
        lemma_fundamental_div_mod(base, ps);
        vstd::arithmetic::mul::lemma_mul_is_distributive_sub(ps, pa / ps, base / ps);
        lemma_mod_multiples_basic(pa / ps - base / ps, ps);
    }
    lemma_div_pos_is_pos(off, ps);
    lemma_multiply_divide_lt(off, ps, n);
    lemma_fundamental_div_mod(off, ps);
}

/// Two distinct frame-aligned addresses lie in distinct frames.
pub proof fn lemma_frame_idx_injective(base: int, n: int, pa1: int, pa2: int)
    requires
        base % (PAGE_SIZE as int) == 0,
        pa1 % (PAGE_SIZE as int) == 0,
        pa2 % (PAGE_SIZE as int) == 0,
        n >= 0,
        base <= pa1 < base + n * (PAGE_SIZE as int),
        base <= pa2 < base + n * (PAGE_SIZE as int),
        pa1 != pa2,
    ensures
        spec_frame_idx(base, pa1) != spec_frame_idx(base, pa2),
{
    lemma_frame_idx(base, n, pa1);
    lemma_frame_idx(base, n, pa2);
}

/// Two distinct frame-aligned addresses head byte ranges a frame apart.
pub proof fn lemma_distinct_frames_disjoint(base: int, n: int, pa1: int, pa2: int)
    requires
        base % (PAGE_SIZE as int) == 0,
        pa1 % (PAGE_SIZE as int) == 0,
        pa2 % (PAGE_SIZE as int) == 0,
        n >= 0,
        base <= pa1 < base + n * (PAGE_SIZE as int),
        base <= pa2 < base + n * (PAGE_SIZE as int),
        pa1 != pa2,
    ensures
        pa1 + PAGE_SIZE <= pa2 || pa2 + PAGE_SIZE <= pa1,
{
    let ps = PAGE_SIZE as int;
    lemma_frame_idx(base, n, pa1);
    lemma_frame_idx(base, n, pa2);
    let i1 = spec_frame_idx(base, pa1);
    let i2 = spec_frame_idx(base, pa2);
    if i1 < i2 {
        vstd::arithmetic::mul::lemma_mul_inequality(i1 + 1, i2, ps);
        vstd::arithmetic::mul::lemma_mul_is_distributive_add_other_way(ps, i1, 1);
    } else {
        vstd::arithmetic::mul::lemma_mul_inequality(i2 + 1, i1, ps);
        vstd::arithmetic::mul::lemma_mul_is_distributive_add_other_way(ps, i2, 1);
    }
}

/// A fixed-size table of reference counts, one per physical page frame.
pub struct FrameRefTable {
    base: usize,
    counts: Vec<usize>,
}

impl FrameRefTable {
    /// The physical address of the first frame covered by the table.
    pub closed spec fn spec_base(self) -> usize {
        self.base
    }

    /// The per-frame reference counts.
    pub closed spec fn counts(self) -> Seq<usize> {
        self.counts@
    }

    /// The number of frames covered by the table.
    pub open spec fn num_frames(self) -> nat {
        self.counts().len()
    }

    /// Structural well-formedness: an aligned base, and a covered range that
    /// fits in the address space.
    pub open spec fn wf(self) -> bool {
        &&& self.spec_base() % PAGE_SIZE == 0
        &&& self.spec_base() + self.num_frames() * PAGE_SIZE <= usize::MAX
    }

    /// Whether `pa` lies in the physical range covered by the table.
    pub open spec fn in_range(self, pa: int) -> bool {
        self.spec_base() <= pa < self.spec_base() + self.num_frames() * PAGE_SIZE
    }

    /// The index of the frame holding `pa`.
    pub open spec fn frame_idx(self, pa: int) -> int {
        spec_frame_idx(self.spec_base() as int, pa)
    }

    /// The reference count of the frame holding `pa`.
    pub open spec fn count_of(self, pa: int) -> usize {
        self.counts()[self.frame_idx(pa)]
    }

    /// Creates a table of `num_frames` counts, all zero, covering the frames
    /// from `base` on.
    pub fn new(base: usize, num_frames: usize) -> (r: Self)
        requires
            base % PAGE_SIZE == 0,
            base + num_frames * PAGE_SIZE <= usize::MAX,
        ensures
            r.wf(),
            r.spec_base() == base,
            r.num_frames() == num_frames,
            forall|i: int| 0 <= i < num_frames ==> r.counts()[i] == 0,
    {
        let mut counts: Vec<usize> = Vec::new();
        let mut i: usize = 0;
        while i < num_frames
            invariant
                i <= num_frames,
                counts@.len() == i,
                forall|j: int| 0 <= j < i ==> counts@[j] == 0,
            decreases num_frames - i,
        {
            counts.push(0);
            i = i + 1;
        }
        FrameRefTable { base, counts }
    }

    /// The index of the frame holding the frame-aligned address `pa`.
    fn index_of(&self, pa: usize) -> (r: usize)
        requires
            self.wf(),
            pa % PAGE_SIZE == 0,
            self.in_range(pa as int),
        ensures
            r == self.frame_idx(pa as int),
            r < self.num_frames(),
            self.spec_base() + r * PAGE_SIZE == pa,
    {
        proof {
            lemma_frame_idx(self.base as int, self.counts@.len() as int, pa as int);
        }
        (pa - self.base) / PAGE_SIZE
    }

    /// Returns the reference count of the frame holding `pa`.
    ///
    /// `pa` must be a frame-aligned physical address covered by the table.
    pub fn ref_count(&self, pa: usize) -> (r: usize)
        requires
            self.wf(),
            pa % PAGE_SIZE == 0,
            self.in_range(pa as int),
        ensures
            r == self.count_of(pa as int),
    {
        let idx = self.index_of(pa);
        self.counts[idx]
    }

    /// Increases the reference count of the frame holding `pa`.
    pub fn inc_ref(&mut self, pa: usize)
        requires
            old(self).wf(),
            pa % PAGE_SIZE == 0,
            old(self).in_range(pa as int),
            old(self).count_of(pa as int) < usize::MAX,
        ensures
            final(self).wf(),
            final(self).spec_base() == old(self).spec_base(),
            final(self).counts() == old(self).counts().update(
                old(self).frame_idx(pa as int),
                (old(self).count_of(pa as int) + 1) as usize,
            ),
    {
        let idx = self.index_of(pa);
        let c = self.counts[idx];
        self.counts[idx] = c + 1;
    }

    /// Decreases the reference count of the frame holding `pa` and returns
    /// the count it held before.
    ///
    /// A decrement that would underflow past zero is a programming-invariant
    /// violation, excluded by the precondition.
    pub fn dec_ref(&mut self, pa: usize) -> (prev: usize)
        requires
            old(self).wf(),
            pa % PAGE_SIZE == 0,
            old(self).in_range(pa as int),
            old(self).count_of(pa as int) >= 1,
        ensures
            prev == old(self).count_of(pa as int),
            final(self).wf(),
            final(self).spec_base() == old(self).spec_base(),
            final(self).counts() == old(self).counts().update(
                old(self).frame_idx(pa as int),
                (prev - 1) as usize,
            ),
    {
        let idx = self.index_of(pa);
        let c = self.counts[idx];
        self.counts[idx] = c - 1;
        c
    }
}

/// The physical memory available to address spaces: a contiguous range of
/// frames with allocation state, contents, and reference counts.
pub struct FramePool {
    base: usize,
    allocated: Vec<bool>,
    mem: Vec<u8>,
    table: FrameRefTable,
}

impl FramePool {
    /// The physical address of the first frame.
    pub closed spec fn spec_base(self) -> usize {
        self.base
    }

    /// The per-frame allocation map.
    pub closed spec fn alloc_map(self) -> Seq<bool> {
        self.allocated@
    }

    /// The physical memory contents, byte `j` holding the value at physical
    /// address `base + j`.
    pub closed spec fn mem(self) -> Seq<u8> {
        self.mem@
    }

    /// The per-frame reference counts.
    pub closed spec fn counts(self) -> Seq<usize> {
        self.table.counts()
    }

    /// The embedded reference-count table.
    pub closed spec fn spec_table(self) -> FrameRefTable {
        self.table
    }

    /// The number of frames in the pool.
    pub open spec fn num_frames(self) -> nat {
        self.alloc_map().len()
    }

    /// Structural well-formedness.
    pub open spec fn wf(self) -> bool {
        &&& self.spec_base() % PAGE_SIZE == 0
        &&& self.spec_base() + self.num_frames() * PAGE_SIZE <= usize::MAX
        &&& self.spec_table().wf()
        &&& self.spec_table().spec_base() == self.spec_base()
        &&& self.spec_table().num_frames() == self.num_frames()
        &&& self.counts().len() == self.num_frames()
        &&& self.mem().len() == self.num_frames() * PAGE_SIZE
    }

    /// Whether `pa` lies in the physical range of the pool.
    pub open spec fn in_range(self, pa: int) -> bool {
        self.spec_base() <= pa < self.spec_base() + self.num_frames() * PAGE_SIZE
    }

    /// The index of the frame holding `pa`.
    pub open spec fn frame_idx(self, pa: int) -> int {
        spec_frame_idx(self.spec_base() as int, pa)
    }

    /// Whether the frame holding `pa` is allocated.
    pub open spec fn is_allocated(self, pa: int) -> bool {
        self.alloc_map()[self.frame_idx(pa)]
    }

    /// The reference count of the frame holding `pa`.
    pub open spec fn count_of(self, pa: int) -> usize {
        self.counts()[self.frame_idx(pa)]
    }

    /// The byte stored at physical address `pa`.
    pub open spec fn mem_at(self, pa: int) -> u8 {
        self.mem()[pa - self.spec_base()]
    }

    /// Pool fields other than the allocation map, counts and contents.
    pub open spec fn same_shape(self, other: FramePool) -> bool {
        &&& self.spec_base() == other.spec_base()
        &&& self.num_frames() == other.num_frames()
        &&& self.mem().len() == other.mem().len()
    }

    /// Creates a pool of `num_frames` frames starting at physical address
    /// `base`, all free, all zeroed, with all reference counts zero.
    pub fn new(base: usize, num_frames: usize) -> (r: Self)
        requires
            base % PAGE_SIZE == 0,
            base + num_frames * PAGE_SIZE <= usize::MAX,
        ensures
            r.wf(),
            r.spec_base() == base,
            r.num_frames() == num_frames,
            forall|i: int| 0 <= i < num_frames ==> !r.alloc_map()[i],
            forall|i: int| 0 <= i < num_frames ==> r.counts()[i] == 0,
            forall|j: int| 0 <= j < r.mem().len() ==> r.mem()[j] == 0,
    {
        let table = FrameRefTable::new(base, num_frames);
        let mut allocated: Vec<bool> = Vec::new();
        let mut i: usize = 0;
        while i < num_frames
            invariant
                i <= num_frames,
                allocated@.len() == i,
                forall|j: int| 0 <= j < i ==> !allocated@[j],
            decreases num_frames - i,
        {
            allocated.push(false);
            i = i + 1;
        }
        proof {
            assert(num_frames * PAGE_SIZE <= usize::MAX) by {
                assert(base >= 0);
            }
        }
        let total: usize = num_frames * PAGE_SIZE;
        let mut mem: Vec<u8> = Vec::new();
        let mut j: usize = 0;
        while j < total
            invariant
                j <= total,
                mem@.len() == j,
                forall|k: int| 0 <= k < j ==> mem@[k] == 0,
            decreases total - j,
        {
            mem.push(0);
            j = j + 1;
        }
        FramePool { base, allocated, mem, table }
    }

    /// Returns the physical base address of the pool.
    pub fn base(&self) -> (r: usize)
        ensures
            r == self.spec_base(),
    {
        self.base
    }

    /// Returns the number of frames in the pool.
    pub fn num_frames_exec(&self) -> (r: usize)
        ensures
            r == self.num_frames(),
    {
        self.allocated.len()
    }

    /// Returns the reference count of the frame holding `pa`.
    pub fn ref_count(&self, pa: usize) -> (r: usize)
        requires
            self.wf(),
            pa % PAGE_SIZE == 0,
            self.in_range(pa as int),
        ensures
            r == self.count_of(pa as int),
    {
        self.table.ref_count(pa)
    }

    /// Increases the reference count of the frame holding `pa`.
    pub fn inc_ref(&mut self, pa: usize)
        requires
            old(self).wf(),
            pa % PAGE_SIZE == 0,
            old(self).in_range(pa as int),
            old(self).count_of(pa as int) < usize::MAX,
        ensures
            final(self).wf(),
            old(self).same_shape(*final(self)),
            final(self).alloc_map() == old(self).alloc_map(),
            final(self).mem() == old(self).mem(),
            final(self).counts() == old(self).counts().update(
                old(self).frame_idx(pa as int),
                (old(self).count_of(pa as int) + 1) as usize,
            ),
    {
        self.table.inc_ref(pa);
    }

    /// Decreases the reference count of the frame holding `pa` and returns
    /// the count it held before.
    pub fn dec_ref(&mut self, pa: usize) -> (prev: usize)
        requires
            old(self).wf(),
            pa % PAGE_SIZE == 0,
            old(self).in_range(pa as int),
            old(self).count_of(pa as int) >= 1,
        ensures
            prev == old(self).count_of(pa as int),
            final(self).wf(),
            old(self).same_shape(*final(self)),
            final(self).alloc_map() == old(self).alloc_map(),
            final(self).mem() == old(self).mem(),
            final(self).counts() == old(self).counts().update(
                old(self).frame_idx(pa as int),
                (prev - 1) as usize,
            ),
    {
        self.table.dec_ref(pa)
    }

    /// Allocates a frame: marks the lowest free frame allocated, sets its
    /// reference count to one, and optionally zeroes its contents.
    ///
    /// Returns the physical address of the frame, or `None` when every frame
    /// is allocated (the pool is left unchanged).
    pub fn alloc_frame(&mut self, zeroed: bool) -> (r: Option<usize>)
        requires
            old(self).wf(),
        ensures
            final(self).wf(),
            old(self).same_shape(*final(self)),
            match r {
                Some(pa) => {
                    &&& pa % PAGE_SIZE == 0
                    &&& old(self).in_range(pa as int)
                    &&& !old(self).is_allocated(pa as int)
                    &&& forall|i: int|
                        0 <= i < old(self).frame_idx(pa as int) ==> old(self).alloc_map()[i]
                    &&& final(self).alloc_map() == old(self).alloc_map().update(
                        old(self).frame_idx(pa as int),
                        true,
                    )
                    &&& final(self).counts() == old(self).counts().update(
                        old(self).frame_idx(pa as int),
                        1usize,
                    )
                    &&& count_free(final(self).alloc_map()) + 1 == count_free(old(self).alloc_map())
                    &&& forall|j: int|
                        0 <= j < old(self).mem().len() && !(pa - old(self).spec_base() <= j < pa
                            - old(self).spec_base() + PAGE_SIZE) ==> final(self).mem()[j] == old(self).mem()[j]
                    &&& (zeroed ==> forall|j: int|
                        pa - old(self).spec_base() <= j < pa - old(self).spec_base() + PAGE_SIZE
                            ==> final(self).mem()[j] == 0)
                    &&& (!zeroed ==> final(self).mem() == old(self).mem())
                },
                None => {
                    &&& *final(self) == *old(self)
                    &&& count_free(old(self).alloc_map()) == 0
                },
            },
    {
        let n = self.allocated.len();
        let mut i: usize = 0;
        while i < n
            invariant
                i <= n,
                *self == *old(self),
                n == self.allocated@.len(),
                self.wf(),
                forall|j: int| 0 <= j < i ==> self.allocated@[j],
            decreases n - i,
        {
            if !self.allocated[i] {
                let ghost before = *self;
                proof {
                    let ps = PAGE_SIZE as int;
                    assert((i as int + 1) * ps <= (n as int) * ps) by {
                        vstd::arithmetic::mul::lemma_mul_inequality(i as int + 1, n as int, ps);
                    }
                    assert((i as int + 1) * ps == (i as int) * ps + ps) by {
                        vstd::arithmetic::mul::lemma_mul_is_distributive_add_other_way(
                            ps,
                            i as int,
                            1,
                        );
                    }
                }
                let pa: usize = self.base + i * PAGE_SIZE;
                proof {
                    let ps = PAGE_SIZE as int;
                    assert(pa % PAGE_SIZE == 0) by {
                        lemma_fundamental_div_mod(self.base as int, ps);
                        lemma_mod_multiples_basic(
                            (self.base as int) / ps + (i as int),
                            ps,
                        );
                        vstd::arithmetic::mul::lemma_mul_is_distributive_add(
                            ps,
                            (self.base as int) / ps,
                            i as int,
                        );
                    }
                    lemma_frame_idx(self.base as int, n as int, pa as int);
                    assert(before.frame_idx(pa as int) == i);
                    lemma_count_free_update_alloc(before.alloc_map(), i as int);
                }
                self.allocated[i] = true;
                // a free frame is never referenced; its count is overwritten
                self.set_count_one(i);
                if zeroed {
                    self.zero_frame(pa);
                }
                return Some(pa);
            }
            i = i + 1;
        }
        proof {
            lemma_count_free_all_allocated(self.allocated@);
        }
        None
    }

    /// Sets the reference count of frame `idx` to one.
    fn set_count_one(&mut self, idx: usize)
        requires
            idx < old(self).counts().len(),
        ensures
            final(self).counts() == old(self).counts().update(idx as int, 1usize),
            final(self).spec_base() == old(self).spec_base(),
            final(self).alloc_map() == old(self).alloc_map(),
            final(self).mem() == old(self).mem(),
            final(self).spec_table().spec_base() == old(self).spec_table().spec_base(),
    {
        self.table.counts[idx] = 1;
    }

    /// Zeroes the contents of the frame starting at `pa`.
    fn zero_frame(&mut self, pa: usize)
        requires
            old(self).wf(),
            pa % PAGE_SIZE == 0,
            old(self).in_range(pa as int),
        ensures
            final(self).wf(),
            old(self).same_shape(*final(self)),
            final(self).alloc_map() == old(self).alloc_map(),
            final(self).counts() == old(self).counts(),
            final(self).spec_table() == old(self).spec_table(),
            forall|j: int|
                pa - old(self).spec_base() <= j < pa - old(self).spec_base() + PAGE_SIZE ==> final(self).mem()[j] == 0,
            forall|j: int|
                0 <= j < old(self).mem().len() && !(pa - old(self).spec_base() <= j < pa - old(self).spec_base() + PAGE_SIZE) ==> final(self).mem()[j] == old(self).mem()[j],
    {
        proof {
            lemma_frame_idx(
                self.spec_base() as int,
                self.num_frames() as int,
                pa as int,
            );
            assert((self.frame_idx(pa as int) + 1) * PAGE_SIZE <= self.num_frames() * PAGE_SIZE)
                by {
                vstd::arithmetic::mul::lemma_mul_inequality(
                    self.frame_idx(pa as int) + 1,
                    self.num_frames() as int,
                    PAGE_SIZE as int,
                );
            }
            vstd::arithmetic::mul::lemma_mul_is_distributive_add_other_way(
                PAGE_SIZE as int,
                self.frame_idx(pa as int),
                1,
            );
        }
        let off: usize = pa - self.base;
        let mut k: usize = 0;
        while k < PAGE_SIZE
            invariant
                k <= PAGE_SIZE,
                self.wf(),
                off == pa - self.spec_base(),
                off + PAGE_SIZE <= self.mem().len(),
                self.spec_base() == old(self).spec_base(),
                self.alloc_map() == old(self).alloc_map(),
                self.counts() == old(self).counts(),
                self.spec_table() == old(self).spec_table(),
                self.mem().len() == old(self).mem().len(),
                forall|j: int| off <= j < off + k ==> self.mem()[j] == 0,
                forall|j: int|
                    0 <= j < old(self).mem().len() && !(off <= j < off + k) ==> self.mem()[j]
                        == old(self).mem()[j],
            decreases PAGE_SIZE - k,
        {
            self.mem[off + k] = 0;
            k = k + 1;
        }
    }

    /// Releases the frame holding `pa` back to the pool.
    ///
    /// The frame must be allocated and unreferenced; its contents are not
    /// assumed valid until it is re-zeroed.
    pub fn free_frame(&mut self, pa: usize)
        requires
            old(self).wf(),
            pa % PAGE_SIZE == 0,
            old(self).in_range(pa as int),
            old(self).is_allocated(pa as int),
            old(self).count_of(pa as int) == 0,
        ensures
            final(self).wf(),
            old(self).same_shape(*final(self)),
            final(self).alloc_map() == old(self).alloc_map().update(
                old(self).frame_idx(pa as int),
                false,
            ),
            final(self).counts() == old(self).counts(),
            final(self).mem() == old(self).mem(),
            count_free(final(self).alloc_map()) == count_free(old(self).alloc_map()) + 1,
    {
        proof {
            lemma_frame_idx(
                self.spec_base() as int,
                self.num_frames() as int,
                pa as int,
            );
            lemma_count_free_update_free(
                self.alloc_map(),
                self.frame_idx(pa as int),
            );
        }
        let idx = self.table.index_of(pa);
        self.allocated[idx] = false;
    }

    /// Returns whether `pa` lies in the physical range of the pool.
    pub fn contains_addr(&self, pa: usize) -> (r: bool)
        requires
            self.wf(),
        ensures
            r == self.in_range(pa as int),
    {
        pa >= self.base && pa - self.base < self.mem.len()
    }

    /// Returns the byte stored at physical address `pa`.
    pub fn read_byte(&self, pa: usize) -> (r: u8)
        requires
            self.wf(),
            self.in_range(pa as int),
        ensures
            r == self.mem_at(pa as int),
    {
        self.mem[pa - self.base]
    }

    /// Stores `val` at physical address `pa`.
    pub fn write_byte(&mut self, pa: usize, val: u8)
        requires
            old(self).wf(),
            old(self).in_range(pa as int),
        ensures
            final(self).wf(),
            old(self).same_shape(*final(self)),
            final(self).alloc_map() == old(self).alloc_map(),
            final(self).counts() == old(self).counts(),
            final(self).spec_table() == old(self).spec_table(),
            final(self).mem() == old(self).mem().update(pa - old(self).spec_base(), val),
    {
        self.mem[pa - self.base] = val;
    }

    /// Copies the contents of the frame at `src` into the frame at `dst`.
    pub fn copy_frame(&mut self, src: usize, dst: usize)
        requires
            old(self).wf(),
            src % PAGE_SIZE == 0,
            dst % PAGE_SIZE == 0,
            old(self).in_range(src as int),
            old(self).in_range(dst as int),
            src != dst,
        ensures
            final(self).wf(),
            old(self).same_shape(*final(self)),
            final(self).alloc_map() == old(self).alloc_map(),
            final(self).counts() == old(self).counts(),
            final(self).spec_table() == old(self).spec_table(),
            forall|o: int|
                0 <= o < PAGE_SIZE ==> #[trigger] final(self).mem_at(dst + o) == old(self).mem_at(
                    src + o,
                ),
            forall|j: int|
                0 <= j < old(self).mem().len() && !(dst - old(self).spec_base() <= j < dst - old(self).spec_base() + PAGE_SIZE) ==> final(self).mem()[j] == old(self).mem()[j],
    {
        proof {
            let ps = PAGE_SIZE as int;
            let n = self.num_frames() as int;
            let b = self.spec_base() as int;
            lemma_frame_idx(b, n, src as int);
            lemma_frame_idx(b, n, dst as int);
            let si = spec_frame_idx(b, src as int);
            let di = spec_frame_idx(b, dst as int);
            vstd::arithmetic::mul::lemma_mul_inequality(si + 1, n, ps);
            vstd::arithmetic::mul::lemma_mul_inequality(di + 1, n, ps);
            vstd::arithmetic::mul::lemma_mul_is_distributive_add_other_way(ps, si, 1);
            vstd::arithmetic::mul::lemma_mul_is_distributive_add_other_way(ps, di, 1);
            if si < di {
                vstd::arithmetic::mul::lemma_mul_inequality(si + 1, di, ps);
            } else {
                vstd::arithmetic::mul::lemma_mul_inequality(di + 1, si, ps);
            }
        }
        let src_off: usize = src - self.base;
        let dst_off: usize = dst - self.base;
        let mut k: usize = 0;
        while k < PAGE_SIZE
            invariant
                k <= PAGE_SIZE,
                self.wf(),
                src_off == src - self.spec_base(),
                dst_off == dst - self.spec_base(),
                src_off + PAGE_SIZE <= self.mem().len(),
                dst_off + PAGE_SIZE <= self.mem().len(),
                src_off + PAGE_SIZE <= dst_off || dst_off + PAGE_SIZE <= src_off,
                self.spec_base() == old(self).spec_base(),
                self.alloc_map() == old(self).alloc_map(),
                self.counts() == old(self).counts(),
                self.spec_table() == old(self).spec_table(),
                self.mem().len() == old(self).mem().len(),
                forall|o: int|
                    0 <= o < k ==> #[trigger] self.mem_at(dst + o) == old(self).mem_at(src + o),
                forall|j: int|
                    0 <= j < old(self).mem().len() && !(dst_off <= j < dst_off + k) ==> self.mem()[j]
                        == old(self).mem()[j],
            decreases PAGE_SIZE - k,
        {
            let b = self.mem[src_off + k];
            proof {
                assert(self.mem()[src_off + k] == old(self).mem()[src_off + k]);
            }
            let ghost prev = *self;
            self.mem[dst_off + k] = b;
            proof {
                assert(self.mem() == prev.mem().update(dst_off + k, b));
                assert forall|o: int| 0 <= o < k + 1 implies #[trigger] self.mem_at(dst + o)
                    == old(self).mem_at(src + o) by {
                    if o < k {
                        assert(prev.mem_at(dst + o) == old(self).mem_at(src + o));
                        assert(prev.mem().update(dst_off + k, b)[dst - prev.spec_base() + o]
                            == prev.mem()[dst - prev.spec_base() + o]);
                    } else {
                        assert(self.mem_at(dst + k) == b);
                    }
                }
            }
            k = k + 1;
        }
    }
}

} // verus!
