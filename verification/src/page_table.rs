//! The page table of one address space.
//!
//! The table records, per page, the physical frame it maps to and the
//! permission flags of the translation. The architecture-specific entry
//! encoding and TLB maintenance live below this interface and are out of
//! scope; a page here is always [`PAGE_SIZE`] bytes.

use vstd::prelude::*;

use std::collections::HashMap;

use vstd::arithmetic::div_mod::lemma_fundamental_div_mod;
use vstd::arithmetic::div_mod::lemma_mod_multiples_basic;

use crate::AxError;
use crate::PAGE_SIZE;
use crate::flags::MappingFlags;
use crate::frames::FramePool;
use crate::frames::count_free;

verus! {

broadcast use vstd::std_specs::hash::group_hash_axioms;

/// One translation: the physical frame a page maps to, with its flags.
#[derive(Debug, Clone, Copy, PartialEq, Eq, Structural)]
pub struct PageEntry {
    /// The frame-aligned physical address the page maps to.
    pub paddr: usize,
    /// The permission flags of the translation.
    pub flags: MappingFlags,
}

/// Errors reported by page-table operations.
#[derive(Debug, Clone, Copy, PartialEq, Eq, Structural)]
pub enum PagingError {
    /// The page is not mapped.
    NotMapped,
    /// The page is already mapped.
    AlreadyMapped,
}

/// The page containing the address `va`: `va` rounded down to a page
/// boundary.
pub open spec fn spec_page_of(va: usize) -> usize {
    ((va as int) - (va as int) % (PAGE_SIZE as int)) as usize
}

/// Rounds `va` down to a page boundary.
pub fn page_of(va: usize) -> (r: usize)
    ensures
        r == spec_page_of(va),
        r % PAGE_SIZE == 0,
        r <= va < r + PAGE_SIZE,
{
    proof {
        let ps = PAGE_SIZE as int;
        lemma_fundamental_div_mod(va as int, ps);
        lemma_mod_multiples_basic((va as int) / ps, ps);
    }
    va - va % PAGE_SIZE
}

/// A page table: a finite map from page-aligned virtual addresses to
/// [`PageEntry`] translations, plus the physical frame holding the root.
pub struct PageTable {
    root: usize,
    entries: HashMap<usize, PageEntry>,
}

impl View for PageTable {
    type V = Map<usize, PageEntry>;

    closed spec fn view(&self) -> Map<usize, PageEntry> {
        self.entries@
    }
}

impl PageTable {
    /// The physical address of the frame holding the page-table root.
    pub closed spec fn spec_root(self) -> usize {
        self.root
    }

    /// Every key is page-aligned, and every target is a frame-aligned
    /// physical address with a whole frame of room below the address-space
    /// limit.
    pub open spec fn wf(self) -> bool {
        forall|k: usize| #[trigger]
            self@.contains_key(k) ==> k % PAGE_SIZE == 0 && self@[k].paddr % PAGE_SIZE == 0
                && self@[k].paddr + PAGE_SIZE <= usize::MAX
    }

    /// Creates an empty page table, allocating its root frame from `pool`.
    ///
    /// Fails with `NoMemory` exactly when the pool has no free frame, in
    /// which case the pool is unchanged.
    pub fn try_new(pool: &mut FramePool) -> (r: Result<PageTable, AxError>)
        requires
            old(pool).wf(),
        ensures
            final(pool).wf(),
            old(pool).same_shape(*final(pool)),
            match r {
                Ok(pt) => {
                    &&& pt@ == Map::<usize, PageEntry>::empty()
                    &&& pt.wf()
                    &&& pt.spec_root() % PAGE_SIZE == 0
                    &&& old(pool).in_range(pt.spec_root() as int)
                    &&& !old(pool).is_allocated(pt.spec_root() as int)
                    &&& final(pool).alloc_map() == old(pool).alloc_map().update(
                        old(pool).frame_idx(pt.spec_root() as int),
                        true,
                    )
                    &&& final(pool).counts() == old(pool).counts().update(
                        old(pool).frame_idx(pt.spec_root() as int),
                        1usize,
                    )
                    &&& final(pool).mem() == old(pool).mem()
                    &&& count_free(final(pool).alloc_map()) + 1 == count_free(
                        old(pool).alloc_map(),
                    )
                },
                Err(e) => {
                    &&& e == AxError::NoMemory
                    &&& *final(pool) == *old(pool)
                    &&& count_free(old(pool).alloc_map()) == 0
                },
            },
    {
        match pool.alloc_frame(false) {
            Some(root) => Ok(PageTable { root, entries: HashMap::new() }),
            None => Err(AxError::NoMemory),
        }
    }

    /// Returns the root physical address of the page table.
    pub fn root_paddr(&self) -> (r: usize)
        ensures
            r == self.spec_root(),
    {
        self.root
    }

    /// Maps the page containing `vaddr` to the frame at `target`.
    ///
    /// Fails with `AlreadyMapped` exactly when the page already has a
    /// translation, in which case nothing changes.
    pub fn map(&mut self, vaddr: usize, target: usize, flags: MappingFlags) -> (r: Result<
        (),
        PagingError,
    >)
        requires
            old(self).wf(),
            target % PAGE_SIZE == 0,
            target + PAGE_SIZE <= usize::MAX,
        ensures
            final(self).wf(),
            final(self).spec_root() == old(self).spec_root(),
            match r {
                Ok(()) => {
                    &&& !old(self)@.contains_key(spec_page_of(vaddr))
                    &&& final(self)@ == old(self)@.insert(
                        spec_page_of(vaddr),
                        PageEntry { paddr: target, flags },
                    )
                },
                Err(e) => {
                    &&& e == PagingError::AlreadyMapped
                    &&& old(self)@.contains_key(spec_page_of(vaddr))
                    &&& final(self)@ == old(self)@
                },
            },
    {
        let page = page_of(vaddr);
        if self.entries.contains_key(&page) {
            Err(PagingError::AlreadyMapped)
        } else {
            self.entries.insert(page, PageEntry { paddr: target, flags });
            proof {
                assert forall|k: usize| #[trigger] self@.contains_key(k) implies k % PAGE_SIZE == 0
                    && self@[k].paddr % PAGE_SIZE == 0 && self@[k].paddr + PAGE_SIZE
                    <= usize::MAX by {
                    if k != page {
                        assert(old(self)@.contains_key(k));
                    }
                }
            }
            Ok(())
        }
    }

    /// Removes the translation of the page containing `vaddr`, returning the
    /// frame it mapped to and the flags it carried.
    ///
    /// Fails with `NotMapped` exactly when the page has no translation, in
    /// which case nothing changes.
    pub fn unmap(&mut self, vaddr: usize) -> (r: Result<(usize, MappingFlags), PagingError>)
        requires
            old(self).wf(),
        ensures
            final(self).wf(),
            final(self).spec_root() == old(self).spec_root(),
            match r {
                Ok((pa, fl)) => {
                    &&& old(self)@.contains_key(spec_page_of(vaddr))
                    &&& pa == old(self)@[spec_page_of(vaddr)].paddr
                    &&& fl == old(self)@[spec_page_of(vaddr)].flags
                    &&& final(self)@ == old(self)@.remove(spec_page_of(vaddr))
                },
                Err(e) => {
                    &&& e == PagingError::NotMapped
                    &&& !old(self)@.contains_key(spec_page_of(vaddr))
                    &&& final(self)@ == old(self)@
                },
            },
    {
        let page = page_of(vaddr);
        match self.entries.remove(&page) {
            Some(entry) => {
                proof {
                    assert(self@ == old(self)@.remove(page));
                    assert forall|k: usize| #[trigger] self@.contains_key(k) implies k % PAGE_SIZE
                        == 0 && self@[k].paddr % PAGE_SIZE == 0 && self@[k].paddr + PAGE_SIZE
                        <= usize::MAX by {
                        assert(old(self)@.remove(page).contains_key(k));
                        assert(old(self)@.contains_key(k));
                        assert(self@[k] == old(self)@[k]);
                    }
                }
                Ok((entry.paddr, entry.flags))
            },
            None => {
                proof {
                    assert(self@ =~= old(self)@);
                }
                Err(PagingError::NotMapped)
            },
        }
    }

    /// Looks up the translation of the page containing `vaddr`, returning
    /// the frame-aligned physical address of the page's frame and the flags.
    ///
    /// Fails with `NotMapped` exactly when the page has no translation.
    pub fn query(&self, vaddr: usize) -> (r: Result<(usize, MappingFlags), PagingError>)
        requires
            self.wf(),
        ensures
            match r {
                Ok((pa, fl)) => {
                    &&& self@.contains_key(spec_page_of(vaddr))
                    &&& pa == self@[spec_page_of(vaddr)].paddr
                    &&& fl == self@[spec_page_of(vaddr)].flags
                },
                Err(e) => {
                    &&& e == PagingError::NotMapped
                    &&& !self@.contains_key(spec_page_of(vaddr))
                },
            },
    {
        let page = page_of(vaddr);
        match self.entries.get(&page) {
            Some(entry) => Ok((entry.paddr, entry.flags)),
            None => Err(PagingError::NotMapped),
        }
    }

    /// Rewrites the flags of the page containing `vaddr`, keeping its frame,
    /// and returns the flags it carried before.
    ///
    /// Fails with `NotMapped` exactly when the page has no translation, in
    /// which case nothing changes.
    pub fn protect(&mut self, vaddr: usize, flags: MappingFlags) -> (r: Result<
        MappingFlags,
        PagingError,
    >)
        requires
            old(self).wf(),
        ensures
            final(self).wf(),
            final(self).spec_root() == old(self).spec_root(),
            match r {
                Ok(old_flags) => {
                    &&& old(self)@.contains_key(spec_page_of(vaddr))
                    &&& old_flags == old(self)@[spec_page_of(vaddr)].flags
                    &&& final(self)@ == old(self)@.insert(
                        spec_page_of(vaddr),
                        PageEntry { paddr: old(self)@[spec_page_of(vaddr)].paddr, flags },
                    )
                },
                Err(e) => {
                    &&& e == PagingError::NotMapped
                    &&& !old(self)@.contains_key(spec_page_of(vaddr))
                    &&& final(self)@ == old(self)@
                },
            },
    {
        let page = page_of(vaddr);
        match self.entries.get(&page) {
            Some(entry) => {
                let paddr = entry.paddr;
                let old_flags = entry.flags;
                self.entries.insert(page, PageEntry { paddr, flags });
            proof {
                assert forall|k: usize| #[trigger] self@.contains_key(k) implies k % PAGE_SIZE == 0
                    && self@[k].paddr % PAGE_SIZE == 0 && self@[k].paddr + PAGE_SIZE
                    <= usize::MAX by {
                    if k != page {
                        assert(old(self)@.contains_key(k));
                    }
                }
            }
                Ok(old_flags)
            },
            None => Err(PagingError::NotMapped),
        }
    }

    /// Remaps the page containing `vaddr` to the frame at `new_target` with
    /// the given flags, returning the frame it mapped to before.
    ///
    /// Fails with `NotMapped` exactly when the page has no translation, in
    /// which case nothing changes.
    pub fn remap(&mut self, vaddr: usize, new_target: usize, flags: MappingFlags) -> (r: Result<
        usize,
        PagingError,
    >)
        requires
            old(self).wf(),
            new_target % PAGE_SIZE == 0,
            new_target + PAGE_SIZE <= usize::MAX,
        ensures
            final(self).wf(),
            final(self).spec_root() == old(self).spec_root(),
            match r {
                Ok(old_pa) => {
                    &&& old(self)@.contains_key(spec_page_of(vaddr))
                    &&& old_pa == old(self)@[spec_page_of(vaddr)].paddr
                    &&& final(self)@ == old(self)@.insert(
                        spec_page_of(vaddr),
                        PageEntry { paddr: new_target, flags },
                    )
                },
                Err(e) => {
                    &&& e == PagingError::NotMapped
                    &&& !old(self)@.contains_key(spec_page_of(vaddr))
                    &&& final(self)@ == old(self)@
                },
            },
    {
        let page = page_of(vaddr);
        match self.entries.get(&page) {
            Some(entry) => {
                let old_pa = entry.paddr;
                self.entries.insert(page, PageEntry { paddr: new_target, flags });
            proof {
                assert forall|k: usize| #[trigger] self@.contains_key(k) implies k % PAGE_SIZE == 0
                    && self@[k].paddr % PAGE_SIZE == 0 && self@[k].paddr + PAGE_SIZE
                    <= usize::MAX by {
                    if k != page {
                        assert(old(self)@.contains_key(k));
                    }
                }
            }
                Ok(old_pa)
            },
            None => Err(PagingError::NotMapped),
        }
    }
}

} // verus!
