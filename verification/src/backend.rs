//! Mapping backends: the population and fault-resolution strategy of a
//! region.

use vstd::prelude::*;

use crate::PAGE_SIZE;

verus! {

/// The backing strategy of a mapped region. A closed set of two variants,
/// matched exhaustively wherever faults are resolved.
#[derive(Debug, Clone, Copy, PartialEq, Eq, Structural)]
pub enum Backend {
    /// Physical frames come from the frame allocator: eagerly for the whole
    /// region when `populate` is set, otherwise lazily on first fault.
    Alloc {
        /// Whether every page is allocated and mapped when the region is
        /// created.
        populate: bool,
        /// The alignment, in bytes, that ranges mapped or unmapped through
        /// this backend must honor. A multiple of [`PAGE_SIZE`].
        align: usize,
    },
    /// The physical address is always the virtual address minus
    /// `pa_va_offset`; used for the kernel's direct physical map. Such a
    /// region is eagerly mapped, owns no frames, and never faults.
    Linear {
        /// The constant difference between a virtual address of the region
        /// and the physical address it maps to.
        pa_va_offset: usize,
        /// The alignment, in bytes, that ranges mapped or unmapped through
        /// this backend must honor. A multiple of [`PAGE_SIZE`].
        align: usize,
    },
}

impl Backend {
    /// The alignment the backend was created with.
    pub open spec fn spec_align(self) -> usize {
        match self {
            Backend::Alloc { align, .. } => align,
            Backend::Linear { align, .. } => align,
        }
    }

    /// Whether this is an allocation backend.
    pub open spec fn is_alloc(self) -> bool {
        self is Alloc
    }

    /// Whether this is an allocation backend with eager population.
    pub open spec fn is_populated_alloc(self) -> bool {
        match self {
            Backend::Alloc { populate, .. } => populate,
            Backend::Linear { .. } => false,
        }
    }

    /// The linear backend's offset; zero for an allocation backend.
    pub open spec fn spec_offset(self) -> usize {
        match self {
            Backend::Alloc { .. } => 0,
            Backend::Linear { pa_va_offset, .. } => pa_va_offset,
        }
    }

    /// A valid alignment: a positive multiple of the page size.
    pub open spec fn wf(self) -> bool {
        self.spec_align() % PAGE_SIZE == 0 && self.spec_align() > 0
    }

    /// Creates a new allocation mapping backend.
    pub fn new_alloc(populate: bool, align: usize) -> (r: Self)
        ensures
            r == (Backend::Alloc { populate, align }),
    {
        Backend::Alloc { populate, align }
    }

    /// Creates a new linear mapping backend.
    pub fn new_linear(pa_va_offset: usize, align: usize) -> (r: Self)
        ensures
            r == (Backend::Linear { pa_va_offset, align }),
    {
        Backend::Linear { pa_va_offset, align }
    }

    /// Returns the alignment the backend was created with.
    pub fn align(&self) -> (r: usize)
        ensures
            r == self.spec_align(),
    {
        match self {
            Backend::Alloc { align, .. } => *align,
            Backend::Linear { align, .. } => *align,
        }
    }
}

} // verus!
