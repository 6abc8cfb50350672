//! A verified virtual-memory address-space manager.
//!
//! The core of the crate is [`aspace::AddrSpace`]: an ordered, non-overlapping
//! set of mapped virtual regions together with a page table, supporting
//! first-fit free-area search, lazy and eager population, page-fault
//! resolution, and copy-on-write sharing of physical frames across cloned
//! address spaces. Physical frames and their reference counts are managed by
//! [`frames::FramePool`] and [`frames::FrameRefTable`].
//!
//! Architecture-specific helpers that are pure data manipulation (bit
//! utilities, the supervisor status register model, and saved trap/user
//! contexts) live in [`bits`], [`csr`] and [`context`].

use vstd::prelude::*;

pub mod aspace;
pub mod backend;
pub mod bits;
pub mod context;
pub mod csr;
pub mod flags;
pub mod frames;
pub mod laws;
pub mod page_table;

verus! {

/// Size in bytes of the smallest page (and of a physical frame).
pub const PAGE_SIZE: usize = 4096;

/// Errors reported by address-space operations.
///
/// - `InvalidInput`: a misaligned or out-of-range request, detected before
///   any mutation.
/// - `AlreadyExists`: the requested virtual range overlaps an existing region.
/// - `NoMemory`: frame or page-table-root allocation failed, or a range to
///   populate is not fully covered by regions.
/// - `BadAddress`: the page table was observed in a state inconsistent with
///   the region's declared backend.
#[derive(Clone, Copy, Debug, PartialEq, Eq, Structural)]
pub enum AxError {
    InvalidInput,
    AlreadyExists,
    NoMemory,
    BadAddress,
}

/// Result type of the fallible operations in this crate.
pub type AxResult<T = ()> = core::result::Result<T, AxError>;

} // verus!
