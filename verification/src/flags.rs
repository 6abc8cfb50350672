//! Permission and attribute flags of a mapping.

use vstd::prelude::*;

verus! {

/// The permission flags of a mapped virtual region or of a memory access.
///
/// A flag set `a` is *contained* in `b` when every permission granted by `a`
/// is also granted by `b`.
#[derive(Debug, Clone, Copy, PartialEq, Eq, Structural)]
pub struct MappingFlags {
    /// The memory is readable.
    pub read: bool,
    /// The memory is writable.
    pub write: bool,
    /// The memory is executable.
    pub execute: bool,
    /// The memory is accessible from user mode.
    pub user: bool,
}

impl MappingFlags {
    /// Whether every permission in `other` is also granted by `self`.
    pub open spec fn spec_contains(self, other: MappingFlags) -> bool {
        &&& (other.read ==> self.read)
        &&& (other.write ==> self.write)
        &&& (other.execute ==> self.execute)
        &&& (other.user ==> self.user)
    }

    /// `self` with the write permission removed.
    pub open spec fn spec_remove_write(self) -> MappingFlags {
        MappingFlags { write: false, ..self }
    }

    /// The empty flag set, granting no permission.
    pub fn empty() -> (r: Self)
        ensures
            r == (MappingFlags { read: false, write: false, execute: false, user: false }),
    {
        MappingFlags { read: false, write: false, execute: false, user: false }
    }

    /// A flag set with the given permissions.
    pub fn new(read: bool, write: bool, execute: bool, user: bool) -> (r: Self)
        ensures
            r == (MappingFlags { read, write, execute, user }),
    {
        MappingFlags { read, write, execute, user }
    }

    /// Returns whether every permission in `other` is also granted by `self`.
    pub fn contains(&self, other: MappingFlags) -> (r: bool)
        ensures
            r == self.spec_contains(other),
    {
        (!other.read || self.read) && (!other.write || self.write) && (!other.execute
            || self.execute) && (!other.user || self.user)
    }

    /// Returns `self` with the write permission removed.
    pub fn remove_write(&self) -> (r: Self)
        ensures
            r == self.spec_remove_write(),
    {
        MappingFlags { write: false, ..*self }
    }
}

} // verus!
