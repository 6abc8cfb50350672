//! RISC-V Control and Status Register (CSR) definitions.
//!
//! [`CsrSstatus`] models the bit layout of the supervisor status register as
//! a plain word; reading and writing the hardware register itself is left to
//! the platform layer.

use vstd::prelude::*;

use crate::bits::clear_bit;
use crate::bits::get_bit;
use crate::bits::get_bits;
use crate::bits::set_bit;
use crate::bits::set_bits;
use crate::bits::spec_bit_mask;

verus! {

/// Bit position of SPIE (Supervisor Previous Interrupt Enable).
pub const BIT_SPIE: usize = 5;

/// Bit position of the low bit of the FS (Floating-point Status) field.
pub const BIT_FS: usize = 13;

/// Bit position of SUM (Supervisor User Memory access).
pub const BIT_SUM: usize = 18;

/// Supervisor Status Register.
#[derive(Clone, Copy, Debug, PartialEq, Eq, Structural)]
pub struct CsrSstatus {
    bits: usize,
}

/// The state of the RISC-V Floating-Point Unit status field (`sstatus.FS`).
///
/// The FS field (bits 13-14 of `sstatus`) tracks the FPU's state to optimize
/// context switching: hardware sets `Dirty` on FPU modification, and software
/// reads the field to decide whether FPU registers must be saved or restored.
#[derive(Clone, Copy, Debug, PartialEq, Eq, Structural)]
pub enum FS {
    /// FPU is disabled; FPU instructions raise an illegal instruction trap.
    Off,
    /// FPU is initialized but not yet used; nothing to save or restore.
    Initial,
    /// FPU state is loaded but unmodified; restore needed, no save needed.
    Clean,
    /// FPU state has been modified and must be saved on a context switch.
    Dirty,
}

/// The two-bit encoding of an [`FS`] state.
pub open spec fn fs_to_bits(fs: FS) -> usize {
    match fs {
        FS::Off => 0,
        FS::Initial => 1,
        FS::Clean => 2,
        FS::Dirty => 3,
    }
}

/// Whether the SPIE bit is set in a status word.
pub open spec fn spec_spie(bits: usize) -> bool {
    bits & (1usize << BIT_SPIE) != 0
}

/// Whether the SUM bit is set in a status word.
pub open spec fn spec_sum(bits: usize) -> bool {
    bits & (1usize << BIT_SUM) != 0
}

/// The two FS bits of a status word.
pub open spec fn spec_fs_bits(bits: usize) -> usize {
    (bits & spec_bit_mask(BIT_FS, 2)) >> BIT_FS
}

impl CsrSstatus {
    /// The raw value of the register.
    pub closed spec fn spec_bits(self) -> usize {
        self.bits
    }

    /// Create a new `CsrSstatus` instance with all bits clear.
    pub fn new() -> (r: Self)
        ensures
            r.spec_bits() == 0,
    {
        Self { bits: 0 }
    }

    /// Returns the raw value of the register.
    pub fn bits(&self) -> (r: usize)
        ensures
            r == self.spec_bits(),
    {
        self.bits
    }

    /// SPIE: Supervisor Previous Interrupt Enable.
    pub fn get_spie(&self) -> (r: bool)
        ensures
            r == spec_spie(self.spec_bits()),
    {
        get_bit(self.bits, BIT_SPIE)
    }

    /// SPIE: Supervisor Previous Interrupt Enable.
    pub fn set_spie(&mut self, value: bool)
        ensures
            final(self).spec_bits() == (if value {
                old(self).spec_bits() | (1usize << BIT_SPIE)
            } else {
                old(self).spec_bits() & !(1usize << BIT_SPIE)
            }),
            spec_spie(final(self).spec_bits()) == value,
            spec_sum(final(self).spec_bits()) == spec_sum(old(self).spec_bits()),
            spec_fs_bits(final(self).spec_bits()) == spec_fs_bits(old(self).spec_bits()),
    {
        let ghost b = self.bits;
        if value {
            set_bit(&mut self.bits, BIT_SPIE);
            proof {
                lemma_set_low_bit_effects(b, self.bits);
            }
        } else {
            clear_bit(&mut self.bits, BIT_SPIE);
            proof {
                lemma_clear_low_bit_effects(b, self.bits);
            }
        }
    }

    /// SUM: Supervisor User Memory Access.
    pub fn get_sum(&self) -> (r: bool)
        ensures
            r == spec_sum(self.spec_bits()),
    {
        get_bit(self.bits, BIT_SUM)
    }

    /// SUM: Supervisor User Memory Access.
    pub fn set_sum(&mut self, value: bool)
        ensures
            final(self).spec_bits() == (if value {
                old(self).spec_bits() | (1usize << BIT_SUM)
            } else {
                old(self).spec_bits() & !(1usize << BIT_SUM)
            }),
            spec_sum(final(self).spec_bits()) == value,
            spec_spie(final(self).spec_bits()) == spec_spie(old(self).spec_bits()),
            spec_fs_bits(final(self).spec_bits()) == spec_fs_bits(old(self).spec_bits()),
    {
        let ghost b = self.bits;
        if value {
            set_bit(&mut self.bits, BIT_SUM);
            proof {
                lemma_set_high_bit_effects(b, self.bits);
            }
        } else {
            clear_bit(&mut self.bits, BIT_SUM);
            proof {
                lemma_clear_high_bit_effects(b, self.bits);
            }
        }
    }

    /// FS: Floating Point Status.
    pub fn get_fs(&self) -> (r: FS)
        ensures
            fs_to_bits(r) == spec_fs_bits(self.spec_bits()),
    {
        let ghost b = self.bits;
        let fs_bits = get_bits(self.bits, BIT_FS, 2);
        proof {
            assert((b & spec_bit_mask(BIT_FS, 2)) >> BIT_FS < 4) by (bit_vector);
        }
        match fs_bits {
            0 => FS::Off,
            1 => FS::Initial,
            2 => FS::Clean,
            _ => FS::Dirty,
        }
    }

    /// FS: Floating Point Status.
    pub fn set_fs(&mut self, fs: FS)
        ensures
            final(self).spec_bits() == ((old(self).spec_bits() & !spec_bit_mask(BIT_FS, 2)) | ((
            fs_to_bits(fs) << BIT_FS) & spec_bit_mask(BIT_FS, 2))),
            spec_fs_bits(final(self).spec_bits()) == fs_to_bits(fs),
            spec_spie(final(self).spec_bits()) == spec_spie(old(self).spec_bits()),
            spec_sum(final(self).spec_bits()) == spec_sum(old(self).spec_bits()),
    {
        let ghost b = self.bits;
        let value = match fs {
            FS::Off => 0,
            FS::Initial => 1,
            FS::Clean => 2,
            FS::Dirty => 3,
        };
        set_bits(&mut self.bits, BIT_FS, 2, value);
        proof {
            lemma_set_fs_effects(b, self.bits, value);
        }
    }
}

/// Setting the SPIE bit sets it, and leaves SUM and FS unchanged.
proof fn lemma_set_low_bit_effects(b: usize, r: usize)
    requires
        r == (b | (1usize << BIT_SPIE)),
    ensures
        spec_spie(r),
        spec_sum(r) == spec_sum(b),
        spec_fs_bits(r) == spec_fs_bits(b),
{
    assert((b | (1usize << 5)) & (1usize << 5) != 0) by (bit_vector);
    assert(((b | (1usize << 5)) & (1usize << 18) != 0) == (b & (1usize << 18) != 0))
        by (bit_vector);
    assert(((b | (1usize << 5)) & spec_bit_mask(13, 2)) >> 13 == (b & spec_bit_mask(13, 2)) >> 13)
        by (bit_vector);
}

/// Clearing the SPIE bit clears it, and leaves SUM and FS unchanged.
proof fn lemma_clear_low_bit_effects(b: usize, r: usize)
    requires
        r == (b & !(1usize << BIT_SPIE)),
    ensures
        !spec_spie(r),
        spec_sum(r) == spec_sum(b),
        spec_fs_bits(r) == spec_fs_bits(b),
{
    assert((b & !(1usize << 5)) & (1usize << 5) == 0) by (bit_vector);
    assert(((b & !(1usize << 5)) & (1usize << 18) != 0) == (b & (1usize << 18) != 0))
        by (bit_vector);
    assert(((b & !(1usize << 5)) & spec_bit_mask(13, 2)) >> 13 == (b & spec_bit_mask(13, 2)) >> 13)
        by (bit_vector);
}

/// Setting the SUM bit sets it, and leaves SPIE and FS unchanged.
proof fn lemma_set_high_bit_effects(b: usize, r: usize)
    requires
        r == (b | (1usize << BIT_SUM)),
    ensures
        spec_sum(r),
        spec_spie(r) == spec_spie(b),
        spec_fs_bits(r) == spec_fs_bits(b),
{
    assert((b | (1usize << 18)) & (1usize << 18) != 0) by (bit_vector);
    assert(((b | (1usize << 18)) & (1usize << 5) != 0) == (b & (1usize << 5) != 0))
        by (bit_vector);
    assert(((b | (1usize << 18)) & spec_bit_mask(13, 2)) >> 13 == (b & spec_bit_mask(13, 2)) >> 13)
        by (bit_vector);
}

/// Clearing the SUM bit clears it, and leaves SPIE and FS unchanged.
proof fn lemma_clear_high_bit_effects(b: usize, r: usize)
    requires
        r == (b & !(1usize << BIT_SUM)),
    ensures
        !spec_sum(r),
        spec_spie(r) == spec_spie(b),
        spec_fs_bits(r) == spec_fs_bits(b),
{
    assert((b & !(1usize << 18)) & (1usize << 18) == 0) by (bit_vector);
    assert(((b & !(1usize << 18)) & (1usize << 5) != 0) == (b & (1usize << 5) != 0))
        by (bit_vector);
    assert(((b & !(1usize << 18)) & spec_bit_mask(13, 2)) >> 13 == (b & spec_bit_mask(13, 2)) >> 13)
        by (bit_vector);
}

/// Writing the two FS bits stores the given value and leaves SPIE and SUM
/// unchanged.
proof fn lemma_set_fs_effects(b: usize, r: usize, value: usize)
    requires
        value < 4,
        r == ((b & !spec_bit_mask(BIT_FS, 2)) | ((value << BIT_FS) & spec_bit_mask(BIT_FS, 2))),
    ensures
        spec_fs_bits(r) == value,
        spec_spie(r) == spec_spie(b),
        spec_sum(r) == spec_sum(b),
{
    let m = spec_bit_mask(13, 2);
    assert((((b & !spec_bit_mask(13, 2)) | ((value << 13) & spec_bit_mask(13, 2))) & spec_bit_mask(
        13,
        2,
    )) >> 13 == value) by (bit_vector)
        requires
            value < 4,
    ;
    assert((((b & !spec_bit_mask(13, 2)) | ((value << 13) & spec_bit_mask(13, 2))) & (1usize << 5)
        != 0) == (b & (1usize << 5) != 0)) by (bit_vector);
    assert((((b & !spec_bit_mask(13, 2)) | ((value << 13) & spec_bit_mask(13, 2))) & (1usize << 18)
        != 0) == (b & (1usize << 18) != 0)) by (bit_vector);
}

} // verus!
