//! Bit manipulation utilities.

use vstd::prelude::*;

verus! {

/// Set the bit at the specified position to 1.
pub fn set_bit(bits: &mut usize, position: usize)
    requires
        position < usize::BITS,
    ensures
        *final(bits) == (*old(bits) | (1usize << position)),
{
    *bits = *bits | (1usize << position);
}

/// Set the bit at the specified position to 0.
pub fn clear_bit(bits: &mut usize, position: usize)
    requires
        position < usize::BITS,
    ensures
        *final(bits) == (*old(bits) & !(1usize << position)),
{
    *bits = *bits & !(1usize << position);
}

/// Toggle the bit at the specified position.
pub fn toggle_bit(bits: &mut usize, position: usize)
    requires
        position < usize::BITS,
    ensures
        *final(bits) == (*old(bits) ^ (1usize << position)),
{
    *bits = *bits ^ (1usize << position);
}

/// Check if the bit at the specified position is set.
pub fn get_bit(bits: usize, position: usize) -> (r: bool)
    requires
        position < usize::BITS,
    ensures
        r == ((bits & (1usize << position)) != 0),
{
    (bits & (1usize << position)) != 0
}

/// Get the value of the bits at the specified position and width.
pub fn get_bits(bits: usize, position: usize, width: usize) -> (r: usize)
    requires
        position < usize::BITS,
        width < usize::BITS,
    ensures
        r == ((bits & spec_bit_mask(position, width)) >> position),
{
    (bits & bit_mask(position, width)) >> position
}

/// Set the value of the bits at the specified position and width.
pub fn set_bits(bits: &mut usize, position: usize, width: usize, value: usize)
    requires
        position < usize::BITS,
        width < usize::BITS,
    ensures
        *final(bits) == ((*old(bits) & !spec_bit_mask(position, width)) | ((value << position)
            & spec_bit_mask(position, width))),
{
    let mask = bit_mask(position, width);
    *bits = (*bits & !mask) | ((value << position) & mask);
}

/// The mask selecting `width` bits starting at bit `bit`.
pub open spec fn spec_bit_mask(bit: usize, width: usize) -> usize {
    (((1usize << width) - 1) as usize) << bit
}

/// Generate a bit mask for a given bit and width.
pub fn bit_mask(bit: usize, width: usize) -> (r: usize)
    requires
        bit < usize::BITS,
        width < usize::BITS,
    ensures
        r == spec_bit_mask(bit, width),
{
    proof {
        assert(1usize << width >= 1) by (bit_vector)
            requires
                width < usize::BITS,
        ;
    }
    ((1usize << width) - 1) << bit
}

} // verus!
