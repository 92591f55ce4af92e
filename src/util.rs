//! The choice of precision.
use crate::bitstore::{log2_floor, BitStore};
use vstd::prelude::*;

verus! {

/// The number of bits that the frequencies up to `max_denominator` take.
pub open spec fn frequency_bits(max_denominator: nat) -> nat {
    log2_floor(max_denominator) + 1
}

/// Whether `precision` bits leave enough room for a model whose denominators
/// stay at or below `max_denominator`, in a type `bits` wide: at least two
/// bits beyond the frequency bits, and no more than the type holds beside
/// them.
pub open spec fn precision_sufficient(max_denominator: nat, precision: nat, bits: nat) -> bool {
    &&& max_denominator > 0
    &&& precision >= frequency_bits(max_denominator) + 2
    &&& frequency_bits(max_denominator) + precision <= bits
}

/// Whether the coder can run at `precision` for such a model: the precision
/// is sufficient, and has one more bit beyond the frequency bits. With that
/// bit, every interval between two symbols is more than twice as wide as any
/// denominator, so a scaled interval keeps at least two points and each
/// renormalisation ends.
pub open spec fn precision_workable(max_denominator: nat, precision: nat, bits: nat) -> bool {
    &&& precision_sufficient(max_denominator, precision, bits)
    &&& precision >= frequency_bits(max_denominator) + 3
}

/// The largest precision that a model with the given maximum denominator
/// allows: the width of the type less the frequency bits.
pub fn precision<B: BitStore>(max_denominator: B) -> (r: u32)
    requires
        max_denominator.spec_value() > 0,
        2 * frequency_bits(max_denominator.spec_value()) + 2 <= B::spec_bits(),
    ensures
        r as nat + frequency_bits(max_denominator.spec_value()) == B::spec_bits(),
{
    proof {
        max_denominator.lemma_range();
        crate::bitstore::lemma_log2_floor_bounds(max_denominator.spec_value());
        if log2_floor(max_denominator.spec_value()) >= B::spec_bits() {
            crate::bitstore::lemma_pow2_le(
                B::spec_bits(),
                log2_floor(max_denominator.spec_value()),
            );
        }
    }
    let frequency_bits = max_denominator.log2() + 1;
    B::bits() - frequency_bits
}

} // verus!
