//! The lowest set bit of an index, which shapes a Fenwick tree.
use vstd::prelude::*;

verus! {

/// The lowest set bit of `i` (0 for 0).
pub open spec fn lowbit(i: u64) -> u64 {
    i & (!i).wrapping_add(1)
}

/// The lowest set bit of a positive index is positive and at most the index.
pub proof fn lemma_lowbit_bounds(i: u64)
    requires
        i > 0,
    ensures
        0 < lowbit(i) <= i,
{
    assert(i > 0 ==> 0 < (i & (!i).wrapping_add(1)) <= i) by (bit_vector);
}

/// Past an index `i`, and before `i + lowbit(i)`, no index reaches back to
/// `i` or below: `j - lowbit(j) >= i`.
pub proof fn lemma_lowbit_gap(i: u64, j: u64)
    requires
        i > 0,
        i < j,
        j < i + lowbit(i),
        i + lowbit(i) <= u64::MAX,
    ensures
        j - lowbit(j) >= i,
{
    assert(i > 0 && i < j && (j as int) < (i as int) + ((i & (!i).wrapping_add(1)) as int)
        ==> j - (j & (!j).wrapping_add(1)) >= i) by (bit_vector);
}

/// The next index of an update, `i + lowbit(i)`, has a lowest bit at least
/// twice that of `i`.
pub proof fn lemma_lowbit_next(i: u64)
    requires
        i > 0,
        i + lowbit(i) <= u64::MAX,
    ensures
        lowbit((i + lowbit(i)) as u64) >= 2 * lowbit(i),
{
    let l = lowbit(i);
    assert(i > 0 && l == (i & (!i).wrapping_add(1)) && (i as int) + (l as int) <= u64::MAX
        ==> (((i + l) as u64) & (!((i + l) as u64)).wrapping_add(1)) >= 2 * l) by (bit_vector);
}

/// Halfway through an aligned block: where `pos` is a multiple of the power
/// of two `width`, the lowest bit of `pos + width / 2` is `width / 2`.
pub proof fn lemma_lowbit_half(pos: u64, width: u64)
    requires
        width >= 2,
        width & (width - 1) as u64 == 0,
        pos & (width - 1) as u64 == 0,
        pos + width / 2 <= u64::MAX,
    ensures
        lowbit((pos + width / 2) as u64) == width / 2,
{
    assert(width >= 2 && (width & (width - 1) as u64) == 0 && (pos & (width - 1) as u64) == 0 && (pos as int)
        + ((width / 2) as int) <= u64::MAX ==> ((((pos + width / 2) as u64) & (!((pos + width
        / 2) as u64)).wrapping_add(1)) == width / 2)) by (bit_vector);
}

/// The lowest set bit of `i`.
pub fn lowest_bit(i: u64) -> (r: u64)
    ensures
        r == lowbit(i),
{
    i & (!i).wrapping_add(1)
}

} // verus!
