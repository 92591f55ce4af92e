//! The adaptive model's denominator stays within its maximum.
use super::simple::{consistent, updated};
use super::{added, bucket, known, total_of};
use vstd::prelude::*;

verus! {

/// The snapshot of a [`super::simple::FenwickModel`] after it has taken in
/// each of `symbols` in turn.
pub open spec fn updated_all(m: (Seq<u64>, u64), symbols: Seq<Option<usize>>) -> (Seq<u64>, u64)
    decreases symbols.len(),
{
    if symbols.len() == 0 {
        m
    } else {
        updated_all(updated(m, symbols[0]), symbols.drop_first())
    }
}

/// One update keeps the model consistent and its denominator within the
/// maximum.
pub proof fn lemma_update_valid(m: (Seq<u64>, u64), symbol: Option<usize>)
    requires
        consistent(m),
    ensures
        consistent(updated(m, symbol)),
        updated(m, symbol).1 == m.1,
{
    let c = m.0;
    if total_of(c) < m.1 && known(c, symbol) {
        let k = bucket(symbol);
        let a = added(c, k, 1);
        assert forall|i: int, j: int| 0 <= i < j < a.len() implies a[i] < a[j] by {
            assert(c[i] < c[j]);
            if j < c.len() - 1 {
                assert(c[j] < c[c.len() - 1]);
            }
        }
    }
}

/// Saturation: however many symbols a consistent model takes in, and
/// whichever, its denominator never exceeds its maximum denominator, and the
/// maximum stays where it was.
pub proof fn lemma_saturation(m: (Seq<u64>, u64), symbols: Seq<Option<usize>>)
    requires
        consistent(m),
    ensures
        consistent(updated_all(m, symbols)),
        total_of(updated_all(m, symbols).0) <= m.1,
        updated_all(m, symbols).1 == m.1,
    decreases symbols.len(),
{
    if symbols.len() > 0 {
        lemma_update_valid(m, symbols[0]);
        lemma_saturation(updated(m, symbols[0]), symbols.drop_first());
    }
}

} // verus!
