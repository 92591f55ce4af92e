//! An adaptive model with one set of weights, updated with every symbol.
use super::context_switching::ValueError;
use super::{
    added, bucket, bucket_range, counts_wf, known, symbol_of, total_of, Weights, MAX_BUCKETS,
};
use crate::model::Model;
use std::ops::Range;
use vstd::prelude::*;

verus! {

/// A snapshot `(counts, max_denominator)` is consistent: the counts are, and
/// their total is within the maximum.
pub open spec fn consistent(m: (Seq<u64>, u64)) -> bool {
    &&& counts_wf(m.0)
    &&& total_of(m.0) <= m.1
}

/// The snapshot after one symbol: its frequency grows by one, unless the
/// total has reached the maximum or the symbol is not in the alphabet.
pub open spec fn updated(m: (Seq<u64>, u64), symbol: Option<usize>) -> (Seq<u64>, u64) {
    if total_of(m.0) < m.1 && known(m.0, symbol) {
        (added(m.0, bucket(symbol), 1), m.1)
    } else {
        m
    }
}

/// An adaptive model over the symbols `0..n` and EOF. Each symbol seen adds
/// one to its frequency, until the total reaches the maximum denominator;
/// from there on the distribution stays as it is.
pub struct FenwickModel {
    weights: Weights,
    max_denominator: u64,
    panic_on_saturation: bool,
}

/// Builds a [`FenwickModel`].
pub struct Builder {
    model: FenwickModel,
}

impl Builder {
    /// The model being built.
    pub closed spec fn spec_model(&self) -> FenwickModel {
        self.model
    }

    /// A model over `n_symbols` symbols, all frequencies one.
    fn new(n_symbols: usize, max_denominator: u64) -> (r: Self)
        requires
            n_symbols < MAX_BUCKETS,
            n_symbols + 2 <= usize::MAX,
            n_symbols + 1 <= max_denominator,
        ensures
            r.spec_model().snapshot() == (
                Seq::new((n_symbols + 2) as nat, |i: int| i as u64),
                max_denominator,
                false,
            ),
            FenwickModel::valid(r.spec_model().snapshot()),
            !r.spec_model().spec_panic_on_saturation(),
    {
        let weights = Weights::new(n_symbols);
        let model = FenwickModel { weights, max_denominator, panic_on_saturation: false };
        Self { model }
    }

    /// Marks saturation as a fault for this model's users. The model's
    /// intervals do not depend on the mark: a saturated model freezes either
    /// way, and an update never panics. Users that treat saturation as a
    /// fault read the mark with [`FenwickModel::panics_on_saturation`] and
    /// test [`FenwickModel::saturated`].
    pub fn panic_on_saturation(self) -> (r: Self)
        ensures
            r.spec_model().snapshot() == (
                self.spec_model().snapshot().0,
                self.spec_model().snapshot().1,
                true,
            ),
            r.spec_model().spec_panic_on_saturation(),
    {
        let mut model = self.model;
        model.panic_on_saturation = true;
        Self { model }
    }

    /// The model.
    pub fn build(self) -> (r: FenwickModel)
        ensures
            r == self.spec_model(),
    {
        self.model
    }
}

impl FenwickModel {
    /// Whether the model asked for saturation to be treated as a fault.
    pub closed spec fn spec_panic_on_saturation(&self) -> bool {
        self.panic_on_saturation
    }

    /// A builder for a model over `n_symbols` symbols whose denominator stops
    /// growing at `max_denominator`.
    pub fn builder(n_symbols: usize, max_denominator: u64) -> (r: Builder)
        requires
            n_symbols < MAX_BUCKETS,
            n_symbols + 2 <= usize::MAX,
            n_symbols + 1 <= max_denominator,
        ensures
            r.spec_model().snapshot() == (
                Seq::new((n_symbols + 2) as nat, |i: int| i as u64),
                max_denominator,
                false,
            ),
            FenwickModel::valid(r.spec_model().snapshot()),
            !r.spec_model().spec_panic_on_saturation(),
    {
        Builder::new(n_symbols, max_denominator)
    }

    /// Whether the model asked for saturation to be treated as a fault.
    pub fn panics_on_saturation(&self) -> (r: bool)
        ensures
            r == self.spec_panic_on_saturation(),
    {
        self.panic_on_saturation
    }

    /// Whether the total has reached the maximum denominator, so that the
    /// model no longer changes.
    pub fn saturated(&self) -> (r: bool)
        requires
            FenwickModel::valid(self.snapshot()),
        ensures
            r == (total_of(self.snapshot().0) >= self.snapshot().1),
    {
        self.weights.total() >= self.max_denominator
    }
}

impl Model for FenwickModel {
    type B = u64;

    type Symbol = usize;

    type ValueError = ValueError;

    /// The cumulative counts, the maximum denominator, and whether
    /// saturation is a fault.
    type Snapshot = (Seq<u64>, u64, bool);

    closed spec fn snapshot(&self) -> (Seq<u64>, u64, bool) {
        (self.weights.counts(), self.max_denominator, self.panic_on_saturation)
    }

    open spec fn valid(m: (Seq<u64>, u64, bool)) -> bool {
        consistent((m.0, m.1))
    }

    open spec fn spec_denominator(m: (Seq<u64>, u64, bool)) -> nat {
        total_of(m.0)
    }

    open spec fn spec_max_denominator(m: (Seq<u64>, u64, bool)) -> nat {
        m.1 as nat
    }

    open spec fn spec_symbol(m: (Seq<u64>, u64, bool), value: nat) -> Option<usize> {
        symbol_of(m.0, value)
    }

    open spec fn spec_probability(m: (Seq<u64>, u64, bool), symbol: Option<usize>) -> Option<
        (nat, nat),
    > {
        if known(m.0, symbol) {
            Some(bucket_range(m.0, bucket(symbol)))
        } else {
            None
        }
    }

    open spec fn spec_error(m: (Seq<u64>, u64, bool), symbol: Option<usize>) -> ValueError {
        ValueError(
            match symbol {
                Some(s) => s,
                None => 0,
            },
        )
    }

    open spec fn spec_updated(m: (Seq<u64>, u64, bool), symbol: Option<usize>) -> (
        Seq<u64>,
        u64,
        bool,
    ) {
        let next = updated((m.0, m.1), symbol);
        (next.0, next.1, m.2)
    }

    proof fn lemma_denominator(m: (Seq<u64>, u64, bool)) {
        assert(m.0[0] < m.0[m.0.len() - 1]);
    }

    proof fn lemma_interval(m: (Seq<u64>, u64, bool), symbol: Option<usize>) {
        let c = m.0;
        assert(c[0] < c[c.len() - 1]);
        let b = bucket(symbol);
        if b + 1 < c.len() - 1 {
            assert(c[b + 1int] < c[c.len() - 1]);
        }
        assert(c[b as int] < c[b + 1int]);
        super::saturation::lemma_update_valid((m.0, m.1), symbol);
    }

    proof fn lemma_owner(m: (Seq<u64>, u64, bool), symbol: Option<usize>, value: nat) {
        super::lemma_bucket_of(m.0, value, bucket(symbol));
    }

    fn probability(&self, symbol: Option<&usize>) -> (r: Result<Range<u64>, ValueError>) {
        match symbol {
            None => Ok(self.weights.range(None)),
            Some(s) => {
                if *s < self.weights.len() {
                    Ok(self.weights.range(Some(*s)))
                } else {
                    Err(ValueError(*s))
                }
            },
        }
    }

    fn denominator(&self) -> (r: u64) {
        proof {
            let c = self.weights.counts();
            assert(c[0] < c[c.len() - 1]);
        }
        self.weights.total()
    }

    fn max_denominator(&self) -> (r: u64) {
        self.max_denominator
    }

    fn symbol(&self, value: u64) -> (r: Option<usize>) {
        self.weights.symbol(value)
    }

    fn update(&mut self, symbol: Option<&usize>) {
        if self.weights.total() < self.max_denominator {
            match symbol {
                None => self.weights.update(None, 1),
                Some(s) => {
                    if *s < self.weights.len() {
                        self.weights.update(Some(*s), 1);
                    }
                },
            }
        }
    }
}

} // verus!
