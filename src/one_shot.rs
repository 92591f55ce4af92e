//! Models for a stream of exactly one symbol: no EOF, no length to count.
use crate::bitstore::BitStore;
use crate::fixed_length;
use crate::model::{interval_contains, interval_within};
use std::ops::Range;
use vstd::prelude::*;

verus! {

/// A model of a single symbol. [`Wrapper`] turns it into a
/// [`crate::Model`], as a fixed-length model of length one.
pub trait Model: Sized {
    /// The integer type that the model counts in.
    type B: BitStore;

    /// The alphabet.
    type Symbol;

    /// The error for a symbol that the model does not know.
    type ValueError;

    /// What the model's behaviour depends on, as a value.
    type Snapshot;

    /// The model's current snapshot.
    spec fn snapshot(&self) -> Self::Snapshot;

    /// Whether a snapshot is consistent.
    spec fn valid(m: Self::Snapshot) -> bool;

    /// The denominator.
    spec fn spec_denominator(m: Self::Snapshot) -> nat;

    /// The bound on the denominator.
    spec fn spec_max_denominator(m: Self::Snapshot) -> nat;

    /// The symbol that the model reads at the point `value`.
    spec fn spec_symbol(m: Self::Snapshot, value: nat) -> Self::Symbol;

    /// The interval of a symbol, or `None` where the model rejects it.
    spec fn spec_probability(m: Self::Snapshot, symbol: Self::Symbol) -> Option<(nat, nat)>;

    /// The error that the model gives for a symbol it rejects.
    spec fn spec_error(m: Self::Snapshot, symbol: Self::Symbol) -> Self::ValueError;

    /// A consistent snapshot has a positive denominator within its maximum.
    proof fn lemma_denominator(m: Self::Snapshot)
        requires
            Self::valid(m),
        ensures
            0 < Self::spec_denominator(m) <= Self::spec_max_denominator(m),
    ;

    /// The interval of an accepted symbol is a non-empty part of the axis.
    proof fn lemma_interval(m: Self::Snapshot, symbol: Self::Symbol)
        requires
            Self::valid(m),
            Self::spec_probability(m, symbol) is Some,
        ensures
            interval_within(Self::spec_probability(m, symbol), Self::spec_denominator(m)),
    ;

    /// The symbol whose interval holds a point is the one read there.
    proof fn lemma_owner(m: Self::Snapshot, symbol: Self::Symbol, value: nat)
        requires
            Self::valid(m),
            interval_contains(Self::spec_probability(m, symbol), value),
        ensures
            Self::spec_symbol(m, value) == symbol,
    ;

    /// The interval of `symbol`, or the model's error.
    fn probability(&self, symbol: &Self::Symbol) -> (r: Result<Range<Self::B>, Self::ValueError>)
        requires
            Self::valid(self.snapshot()),
        ensures
            match r {
                Ok(range) => {
                    &&& Self::spec_probability(self.snapshot(), *symbol) == Some(
                        (range.start.spec_value(), range.end.spec_value()),
                    )
                    &&& range.start.spec_value() < range.end.spec_value()
                    &&& range.end.spec_value() <= Self::spec_denominator(self.snapshot())
                },
                Err(e) => {
                    &&& Self::spec_probability(self.snapshot(), *symbol) is None
                    &&& e == Self::spec_error(self.snapshot(), *symbol)
                },
            },
    ;

    /// The denominator of the intervals.
    fn denominator(&self) -> (r: Self::B)
        requires
            Self::valid(self.snapshot()),
        ensures
            r.spec_value() == Self::spec_denominator(self.snapshot()),
            0 < r.spec_value() <= Self::spec_max_denominator(self.snapshot()),
    ;

    /// The bound on the denominator.
    fn max_denominator(&self) -> (r: Self::B)
        requires
            Self::valid(self.snapshot()),
        ensures
            r.spec_value() == Self::spec_max_denominator(self.snapshot()),
    ;

    /// The symbol whose interval holds `value`.
    fn symbol(&self, value: Self::B) -> (r: Self::Symbol)
        requires
            Self::valid(self.snapshot()),
            value.spec_value() < Self::spec_denominator(self.snapshot()),
        ensures
            r == Self::spec_symbol(self.snapshot(), value.spec_value()),
            interval_contains(Self::spec_probability(self.snapshot(), r), value.spec_value()),
    ;
}

/// A one-shot model seen as a fixed-length model of length one.
pub struct Single<M: Model> {
    model: M,
}

impl<M: Model> Single<M> {
    /// The model, as a stream of one symbol.
    pub fn new(model: M) -> (r: Self)
        ensures
            <Self as fixed_length::Model>::snapshot(&r) == model.snapshot(),
    {
        Single { model }
    }
}

impl<M: Model> fixed_length::Model for Single<M> {
    type B = M::B;

    type Symbol = M::Symbol;

    type ValueError = M::ValueError;

    type Snapshot = M::Snapshot;

    closed spec fn snapshot(&self) -> M::Snapshot {
        self.model.snapshot()
    }

    open spec fn valid(m: M::Snapshot) -> bool {
        M::valid(m)
    }

    open spec fn spec_denominator(m: M::Snapshot) -> nat {
        M::spec_denominator(m)
    }

    open spec fn spec_max_denominator(m: M::Snapshot) -> nat {
        M::spec_max_denominator(m)
    }

    open spec fn spec_length(m: M::Snapshot) -> nat {
        1
    }

    open spec fn spec_symbol(m: M::Snapshot, value: nat) -> M::Symbol {
        M::spec_symbol(m, value)
    }

    open spec fn spec_probability(m: M::Snapshot, symbol: M::Symbol) -> Option<(nat, nat)> {
        M::spec_probability(m, symbol)
    }

    open spec fn spec_error(m: M::Snapshot, symbol: M::Symbol) -> M::ValueError {
        M::spec_error(m, symbol)
    }

    open spec fn spec_updated(m: M::Snapshot, symbol: M::Symbol) -> M::Snapshot {
        m
    }

    proof fn lemma_denominator(m: M::Snapshot) {
        M::lemma_denominator(m);
    }

    proof fn lemma_interval(m: M::Snapshot, symbol: M::Symbol) {
        M::lemma_interval(m, symbol);
    }

    proof fn lemma_owner(m: M::Snapshot, symbol: M::Symbol, value: nat) {
        M::lemma_owner(m, symbol, value);
    }

    fn probability(&self, symbol: &M::Symbol) -> (r: Result<Range<M::B>, M::ValueError>) {
        self.model.probability(symbol)
    }

    fn denominator(&self) -> (r: M::B) {
        self.model.denominator()
    }

    fn max_denominator(&self) -> (r: M::B) {
        self.model.max_denominator()
    }

    fn symbol(&self, value: M::B) -> (r: M::Symbol) {
        self.model.symbol(value)
    }

    fn length(&self) -> (r: usize) {
        1
    }

    fn update(&mut self, symbol: &M::Symbol) {
    }
}

/// A one-shot model seen as a general one.
pub type Wrapper<M> = fixed_length::Wrapper<Single<M>>;

/// The general model of a one-shot model: one symbol, then EOF at no cost.
pub fn wrap<M: Model>(model: M) -> (r: Wrapper<M>)
    requires
        M::valid(model.snapshot()),
    ensures
        <Wrapper<M> as crate::model::Model>::snapshot(&r) == (model.snapshot(), 1nat),
{
    fixed_length::Wrapper::new(Single::new(model))
}

} // verus!
