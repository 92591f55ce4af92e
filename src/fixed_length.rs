//! Models for streams whose length both ends know in advance: no EOF symbol
//! takes up room in the probability space.
use crate::bitstore::BitStore;
use crate::model::{interval_contains, interval_within};
use crate::model::Model as CodingModel;
use std::ops::Range;
use vstd::prelude::*;

verus! {

/// Why an adapter refused a symbol.
pub enum Error<E> {
    /// A symbol came after the last one that the stream has room for.
    UnexpectedSymbol,
    /// The stream ended before the symbols it promised.
    UnexpectedEof,
    /// The inner model rejected the symbol.
    ValueError(E),
}

/// A model of a stream of exactly [`Model::length`] symbols. It states the
/// intervals of its symbols only; [`Wrapper`] turns it into a
/// [`crate::Model`].
pub trait Model: Sized {
    /// The integer type that the model counts in.
    type B: BitStore;

    /// The alphabet.
    type Symbol;

    /// The error for a symbol that the model does not know.
    type ValueError;

    /// What the model's behaviour depends on, as a value.
    type Snapshot;

    /// The model's current snapshot.
    spec fn snapshot(&self) -> Self::Snapshot;

    /// Whether a snapshot is consistent.
    spec fn valid(m: Self::Snapshot) -> bool;

    /// The current denominator.
    spec fn spec_denominator(m: Self::Snapshot) -> nat;

    /// The bound on the denominator over the model's whole life.
    spec fn spec_max_denominator(m: Self::Snapshot) -> nat;

    /// The number of symbols in the stream.
    spec fn spec_length(m: Self::Snapshot) -> nat;

    /// The symbol that the model reads at the point `value`.
    spec fn spec_symbol(m: Self::Snapshot, value: nat) -> Self::Symbol;

    /// The interval of a symbol, or `None` where the model rejects it.
    spec fn spec_probability(m: Self::Snapshot, symbol: Self::Symbol) -> Option<(nat, nat)>;

    /// The error that the model gives for a symbol it rejects.
    spec fn spec_error(m: Self::Snapshot, symbol: Self::Symbol) -> Self::ValueError;

    /// The snapshot after the model has taken `symbol` into account.
    spec fn spec_updated(m: Self::Snapshot, symbol: Self::Symbol) -> Self::Snapshot;

    /// A consistent snapshot has a positive denominator within its maximum.
    proof fn lemma_denominator(m: Self::Snapshot)
        requires
            Self::valid(m),
        ensures
            0 < Self::spec_denominator(m) <= Self::spec_max_denominator(m),
    ;

    /// The interval of an accepted symbol is a non-empty part of the axis,
    /// and taking the symbol in keeps the snapshot consistent.
    proof fn lemma_interval(m: Self::Snapshot, symbol: Self::Symbol)
        requires
            Self::valid(m),
            Self::spec_probability(m, symbol) is Some,
        ensures
            interval_within(Self::spec_probability(m, symbol), Self::spec_denominator(m)),
            Self::valid(Self::spec_updated(m, symbol)),
            Self::spec_max_denominator(Self::spec_updated(m, symbol)) == Self::spec_max_denominator(m),
    ;

    /// The symbol whose interval holds a point is the one read there.
    proof fn lemma_owner(m: Self::Snapshot, symbol: Self::Symbol, value: nat)
        requires
            Self::valid(m),
            interval_contains(Self::spec_probability(m, symbol), value),
        ensures
            Self::spec_symbol(m, value) == symbol,
    ;

    /// The interval of `symbol`, or the model's error.
    fn probability(&self, symbol: &Self::Symbol) -> (r: Result<Range<Self::B>, Self::ValueError>)
        requires
            Self::valid(self.snapshot()),
        ensures
            match r {
                Ok(range) => {
                    &&& Self::spec_probability(self.snapshot(), *symbol) == Some(
                        (range.start.spec_value(), range.end.spec_value()),
                    )
                    &&& range.start.spec_value() < range.end.spec_value()
                    &&& range.end.spec_value() <= Self::spec_denominator(self.snapshot())
                },
                Err(e) => {
                    &&& Self::spec_probability(self.snapshot(), *symbol) is None
                    &&& e == Self::spec_error(self.snapshot(), *symbol)
                },
            },
    ;

    /// The current denominator of the intervals.
    fn denominator(&self) -> (r: Self::B)
        requires
            Self::valid(self.snapshot()),
        ensures
            r.spec_value() == Self::spec_denominator(self.snapshot()),
            0 < r.spec_value() <= Self::spec_max_denominator(self.snapshot()),
    ;

    /// The largest denominator that the model will ever use.
    fn max_denominator(&self) -> (r: Self::B)
        requires
            Self::valid(self.snapshot()),
        ensures
            r.spec_value() == Self::spec_max_denominator(self.snapshot()),
    ;

    /// The symbol whose interval holds `value`.
    fn symbol(&self, value: Self::B) -> (r: Self::Symbol)
        requires
            Self::valid(self.snapshot()),
            value.spec_value() < Self::spec_denominator(self.snapshot()),
        ensures
            r == Self::spec_symbol(self.snapshot(), value.spec_value()),
            interval_contains(Self::spec_probability(self.snapshot(), r), value.spec_value()),
    ;

    /// The number of symbols in the stream.
    fn length(&self) -> (r: usize)
        requires
            Self::valid(self.snapshot()),
        ensures
            r == Self::spec_length(self.snapshot()),
    ;

    /// Takes the latest symbol into account.
    fn update(&mut self, symbol: &Self::Symbol)
        requires
            Self::valid(old(self).snapshot()),
        ensures
            final(self).snapshot() == Self::spec_updated(old(self).snapshot(), *symbol),
            Self::valid(final(self).snapshot()),
            Self::spec_max_denominator(final(self).snapshot()) == Self::spec_max_denominator(
                old(self).snapshot(),
            ),
    ;
}

/// A fixed-length model seen as a general one: it counts the symbols still
/// to come, and EOF is certain (the whole interval) once none is left.
pub struct Wrapper<M: Model> {
    model: M,
    remaining: usize,
}

impl<M: Model> Wrapper<M> {
    /// The wrapped model, with all its symbols still to come.
    pub fn new(model: M) -> (r: Self)
        requires
            M::valid(model.snapshot()),
        ensures
            r.snapshot() == (model.snapshot(), M::spec_length(model.snapshot())),
    {
        let remaining = model.length();
        Self { model, remaining }
    }

    /// The number of symbols still to come.
    pub fn remaining(&self) -> (r: usize)
        ensures
            r == self.snapshot().1,
    {
        self.remaining
    }
}

impl<M: Model> CodingModel for Wrapper<M> {
    type B = M::B;

    type Symbol = M::Symbol;

    type ValueError = Error<M::ValueError>;

    type Snapshot = (M::Snapshot, nat);

    closed spec fn snapshot(&self) -> (M::Snapshot, nat) {
        (self.model.snapshot(), self.remaining as nat)
    }

    open spec fn valid(m: (M::Snapshot, nat)) -> bool {
        M::valid(m.0)
    }

    open spec fn spec_denominator(m: (M::Snapshot, nat)) -> nat {
        M::spec_denominator(m.0)
    }

    open spec fn spec_max_denominator(m: (M::Snapshot, nat)) -> nat {
        M::spec_max_denominator(m.0)
    }

    open spec fn spec_symbol(m: (M::Snapshot, nat), value: nat) -> Option<M::Symbol> {
        if m.1 > 0 {
            Some(M::spec_symbol(m.0, value))
        } else {
            None
        }
    }

    open spec fn spec_probability(m: (M::Snapshot, nat), symbol: Option<M::Symbol>) -> Option<
        (nat, nat),
    > {
        match symbol {
            Some(s) => if m.1 > 0 {
                M::spec_probability(m.0, s)
            } else {
                None
            },
            None => if m.1 == 0 {
                Some((0, M::spec_denominator(m.0)))
            } else {
                None
            },
        }
    }

    open spec fn spec_error(m: (M::Snapshot, nat), symbol: Option<M::Symbol>) -> Error<M::ValueError> {
        match symbol {
            Some(s) => if m.1 == 0 {
                Error::UnexpectedSymbol
            } else {
                Error::ValueError(M::spec_error(m.0, s))
            },
            None => Error::UnexpectedEof,
        }
    }

    open spec fn spec_updated(m: (M::Snapshot, nat), symbol: Option<M::Symbol>) -> (
        M::Snapshot,
        nat,
    ) {
        match symbol {
            Some(s) => if m.1 > 0 {
                (M::spec_updated(m.0, s), (m.1 - 1) as nat)
            } else {
                m
            },
            None => m,
        }
    }

    proof fn lemma_denominator(m: (M::Snapshot, nat)) {
        M::lemma_denominator(m.0);
    }

    proof fn lemma_interval(m: (M::Snapshot, nat), symbol: Option<M::Symbol>) {
        M::lemma_denominator(m.0);
        match symbol {
            Some(s) => {
                M::lemma_interval(m.0, s);
            },
            None => {},
        }
    }

    proof fn lemma_owner(m: (M::Snapshot, nat), symbol: Option<M::Symbol>, value: nat) {
        match symbol {
            Some(s) => {
                M::lemma_owner(m.0, s, value);
            },
            None => {},
        }
    }

    fn probability(&self, symbol: Option<&M::Symbol>) -> (r: Result<Range<M::B>, Error<M::ValueError>>) {
        match symbol {
            Some(s) => {
                if self.remaining == 0 {
                    Err(Error::UnexpectedSymbol)
                } else {
                    match self.model.probability(s) {
                        Ok(p) => Ok(p),
                        Err(e) => Err(Error::ValueError(e)),
                    }
                }
            },
            None => {
                if self.remaining == 0 {
                    Ok(M::B::zero()..self.model.denominator())
                } else {
                    Err(Error::UnexpectedEof)
                }
            },
        }
    }

    fn denominator(&self) -> (r: M::B) {
        self.model.denominator()
    }

    fn max_denominator(&self) -> (r: M::B) {
        self.model.max_denominator()
    }

    fn symbol(&self, value: M::B) -> (r: Option<M::Symbol>) {
        if self.remaining > 0 {
            Some(self.model.symbol(value))
        } else {
            None
        }
    }

    fn update(&mut self, symbol: Option<&M::Symbol>) {
        match symbol {
            Some(s) => {
                if self.remaining > 0 {
                    self.model.update(s);
                    self.remaining = self.remaining - 1;
                }
            },
            None => {},
        }
    }
}

} // verus!
