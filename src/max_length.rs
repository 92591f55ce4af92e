//! Models for streams with a known bound on their length: EOF keeps its room
//! in the probability space, but once the bound is reached it is certain.
use crate::fixed_length::Error;
use crate::model::Model as CodingModel;
use std::ops::Range;
use vstd::prelude::*;

verus! {

/// A general model together with a bound on the number of symbols before
/// EOF. [`Wrapper`] enforces the bound.
pub trait Model: CodingModel {
    /// The largest number of symbols before EOF.
    spec fn spec_max_length(m: Self::Snapshot) -> nat;

    /// The largest number of symbols before EOF.
    fn max_length(&self) -> (r: usize)
        requires
            Self::valid(self.snapshot()),
        ensures
            r == Self::spec_max_length(self.snapshot()),
    ;
}

/// A bounded model seen as a general one: it counts the symbols that may
/// still come; once none may, only EOF is accepted and it costs nothing.
pub struct Wrapper<M: Model> {
    model: M,
    remaining: usize,
}

impl<M: Model> Wrapper<M> {
    /// The wrapped model, with its whole bound still to go.
    pub fn new(model: M) -> (r: Self)
        requires
            M::valid(model.snapshot()),
        ensures
            r.snapshot() == (model.snapshot(), M::spec_max_length(model.snapshot())),
    {
        let remaining = model.max_length();
        Self { model, remaining }
    }
}

impl<M: Model> CodingModel for Wrapper<M> {
    type B = M::B;

    type Symbol = M::Symbol;

    type ValueError = Error<M::ValueError>;

    type Snapshot = (M::Snapshot, nat);

    closed spec fn snapshot(&self) -> (M::Snapshot, nat) {
        (self.model.snapshot(), self.remaining as nat)
    }

    open spec fn valid(m: (M::Snapshot, nat)) -> bool {
        M::valid(m.0)
    }

    open spec fn spec_denominator(m: (M::Snapshot, nat)) -> nat {
        M::spec_denominator(m.0)
    }

    open spec fn spec_max_denominator(m: (M::Snapshot, nat)) -> nat {
        M::spec_max_denominator(m.0)
    }

    open spec fn spec_symbol(m: (M::Snapshot, nat), value: nat) -> Option<M::Symbol> {
        if m.1 > 0 {
            M::spec_symbol(m.0, value)
        } else {
            None
        }
    }

    open spec fn spec_probability(m: (M::Snapshot, nat), symbol: Option<M::Symbol>) -> Option<
        (nat, nat),
    > {
        if m.1 > 0 {
            M::spec_probability(m.0, symbol)
        } else {
            match symbol {
                Some(_) => None,
                None => Some((0, M::spec_denominator(m.0))),
            }
        }
    }

    open spec fn spec_error(m: (M::Snapshot, nat), symbol: Option<M::Symbol>) -> Error<M::ValueError> {
        if m.1 > 0 {
            Error::ValueError(M::spec_error(m.0, symbol))
        } else {
            Error::UnexpectedSymbol
        }
    }

    open spec fn spec_updated(m: (M::Snapshot, nat), symbol: Option<M::Symbol>) -> (
        M::Snapshot,
        nat,
    ) {
        if m.1 > 0 {
            match symbol {
                Some(_) => (M::spec_updated(m.0, symbol), (m.1 - 1) as nat),
                None => (M::spec_updated(m.0, symbol), m.1),
            }
        } else {
            m
        }
    }

    proof fn lemma_denominator(m: (M::Snapshot, nat)) {
        M::lemma_denominator(m.0);
    }

    proof fn lemma_interval(m: (M::Snapshot, nat), symbol: Option<M::Symbol>) {
        M::lemma_denominator(m.0);
        if m.1 > 0 {
            M::lemma_interval(m.0, symbol);
        }
    }

    proof fn lemma_owner(m: (M::Snapshot, nat), symbol: Option<M::Symbol>, value: nat) {
        if m.1 > 0 {
            M::lemma_owner(m.0, symbol, value);
        }
    }

    fn probability(&self, symbol: Option<&M::Symbol>) -> (r: Result<Range<M::B>, Error<M::ValueError>>) {
        if self.remaining > 0 {
            match self.model.probability(symbol) {
                Ok(p) => Ok(p),
                Err(e) => Err(Error::ValueError(e)),
            }
        } else {
            match symbol {
                Some(_) => Err(Error::UnexpectedSymbol),
                None => Ok(crate::bitstore::BitStore::zero()..self.model.denominator()),
            }
        }
    }

    fn denominator(&self) -> (r: M::B) {
        self.model.denominator()
    }

    fn max_denominator(&self) -> (r: M::B) {
        self.model.max_denominator()
    }

    fn symbol(&self, value: M::B) -> (r: Option<M::Symbol>) {
        if self.remaining > 0 {
            self.model.symbol(value)
        } else {
            None
        }
    }

    fn update(&mut self, symbol: Option<&M::Symbol>) {
        if self.remaining > 0 {
            self.model.update(symbol);
            match symbol {
                Some(_) => {
                    self.remaining = self.remaining - 1;
                },
                None => {},
            }
        }
    }
}

} // verus!
