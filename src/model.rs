//! The probability model that drives the coder.
use crate::bitstore::BitStore;
use std::ops::Range;
use vstd::prelude::*;

verus! {

/// `Some(*s)` for `Some(s)`: the symbol behind an optional reference.
pub open spec fn owned<T>(symbol: Option<&T>) -> Option<T> {
    match symbol {
        Some(s) => Some(*s),
        None => None,
    }
}

/// Whether `value` lies in the interval `interval`, which must be present.
pub open spec fn interval_contains(interval: Option<(nat, nat)>, value: nat) -> bool {
    match interval {
        Some((start, end)) => start <= value < end,
        None => false,
    }
}

/// Whether `interval` is present, non-empty, and within `[0, denominator)`.
pub open spec fn interval_within(interval: Option<(nat, nat)>, denominator: nat) -> bool {
    match interval {
        Some((start, end)) => start < end <= denominator,
        None => false,
    }
}

/// A [`Model`] gives the probability of each symbol of an alphabet, and of the
/// end of the stream (`None`). The encoder and the decoder use it alike.
///
/// Intervals are stated over [`Model::denominator`]: each symbol owns a
/// half-open interval `[start, end)` of the axis `[0, denominator)`, and
/// [`Model::symbol`] maps every point of the axis back to the symbol that owns
/// it. The contracts speak of the model through its [`Model::Snapshot`], the
/// value that its behaviour depends on.
pub trait Model: Sized {
    /// The integer type that the model counts in.
    type B: BitStore;

    /// The alphabet.
    type Symbol;

    /// The error for a symbol that the model does not know.
    type ValueError;

    /// What the model's behaviour depends on, as a value.
    type Snapshot;

    /// The model's current snapshot.
    spec fn snapshot(&self) -> Self::Snapshot;

    /// Whether a snapshot is consistent.
    spec fn valid(m: Self::Snapshot) -> bool;

    /// The current denominator.
    spec fn spec_denominator(m: Self::Snapshot) -> nat;

    /// The bound on the denominator over the model's whole life.
    spec fn spec_max_denominator(m: Self::Snapshot) -> nat;

    /// The symbol (or EOF) that the model reads at the point `value`.
    spec fn spec_symbol(m: Self::Snapshot, value: nat) -> Option<Self::Symbol>;

    /// The interval of a symbol (or of EOF, `None`), or `None` where the model
    /// rejects the symbol.
    spec fn spec_probability(m: Self::Snapshot, symbol: Option<Self::Symbol>) -> Option<(nat, nat)>;

    /// The error that the model gives for a symbol it rejects.
    spec fn spec_error(m: Self::Snapshot, symbol: Option<Self::Symbol>) -> Self::ValueError;

    /// The snapshot after the model has taken `symbol` into account.
    spec fn spec_updated(m: Self::Snapshot, symbol: Option<Self::Symbol>) -> Self::Snapshot;

    /// A consistent snapshot has a positive denominator within its maximum.
    proof fn lemma_denominator(m: Self::Snapshot)
        requires
            Self::valid(m),
        ensures
            0 < Self::spec_denominator(m) <= Self::spec_max_denominator(m),
    ;

    /// The interval of an accepted symbol is a non-empty part of the axis,
    /// and taking the symbol in keeps the snapshot consistent, under the same
    /// maximum.
    proof fn lemma_interval(m: Self::Snapshot, symbol: Option<Self::Symbol>)
        requires
            Self::valid(m),
            Self::spec_probability(m, symbol) is Some,
        ensures
            interval_within(Self::spec_probability(m, symbol), Self::spec_denominator(m)),
            Self::valid(Self::spec_updated(m, symbol)),
            Self::spec_max_denominator(Self::spec_updated(m, symbol)) == Self::spec_max_denominator(m),
    ;

    /// Each point of the axis has one owner: the symbol whose interval holds
    /// the point is the one that the model reads there.
    proof fn lemma_owner(m: Self::Snapshot, symbol: Option<Self::Symbol>, value: nat)
        requires
            Self::valid(m),
            interval_contains(Self::spec_probability(m, symbol), value),
        ensures
            Self::spec_symbol(m, value) == symbol,
    ;

    /// The interval `[start, end)` of `symbol`, or the model's error where the
    /// symbol is not in its alphabet.
    fn probability(&self, symbol: Option<&Self::Symbol>) -> (r: Result<
        Range<Self::B>,
        Self::ValueError,
    >)
        requires
            Self::valid(self.snapshot()),
        ensures
            match r {
                Ok(range) => {
                    &&& Self::spec_probability(self.snapshot(), owned(symbol)) == Some(
                        (range.start.spec_value(), range.end.spec_value()),
                    )
                    &&& range.start.spec_value() < range.end.spec_value()
                    &&& range.end.spec_value() <= Self::spec_denominator(self.snapshot())
                },
                Err(e) => {
                    &&& Self::spec_probability(self.snapshot(), owned(symbol)) is None
                    &&& e == Self::spec_error(self.snapshot(), owned(symbol))
                },
            },
    ;

    /// The current denominator of the intervals.
    fn denominator(&self) -> (r: Self::B)
        requires
            Self::valid(self.snapshot()),
        ensures
            r.spec_value() == Self::spec_denominator(self.snapshot()),
            0 < r.spec_value() <= Self::spec_max_denominator(self.snapshot()),
    ;

    /// The largest denominator that the model will ever use.
    fn max_denominator(&self) -> (r: Self::B)
        requires
            Self::valid(self.snapshot()),
        ensures
            r.spec_value() == Self::spec_max_denominator(self.snapshot()),
    ;

    /// The symbol (or EOF) whose interval holds `value`.
    fn symbol(&self, value: Self::B) -> (r: Option<Self::Symbol>)
        requires
            Self::valid(self.snapshot()),
            value.spec_value() < Self::spec_denominator(self.snapshot()),
        ensures
            r == Self::spec_symbol(self.snapshot(), value.spec_value()),
            interval_contains(Self::spec_probability(self.snapshot(), r), value.spec_value()),
    ;

    /// Takes the latest symbol into account; adaptive models change their
    /// intervals here.
    fn update(&mut self, symbol: Option<&Self::Symbol>)
        requires
            Self::valid(old(self).snapshot()),
        ensures
            final(self).snapshot() == Self::spec_updated(old(self).snapshot(), owned(symbol)),
            Self::valid(final(self).snapshot()),
            Self::spec_max_denominator(final(self).snapshot()) == Self::spec_max_denominator(
                old(self).snapshot(),
            ),
    ;
}

} // verus!
