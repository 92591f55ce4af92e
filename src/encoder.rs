//! The encoder: symbols in, bits out.
use crate::bitstore::BitStore;
use crate::common::{self, lemma_room, scaled_high, scaled_low, straddles, width};
use crate::model::{owned, Model};
use crate::util::{precision_sufficient, precision_workable};
use crate::Error;
use std::ops::Range;
use vstd::arithmetic::power2::{lemma_pow2_unfold, pow2};
use vstd::prelude::*;

verus! {

/// The bits of one emission: `bit`, then `pending` copies of its complement.
pub open spec fn emission(bit: bool, pending: nat) -> Seq<bool> {
    seq![bit] + Seq::new(pending, |_i: int| !bit)
}

/// The encoder's renormalisation while the top bit of the interval is
/// settled: it emits that bit (with the pending ones) and doubles the
/// interval. Returns `(low, high, pending, output)`.
pub open spec fn settle(low: nat, high: nat, half: nat, pending: nat, output: Seq<bool>) -> (
    nat,
    nat,
    nat,
    Seq<bool>,
)
    decreases 2 * half - (high - low),
    when low < high < 2 * half
{
    if high < half {
        settle(2 * low, 2 * high, half, 0, output + emission(false, pending))
    } else if low >= half {
        settle(
            (2 * (low - half)) as nat,
            (2 * (high - half)) as nat,
            half,
            0,
            output + emission(true, pending),
        )
    } else {
        defer(low, high, half, pending, output)
    }
}

/// The encoder's renormalisation while the interval straddles the midpoint
/// inside the middle half: it doubles the interval about the midpoint and
/// defers the bit.
pub open spec fn defer(low: nat, high: nat, half: nat, pending: nat, output: Seq<bool>) -> (
    nat,
    nat,
    nat,
    Seq<bool>,
)
    decreases 2 * half - (high - low),
    when low < high < 2 * half
{
    if low >= half / 2 && high < half + half / 2 {
        defer(
            (2 * (low - half / 2)) as nat,
            (2 * (high - half / 2)) as nat,
            half,
            pending + 1,
            output,
        )
    } else {
        (low, high, pending, output)
    }
}

/// Monotonicity: from any interval `low < high < 2 * half`, the encoder's
/// renormalisation leaves an ordered interval below `2 * half` that straddles
/// the midpoint, and only appends to the output.
pub proof fn lemma_settle_ordered(low: nat, high: nat, half: nat, pending: nat, output: Seq<bool>)
    requires
        low < high < 2 * half,
        half >= 2,
    ensures
        ({
            let (l, h, _p, out) = settle(low, high, half, pending, output);
            &&& l < h < 2 * half
            &&& straddles(l, h, half)
            &&& out.len() >= output.len()
            &&& out.subrange(0, output.len() as int) == output
        }),
    decreases 2 * half - (high - low),
{
    if high < half {
        let out = output + emission(false, pending);
        lemma_settle_ordered(2 * low, 2 * high, half, 0, out);
        let (l, h, p, o) = settle(2 * low, 2 * high, half, 0, out);
        assert(o.subrange(0, output.len() as int) =~= out.subrange(0, output.len() as int));
        assert(out.subrange(0, output.len() as int) =~= output);
    } else if low >= half {
        let out = output + emission(true, pending);
        lemma_settle_ordered((2 * (low - half)) as nat, (2 * (high - half)) as nat, half, 0, out);
        let (l, h, p, o) = settle((2 * (low - half)) as nat, (2 * (high - half)) as nat, half, 0, out);
        assert(o.subrange(0, output.len() as int) =~= out.subrange(0, output.len() as int));
        assert(out.subrange(0, output.len() as int) =~= output);
    } else {
        lemma_defer_ordered(low, high, half, pending, output);
    }
}

/// The middle-half doublings keep the interval ordered, bring it to straddle
/// the midpoint, and write nothing.
pub proof fn lemma_defer_ordered(low: nat, high: nat, half: nat, pending: nat, output: Seq<bool>)
    requires
        low < high < 2 * half,
        low < half <= high,
        half >= 2,
    ensures
        ({
            let (l, h, _p, out) = defer(low, high, half, pending, output);
            &&& l < h < 2 * half
            &&& straddles(l, h, half)
            &&& out == output
        }),
    decreases 2 * half - (high - low),
{
    if low >= half / 2 && high < half + half / 2 {
        lemma_defer_ordered(
            (2 * (low - half / 2)) as nat,
            (2 * (high - half / 2)) as nat,
            half,
            pending + 1,
            output,
        );
    }
}

/// The encoder's interval, its count of deferred bits, and the bits written.
pub struct State {
    /// The interval.
    pub state: common::State,
    /// The number of bits deferred until the interval leaves the middle half.
    pub pending: u64,
    /// The bits written so far.
    pub output: Vec<bool>,
}

impl State {
    /// The state as `(low, high, pending, output)`.
    pub open spec fn parts(&self) -> (nat, nat, nat, Seq<bool>) {
        (self.state.low as nat, self.state.high as nat, self.pending as nat, self.output@)
    }

    /// Room in the deferred-bit counter for a few more renormalisations.
    pub open spec fn has_room(&self) -> bool {
        self.pending + 256 <= u64::MAX
    }

    /// A fresh state: the whole interval, nothing deferred, no output.
    pub fn new(precision: u32) -> (r: Self)
        requires
            2 <= precision <= 128,
        ensures
            r.state == common::State::new_spec(precision),
            r.state.wf(),
            r.state.normalised(),
            r.pending == 0,
            r.output@ == Seq::<bool>::empty(),
    {
        State { state: common::State::new(precision), pending: 0, output: Vec::new() }
    }

    /// Writes `bit` and then the pending bits, the complement of `bit`.
    fn emit(&mut self, bit: bool)
        ensures
            final(self).state == old(self).state,
            final(self).pending == 0,
            final(self).output@ == old(self).output@ + emission(bit, old(self).pending as nat),
    {
        self.output.push(bit);
        let mut i: u64 = 0;
        while i < self.pending
            invariant
                i <= self.pending == old(self).pending,
                self.state == old(self).state,
                self.output@ == old(self).output@ + seq![bit] + Seq::new(i as nat, |_j: int| !bit),
            decreases self.pending - i,
        {
            self.output.push(!bit);
            i = i + 1;
            assert(self.output@ =~= old(self).output@ + seq![bit] + Seq::new(i as nat, |_j: int| !bit));
        }
        assert(self.output@ =~= old(self).output@ + emission(bit, old(self).pending as nat));
        self.pending = 0;
    }

    /// Doubles the interval until it straddles the midpoint and is wider than
    /// a quarter, writing the bits that become certain.
    fn normalise(&mut self)
        requires
            old(self).state.wf(),
            old(self).state.low < old(self).state.high,
            old(self).has_room(),
        ensures
            final(self).state.wf(),
            final(self).state.low < final(self).state.high,
            final(self).state.normalised(),
            final(self).state.precision == old(self).state.precision,
            final(self).pending <= old(self).pending + 128,
            final(self).parts() == settle(
                old(self).state.low as nat,
                old(self).state.high as nat,
                old(self).state.spec_half(),
                old(self).pending as nat,
                old(self).output@,
            ),
    {
        let half = self.state.half();
        let quarter = self.state.quarter();
        let three_quarter = self.state.three_quarter();
        proof {
            lemma_pow2_unfold(self.state.precision as nat);
            crate::bitstore::lemma_pow2_fits_u128(self.state.precision as nat);
            vstd::arithmetic::power2::lemma2_to64();
        }
        let ghost target = settle(
            self.state.low as nat,
            self.state.high as nat,
            half as nat,
            self.pending as nat,
            self.output@,
        );
        while self.state.high < half || self.state.low >= half
            invariant
                self.state.wf(),
                self.state.precision == old(self).state.precision,
                half == self.state.spec_half(),
                pow2(self.state.precision as nat) == 2 * half,
                2 * half <= u128::MAX + 1,
                self.state.low < self.state.high,
                self.pending <= old(self).pending,
                settle(
                    self.state.low as nat,
                    self.state.high as nat,
                    half as nat,
                    self.pending as nat,
                    self.output@,
                ) == target,
            decreases 2 * half - (self.state.high - self.state.low),
        {
            if self.state.high < half {
                self.emit(false);
                self.state.high = 2 * self.state.high;
                self.state.low = 2 * self.state.low;
            } else {
                self.emit(true);
                self.state.low = 2 * (self.state.low - half);
                self.state.high = 2 * (self.state.high - half);
            }
        }
        let ghost pending_before = self.pending;
        let ghost steps: nat = 0;
        while self.state.low >= quarter && self.state.high < three_quarter
            invariant
                self.state.wf(),
                self.state.precision == old(self).state.precision,
                half == self.state.spec_half(),
                quarter == half / 2,
                three_quarter == half + half / 2,
                pow2(self.state.precision as nat) == 2 * half,
                2 * half <= u128::MAX + 1,
                pow2(0) == 1,
                self.state.low < half <= self.state.high,
                self.state.low < self.state.high,
                steps <= self.state.precision,
                self.pending == pending_before + steps,
                pending_before <= old(self).pending,
                old(self).has_room(),
                pow2(steps) <= self.state.high - self.state.low,
                defer(
                    self.state.low as nat,
                    self.state.high as nat,
                    half as nat,
                    self.pending as nat,
                    self.output@,
                ) == target,
            decreases 2 * half - (self.state.high - self.state.low),
        {
            self.pending = self.pending + 1;
            self.state.low = 2 * (self.state.low - quarter);
            self.state.high = 2 * (self.state.high - quarter);
            proof {
                steps = steps + 1;
                lemma_pow2_unfold(steps);
                if steps > self.state.precision {
                    crate::bitstore::lemma_pow2_le(self.state.precision as nat + 1, steps);
                    lemma_pow2_unfold(self.state.precision as nat + 1);
                }
            }
        }
    }

    /// Narrows the interval to `[p.start, p.end)` of `denominator`, then
    /// renormalises.
    fn scale(&mut self, p: Range<u128>, denominator: u128)
        requires
            old(self).state.wf(),
            old(self).has_room(),
            p.start < p.end <= denominator,
            2 * denominator <= old(self).state.high - old(self).state.low + 1,
            (old(self).state.high - old(self).state.low + 1) * denominator <= u128::MAX,
        ensures
            final(self).state.wf(),
            final(self).state.low < final(self).state.high,
            final(self).state.normalised(),
            final(self).state.precision == old(self).state.precision,
            final(self).pending <= old(self).pending + 128,
            final(self).parts() == settle(
                scaled_low(
                    old(self).state.low as nat,
                    old(self).state.high as nat,
                    p.start as nat,
                    denominator as nat,
                ),
                scaled_high(
                    old(self).state.low as nat,
                    old(self).state.high as nat,
                    p.end as nat,
                    denominator as nat,
                ),
                old(self).state.spec_half(),
                old(self).pending as nat,
                old(self).output@,
            ),
    {
        self.state.scale(p, denominator);
        self.normalise();
    }

    /// Ends the stream: writes the bits that place every later reading of
    /// the stream inside the final interval.
    pub fn flush(&mut self)
        requires
            2 <= old(self).state.precision <= 128,
            old(self).has_room(),
        ensures
            final(self).state == old(self).state,
            final(self).pending == 0,
            final(self).output@ == old(self).output@ + emission(
                old(self).state.low > old(self).state.spec_half() / 2,
                (old(self).pending + 1) as nat,
            ),
    {
        self.pending = self.pending + 1;
        if self.state.low <= self.state.quarter() {
            self.emit(false);
        } else {
            self.emit(true);
        }
    }
}

/// The state after the interval `[start, end)` of `denominator` was encoded
/// from `state`.
pub open spec fn encoded(state: (nat, nat, nat, Seq<bool>), half: nat, start: nat, end: nat, denominator: nat) -> (
    nat,
    nat,
    nat,
    Seq<bool>,
) {
    settle(
        scaled_low(state.0, state.1, start, denominator),
        scaled_high(state.0, state.1, end, denominator),
        half,
        state.2,
        state.3,
    )
}

/// Encodes `symbols` one after another from `model` and `state`: the final
/// model and state, or `None` where a model rejects one of them.
pub open spec fn encoded_all<M: Model>(
    model: M::Snapshot,
    state: (nat, nat, nat, Seq<bool>),
    half: nat,
    symbols: Seq<Option<M::Symbol>>,
) -> Option<(M::Snapshot, (nat, nat, nat, Seq<bool>))>
    decreases symbols.len(),
{
    if symbols.len() == 0 {
        Some((model, state))
    } else {
        match M::spec_probability(model, symbols[0]) {
            None => None,
            Some((start, end)) => encoded_all::<M>(
                M::spec_updated(model, symbols[0]),
                encoded(state, half, start, end, M::spec_denominator(model)),
                half,
                symbols.drop_first(),
            ),
        }
    }
}

/// Encoding one more symbol after a run is one more step from where the run
/// ended.
pub proof fn lemma_encoded_all_push<M: Model>(
    model: M::Snapshot,
    state: (nat, nat, nat, Seq<bool>),
    half: nat,
    symbols: Seq<Option<M::Symbol>>,
    symbol: Option<M::Symbol>,
)
    ensures
        encoded_all::<M>(model, state, half, symbols.push(symbol)) == match encoded_all::<M>(
            model,
            state,
            half,
            symbols,
        ) {
            None => None,
            Some((m, s)) => encoded_all::<M>(m, s, half, seq![symbol]),
        },
    decreases symbols.len(),
{
    if symbols.len() > 0 {
        assert(symbols.push(symbol).drop_first() =~= symbols.drop_first().push(symbol));
        assert(symbols.push(symbol)[0] == symbols[0]);
        match M::spec_probability(model, symbols[0]) {
            None => {},
            Some((start, end)) => {
                lemma_encoded_all_push::<M>(
                    M::spec_updated(model, symbols[0]),
                    encoded(state, half, start, end, M::spec_denominator(model)),
                    half,
                    symbols.drop_first(),
                    symbol,
                );
            },
        }
    } else {
        assert(symbols.push(symbol) =~= seq![symbol]);
    }
}

/// The symbols of `symbols`, each as `Some`, then EOF.
pub open spec fn terminated<T>(symbols: Seq<T>) -> Seq<Option<T>> {
    symbols.map_values(|s: T| Some(s)).push(None)
}

/// An arithmetic encoder: it turns a stream of symbols into a stream of bits,
/// using a predictive [`Model`].
pub struct Encoder<M: Model> {
    /// The model.
    pub model: M,
    /// The interval and the bits written.
    pub state: State,
}

impl<M: Model> Encoder<M> {
    /// The model is consistent, the interval lies between two symbols, and
    /// the precision suits the model.
    pub open spec fn wf(&self) -> bool {
        &&& M::valid(self.model.snapshot())
        &&& self.state.state.wf()
        &&& self.state.state.normalised()
        &&& self.state.state.low < self.state.state.high
        &&& precision_workable(
            M::spec_max_denominator(self.model.snapshot()),
            self.state.state.precision as nat,
            M::B::spec_bits(),
        )
    }

    /// An encoder with the largest precision that the model allows: the
    /// width of [`Model::B`] less the bits of [`Model::max_denominator`].
    pub fn new(model: M) -> (r: Self)
        requires
            M::valid(model.snapshot()),
            precision_sufficient(
                M::spec_max_denominator(model.snapshot()),
                (M::B::spec_bits() - crate::util::frequency_bits(M::spec_max_denominator(model.snapshot()))) as nat,
                M::B::spec_bits(),
            ),
        ensures
            precision_workable(
                M::spec_max_denominator(model.snapshot()),
                (M::B::spec_bits() - crate::util::frequency_bits(M::spec_max_denominator(model.snapshot()))) as nat,
                M::B::spec_bits(),
            ) ==> r.wf(),
            r.model == model,
            r.state.state == common::State::new_spec(
                (M::B::spec_bits() - crate::util::frequency_bits(M::spec_max_denominator(model.snapshot()))) as u32,
            ),
            r.state.pending == 0,
            r.state.output@ == Seq::<bool>::empty(),
    {
        let precision = crate::util::precision(model.max_denominator());
        Self::with_precision(model, precision)
    }

    /// An encoder with the given precision.
    pub fn with_precision(model: M, precision: u32) -> (r: Self)
        requires
            M::valid(model.snapshot()),
            precision_sufficient(M::spec_max_denominator(model.snapshot()), precision as nat, M::B::spec_bits()),
        ensures
            precision_workable(M::spec_max_denominator(model.snapshot()), precision as nat, M::B::spec_bits())
                ==> r.wf(),
            r.model == model,
            r.state.state == common::State::new_spec(precision),
            r.state.pending == 0,
            r.state.output@ == Seq::<bool>::empty(),
    {
        proof {
            M::B::lemma_bits();
        }
        Self { model, state: State::new(precision) }
    }

    /// An encoder that goes on from an existing state, such as that of an
    /// earlier encoder on the same stream.
    pub fn with_state(state: State, model: M) -> (r: Self)
        requires
            M::valid(model.snapshot()),
            state.state.wf(),
            state.state.normalised(),
            state.state.low < state.state.high,
            precision_sufficient(M::spec_max_denominator(model.snapshot()), state.state.precision as nat, M::B::spec_bits()),
        ensures
            precision_workable(
                M::spec_max_denominator(model.snapshot()),
                state.state.precision as nat,
                M::B::spec_bits(),
            ) ==> r.wf(),
            r.model == model,
            r.state == state,
    {
        proof {
            M::B::lemma_bits();
        }
        Self { model, state }
    }

    /// Encodes one symbol, or EOF (`None`). Fails, and changes nothing, where
    /// the model rejects the symbol.
    pub fn encode(&mut self, symbol: Option<&M::Symbol>) -> (r: Result<(), Error<M::ValueError>>)
        requires
            old(self).wf(),
            old(self).state.has_room(),
        ensures
            final(self).wf(),
            final(self).state.state.precision == old(self).state.state.precision,
            final(self).state.pending <= old(self).state.pending + 128,
            match M::spec_probability(old(self).model.snapshot(), owned(symbol)) {
                None => {
                    &&& r == Err::<(), Error<M::ValueError>>(
                        Error::ValueError(M::spec_error(old(self).model.snapshot(), owned(symbol))),
                    )
                    &&& *final(self) == *old(self)
                },
                Some((start, end)) => {
                    &&& r is Ok
                    &&& final(self).model.snapshot() == M::spec_updated(old(self).model.snapshot(), owned(symbol))
                    &&& final(self).state.parts() == encoded(
                        old(self).state.parts(),
                        old(self).state.state.spec_half(),
                        start,
                        end,
                        M::spec_denominator(old(self).model.snapshot()),
                    )
                },
            },
    {
        let p = match self.model.probability(symbol) {
            Ok(p) => p,
            Err(e) => {
                return Err(Error::ValueError(e));
            },
        };
        let denominator = self.model.denominator();
        let start = p.start.to_u128();
        let end = p.end.to_u128();
        let d = denominator.to_u128();
        proof {
            M::B::lemma_bits();
            lemma_room(
                self.state.state.low as nat,
                self.state.state.high as nat,
                self.state.state.precision as nat,
                M::spec_max_denominator(self.model.snapshot()),
                M::B::spec_bits(),
            );
            denominator.lemma_range();
            let w = width(self.state.state.low as nat, self.state.state.high as nat);
            let md = M::spec_max_denominator(self.model.snapshot());
            assert(w * d <= w * md) by (nonlinear_arith)
                requires
                    d <= md,
            ;
        }
        self.state.scale(start..end, d);
        self.model.update(symbol);
        Ok(())
    }

    /// Encodes every symbol of `symbols`, then EOF, then flushes. Fails where
    /// the model rejects a symbol; the stream is then unusable.
    pub fn encode_all(&mut self, symbols: &[M::Symbol]) -> (r: Result<(), Error<M::ValueError>>)
        requires
            old(self).wf(),
            old(self).state.pending + 128 * (symbols@.len() + 3) <= u64::MAX,
        ensures
            match encoded_all::<M>(
                old(self).model.snapshot(),
                old(self).state.parts(),
                old(self).state.state.spec_half(),
                terminated(symbols@),
            ) {
                None => exists|j: int|
                    0 <= j < terminated(symbols@).len() && #[trigger] encoded_all::<M>(
                        old(self).model.snapshot(),
                        old(self).state.parts(),
                        old(self).state.state.spec_half(),
                        terminated(symbols@).subrange(0, j),
                    ) == Some((final(self).model.snapshot(), final(self).state.parts()))
                        && M::spec_probability(final(self).model.snapshot(), terminated(symbols@)[j])
                        is None && r == Err::<(), Error<M::ValueError>>(
                        Error::ValueError(
                            M::spec_error(final(self).model.snapshot(), terminated(symbols@)[j]),
                        ),
                    ),
                Some((model, (low, high, pending, output))) => {
                    &&& r is Ok
                    &&& final(self).model.snapshot() == model
                    &&& final(self).state.state.low == low
                    &&& final(self).state.state.high == high
                    &&& final(self).state.pending == 0
                    &&& final(self).state.output@ == output + emission(
                        low > old(self).state.state.spec_half() / 2,
                        pending + 1,
                    )
                },
            },
    {
        let ghost half = self.state.state.spec_half();
        let ghost all = terminated(symbols@);
        let mut i: usize = 0;
        assert(all.subrange(0, all.len() as int) =~= all);
        assert(all.subrange(0, 0) =~= Seq::<Option<M::Symbol>>::empty());
        while i < symbols.len()
            invariant
                self.wf(),
                0 <= i <= symbols@.len(),
                half == self.state.state.spec_half(),
                half == old(self).state.state.spec_half(),
                self.state.pending + 128 * (symbols@.len() - i + 3) <= u64::MAX,
                all == terminated(symbols@),
                encoded_all::<M>(self.model.snapshot(), self.state.parts(), half, all.subrange(i as int, all.len() as int))
                    == encoded_all::<M>(old(self).model.snapshot(), old(self).state.parts(), half, all),
                encoded_all::<M>(old(self).model.snapshot(), old(self).state.parts(), half, all.subrange(0, i as int))
                    == Some((self.model.snapshot(), self.state.parts())),
            decreases symbols@.len() - i,
        {
            let ghost rest = all.subrange(i as int, all.len() as int);
            assert(rest[0] == Some(symbols@[i as int]));
            assert(rest.drop_first() =~= all.subrange(i + 1, all.len() as int));
            let ghost before = *self;
            match self.encode(Some(&symbols[i])) {
                Ok(()) => {
                    proof {
                        lemma_encoded_all_push::<M>(
                            old(self).model.snapshot(),
                            old(self).state.parts(),
                            half,
                            all.subrange(0, i as int),
                            all[i as int],
                        );
                        assert(all.subrange(0, i as int).push(all[i as int]) =~= all.subrange(0, i + 1));
                        assert(all[i as int] == rest[0]);
                        assert(seq![all[i as int]].drop_first() =~= Seq::<Option<M::Symbol>>::empty());
                        assert(seq![all[i as int]][0] == all[i as int]);
                        assert(owned(Some(&symbols[i as int])) == all[i as int]);
                        assert(encoded_all::<M>(
                            self.model.snapshot(),
                            self.state.parts(),
                            half,
                            Seq::<Option<M::Symbol>>::empty(),
                        ) == Some((self.model.snapshot(), self.state.parts())));
                        assert(encoded_all::<M>(
                            before.model.snapshot(),
                            before.state.parts(),
                            half,
                            seq![all[i as int]],
                        ) == Some((self.model.snapshot(), self.state.parts())));
                    }
                },
                Err(e) => {
                    assert(M::spec_probability(before.model.snapshot(), rest[0]) is None);
                    assert(encoded_all::<M>(before.model.snapshot(), before.state.parts(), half, rest) is None);
                    assert(all[i as int] == rest[0]);
                    assert(encoded_all::<M>(
                        old(self).model.snapshot(),
                        old(self).state.parts(),
                        half,
                        all.subrange(0, i as int),
                    ) == Some((self.model.snapshot(), self.state.parts())));
                    return Err(e);
                },
            }
            i = i + 1;
        }
        let ghost rest = all.subrange(i as int, all.len() as int);
        assert(rest[0] == None::<M::Symbol>);
        assert(rest.drop_first() =~= Seq::<Option<M::Symbol>>::empty());
        let ghost before = *self;
        match self.encode(None) {
            Ok(()) => {},
            Err(e) => {
                assert(encoded_all::<M>(before.model.snapshot(), before.state.parts(), half, rest) is None);
                assert(all[i as int] == rest[0]);
                assert(encoded_all::<M>(
                    old(self).model.snapshot(),
                    old(self).state.parts(),
                    half,
                    all.subrange(0, i as int),
                ) == Some((self.model.snapshot(), self.state.parts())));
                return Err(e);
            },
        }
        assert(encoded_all::<M>(self.model.snapshot(), self.state.parts(), half, rest.drop_first()) == Some(
            (self.model.snapshot(), self.state.parts()),
        ));
        self.state.flush();
        Ok(())
    }

    /// Ends the stream; see [`State::flush`].
    pub fn flush(&mut self)
        requires
            old(self).wf(),
            old(self).state.has_room(),
        ensures
            final(self).model == old(self).model,
            final(self).state.state == old(self).state.state,
            final(self).state.pending == 0,
            final(self).state.output@ == old(self).state.output@ + emission(
                old(self).state.state.low > old(self).state.state.spec_half() / 2,
                (old(self).state.pending + 1) as nat,
            ),
    {
        self.state.flush();
    }

    /// The model and the state, taken apart.
    pub fn into_inner(self) -> (r: (M, State))
        ensures
            r.0 == self.model,
            r.1 == self.state,
    {
        (self.model, self.state)
    }

    /// An encoder that goes on with the same state and bits under another
    /// model: two symbol streams in one bit stream.
    pub fn chain<X: Model<B = M::B>>(self, model: X) -> (r: Encoder<X>)
        requires
            self.wf(),
            X::valid(model.snapshot()),
            precision_sufficient(
                X::spec_max_denominator(model.snapshot()),
                self.state.state.precision as nat,
                X::B::spec_bits(),
            ),
        ensures
            precision_workable(
                X::spec_max_denominator(model.snapshot()),
                self.state.state.precision as nat,
                X::B::spec_bits(),
            ) ==> r.wf(),
            r.model == model,
            r.state == self.state,
    {
        Encoder::with_state(self.state, model)
    }
}

} // verus!
