//! The decoder: bits in, symbols out.
use crate::bitstore::BitStore;
use crate::common::{self, lemma_room, scaled_high, scaled_low, width};
use crate::model::{owned, Model};
use crate::util::{precision_sufficient, precision_workable};
use std::ops::Range;
use vstd::arithmetic::power2::{lemma_pow2_unfold, pow2};
use vstd::prelude::*;

verus! {

/// The bit at `position` of `input`; past the end of the input, a zero.
pub open spec fn bit_at(input: Seq<bool>, position: nat) -> nat {
    if position < input.len() && input[position as int] {
        1
    } else {
        0
    }
}

/// The read position after one read at `position`; it stays at the end.
pub open spec fn next_position(input: Seq<bool>, position: nat) -> nat {
    if position < input.len() {
        position + 1
    } else {
        position
    }
}

/// `(x, position)` after `n` bits of `input` were shifted into `x`.
pub open spec fn filled(x: nat, input: Seq<bool>, position: nat, n: nat) -> (nat, nat)
    decreases n,
{
    if n == 0 {
        (x, position)
    } else {
        filled(
            2 * x + bit_at(input, position),
            input,
            next_position(input, position),
            (n - 1) as nat,
        )
    }
}

/// The point of `[0, denominator)` that the tag `x` stands for within
/// `[low, high]`.
pub open spec fn value_of(low: nat, high: nat, x: nat, denominator: nat) -> nat {
    (((x - low + 1) * denominator - 1) / (width(low, high) as int)) as nat
}

/// The decoder's renormalisation while the top bit of the interval is
/// settled: the interval doubles and the tag takes in one more bit. Returns
/// `(low, high, x, position)`.
pub open spec fn settle_read(
    low: nat,
    high: nat,
    x: nat,
    half: nat,
    input: Seq<bool>,
    position: nat,
) -> (nat, nat, nat, nat)
    decreases 2 * half - (high - low),
    when low < high < 2 * half
{
    if high < half {
        settle_read(
            2 * low,
            2 * high,
            2 * x + bit_at(input, position),
            half,
            input,
            next_position(input, position),
        )
    } else if low >= half {
        settle_read(
            (2 * (low - half)) as nat,
            (2 * (high - half)) as nat,
            (2 * (x - half) + bit_at(input, position)) as nat,
            half,
            input,
            next_position(input, position),
        )
    } else {
        defer_read(low, high, x, half, input, position)
    }
}

/// The decoder's renormalisation while the interval sits in the middle half.
pub open spec fn defer_read(
    low: nat,
    high: nat,
    x: nat,
    half: nat,
    input: Seq<bool>,
    position: nat,
) -> (nat, nat, nat, nat)
    decreases 2 * half - (high - low),
    when low < high < 2 * half
{
    if low >= half / 2 && high < half + half / 2 {
        defer_read(
            (2 * (low - half / 2)) as nat,
            (2 * (high - half / 2)) as nat,
            (2 * (x - half / 2) + bit_at(input, position)) as nat,
            half,
            input,
            next_position(input, position),
        )
    } else {
        (low, high, x, position)
    }
}

/// One decoded symbol from `model` and `(low, high, x, position)`: the symbol
/// (or EOF), the model after it, and the state after it. A tag above the
/// interval (which no stream that the encoder wrote leads to) reads as EOF
/// and changes nothing.
pub open spec fn decoded<M: Model>(
    model: M::Snapshot,
    parts: (nat, nat, nat, nat),
    half: nat,
    input: Seq<bool>,
) -> (Option<M::Symbol>, M::Snapshot, (nat, nat, nat, nat)) {
    if parts.2 > parts.1 {
        (None, model, parts)
    } else {
        decoded_within::<M>(model, parts, half, input)
    }
}

/// One decoded symbol, from a tag that lies within the interval.
pub open spec fn decoded_within<M: Model>(
    model: M::Snapshot,
    parts: (nat, nat, nat, nat),
    half: nat,
    input: Seq<bool>,
) -> (Option<M::Symbol>, M::Snapshot, (nat, nat, nat, nat)) {
    let d = M::spec_denominator(model);
    let symbol = M::spec_symbol(model, value_of(parts.0, parts.1, parts.2, d));
    match M::spec_probability(model, symbol) {
        Some((start, end)) => (
            symbol,
            M::spec_updated(model, symbol),
            settle_read(
                scaled_low(parts.0, parts.1, start, d),
                scaled_high(parts.0, parts.1, end, d),
                parts.2,
                half,
                input,
                parts.3,
            ),
        ),
        None => (symbol, model, parts),
    }
}

/// The symbols decoded one after another, up to EOF or `limit` symbols.
pub open spec fn decoded_all<M: Model>(
    model: M::Snapshot,
    parts: (nat, nat, nat, nat),
    half: nat,
    input: Seq<bool>,
    limit: nat,
) -> Seq<M::Symbol>
    decreases limit,
{
    if limit == 0 {
        Seq::empty()
    } else {
        let (symbol, next_model, next_parts) = decoded::<M>(model, parts, half, input);
        match symbol {
            None => Seq::empty(),
            Some(s) => seq![s] + decoded_all::<M>(next_model, next_parts, half, input, (limit - 1) as nat),
        }
    }
}

/// The model and the state after decoding up to EOF (EOF included), or
/// after `limit` symbols.
pub open spec fn decoded_state<M: Model>(
    model: M::Snapshot,
    parts: (nat, nat, nat, nat),
    half: nat,
    input: Seq<bool>,
    limit: nat,
) -> (M::Snapshot, (nat, nat, nat, nat))
    decreases limit,
{
    if limit == 0 {
        (model, parts)
    } else {
        let (symbol, next_model, next_parts) = decoded::<M>(model, parts, half, input);
        match symbol {
            None => (next_model, next_parts),
            Some(_) => decoded_state::<M>(next_model, next_parts, half, input, (limit - 1) as nat),
        }
    }
}

/// The decoder's interval, its tag, and the bits it reads.
pub struct State {
    /// The interval.
    pub state: common::State,
    /// The bit stream.
    pub input: Vec<bool>,
    /// The number of bits read so far.
    pub position: usize,
    /// The tag: the `precision` bits of the stream at the current position.
    pub x: u128,
    /// Whether the tag is still to be filled from the stream.
    pub uninitialised: bool,
}

impl State {
    /// The state as `(low, high, x, position)`.
    pub open spec fn parts(&self) -> (nat, nat, nat, nat) {
        (self.state.low as nat, self.state.high as nat, self.x as nat, self.position as nat)
    }

    /// The state once the tag has been filled.
    pub open spec fn primed(&self) -> (nat, nat, nat, nat) {
        if self.uninitialised {
            let (x, position) = filled(
                self.x as nat,
                self.input@,
                self.position as nat,
                self.state.precision as nat,
            );
            (self.state.low as nat, self.state.high as nat, x, position)
        } else {
            self.parts()
        }
    }

    /// The interval lies between two symbols; the tag lies at or above its
    /// bottom and below twice the top of the precision; a tag still to be
    /// filled starts from zero in the whole interval.
    pub open spec fn wf(&self) -> bool {
        &&& self.state.wf()
        &&& self.state.precision <= 127
        &&& self.state.normalised()
        &&& self.state.low < self.state.high
        &&& self.position <= self.input@.len()
        &&& if self.uninitialised {
            &&& self.x == 0
            &&& self.state.low == 0
            &&& self.state.high == pow2(self.state.precision as nat) - 1
        } else {
            &&& self.state.low <= self.x
            &&& self.x < 2 * pow2(self.state.precision as nat)
        }
    }

    /// A fresh state over `input`: the whole interval, the tag still to be
    /// filled.
    pub fn new(precision: u32, input: Vec<bool>) -> (r: Self)
        requires
            2 <= precision <= 127,
        ensures
            r.wf(),
            r.state == common::State::new_spec(precision),
            r.input@ == input@,
            r.position == 0,
            r.x == 0,
            r.uninitialised,
    {
        State { state: common::State::new(precision), input, position: 0, x: 0, uninitialised: true }
    }

    /// Reads one bit; past the end of the input it reads zeros.
    fn next_bit(&mut self) -> (r: u128)
        requires
            old(self).position <= old(self).input@.len(),
        ensures
            r == bit_at(old(self).input@, old(self).position as nat),
            final(self).position == next_position(old(self).input@, old(self).position as nat),
            final(self).position <= final(self).input@.len(),
            final(self).input == old(self).input,
            final(self).state == old(self).state,
            final(self).x == old(self).x,
            final(self).uninitialised == old(self).uninitialised,
    {
        if self.position < self.input.len() {
            let bit = self.input[self.position];
            self.position = self.position + 1;
            if bit {
                1
            } else {
                0
            }
        } else {
            0
        }
    }

    /// Shifts `precision` bits of the stream into the tag.
    fn fill(&mut self)
        requires
            old(self).state.wf(),
            old(self).x == 0,
            old(self).position <= old(self).input@.len(),
        ensures
            (final(self).x as nat, final(self).position as nat) == filled(
                0,
                old(self).input@,
                old(self).position as nat,
                old(self).state.precision as nat,
            ),
            final(self).x < pow2(old(self).state.precision as nat),
            final(self).position <= final(self).input@.len(),
            final(self).input == old(self).input,
            final(self).state == old(self).state,
            final(self).uninitialised == old(self).uninitialised,
    {
        let precision = self.state.precision;
        let mut i: u32 = 0;
        proof {
            vstd::arithmetic::power2::lemma2_to64();
        }
        while i < precision
            invariant
                self.state.wf(),
                self.state == old(self).state,
                precision == self.state.precision,
                i <= precision,
                self.position <= self.input@.len(),
                self.input == old(self).input,
                self.uninitialised == old(self).uninitialised,
                self.x < pow2(i as nat),
                filled(self.x as nat, self.input@, self.position as nat, (precision - i) as nat)
                    == filled(0, old(self).input@, old(self).position as nat, precision as nat),
            decreases precision - i,
        {
            proof {
                lemma_pow2_unfold(i as nat + 1);
                crate::bitstore::lemma_pow2_fits_u128(i as nat + 1);
            }
            let bit = self.next_bit();
            self.x = 2 * self.x + bit;
            i = i + 1;
        }
    }

    /// Fills the tag on the first call.
    fn initialise(&mut self)
        requires
            old(self).wf(),
        ensures
            final(self).wf(),
            !final(self).uninitialised,
            final(self).parts() == old(self).primed(),
            final(self).input == old(self).input,
            final(self).state == old(self).state,
    {
        if self.uninitialised {
            self.fill();
            self.uninitialised = false;
        }
    }

    /// Doubles the interval until it straddles the midpoint and is wider than
    /// a quarter, taking one bit into the tag for each doubling. On a stream
    /// that the encoder did not write the tag may pass the top of the
    /// interval, by less than the number of doublings allows.
    fn normalise(&mut self)
        requires
            old(self).state.wf(),
            old(self).state.precision <= 127,
            old(self).state.low < old(self).state.high,
            old(self).state.low <= old(self).x <= old(self).state.high,
            old(self).position <= old(self).input@.len(),
        ensures
            final(self).state.wf(),
            final(self).state.low < final(self).state.high,
            final(self).state.normalised(),
            final(self).state.low <= final(self).x,
            final(self).x < 2 * pow2(final(self).state.precision as nat),
            final(self).position <= final(self).input@.len(),
            final(self).state.precision == old(self).state.precision,
            final(self).input == old(self).input,
            final(self).uninitialised == old(self).uninitialised,
            final(self).parts() == settle_read(
                old(self).state.low as nat,
                old(self).state.high as nat,
                old(self).x as nat,
                old(self).state.spec_half(),
                old(self).input@,
                old(self).position as nat,
            ),
    {
        let half = self.state.half();
        let quarter = self.state.quarter();
        let three_quarter = self.state.three_quarter();
        proof {
            lemma_pow2_unfold(self.state.precision as nat);
            lemma_pow2_unfold(self.state.precision as nat + 1);
            crate::bitstore::lemma_pow2_fits_u128(self.state.precision as nat + 1);
            vstd::arithmetic::power2::lemma2_to64();
        }
        let ghost target = settle_read(
            self.state.low as nat,
            self.state.high as nat,
            self.x as nat,
            half as nat,
            self.input@,
            self.position as nat,
        );
        let ghost steps: nat = 0;
        while self.state.high < half || self.state.low >= half
            invariant
                self.state.wf(),
                self.state.precision == old(self).state.precision,
                self.state.precision <= 127,
                self.state.low < self.state.high,
                self.state.low <= self.x,
                self.x + 1 <= self.state.high + pow2(steps),
                pow2(steps) <= self.state.high - self.state.low,
                self.position <= self.input@.len(),
                self.input == old(self).input,
                self.uninitialised == old(self).uninitialised,
                half == self.state.spec_half(),
                pow2(self.state.precision as nat) == 2 * half,
                4 * half <= u128::MAX + 1,
                settle_read(
                    self.state.low as nat,
                    self.state.high as nat,
                    self.x as nat,
                    half as nat,
                    self.input@,
                    self.position as nat,
                ) == target,
            decreases 2 * half - (self.state.high - self.state.low),
        {
            proof {
                lemma_pow2_unfold(steps + 1);
            }
            let bit = self.next_bit();
            if self.state.high < half {
                self.state.high = 2 * self.state.high;
                self.state.low = 2 * self.state.low;
                self.x = 2 * self.x + bit;
            } else {
                self.state.low = 2 * (self.state.low - half);
                self.state.high = 2 * (self.state.high - half);
                self.x = 2 * (self.x - half) + bit;
            }
            proof {
                steps = steps + 1;
            }
        }
        while self.state.low >= quarter && self.state.high < three_quarter
            invariant
                self.state.wf(),
                self.state.precision == old(self).state.precision,
                self.state.precision <= 127,
                self.state.low <= self.x,
                self.x + 1 <= self.state.high + pow2(steps),
                pow2(steps) <= self.state.high - self.state.low,
                self.position <= self.input@.len(),
                self.input == old(self).input,
                self.uninitialised == old(self).uninitialised,
                half == self.state.spec_half(),
                quarter == half / 2,
                three_quarter == half + half / 2,
                pow2(self.state.precision as nat) == 2 * half,
                4 * half <= u128::MAX + 1,
                self.state.low < half <= self.state.high,
                self.state.low < self.state.high,
                defer_read(
                    self.state.low as nat,
                    self.state.high as nat,
                    self.x as nat,
                    half as nat,
                    self.input@,
                    self.position as nat,
                ) == target,
            decreases 2 * half - (self.state.high - self.state.low),
        {
            proof {
                lemma_pow2_unfold(steps + 1);
            }
            let bit = self.next_bit();
            self.state.low = 2 * (self.state.low - quarter);
            self.state.high = 2 * (self.state.high - quarter);
            self.x = 2 * (self.x - quarter) + bit;
            proof {
                steps = steps + 1;
            }
        }
    }

    /// Narrows the interval to `[p.start, p.end)` of `denominator`, then
    /// renormalises.
    fn scale(&mut self, p: Range<u128>, denominator: u128)
        requires
            old(self).state.wf(),
            old(self).state.precision <= 127,
            scaled_low(
                old(self).state.low as nat,
                old(self).state.high as nat,
                p.start as nat,
                denominator as nat,
            ) <= old(self).x,
            old(self).x <= scaled_high(
                old(self).state.low as nat,
                old(self).state.high as nat,
                p.end as nat,
                denominator as nat,
            ),
            old(self).position <= old(self).input@.len(),
            p.start < p.end <= denominator,
            2 * denominator <= old(self).state.high - old(self).state.low + 1,
            (old(self).state.high - old(self).state.low + 1) * denominator <= u128::MAX,
        ensures
            final(self).state.wf(),
            final(self).state.low < final(self).state.high,
            final(self).state.normalised(),
            final(self).state.low <= final(self).x,
            final(self).x < 2 * pow2(final(self).state.precision as nat),
            final(self).position <= final(self).input@.len(),
            final(self).state.precision == old(self).state.precision,
            final(self).input == old(self).input,
            final(self).uninitialised == old(self).uninitialised,
            final(self).parts() == settle_read(
                scaled_low(
                    old(self).state.low as nat,
                    old(self).state.high as nat,
                    p.start as nat,
                    denominator as nat,
                ),
                scaled_high(
                    old(self).state.low as nat,
                    old(self).state.high as nat,
                    p.end as nat,
                    denominator as nat,
                ),
                old(self).x as nat,
                old(self).state.spec_half(),
                old(self).input@,
                old(self).position as nat,
            ),
    {
        self.state.scale(p, denominator);
        self.normalise();
    }

    /// The point of `[0, denominator)` that the tag stands for.
    fn value(&self, denominator: u128) -> (r: u128)
        requires
            self.state.low <= self.x <= self.state.high,
            1 <= denominator,
            width(self.state.low as nat, self.state.high as nat) * denominator <= u128::MAX,
        ensures
            r == value_of(self.state.low as nat, self.state.high as nat, self.x as nat, denominator as nat),
            r < denominator,
    {
        proof {
            let w = width(self.state.low as nat, self.state.high as nat);
            assert(w <= w * denominator) by (nonlinear_arith)
                requires
                    denominator >= 1,
            ;
        }
        let range = self.state.high - self.state.low + 1;
        let offset = self.x - self.state.low + 1;
        proof {
            let w = range as int;
            let o = offset as int;
            let d = denominator as int;
            assert(o * d <= w * d) by (nonlinear_arith)
                requires
                    0 < o <= w,
                    d >= 1,
            ;
            assert(o * d >= 1) by (nonlinear_arith)
                requires
                    o >= 1,
                    d >= 1,
            ;
            vstd::arithmetic::div_mod::lemma_fundamental_div_mod(o * d - 1, w);
            assert((o * d - 1) / w < d) by (nonlinear_arith)
                requires
                    w > 0,
                    o * d - 1 < w * d,
                    o * d - 1 == w * ((o * d - 1) / w) + (o * d - 1) % w,
                    (o * d - 1) % w >= 0,
            ;
        }
        (offset * denominator - 1) / range
    }
}

/// A tag at the point `value_of(..)` of `[low, high]` stays inside the
/// interval that a scale by the interval of that point leaves.
pub proof fn lemma_tag_in_scaled(low: nat, high: nat, x: nat, denominator: nat, start: nat, end: nat)
    requires
        low <= x <= high,
        0 < denominator,
        start <= value_of(low, high, x, denominator) < end,
    ensures
        scaled_low(low, high, start, denominator) <= x,
        x <= scaled_high(low, high, end, denominator),
{
    let w = width(low, high) as int;
    let o = (x - low + 1) as int;
    let d = denominator as int;
    let a = o * d - 1;
    assert(o * d >= 1) by (nonlinear_arith)
        requires
            o >= 1,
            d >= 1,
    ;
    let v = a / w;
    vstd::arithmetic::div_mod::lemma_fundamental_div_mod(a, w);
    let ws = w * start;
    let we = w * end;
    vstd::arithmetic::div_mod::lemma_fundamental_div_mod(ws, d);
    vstd::arithmetic::div_mod::lemma_fundamental_div_mod(we, d);
    let qs = ws / d;
    let qe = we / d;
    assert(o * d > ws) by (nonlinear_arith)
        requires
            a == w * v + a % w,
            a % w >= 0,
            v >= start,
            w > 0,
            a == o * d - 1,
            ws == w * start,
    ;
    assert(qs < o) by (nonlinear_arith)
        requires
            ws == d * qs + ws % d,
            ws % d >= 0,
            o * d > ws,
            d > 0,
    ;
    assert(o * d <= we) by (nonlinear_arith)
        requires
            a == w * v + a % w,
            a % w < w,
            v + 1 <= end,
            w > 0,
            a == o * d - 1,
            we == w * end,
    ;
    assert(o <= qe) by (nonlinear_arith)
        requires
            we == d * qe + we % d,
            we % d < d,
            o * d <= we,
            d > 0,
    ;
}

/// Decoding reads back what encoding chose: for a tag `x` in `[low, high]`,
/// the point that the decoder computes lies in `[start, end)` exactly when
/// `x` lies in the interval that encoding `[start, end)` narrows to.
pub proof fn lemma_value_iff_scaled(
    low: nat,
    high: nat,
    x: nat,
    denominator: nat,
    start: nat,
    end: nat,
)
    requires
        low <= x <= high,
        0 < denominator <= width(low, high),
        start < end <= denominator,
    ensures
        (start <= value_of(low, high, x, denominator) < end) <==> (scaled_low(
            low,
            high,
            start,
            denominator,
        ) <= x <= scaled_high(low, high, end, denominator)),
{
    if start <= value_of(low, high, x, denominator) < end {
        lemma_tag_in_scaled(low, high, x, denominator, start, end);
    }
    if scaled_low(low, high, start, denominator) <= x <= scaled_high(low, high, end, denominator) {
        let w = width(low, high) as int;
        let o = (x - low + 1) as int;
        let d = denominator as int;
        let ws = w * start;
        let we = w * end;
        vstd::arithmetic::div_mod::lemma_fundamental_div_mod(ws, d);
        vstd::arithmetic::div_mod::lemma_fundamental_div_mod(we, d);
        let qs = ws / d;
        let qe = we / d;
        crate::common::lemma_scale_bounds(width(low, high), start, end, denominator);
        assert(qe >= 1);
        assert(o <= qe);
        assert(o * d >= 1) by (nonlinear_arith)
            requires
                o >= 1,
                d >= 1,
        ;
        assert(o * d - 1 >= ws) by (nonlinear_arith)
            requires
                o >= qs + 1,
                ws == d * qs + ws % d,
                ws % d < d,
                d > 0,
        ;
        assert(o * d - 1 < we) by (nonlinear_arith)
            requires
                o <= qe,
                we == d * qe + we % d,
                we % d >= 0,
                d > 0,
        ;
        let a = o * d - 1;
        vstd::arithmetic::div_mod::lemma_fundamental_div_mod(a, w);
        let v = a / w;
        assert(v >= start) by (nonlinear_arith)
            requires
                a == w * v + a % w,
                a % w < w,
                a >= w * start,
                w > 0,
        ;
        assert(v < end) by (nonlinear_arith)
            requires
                a == w * v + a % w,
                a % w >= 0,
                a < w * end,
                w > 0,
        ;
    }
}

/// An arithmetic decoder: it turns a stream of bits back into the stream of
/// symbols, using the same [`Model`] as the encoder.
pub struct Decoder<M: Model> {
    /// The model.
    pub model: M,
    /// The interval, the tag and the bit stream.
    pub state: State,
}

impl<M: Model> Decoder<M> {
    /// The model is consistent, the state is, and the precision suits the
    /// model.
    pub open spec fn wf(&self) -> bool {
        &&& M::valid(self.model.snapshot())
        &&& self.state.wf()
        &&& precision_workable(
            M::spec_max_denominator(self.model.snapshot()),
            self.state.state.precision as nat,
            M::B::spec_bits(),
        )
    }

    /// A decoder over `input` with the largest precision that the model
    /// allows, as [`crate::encoder::Encoder::new`] picks it.
    pub fn new(model: M, input: Vec<bool>) -> (r: Self)
        requires
            M::valid(model.snapshot()),
            precision_sufficient(
                M::spec_max_denominator(model.snapshot()),
                (M::B::spec_bits() - crate::util::frequency_bits(M::spec_max_denominator(model.snapshot()))) as nat,
                M::B::spec_bits(),
            ),
        ensures
            precision_workable(
                M::spec_max_denominator(model.snapshot()),
                (M::B::spec_bits() - crate::util::frequency_bits(M::spec_max_denominator(model.snapshot()))) as nat,
                M::B::spec_bits(),
            ) ==> r.wf(),
            r.model == model,
            r.state.state == common::State::new_spec(
                (M::B::spec_bits() - crate::util::frequency_bits(M::spec_max_denominator(model.snapshot()))) as u32,
            ),
            r.state.input@ == input@,
            r.state.position == 0,
            r.state.x == 0,
            r.state.uninitialised,
    {
        let precision = crate::util::precision(model.max_denominator());
        Self::with_precision(model, input, precision)
    }

    /// A decoder over `input` with the given precision.
    pub fn with_precision(model: M, input: Vec<bool>, precision: u32) -> (r: Self)
        requires
            M::valid(model.snapshot()),
            precision_sufficient(M::spec_max_denominator(model.snapshot()), precision as nat, M::B::spec_bits()),
        ensures
            precision_workable(M::spec_max_denominator(model.snapshot()), precision as nat, M::B::spec_bits())
                ==> r.wf(),
            r.model == model,
            r.state.state == common::State::new_spec(precision),
            r.state.input@ == input@,
            r.state.position == 0,
            r.state.x == 0,
            r.state.uninitialised,
    {
        proof {
            M::B::lemma_bits();
        }
        Self { model, state: State::new(precision, input) }
    }

    /// A decoder that goes on from an existing state, such as that of an
    /// earlier decoder on the same stream.
    pub fn with_state(state: State, model: M) -> (r: Self)
        requires
            M::valid(model.snapshot()),
            state.wf(),
            precision_sufficient(M::spec_max_denominator(model.snapshot()), state.state.precision as nat, M::B::spec_bits()),
        ensures
            precision_workable(
                M::spec_max_denominator(model.snapshot()),
                state.state.precision as nat,
                M::B::spec_bits(),
            ) ==> r.wf(),
            r.model == model,
            r.state == state,
    {
        Self { model, state }
    }

    /// Reads the next symbol; `None` is EOF. A tag that has passed the top of
    /// the interval, which only a stream that the encoder did not write leads
    /// to, reads as EOF and changes nothing.
    pub fn decode(&mut self) -> (r: Option<M::Symbol>)
        requires
            old(self).wf(),
        ensures
            final(self).wf(),
            !final(self).state.uninitialised,
            final(self).state.input == old(self).state.input,
            final(self).state.state.precision == old(self).state.state.precision,
            (r, final(self).model.snapshot(), final(self).state.parts()) == decoded::<M>(
                old(self).model.snapshot(),
                old(self).state.primed(),
                old(self).state.state.spec_half(),
                old(self).state.input@,
            ),
    {
        self.state.initialise();
        if self.state.x > self.state.state.high {
            return None;
        }
        let denominator = self.model.denominator();
        let d = denominator.to_u128();
        proof {
            M::B::lemma_bits();
            denominator.lemma_range();
            lemma_room(
                self.state.state.low as nat,
                self.state.state.high as nat,
                self.state.state.precision as nat,
                M::spec_max_denominator(self.model.snapshot()),
                M::B::spec_bits(),
            );
            let w = width(self.state.state.low as nat, self.state.state.high as nat);
            let md = M::spec_max_denominator(self.model.snapshot());
            assert(w * d <= w * md) by (nonlinear_arith)
                requires
                    d <= md,
            ;
        }
        let value = self.state.value(d);
        let symbol = self.model.symbol(M::B::from_u128(value));
        let symbol_ref = symbol.as_ref();
        proof {
            assert(owned(symbol_ref) == symbol);
        }
        let p = match self.model.probability(symbol_ref) {
            Ok(p) => p,
            Err(_) => {
                proof {
                    assert(false);
                }
                return symbol;
            },
        };
        let start = p.start.to_u128();
        let end = p.end.to_u128();
        proof {
            lemma_tag_in_scaled(
                self.state.state.low as nat,
                self.state.state.high as nat,
                self.state.x as nat,
                d as nat,
                start as nat,
                end as nat,
            );
        }
        self.state.scale(start..end, d);
        self.model.update(symbol_ref);
        symbol
    }

    /// Reads symbols up to EOF, or until `limit` symbols have been read.
    pub fn decode_all(&mut self, limit: usize) -> (r: Vec<M::Symbol>)
        requires
            old(self).wf(),
        ensures
            final(self).wf(),
            final(self).state.input == old(self).state.input,
            final(self).state.state.precision == old(self).state.state.precision,
            limit > 0 ==> !final(self).state.uninitialised,
            limit > 0 ==> (final(self).model.snapshot(), final(self).state.parts()) == decoded_state::<M>(
                old(self).model.snapshot(),
                old(self).state.primed(),
                old(self).state.state.spec_half(),
                old(self).state.input@,
                limit as nat,
            ),
            r@ == decoded_all::<M>(
                old(self).model.snapshot(),
                old(self).state.primed(),
                old(self).state.state.spec_half(),
                old(self).state.input@,
                limit as nat,
            ),
    {
        let ghost half = self.state.state.spec_half();
        let ghost input = self.state.input@;
        let ghost total = decoded_all::<M>(self.model.snapshot(), self.state.primed(), half, input, limit as nat);
        let ghost end = decoded_state::<M>(self.model.snapshot(), self.state.primed(), half, input, limit as nat);
        let ghost start_input = self.state.input;
        let ghost precision = self.state.state.precision;
        let mut out: Vec<M::Symbol> = Vec::new();
        let mut i: usize = 0;
        while i < limit
            invariant
                self.wf(),
                i <= limit,
                half == self.state.state.spec_half(),
                input == self.state.input@,
                out@ + decoded_all::<M>(self.model.snapshot(), self.state.primed(), half, input, (limit - i) as nat)
                    == total,
                self.state.input == start_input,
                start_input == old(self).state.input,
                self.state.state.precision == precision,
                precision == old(self).state.state.precision,
                i > 0 ==> !self.state.uninitialised,
                decoded_state::<M>(self.model.snapshot(), self.state.primed(), half, input, (limit - i) as nat)
                    == end,
                end == decoded_state::<M>(
                    old(self).model.snapshot(),
                    old(self).state.primed(),
                    old(self).state.state.spec_half(),
                    old(self).state.input@,
                    limit as nat,
                ),
                total == decoded_all::<M>(
                    old(self).model.snapshot(),
                    old(self).state.primed(),
                    old(self).state.state.spec_half(),
                    old(self).state.input@,
                    limit as nat,
                ),
            decreases limit - i,
        {
            let ghost rest = decoded_all::<M>(self.model.snapshot(), self.state.primed(), half, input, (limit - i) as nat);
            match self.decode() {
                None => {
                    assert(rest == Seq::<M::Symbol>::empty());
                    assert(out@ + rest =~= out@);
                    return out;
                },
                Some(s) => {
                    assert(self.state.primed() == self.state.parts());
                    assert(out@ + rest =~= out@.push(s) + decoded_all::<M>(
                        self.model.snapshot(),
                        self.state.primed(),
                        half,
                        input,
                        (limit - i - 1) as nat,
                    ));
                    out.push(s);
                },
            }
            i = i + 1;
        }
        assert(out@ + Seq::<M::Symbol>::empty() =~= out@);
        out
    }

    /// A decoder that goes on with the same state under another model.
    pub fn chain<X: Model<B = M::B>>(self, model: X) -> (r: Decoder<X>)
        requires
            self.wf(),
            X::valid(model.snapshot()),
            precision_sufficient(
                X::spec_max_denominator(model.snapshot()),
                self.state.state.precision as nat,
                X::B::spec_bits(),
            ),
        ensures
            precision_workable(
                X::spec_max_denominator(model.snapshot()),
                self.state.state.precision as nat,
                X::B::spec_bits(),
            ) ==> r.wf(),
            r.model == model,
            r.state == self.state,
    {
        Decoder::with_state(self.state, model)
    }

    /// The model and the state, taken apart.
    pub fn into_inner(self) -> (r: (M, State))
        ensures
            r.0 == self.model,
            r.1 == self.state,
    {
        (self.model, self.state)
    }
}

} // verus!
