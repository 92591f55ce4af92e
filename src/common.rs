//! The interval that the encoder and the decoder narrow in step.
use crate::bitstore::{lemma_log2_floor_bounds, lemma_pow2_fits_u128, lemma_pow2_le, BitStore};
use crate::util::{frequency_bits, precision_sufficient, precision_workable};
use std::ops::Range;
use vstd::arithmetic::power2::{lemma_pow2_adds, lemma_pow2_pos, lemma_pow2_unfold, pow2};
use vstd::prelude::*;

verus! {

/// The number of points in `[low, high]`.
pub open spec fn width(low: nat, high: nat) -> nat {
    (high - low + 1) as nat
}

/// `high` after a scale by `[start, end)` over `denominator`.
pub open spec fn scaled_high(low: nat, high: nat, end: nat, denominator: nat) -> nat {
    (low + (width(low, high) * end) / denominator - 1) as nat
}

/// `low` after a scale by `[start, end)` over `denominator`.
pub open spec fn scaled_low(low: nat, high: nat, start: nat, denominator: nat) -> nat {
    low + (width(low, high) * start) / denominator
}

/// Whether the interval `[low, high]` straddles the midpoint `half` and is
/// wider than a quarter: the shape that renormalisation leaves.
pub open spec fn straddles(low: nat, high: nat, half: nat) -> bool {
    &&& low < half <= high
    &&& (low < half / 2 || high >= half + half / 2)
}

/// The interval `[low, high]` of a coder, with `precision` bits.
pub struct State {
    /// The number of bits of `low` and `high`.
    pub precision: u32,
    /// The lowest point of the interval.
    pub low: u128,
    /// The highest point of the interval (inclusive).
    pub high: u128,
}

impl State {
    /// `low <= high < 2^precision`, with at least two bits of precision.
    pub open spec fn wf(&self) -> bool {
        &&& 2 <= self.precision <= 128
        &&& self.low <= self.high
        &&& self.high < pow2(self.precision as nat)
    }

    /// `2^(precision - 1)`.
    pub open spec fn spec_half(&self) -> nat {
        pow2((self.precision - 1) as nat)
    }

    /// The interval as it stands between two symbols.
    pub open spec fn normalised(&self) -> bool {
        straddles(self.low as nat, self.high as nat, self.spec_half())
    }

    /// The whole interval `[0, 2^precision - 1]`.
    pub open spec fn new_spec(precision: u32) -> Self {
        State { precision, low: 0, high: (pow2(precision as nat) - 1) as u128 }
    }

    /// The whole interval `[0, 2^precision - 1]`.
    pub fn new(precision: u32) -> (r: Self)
        requires
            2 <= precision <= 128,
        ensures
            r == Self::new_spec(precision),
            r.high == pow2(precision as nat) - 1,
            r.wf(),
            r.normalised(),
    {
        let half = crate::bitstore::power_of_two(precision - 1);
        proof {
            lemma_pow2_unfold(precision as nat);
            lemma_pow2_fits_u128(precision as nat);
            lemma_pow2_unfold((precision - 1) as nat);
            lemma_pow2_pos((precision - 2) as nat);
        }
        let low: u128 = 0;
        let high = (half - 1) + half;
        Self { precision, low, high }
    }

    /// `2^(precision - 1)`.
    pub fn half(&self) -> (r: u128)
        requires
            2 <= self.precision <= 128,
        ensures
            r == self.spec_half(),
    {
        crate::bitstore::power_of_two(self.precision - 1)
    }

    /// `2^(precision - 2)`.
    pub fn quarter(&self) -> (r: u128)
        requires
            2 <= self.precision <= 128,
        ensures
            r == self.spec_half() / 2,
    {
        proof {
            lemma_pow2_unfold((self.precision - 1) as nat);
        }
        crate::bitstore::power_of_two(self.precision - 2)
    }

    /// `2^(precision - 1) + 2^(precision - 2)`.
    pub fn three_quarter(&self) -> (r: u128)
        requires
            2 <= self.precision <= 128,
        ensures
            r == self.spec_half() + self.spec_half() / 2,
    {
        proof {
            lemma_pow2_fits_u128(self.precision as nat);
            lemma_pow2_unfold(self.precision as nat);
        }
        self.half() + self.quarter()
    }

    /// Narrows the interval to the share `[p.start, p.end)` of `denominator`.
    pub fn scale(&mut self, p: Range<u128>, denominator: u128)
        requires
            old(self).wf(),
            p.start < p.end <= denominator,
            denominator <= old(self).high - old(self).low + 1,
            (old(self).high - old(self).low + 1) * denominator <= u128::MAX,
        ensures
            final(self).wf(),
            final(self).low <= final(self).high,
            2 * denominator <= old(self).high - old(self).low + 1 ==> final(self).low
                < final(self).high,
            final(self).precision == old(self).precision,
            final(self).low == scaled_low(
                old(self).low as nat,
                old(self).high as nat,
                p.start as nat,
                denominator as nat,
            ),
            final(self).high == scaled_high(
                old(self).low as nat,
                old(self).high as nat,
                p.end as nat,
                denominator as nat,
            ),
    {
        proof {
            let w = old(self).high - old(self).low + 1;
            assert(w <= w * denominator) by (nonlinear_arith)
                requires
                    denominator >= 1,
                    w >= 0,
            ;
        }
        let range = self.high - self.low + 1;
        proof {
            lemma_scale_bounds(range as nat, p.start as nat, p.end as nat, denominator as nat);
            if 2 * denominator <= range {
                lemma_scale_wide(range as nat, p.start as nat, p.end as nat, denominator as nat);
            }
        }
        self.high = self.low + ((range * p.end) / denominator - 1);
        self.low = self.low + (range * p.start) / denominator;
    }
}

/// The arithmetic facts behind a scale: the shares of `range` that
/// `[start, end)` takes are ordered, distinct, and within `range`.
pub proof fn lemma_scale_bounds(range: nat, start: nat, end: nat, denominator: nat)
    requires
        start < end <= denominator,
        denominator <= range,
    ensures
        range * start <= range * end <= range * denominator,
        (range * start) / denominator < (range * end) / denominator,
        1 <= (range * end) / denominator <= range,
{
    let a = range * start;
    let b = range * end;
    assert(a <= b <= range * denominator) by (nonlinear_arith)
        requires
            start < end <= denominator,
            a == range * start,
            b == range * end,
    ;
    assert(b - a >= denominator) by (nonlinear_arith)
        requires
            start < end,
            denominator <= range,
            a == range * start,
            b == range * end,
    ;
    vstd::arithmetic::div_mod::lemma_fundamental_div_mod(a as int, denominator as int);
    vstd::arithmetic::div_mod::lemma_fundamental_div_mod(b as int, denominator as int);
    let qa = a / denominator;
    let qb = b / denominator;
    assert(qa < qb) by (nonlinear_arith)
        requires
            denominator > 0,
            a == denominator * qa + a % denominator,
            b == denominator * qb + b % denominator,
            0 <= a % denominator < denominator,
            0 <= b % denominator < denominator,
            b - a >= denominator,
    ;
    assert(qb <= range) by (nonlinear_arith)
        requires
            denominator > 0,
            b == denominator * qb + b % denominator,
            0 <= b % denominator,
            b <= range * denominator,
    ;
}

/// Where `range` is at least twice the denominator, the shares of two
/// distinct points lie at least two apart.
pub proof fn lemma_scale_wide(range: nat, start: nat, end: nat, denominator: nat)
    requires
        start < end <= denominator,
        2 * denominator <= range,
    ensures
        (range * start) / denominator + 2 <= (range * end) / denominator,
{
    let a = range * start;
    let b = range * end;
    assert(b - a >= 2 * denominator) by (nonlinear_arith)
        requires
            start < end,
            2 * denominator <= range,
            a == range * start,
            b == range * end,
    ;
    vstd::arithmetic::div_mod::lemma_fundamental_div_mod(a as int, denominator as int);
    vstd::arithmetic::div_mod::lemma_fundamental_div_mod(b as int, denominator as int);
    let qa = a / denominator;
    let qb = b / denominator;
    assert(qa + 2 <= qb) by (nonlinear_arith)
        requires
            denominator > 0,
            a == denominator * qa + a % denominator,
            b == denominator * qb + b % denominator,
            0 <= a % denominator < denominator,
            0 <= b % denominator < denominator,
            b - a >= 2 * denominator,
    ;
}

/// Under a workable precision, an interval that straddles its midpoint is
/// more than twice as wide as every denominator of the model, and its width
/// times such a denominator fits in 128 bits.
pub proof fn lemma_room(low: nat, high: nat, precision: nat, max_denominator: nat, bits: nat)
    requires
        2 <= precision,
        low <= high < pow2(precision),
        straddles(low, high, pow2((precision - 1) as nat)),
        precision_workable(max_denominator, precision, bits),
        bits <= 128,
    ensures
        2 * max_denominator < high - low + 1,
        (high - low + 1) * max_denominator < pow2(bits),
        (high - low + 1) * max_denominator <= u128::MAX,
{
    let fb = frequency_bits(max_denominator);
    lemma_log2_floor_bounds(max_denominator);
    lemma_pow2_unfold((precision - 1) as nat);
    lemma_pow2_le(fb + 1, (precision - 2) as nat);
    lemma_pow2_unfold(fb + 1);
    lemma_pow2_adds(precision, fb);
    lemma_pow2_le(precision + fb, bits);
    lemma_pow2_fits_u128(bits);
    let r = (high - low + 1) as nat;
    let pp = pow2(precision);
    let pf = pow2(fb);
    assert(r * max_denominator < pp * pf) by (nonlinear_arith)
        requires
            0 < r <= pp,
            max_denominator < pf,
    ;
}

/// Whether `precision` is enough for a model whose denominators reach
/// `max_denominator`: at least two bits beyond the frequency bits, and no
/// more than the type holds beside them.
pub fn precision_is_sufficient<B: BitStore>(max_denominator: B, precision: u32) -> (r: bool)
    ensures
        r == precision_sufficient(max_denominator.spec_value(), precision as nat, B::spec_bits()),
{
    if max_denominator.to_u128() == 0 {
        return false;
    }
    proof {
        max_denominator.lemma_range();
        lemma_log2_floor_bounds(max_denominator.spec_value());
        if crate::bitstore::log2_floor(max_denominator.spec_value()) >= B::spec_bits() {
            lemma_pow2_le(B::spec_bits(), crate::bitstore::log2_floor(max_denominator.spec_value()));
        }
    }
    let frequency_bits = max_denominator.log2() + 1;
    precision >= frequency_bits + 2 && (frequency_bits as u64) + (precision as u64) <= B::bits() as u64
}

/// Whether the coder can run at `precision` for a model whose denominators
/// reach `max_denominator`: the precision is sufficient and has one more bit
/// beyond the frequency bits.
pub fn precision_is_workable<B: BitStore>(max_denominator: B, precision: u32) -> (r: bool)
    ensures
        r == precision_workable(max_denominator.spec_value(), precision as nat, B::spec_bits()),
{
    if !precision_is_sufficient(max_denominator, precision) {
        return false;
    }
    proof {
        B::lemma_bits();
    }
    let frequency_bits = max_denominator.log2() + 1;
    precision >= frequency_bits + 3
}

/// Asserts that `precision` is enough for a model whose denominators reach
/// `max_denominator`. An insufficient precision is a fault of the caller,
/// which `requires` rules out: at least two bits beyond the frequency bits,
/// and no more than the type holds beside them.
pub fn assert_precision_sufficient<B: BitStore>(max_denominator: B, precision: u32)
    requires
        precision_sufficient(max_denominator.spec_value(), precision as nat, B::spec_bits()),
{
    proof {
        max_denominator.lemma_range();
        lemma_log2_floor_bounds(max_denominator.spec_value());
        if crate::bitstore::log2_floor(max_denominator.spec_value()) >= B::spec_bits() {
            lemma_pow2_le(B::spec_bits(), crate::bitstore::log2_floor(max_denominator.spec_value()));
        }
    }
    let frequency_bits = max_denominator.log2() + 1;
    assert(precision >= frequency_bits + 2);
    assert(frequency_bits + precision <= B::spec_bits());
}

} // verus!
