//! The unsigned integer types that a model can count its frequencies in.
use vstd::arithmetic::power2::{
    lemma2_to64, lemma2_to64_rest, lemma_pow2_adds, lemma_pow2_strictly_increases,
    lemma_pow2_unfold, pow2,
};
use vstd::prelude::*;

verus! {

/// The value of `2^127`, the largest power of two below `u128::MAX`.
proof fn lemma_pow2_127()
    ensures
        pow2(127) == 0x8000_0000_0000_0000_0000_0000_0000_0000nat,
{
    lemma2_to64();
    lemma2_to64_rest();
    lemma_pow2_adds(64, 63);
    assert(0x1_0000_0000_0000_0000nat * 0x8000_0000_0000_0000nat
        == 0x8000_0000_0000_0000_0000_0000_0000_0000nat) by (nonlinear_arith);
}

/// Powers of two do not decrease with the exponent.
pub proof fn lemma_pow2_le(a: nat, b: nat)
    requires
        a <= b,
    ensures
        pow2(a) <= pow2(b),
{
    if a < b {
        lemma_pow2_strictly_increases(a, b);
    }
}

/// Every power of two up to `2^128` is at most one more than `u128::MAX`.
pub proof fn lemma_pow2_fits_u128(e: nat)
    requires
        e <= 128,
    ensures
        0 < pow2(e) <= u128::MAX as nat + 1,
        e < 128 ==> pow2(e) <= u128::MAX,
        e == 128 ==> pow2(e) == u128::MAX as nat + 1,
{
    lemma_pow2_127();
    vstd::arithmetic::power2::lemma_pow2_pos(e);
    if e < 127 {
        lemma_pow2_strictly_increases(e, 127);
    } else if e == 128 {
        lemma_pow2_unfold(128);
    }
}

/// Returns `2^e` for exponents that fit in a `u128`.
pub(crate) fn power_of_two(e: u32) -> (r: u128)
    requires
        e < 128,
    ensures
        r == pow2(e as nat),
{
    let mut r: u128 = 1;
    let mut i: u32 = 0;
    proof {
        lemma2_to64();
    }
    while i < e
        invariant
            i <= e < 128,
            r == pow2(i as nat),
        decreases e - i,
    {
        proof {
            lemma_pow2_unfold((i + 1) as nat);
            lemma_pow2_fits_u128((i + 1) as nat);
        }
        r = r * 2;
        i = i + 1;
    }
    r
}

/// `floor(log2(x))` for a positive `x`, and 0 for 0.
pub open spec fn log2_floor(x: nat) -> nat
    decreases x,
{
    if x < 2 {
        0
    } else {
        1 + log2_floor(x / 2)
    }
}

/// `2^log2_floor(x) <= x < 2^(log2_floor(x) + 1)` for every positive `x`.
pub proof fn lemma_log2_floor_bounds(x: nat)
    requires
        x > 0,
    ensures
        pow2(log2_floor(x)) <= x < pow2(log2_floor(x) + 1),
    decreases x,
{
    lemma2_to64();
    if x >= 2 {
        lemma_log2_floor_bounds(x / 2);
        lemma_pow2_unfold(log2_floor(x));
        lemma_pow2_unfold(log2_floor(x) + 1);
    }
}

/// The position of the highest set bit of `x`.
pub(crate) fn floor_log2(x: u128) -> (r: u32)
    requires
        x > 0,
    ensures
        r as nat == log2_floor(x as nat),
        r < 128,
{
    let mut v: u128 = x;
    let mut r: u32 = 0;
    proof {
        lemma_log2_floor_bounds(x as nat);
        lemma_pow2_fits_u128(128);
        if log2_floor(x as nat) > 128 {
            lemma_pow2_strictly_increases(128, log2_floor(x as nat));
        }
    }
    while v > 1
        invariant
            0 < v <= x,
            r + log2_floor(v as nat) == log2_floor(x as nat),
            r as nat + log2_floor(v as nat) < 128,
        decreases v,
    {
        v = v / 2;
        r = r + 1;
    }
    r
}

/// An unsigned integer type in which a model states its probabilities.
///
/// The coder does its arithmetic on `u128`; the width of the type only bounds
/// the precision that the coder may use.
pub trait BitStore: Copy + Sized {
    /// The number that a value stands for.
    spec fn spec_value(self) -> nat;

    /// The width of the type in bits.
    spec fn spec_bits() -> nat;

    /// The width is one of the supported ones.
    proof fn lemma_bits()
        ensures
            32 <= Self::spec_bits() <= 128,
    ;

    /// Every value of the type lies below `2^BITS`, and the width is one of the
    /// supported ones.
    proof fn lemma_range(self)
        ensures
            32 <= Self::spec_bits() <= 128,
            self.spec_value() < pow2(Self::spec_bits()),
    ;

    /// The number of bits needed to represent this type.
    fn bits() -> (r: u32)
        ensures
            r as nat == Self::spec_bits(),
    ;

    /// The additive identity.
    fn zero() -> (r: Self)
        ensures
            r.spec_value() == 0,
    ;

    /// The multiplicative identity.
    fn one() -> (r: Self)
        ensures
            r.spec_value() == 1,
    ;

    /// Integer base-two logarithm, rounded down.
    fn log2(self) -> (r: u32)
        requires
            self.spec_value() > 0,
        ensures
            r as nat == log2_floor(self.spec_value()),
    ;

    /// The value, widened to 128 bits.
    fn to_u128(self) -> (r: u128)
        ensures
            r as nat == self.spec_value(),
    ;

    /// A value of this type that stands for `v`.
    fn from_u128(v: u128) -> (r: Self)
        requires
            v < pow2(Self::spec_bits()),
        ensures
            r.spec_value() == v as nat,
    ;
}

impl BitStore for u32 {
    open spec fn spec_value(self) -> nat {
        self as nat
    }

    open spec fn spec_bits() -> nat {
        32
    }

    proof fn lemma_bits() {
    }

    proof fn lemma_range(self) {
        lemma2_to64();
    }

    fn bits() -> (r: u32) {
        32
    }

    fn zero() -> (r: Self) {
        0
    }

    fn one() -> (r: Self) {
        1
    }

    fn log2(self) -> (r: u32) {
        floor_log2(self as u128)
    }

    fn to_u128(self) -> (r: u128) {
        self as u128
    }

    fn from_u128(v: u128) -> (r: Self) {
        proof {
            lemma2_to64();
        }
        v as u32
    }
}

impl BitStore for u64 {
    open spec fn spec_value(self) -> nat {
        self as nat
    }

    open spec fn spec_bits() -> nat {
        64
    }

    proof fn lemma_bits() {
    }

    proof fn lemma_range(self) {
        lemma2_to64();
    }

    fn bits() -> (r: u32) {
        64
    }

    fn zero() -> (r: Self) {
        0
    }

    fn one() -> (r: Self) {
        1
    }

    fn log2(self) -> (r: u32) {
        floor_log2(self as u128)
    }

    fn to_u128(self) -> (r: u128) {
        self as u128
    }

    fn from_u128(v: u128) -> (r: Self) {
        proof {
            lemma2_to64();
        }
        v as u64
    }
}

impl BitStore for u128 {
    open spec fn spec_value(self) -> nat {
        self as nat
    }

    open spec fn spec_bits() -> nat {
        128
    }

    proof fn lemma_bits() {
    }

    proof fn lemma_range(self) {
        lemma_pow2_fits_u128(128);
    }

    fn bits() -> (r: u32) {
        128
    }

    fn zero() -> (r: Self) {
        0
    }

    fn one() -> (r: Self) {
        1
    }

    fn log2(self) -> (r: u32) {
        floor_log2(self)
    }

    fn to_u128(self) -> (r: u128) {
        self
    }

    fn from_u128(v: u128) -> (r: Self) {
        v
    }
}

} // verus!
