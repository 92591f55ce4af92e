//! Decoding inverts encoding. The encoder's bits, its deferred bits and its
//! interval together place the interval on the whole stream, and each
//! renormalisation only refines that placement; the decoder's tag is the
//! stream's prefix less that placement. From there the decoder reads back
//! every symbol that the encoder took in.
use crate::common::{lemma_room, lemma_scale_bounds, scaled_high, scaled_low, straddles, width};
use crate::decoder::{
    bit_at, decoded, decoded_all, decoded_state, defer_read, filled, lemma_value_iff_scaled, next_position,
    settle_read, value_of,
};
use crate::encoder::{
    defer, emission, encoded, encoded_all, lemma_settle_ordered, settle, terminated,
};
use crate::model::{interval_contains, Model};
use crate::util::precision_workable;
use crate::bitstore::BitStore;
use vstd::arithmetic::power2::{lemma_pow2_adds, lemma_pow2_unfold, pow2};
use vstd::prelude::*;

verus! {

/// The number that `bits` spell, most significant bit first.
pub open spec fn bits_value(bits: Seq<bool>) -> int
    decreases bits.len(),
{
    if bits.len() == 0 {
        0
    } else {
        2 * bits_value(bits.drop_last()) + if bits.last() {
            1int
        } else {
            0int
        }
    }
}

/// Where the encoder's interval starts on the whole stream, in units of the
/// interval's last bit: the bits written, followed by `pending` deferred bits
/// which the interval's middle-half position stands for.
pub open spec fn offset(output: Seq<bool>, pending: nat, precision: nat) -> int {
    pow2(precision) * (pow2(pending) * bits_value(output)) + (pow2(pending) - 1) * pow2(
        (precision - 1) as nat,
    )
}

/// The value of a concatenation.
pub proof fn lemma_bits_value_concat(a: Seq<bool>, b: Seq<bool>)
    ensures
        bits_value(a + b) == bits_value(a) * pow2(b.len()) + bits_value(b),
    decreases b.len(),
{
    if b.len() == 0 {
        assert(a + b =~= a);
        vstd::arithmetic::power2::lemma2_to64();
    } else {
        let c = a + b;
        assert(c.drop_last() =~= a + b.drop_last());
        assert(c.last() == b.last());
        lemma_bits_value_concat(a, b.drop_last());
        lemma_pow2_unfold(b.len());
        let p = pow2((b.len() - 1) as nat);
        let va = bits_value(a);
        assert(2 * (va * p + bits_value(b.drop_last())) == va * (2 * p) + 2 * bits_value(
            b.drop_last(),
        )) by (nonlinear_arith);
        assert(bits_value(c) == 2 * bits_value(c.drop_last()) + if c.last() {
            1int
        } else {
            0int
        });
        assert(bits_value(b) == 2 * bits_value(b.drop_last()) + if b.last() {
            1int
        } else {
            0int
        });
    }
}

/// The value of an emission: `bit` then `pending` complements.
pub proof fn lemma_emission_value(bit: bool, pending: nat)
    ensures
        bits_value(emission(bit, pending)) == if bit {
            pow2(pending) as int
        } else {
            pow2(pending) - 1
        },
    decreases pending,
{
    vstd::arithmetic::power2::lemma2_to64();
    let e = emission(bit, pending);
    if pending == 0 {
        assert(e.drop_last() =~= Seq::<bool>::empty());
        assert(e.last() == bit);
        assert(bits_value(Seq::<bool>::empty()) == 0);
    } else {
        lemma_emission_value(bit, (pending - 1) as nat);
        assert(e.drop_last() =~= emission(bit, (pending - 1) as nat));
        assert(e.last() == !bit);
        lemma_pow2_unfold(pending);
    }
}

/// The number of doublings behind a state: the bits written and deferred.
pub open spec fn shifts(output: Seq<bool>, pending: nat) -> nat {
    output.len() + pending
}

/// The state `after` places `[low, high]` (with `output` and `pending`) at
/// a finer scale: its interval is the old one scaled by `2^d`, where `d` is
/// the number of doublings in between.
pub open spec fn nests(
    low: nat,
    high: nat,
    pending: nat,
    output: Seq<bool>,
    after: (nat, nat, nat, Seq<bool>),
    precision: nat,
) -> bool {
    let d = shifts(after.3, after.2) - shifts(output, pending);
    &&& d >= 0
    &&& offset(after.3, after.2, precision) + after.0 == pow2(d as nat) * (offset(
        output,
        pending,
        precision,
    ) + low)
    &&& offset(after.3, after.2, precision) + after.1 == pow2(d as nat) * (offset(
        output,
        pending,
        precision,
    ) + high)
}

/// The middle-half doublings scale the placed interval by two each.
pub proof fn lemma_defer_nests(low: nat, high: nat, precision: nat, pending: nat, output: Seq<bool>)
    requires
        precision >= 2,
        low < high < 2 * pow2((precision - 1) as nat),
    ensures
        nests(
            low,
            high,
            pending,
            output,
            defer(low, high, pow2((precision - 1) as nat), pending, output),
            precision,
        ),
    decreases 2 * pow2((precision - 1) as nat) - (high - low),
{
    let half = pow2((precision - 1) as nat);
    vstd::arithmetic::power2::lemma2_to64();
    if low >= half / 2 && high < half + half / 2 {
        let l1 = (2 * (low - half / 2)) as nat;
        let h1 = (2 * (high - half / 2)) as nat;
        lemma_defer_nests(l1, h1, precision, pending + 1, output);
        lemma_one_deferral(low, high, precision, pending, output);
        let after = defer(l1, h1, half, pending + 1, output);
        assert(defer(low, high, half, pending, output) == after);
        let d2 = shifts(after.3, after.2) - shifts(output, pending + 1);
        lemma_pow2_adds(d2 as nat, 1);
        let a = offset(output, pending + 1, precision);
        let b = offset(output, pending, precision);
        let e = pow2(d2 as nat);
        assert(e * (a + l1) == (e * 2) * (b + low)) by (nonlinear_arith)
            requires
                a + l1 == 2 * (b + low),
        ;
        assert(e * (a + h1) == (e * 2) * (b + high)) by (nonlinear_arith)
            requires
                a + h1 == 2 * (b + high),
        ;
        assert(pow2((d2 + 1) as nat) == e * 2);
    } else {
        let b = offset(output, pending, precision);
        assert(defer(low, high, half, pending, output) == (low, high, pending, output));
        assert(pow2(0) * (b + low) == b + low);
        assert(pow2(0) * (b + high) == b + high);
    }
}

/// One middle-half doubling.
proof fn lemma_one_deferral(low: nat, high: nat, precision: nat, pending: nat, output: Seq<bool>)
    requires
        precision >= 2,
        pow2((precision - 1) as nat) / 2 <= low <= high,
    ensures
        offset(output, pending + 1, precision) + 2 * (low - pow2((precision - 1) as nat) / 2) == 2
            * (offset(output, pending, precision) + low),
        offset(output, pending + 1, precision) + 2 * (high - pow2((precision - 1) as nat) / 2) == 2
            * (offset(output, pending, precision) + high),
{
    let hf = pow2((precision - 1) as nat);
    let pp = pow2(precision);
    lemma_pow2_unfold(precision);
    lemma_pow2_unfold((precision - 1) as nat);
    lemma_pow2_unfold(pending + 1);
    let kk = pow2(pending);
    let v = bits_value(output);
    assert(pp * (2 * kk * v) + (2 * kk - 1) * hf == 2 * (pp * (kk * v) + (kk - 1) * hf) + hf)
        by (nonlinear_arith)
        requires
            pp == 2 * hf,
    ;
}

/// One doubling that writes a settled bit, with the deferred bits behind it.
proof fn lemma_one_emission(bit: bool, offset_by: nat, precision: nat, pending: nat, output: Seq<bool>)
    requires
        precision >= 2,
        offset_by == if bit {
            pow2((precision - 1) as nat)
        } else {
            0nat
        },
    ensures
        shifts(output + emission(bit, pending), 0) == shifts(output, pending) + 1,
        offset(output + emission(bit, pending), 0, precision) == 2 * offset(output, pending, precision)
            + 2 * offset_by,
{
    let hf = pow2((precision - 1) as nat);
    let pp = pow2(precision);
    lemma_pow2_unfold(precision);
    lemma_pow2_unfold(pending + 1);
    vstd::arithmetic::power2::lemma2_to64();
    lemma_bits_value_concat(output, emission(bit, pending));
    lemma_emission_value(bit, pending);
    let kk = pow2(pending);
    let v = bits_value(output);
    let ev = bits_value(emission(bit, pending));
    assert(pp * (1 * (v * (2 * kk) + ev)) + (1 - 1) * hf == pp * (v * (2 * kk) + ev))
        by (nonlinear_arith);
    assert(pp * (v * (2 * kk) + ev) == 2 * (pp * (kk * v) + (kk - 1) * hf) + 2 * offset_by)
        by (nonlinear_arith)
        requires
            pp == 2 * hf,
            ev == if bit {
                kk as int
            } else {
                kk - 1
            },
            offset_by == if bit {
                hf
            } else {
                0nat
            },
    ;
}

/// The encoder's renormalisation scales the placed interval by two for each
/// doubling: the bits it writes and defers, with the new interval, stand for
/// exactly the interval it started from.
pub proof fn lemma_settle_nests(low: nat, high: nat, precision: nat, pending: nat, output: Seq<bool>)
    requires
        precision >= 2,
        low < high < 2 * pow2((precision - 1) as nat),
    ensures
        nests(
            low,
            high,
            pending,
            output,
            settle(low, high, pow2((precision - 1) as nat), pending, output),
            precision,
        ),
    decreases 2 * pow2((precision - 1) as nat) - (high - low),
{
    let half = pow2((precision - 1) as nat);
    vstd::arithmetic::power2::lemma2_to64();
    if high < half || low >= half {
        let bit = low >= half;
        let by: nat = if bit {
            half
        } else {
            0nat
        };
        let l1 = (2 * (low - by)) as nat;
        let h1 = (2 * (high - by)) as nat;
        let out1 = output + emission(bit, pending);
        lemma_settle_nests(l1, h1, precision, 0, out1);
        lemma_one_emission(bit, by, precision, pending, output);
        let after = settle(l1, h1, half, 0, out1);
        assert(settle(low, high, half, pending, output) == after);
        let d2 = shifts(after.3, after.2) - shifts(out1, 0);
        lemma_pow2_adds(d2 as nat, 1);
        let a = offset(out1, 0, precision);
        let b = offset(output, pending, precision);
        let e = pow2(d2 as nat);
        assert(e * (a + l1) == (e * 2) * (b + low)) by (nonlinear_arith)
            requires
                a + l1 == 2 * (b + low),
        ;
        assert(e * (a + h1) == (e * 2) * (b + high)) by (nonlinear_arith)
            requires
                a + h1 == 2 * (b + high),
        ;
        assert(pow2((d2 + 1) as nat) == e * 2);
    } else {
        lemma_defer_nests(low, high, precision, pending, output);
    }
}

/// The number that the first `m` bits of `stream` spell, reading zeros past
/// its end.
pub open spec fn stream_prefix(stream: Seq<bool>, m: nat) -> int
    decreases m,
{
    if m == 0 {
        0
    } else {
        2 * stream_prefix(stream, (m - 1) as nat) + bit_at(stream, (m - 1) as nat)
    }
}

/// The read position after `m` reads from the start.
pub open spec fn read_position(stream: Seq<bool>, m: nat) -> nat {
    if m < stream.len() {
        m
    } else {
        stream.len()
    }
}

/// One read: the next bit comes from the position the reads have reached.
proof fn lemma_one_read(stream: Seq<bool>, m: nat)
    ensures
        bit_at(stream, read_position(stream, m)) == bit_at(stream, m),
        next_position(stream, read_position(stream, m)) == read_position(stream, m + 1),
        stream_prefix(stream, m + 1) == 2 * stream_prefix(stream, m) + bit_at(stream, m),
{
}

/// A prefix below a bound scaled by `2^d` after `d` more bits was below the
/// bound before them.
pub proof fn lemma_prefix_below(stream: Seq<bool>, m: nat, d: nat, bound: int)
    requires
        stream_prefix(stream, m + d) <= pow2(d) * bound,
    ensures
        stream_prefix(stream, m) <= bound,
{
    lemma_prefix_refines(stream, m, d);
    vstd::arithmetic::power2::lemma_pow2_pos(d);
    let a = stream_prefix(stream, m);
    let e = pow2(d);
    assert(a <= bound) by (nonlinear_arith)
        requires
            a * e <= e * bound,
            e > 0,
    ;
}

/// The decoder's middle-half doublings follow the encoder's: the intervals
/// agree, and the tag stays the stream's prefix less the encoder's offset.
pub proof fn lemma_defer_read_follows(
    low: nat,
    high: nat,
    x: nat,
    precision: nat,
    pending: nat,
    output: Seq<bool>,
    stream: Seq<bool>,
)
    requires
        precision >= 2,
        low < high < 2 * pow2((precision - 1) as nat),
        low <= x,
        offset(output, pending, precision) + x == stream_prefix(stream, shifts(output, pending) + precision),
        ({
            let last = defer(low, high, pow2((precision - 1) as nat), pending, output);
            stream_prefix(stream, shifts(last.3, last.2) + precision) <= offset(last.3, last.2, precision)
                + last.1
        }),
    ensures
        ({
            let half = pow2((precision - 1) as nat);
            let (l, h, k, out) = defer(low, high, half, pending, output);
            let (l2, h2, x2, pos2) = defer_read(
                low,
                high,
                x,
                half,
                stream,
                read_position(stream, shifts(output, pending) + precision),
            );
            &&& l2 == l
            &&& h2 == h
            &&& pos2 == read_position(stream, shifts(out, k) + precision)
            &&& offset(out, k, precision) + x2 == stream_prefix(stream, shifts(out, k) + precision)
        }),
    decreases 2 * pow2((precision - 1) as nat) - (high - low),
{
    let half = pow2((precision - 1) as nat);
    let n = shifts(output, pending) + precision;
    if low >= half / 2 && high < half + half / 2 {
        let l1 = (2 * (low - half / 2)) as nat;
        let h1 = (2 * (high - half / 2)) as nat;
        let raw = 2 * (x - half / 2) + bit_at(stream, read_position(stream, n));
        lemma_one_read(stream, n);
        lemma_one_deferral(low, high, precision, pending, output);
        assert(shifts(output, pending + 1) + precision == n + 1);
        let last = defer(l1, h1, half, pending + 1, output);
        assert(defer(low, high, half, pending, output) == last);
        lemma_defer_nests(l1, h1, precision, pending + 1, output);
        let o1 = offset(output, pending + 1, precision);
        let dd = (shifts(last.3, last.2) - shifts(output, pending + 1)) as nat;
        assert(n + 1 + dd == shifts(last.3, last.2) + precision);
        lemma_prefix_below(stream, n + 1, dd, o1 + h1);
        assert(o1 + raw == stream_prefix(stream, n + 1));
        assert(raw <= h1);
        let x1 = raw as nat;
        lemma_defer_read_follows(l1, h1, x1, precision, pending + 1, output, stream);
        assert(defer_read(low, high, x, half, stream, read_position(stream, n)) == defer_read(
            l1,
            h1,
            x1,
            half,
            stream,
            read_position(stream, n + 1),
        ));
    }
}

/// The decoder's renormalisation follows the encoder's, as the middle-half
/// doublings do.
pub proof fn lemma_settle_read_follows(
    low: nat,
    high: nat,
    x: nat,
    precision: nat,
    pending: nat,
    output: Seq<bool>,
    stream: Seq<bool>,
)
    requires
        precision >= 2,
        low < high < 2 * pow2((precision - 1) as nat),
        low <= x,
        offset(output, pending, precision) + x == stream_prefix(stream, shifts(output, pending) + precision),
        ({
            let last = settle(low, high, pow2((precision - 1) as nat), pending, output);
            stream_prefix(stream, shifts(last.3, last.2) + precision) <= offset(last.3, last.2, precision)
                + last.1
        }),
    ensures
        ({
            let half = pow2((precision - 1) as nat);
            let (l, h, k, out) = settle(low, high, half, pending, output);
            let (l2, h2, x2, pos2) = settle_read(
                low,
                high,
                x,
                half,
                stream,
                read_position(stream, shifts(output, pending) + precision),
            );
            &&& l2 == l
            &&& h2 == h
            &&& pos2 == read_position(stream, shifts(out, k) + precision)
            &&& offset(out, k, precision) + x2 == stream_prefix(stream, shifts(out, k) + precision)
        }),
    decreases 2 * pow2((precision - 1) as nat) - (high - low),
{
    let half = pow2((precision - 1) as nat);
    let n = shifts(output, pending) + precision;
    if high < half || low >= half {
        let bit = low >= half;
        let by: nat = if bit {
            half
        } else {
            0nat
        };
        let l1 = (2 * (low - by)) as nat;
        let h1 = (2 * (high - by)) as nat;
        let raw = 2 * (x - by) + bit_at(stream, read_position(stream, n));
        let out1 = output + emission(bit, pending);
        lemma_one_read(stream, n);
        lemma_one_emission(bit, by, precision, pending, output);
        let last = settle(l1, h1, half, 0, out1);
        assert(settle(low, high, half, pending, output) == last);
        lemma_settle_nests(l1, h1, precision, 0, out1);
        let o1 = offset(out1, 0, precision);
        let dd = (shifts(last.3, last.2) - shifts(out1, 0)) as nat;
        assert(n + 1 + dd == shifts(last.3, last.2) + precision);
        lemma_prefix_below(stream, n + 1, dd, o1 + h1);
        assert(o1 + raw == stream_prefix(stream, n + 1));
        assert(raw <= h1);
        let x1 = raw as nat;
        lemma_settle_read_follows(l1, h1, x1, precision, 0, out1, stream);
        if bit {
            assert(settle_read(low, high, x, half, stream, read_position(stream, n)) == settle_read(
                l1,
                h1,
                x1,
                half,
                stream,
                read_position(stream, n + 1),
            ));
        } else {
            assert(settle_read(low, high, x, half, stream, read_position(stream, n)) == settle_read(
                l1,
                h1,
                x1,
                half,
                stream,
                read_position(stream, n + 1),
            ));
        }
    } else {
        lemma_defer_read_follows(low, high, x, precision, pending, output, stream);
    }
}

/// Filling the tag reads the next bits of the stream.
pub proof fn lemma_filled(stream: Seq<bool>, j: nat, n: nat)
    ensures
        filled(stream_prefix(stream, j) as nat, stream, read_position(stream, j), n) == (
            stream_prefix(stream, j + n) as nat,
            read_position(stream, j + n),
        ),
    decreases n,
{
    lemma_prefix_nonneg(stream, j);
    if n > 0 {
        lemma_one_read(stream, j);
        lemma_prefix_nonneg(stream, j + 1);
        lemma_filled(stream, j + 1, (n - 1) as nat);
        assert(j + 1 + (n - 1) == j + n);
    }
}

/// Prefix values are not negative.
pub proof fn lemma_prefix_nonneg(stream: Seq<bool>, m: nat)
    ensures
        stream_prefix(stream, m) >= 0,
    decreases m,
{
    if m > 0 {
        lemma_prefix_nonneg(stream, (m - 1) as nat);
    }
}

/// `d` more bits refine a prefix: the longer prefix lies in the block of
/// `2^d` values that the shorter one heads.
pub proof fn lemma_prefix_refines(stream: Seq<bool>, m: nat, d: nat)
    ensures
        stream_prefix(stream, m) * pow2(d) <= stream_prefix(stream, m + d),
        stream_prefix(stream, m + d) < (stream_prefix(stream, m) + 1) * pow2(d),
    decreases d,
{
    vstd::arithmetic::power2::lemma2_to64();
    if d > 0 {
        lemma_prefix_refines(stream, m, (d - 1) as nat);
        lemma_pow2_unfold(d);
        let a = stream_prefix(stream, m);
        let b = stream_prefix(stream, (m + d - 1) as nat);
        let e = pow2((d - 1) as nat);
        assert(m + d - 1 + 1 == m + d);
        assert(stream_prefix(stream, m + d) == 2 * b + bit_at(stream, (m + d - 1) as nat));
        assert(a * (2 * e) <= 2 * b + bit_at(stream, (m + d - 1) as nat)) by (nonlinear_arith)
            requires
                a * e <= b,
        ;
        assert(2 * b + bit_at(stream, (m + d - 1) as nat) < (a + 1) * (2 * e)) by (nonlinear_arith)
            requires
                b < (a + 1) * e,
                bit_at(stream, (m + d - 1) as nat) <= 1,
        ;
    }
}

/// A prefix whose refinement lies in an interval scaled by `2^d` lies in the
/// interval.
pub proof fn lemma_prefix_back(stream: Seq<bool>, m: nat, d: nat, low: int, high: int)
    requires
        pow2(d) * low <= stream_prefix(stream, m + d) <= pow2(d) * (high + 1) - 1,
    ensures
        low <= stream_prefix(stream, m) <= high,
{
    lemma_prefix_refines(stream, m, d);
    vstd::arithmetic::power2::lemma_pow2_pos(d);
    let a = stream_prefix(stream, m);
    let e = pow2(d);
    assert(a < high + 1) by (nonlinear_arith)
        requires
            a * e <= e * (high + 1) - 1,
            e > 0,
    ;
    assert(a + 1 > low) by (nonlinear_arith)
        requires
            e * low < (a + 1) * e,
            e > 0,
    ;
}

/// The prefix of a sequence's own length spells the sequence.
pub proof fn lemma_prefix_of_bits(bits: Seq<bool>, j: nat)
    requires
        j <= bits.len(),
    ensures
        stream_prefix(bits, j) == bits_value(bits.subrange(0, j as int)),
    decreases j,
{
    if j > 0 {
        lemma_prefix_of_bits(bits, (j - 1) as nat);
        let t = bits.subrange(0, j as int);
        assert(t.drop_last() =~= bits.subrange(0, j - 1));
        assert(t.last() == bits[j - 1]);
    } else {
        assert(bits.subrange(0, 0) =~= Seq::<bool>::empty());
    }
}

/// Past the end of the bits, a prefix only takes in zeros.
pub proof fn lemma_prefix_zeros(bits: Seq<bool>, z: nat)
    ensures
        stream_prefix(bits, bits.len() + z) == stream_prefix(bits, bits.len()) * pow2(z),
    decreases z,
{
    vstd::arithmetic::power2::lemma2_to64();
    if z > 0 {
        lemma_prefix_zeros(bits, (z - 1) as nat);
        lemma_pow2_unfold(z);
        assert(bits.len() + z - 1 + 1 == bits.len() + z);
        assert(bit_at(bits, (bits.len() + z - 1) as nat) == 0);
        assert(stream_prefix(bits, bits.len() + z) == 2 * stream_prefix(
            bits,
            (bits.len() + z - 1) as nat,
        ));
        let a = stream_prefix(bits, bits.len());
        assert(bits.len() + (z - 1) as nat == (bits.len() + z - 1) as nat);
        assert(stream_prefix(bits, (bits.len() + z - 1) as nat) == a * pow2((z - 1) as nat));
        assert(2 * (a * pow2((z - 1) as nat)) == a * (2 * pow2((z - 1) as nat))) by (nonlinear_arith);
        assert(pow2(z) == 2 * pow2((z - 1) as nat));
    } else {
        assert(bits.len() + z == bits.len());
        assert(pow2(0) == 1);
        let a = stream_prefix(bits, bits.len());
        assert(a * 1 == a);
    }
}

/// The tag lies in the placed interval `[low, high]`.
pub open spec fn inside(state: (nat, nat, nat, Seq<bool>), stream: Seq<bool>, precision: nat) -> bool {
    let o = offset(state.3, state.2, precision);
    let v = stream_prefix(stream, shifts(state.3, state.2) + precision);
    o + state.0 <= v <= o + state.1
}

/// The final bits that flushing writes place the stream inside the last
/// interval: the point they stand for is a quarter, or a half.
pub proof fn lemma_flush_inside(low: nat, high: nat, pending: nat, output: Seq<bool>, precision: nat)
    requires
        precision >= 2,
        straddles(low, high, pow2((precision - 1) as nat)),
    ensures
        inside(
            (low, high, pending, output),
            output + emission(low > pow2((precision - 1) as nat) / 2, pending + 1),
            precision,
        ),
{
    let half = pow2((precision - 1) as nat);
    let bit = low > half / 2;
    let tail = emission(bit, pending + 1);
    let stream = output + tail;
    let z = (precision - 2) as nat;
    assert(stream.len() + z == shifts(output, pending) + precision);
    lemma_prefix_zeros(stream, z);
    lemma_prefix_of_bits(stream, stream.len());
    assert(stream.subrange(0, stream.len() as int) =~= stream);
    lemma_bits_value_concat(output, tail);
    lemma_emission_value(bit, pending + 1);
    lemma_pow2_unfold(pending + 1);
    lemma_pow2_unfold(pending + 2);
    lemma_pow2_unfold(precision);
    lemma_pow2_unfold((precision - 1) as nat);
    assert(precision - 1 - 1 == z);
    let kk = pow2(pending);
    let q = pow2(z);
    let v = bits_value(output);
    let ev = bits_value(tail);
    assert(tail.len() == pending + 2);
    assert(pow2(pending + 2) == 4 * kk);
    assert(half == 2 * q);
    assert(pow2(precision) == 4 * q);
    let value = (v * (4 * kk) + ev) * q;
    let o = offset(output, pending, precision);
    assert(o == (4 * q) * (kk * v) + (kk - 1) * (2 * q));
    if bit {
        assert(value - o == 2 * q) by (nonlinear_arith)
            requires
                ev == 2 * kk,
                value == (v * (4 * kk) + ev) * q,
                o == (4 * q) * (kk * v) + (kk - 1) * (2 * q),
        ;
    } else {
        assert(value - o == q) by (nonlinear_arith)
            requires
                ev == 2 * kk - 1,
                value == (v * (4 * kk) + ev) * q,
                o == (4 * q) * (kk * v) + (kk - 1) * (2 * q),
        ;
    }
}

/// An encoder state between two symbols: an ordered interval below
/// `2^precision` that straddles the midpoint.
pub open spec fn between(state: (nat, nat, nat, Seq<bool>), precision: nat) -> bool {
    &&& state.0 < state.1 < pow2(precision)
    &&& straddles(state.0, state.1, pow2((precision - 1) as nat))
}

/// A model snapshot that the coder can run with at `precision`.
pub open spec fn fits<M: Model>(m: M::Snapshot, precision: nat) -> bool {
    &&& M::valid(m)
    &&& precision_workable(M::spec_max_denominator(m), precision, M::B::spec_bits())
}

/// One encoding step from a state between symbols: the interval of the
/// symbol narrows `[low, high]` to a non-empty part of it, and the state after
/// renormalisation is between symbols again and nests that part.
pub proof fn lemma_step<M: Model>(
    m: M::Snapshot,
    state: (nat, nat, nat, Seq<bool>),
    symbol: Option<M::Symbol>,
    precision: nat,
)
    requires
        fits::<M>(m, precision),
        between(state, precision),
        M::spec_probability(m, symbol) is Some,
    ensures
        ({
            let (start, end) = M::spec_probability(m, symbol)->Some_0;
            let d = M::spec_denominator(m);
            let half = pow2((precision - 1) as nat);
            let sl = scaled_low(state.0, state.1, start, d);
            let sh = scaled_high(state.0, state.1, end, d);
            let next = encoded(state, half, start, end, d);
            &&& start < end <= d
            &&& 0 < d <= width(state.0, state.1)
            &&& state.0 <= sl < sh <= state.1
            &&& between(next, precision)
            &&& nests(sl, sh, state.2, state.3, next, precision)
            &&& fits::<M>(M::spec_updated(m, symbol), precision)
        }),
{
    let (start, end) = M::spec_probability(m, symbol)->Some_0;
    let d = M::spec_denominator(m);
    let half = pow2((precision - 1) as nat);
    M::lemma_denominator(m);
    M::lemma_interval(m, symbol);
    M::B::lemma_bits();
    lemma_room(state.0, state.1, precision, M::spec_max_denominator(m), M::B::spec_bits());
    lemma_scale_bounds(width(state.0, state.1), start, end, d);
    crate::common::lemma_scale_wide(width(state.0, state.1), start, end, d);
    lemma_pow2_unfold(precision);
    vstd::arithmetic::power2::lemma_pow2_pos((precision - 2) as nat);
    lemma_pow2_unfold((precision - 1) as nat);
    let sl = scaled_low(state.0, state.1, start, d);
    let sh = scaled_high(state.0, state.1, end, d);
    crate::encoder::lemma_settle_ordered(sl, sh, half, state.2, state.3);
    lemma_settle_nests(sl, sh, precision, state.2, state.3);
}

/// Encoding a run of symbols from a state between symbols ends between
/// symbols, with a model the coder can still run with.
pub proof fn lemma_run_shape<M: Model>(
    m: M::Snapshot,
    state: (nat, nat, nat, Seq<bool>),
    symbols: Seq<Option<M::Symbol>>,
    precision: nat,
)
    requires
        fits::<M>(m, precision),
        between(state, precision),
        encoded_all::<M>(m, state, pow2((precision - 1) as nat), symbols) is Some,
    ensures
        ({
            let (m2, last) = encoded_all::<M>(m, state, pow2((precision - 1) as nat), symbols)->Some_0;
            fits::<M>(m2, precision) && between(last, precision)
        }),
    decreases symbols.len(),
{
    if symbols.len() > 0 {
        let (start, end) = M::spec_probability(m, symbols[0])->Some_0;
        lemma_step::<M>(m, state, symbols[0], precision);
        lemma_run_shape::<M>(
            M::spec_updated(m, symbols[0]),
            encoded(state, pow2((precision - 1) as nat), start, end, M::spec_denominator(m)),
            symbols.drop_first(),
            precision,
        );
    }
}

/// Where the stream lies inside the state after one step, it lies inside
/// the part of the interval that the step's symbol took.
pub proof fn lemma_in_part<M: Model>(
    m: M::Snapshot,
    state: (nat, nat, nat, Seq<bool>),
    symbol: Option<M::Symbol>,
    stream: Seq<bool>,
    precision: nat,
)
    requires
        fits::<M>(m, precision),
        between(state, precision),
        M::spec_probability(m, symbol) is Some,
        inside(
            encoded(
                state,
                pow2((precision - 1) as nat),
                M::spec_probability(m, symbol)->Some_0.0,
                M::spec_probability(m, symbol)->Some_0.1,
                M::spec_denominator(m),
            ),
            stream,
            precision,
        ),
    ensures
        ({
            let (start, end) = M::spec_probability(m, symbol)->Some_0;
            let d = M::spec_denominator(m);
            let o = offset(state.3, state.2, precision);
            let v = stream_prefix(stream, shifts(state.3, state.2) + precision);
            o + scaled_low(state.0, state.1, start, d) <= v <= o + scaled_high(state.0, state.1, end, d)
        }),
{
    let (start, end) = M::spec_probability(m, symbol)->Some_0;
    let d = M::spec_denominator(m);
    lemma_step::<M>(m, state, symbol, precision);
    let next = encoded(state, pow2((precision - 1) as nat), start, end, d);
    let o = offset(state.3, state.2, precision);
    let n = shifts(state.3, state.2) + precision;
    let dd = (shifts(next.3, next.2) - shifts(state.3, state.2)) as nat;
    assert(n + dd == shifts(next.3, next.2) + precision);
    vstd::arithmetic::power2::lemma_pow2_pos(dd);
    let e = pow2(dd);
    let top = o + scaled_high(state.0, state.1, end, d);
    assert(e * top <= e * (top + 1) - 1) by (nonlinear_arith)
        requires
            e > 0,
    ;
    lemma_prefix_back(
        stream,
        n,
        dd,
        o + scaled_low(state.0, state.1, start, d),
        o + scaled_high(state.0, state.1, end, d),
    );
}

/// Where the stream lies inside the state at the end of a run, it lies
/// inside every state of the run.
pub proof fn lemma_inside_back<M: Model>(
    m: M::Snapshot,
    state: (nat, nat, nat, Seq<bool>),
    symbols: Seq<Option<M::Symbol>>,
    stream: Seq<bool>,
    precision: nat,
)
    requires
        fits::<M>(m, precision),
        between(state, precision),
        encoded_all::<M>(m, state, pow2((precision - 1) as nat), symbols) is Some,
        inside(
            encoded_all::<M>(m, state, pow2((precision - 1) as nat), symbols)->Some_0.1,
            stream,
            precision,
        ),
    ensures
        inside(state, stream, precision),
    decreases symbols.len(),
{
    if symbols.len() > 0 {
        let (start, end) = M::spec_probability(m, symbols[0])->Some_0;
        let d = M::spec_denominator(m);
        lemma_step::<M>(m, state, symbols[0], precision);
        let next = encoded(state, pow2((precision - 1) as nat), start, end, d);
        lemma_inside_back::<M>(M::spec_updated(m, symbols[0]), next, symbols.drop_first(), stream, precision);
        lemma_in_part::<M>(m, state, symbols[0], stream, precision);
    }
}

/// From a decoder state that matches an encoder state between symbols, and
/// a stream inside the encoder's last state, the decoder reads back every
/// symbol that the encoder took in, and stops at the EOF after them.
pub proof fn lemma_reads_back<M: Model>(
    m: M::Snapshot,
    state: (nat, nat, nat, Seq<bool>),
    x: nat,
    symbols: Seq<M::Symbol>,
    stream: Seq<bool>,
    precision: nat,
    limit: nat,
)
    requires
        fits::<M>(m, precision),
        between(state, precision),
        state.0 <= x <= state.1,
        offset(state.3, state.2, precision) + x == stream_prefix(
            stream,
            shifts(state.3, state.2) + precision,
        ),
        encoded_all::<M>(m, state, pow2((precision - 1) as nat), terminated(symbols)) is Some,
        inside(
            encoded_all::<M>(m, state, pow2((precision - 1) as nat), terminated(symbols))->Some_0.1,
            stream,
            precision,
        ),
        limit > symbols.len(),
    ensures
        decoded_all::<M>(
            m,
            (state.0, state.1, x, read_position(stream, shifts(state.3, state.2) + precision)),
            pow2((precision - 1) as nat),
            stream,
            limit,
        ) == symbols,
        ({
            let (m2, last) = encoded_all::<M>(
                m,
                state,
                pow2((precision - 1) as nat),
                terminated(symbols),
            )->Some_0;
            let n = shifts(last.3, last.2) + precision;
            decoded_state::<M>(
                m,
                (state.0, state.1, x, read_position(stream, shifts(state.3, state.2) + precision)),
                pow2((precision - 1) as nat),
                stream,
                limit,
            ) == (
                m2,
                (
                    last.0,
                    last.1,
                    (stream_prefix(stream, n) - offset(last.3, last.2, precision)) as nat,
                    read_position(stream, n),
                ),
            )
        }),
    decreases symbols.len(),
{
    let half = pow2((precision - 1) as nat);
    let all = terminated(symbols);
    let first = all[0];
    assert(first == if symbols.len() > 0 {
        Some(symbols[0])
    } else {
        None::<M::Symbol>
    });
    let (start, end) = M::spec_probability(m, first)->Some_0;
    let d = M::spec_denominator(m);
    lemma_step::<M>(m, state, first, precision);
    let next = encoded(state, half, start, end, d);
    let m1 = M::spec_updated(m, first);
    if symbols.len() > 0 {
        assert(all.drop_first() =~= terminated(symbols.drop_first()));
    }
    lemma_inside_back::<M>(m1, next, all.drop_first(), stream, precision);
    lemma_in_part::<M>(m, state, first, stream, precision);
    let sl = scaled_low(state.0, state.1, start, d);
    let sh = scaled_high(state.0, state.1, end, d);
    lemma_value_iff_scaled(state.0, state.1, x, d, start, end);
    let value = value_of(state.0, state.1, x, d);
    M::lemma_owner(m, first, value);
    let pos = read_position(stream, shifts(state.3, state.2) + precision);
    lemma_pow2_unfold(precision);
    lemma_settle_read_follows(sl, sh, x, precision, state.2, state.3, stream);
    let after = settle_read(sl, sh, x, half, stream, pos);
    assert(decoded::<M>(m, (state.0, state.1, x, pos), half, stream) == (first, m1, after));
    if symbols.len() > 0 {
        let rest = symbols.drop_first();
        lemma_reads_back::<M>(m1, next, after.2, rest, stream, precision, (limit - 1) as nat);
        assert(seq![symbols[0]] + rest =~= symbols);
    } else {
        assert(all.drop_first() =~= Seq::<Option<M::Symbol>>::empty());
        assert(encoded_all::<M>(m, state, half, all) == Some((m1, next)));
    }
}

/// Round trip: encoding `symbols` and EOF from the whole interval, and
/// flushing, gives a stream from which the decoder, starting afresh with the
/// same model and precision, reads back exactly `symbols` and then EOF.
pub proof fn lemma_round_trip<M: Model>(m: M::Snapshot, precision: nat, symbols: Seq<M::Symbol>, limit: nat)
    requires
        fits::<M>(m, precision),
        encoded_all::<M>(
            m,
            (0, (pow2(precision) - 1) as nat, 0, Seq::empty()),
            pow2((precision - 1) as nat),
            terminated(symbols),
        ) is Some,
        limit > symbols.len(),
    ensures
        ({
            let half = pow2((precision - 1) as nat);
            let (_m2, (low, high, pending, output)) = encoded_all::<M>(
                m,
                (0, (pow2(precision) - 1) as nat, 0, Seq::empty()),
                half,
                terminated(symbols),
            )->Some_0;
            let stream = output + emission(low > half / 2, pending + 1);
            let (x, position) = filled(0, stream, 0, precision);
            decoded_all::<M>(m, (0, (pow2(precision) - 1) as nat, x, position), half, stream, limit)
                == symbols
        }),
{
    let half = pow2((precision - 1) as nat);
    let fresh = (0nat, (pow2(precision) - 1) as nat, 0nat, Seq::<bool>::empty());
    M::B::lemma_bits();
    lemma_pow2_unfold(precision);
    lemma_pow2_unfold((precision - 1) as nat);
    vstd::arithmetic::power2::lemma_pow2_pos((precision - 2) as nat);
    assert(between(fresh, precision));
    lemma_run_shape::<M>(m, fresh, terminated(symbols), precision);
    let (_m2, last) = encoded_all::<M>(m, fresh, half, terminated(symbols))->Some_0;
    let stream = last.3 + emission(last.0 > half / 2, last.2 + 1);
    lemma_flush_inside(last.0, last.1, last.2, last.3, precision);
    lemma_filled(stream, 0, precision);
    lemma_prefix_refines(stream, 0, precision);
    lemma_prefix_nonneg(stream, precision);
    vstd::arithmetic::power2::lemma2_to64();
    assert(offset(Seq::<bool>::empty(), 0, precision) == 0) by {
        assert(bits_value(Seq::<bool>::empty()) == 0);
        assert(pow2(precision) * (1 * 0) + (1 - 1) * pow2((precision - 1) as nat) == 0)
            by (nonlinear_arith);
    }
    assert(read_position(stream, 0) == 0);
    assert(stream_prefix(stream, 0) == 0);
    assert(0 + precision == precision);
    assert(stream_prefix(stream, precision) < 1 * pow2(precision));
    lemma_reads_back::<M>(m, fresh, stream_prefix(stream, precision) as nat, symbols, stream, precision, limit);
}

/// Chained round trip: two symbol streams under two models, one after the
/// other in one bit stream at one precision. The decoder reads the first
/// stream up to its EOF under the first model, then goes on from where it
/// stands under the second model and reads the second stream.
pub proof fn lemma_chained_round_trip<M: Model, X: Model>(
    first_model: M::Snapshot,
    second_model: X::Snapshot,
    precision: nat,
    first: Seq<M::Symbol>,
    second: Seq<X::Symbol>,
    first_limit: nat,
    second_limit: nat,
)
    requires
        fits::<M>(first_model, precision),
        fits::<X>(second_model, precision),
        encoded_all::<M>(
            first_model,
            (0, (pow2(precision) - 1) as nat, 0, Seq::empty()),
            pow2((precision - 1) as nat),
            terminated(first),
        ) is Some,
        encoded_all::<X>(
            second_model,
            encoded_all::<M>(
                first_model,
                (0, (pow2(precision) - 1) as nat, 0, Seq::empty()),
                pow2((precision - 1) as nat),
                terminated(first),
            )->Some_0.1,
            pow2((precision - 1) as nat),
            terminated(second),
        ) is Some,
        first_limit > first.len(),
        second_limit > second.len(),
    ensures
        ({
            let half = pow2((precision - 1) as nat);
            let fresh = (0, (pow2(precision) - 1) as nat, 0, Seq::empty());
            let (_m1, middle) = encoded_all::<M>(first_model, fresh, half, terminated(first))->Some_0;
            let (_m2, (low, high, pending, output)) = encoded_all::<X>(
                second_model,
                middle,
                half,
                terminated(second),
            )->Some_0;
            let stream = output + emission(low > half / 2, pending + 1);
            let (x, position) = filled(0, stream, 0, precision);
            let start = (0, (pow2(precision) - 1) as nat, x, position);
            let (_d1, resumed) = decoded_state::<M>(first_model, start, half, stream, first_limit);
            &&& decoded_all::<M>(first_model, start, half, stream, first_limit) == first
            &&& decoded_all::<X>(second_model, resumed, half, stream, second_limit) == second
        }),
{
    let half = pow2((precision - 1) as nat);
    let fresh = (0nat, (pow2(precision) - 1) as nat, 0nat, Seq::<bool>::empty());
    M::B::lemma_bits();
    lemma_pow2_unfold(precision);
    lemma_pow2_unfold((precision - 1) as nat);
    vstd::arithmetic::power2::lemma_pow2_pos((precision - 2) as nat);
    assert(between(fresh, precision));
    lemma_run_shape::<M>(first_model, fresh, terminated(first), precision);
    let (m1, middle) = encoded_all::<M>(first_model, fresh, half, terminated(first))->Some_0;
    lemma_run_shape::<X>(second_model, middle, terminated(second), precision);
    let (_m2, last) = encoded_all::<X>(second_model, middle, half, terminated(second))->Some_0;
    let stream = last.3 + emission(last.0 > half / 2, last.2 + 1);
    lemma_flush_inside(last.0, last.1, last.2, last.3, precision);
    lemma_inside_back::<X>(second_model, middle, terminated(second), stream, precision);
    lemma_filled(stream, 0, precision);
    lemma_prefix_refines(stream, 0, precision);
    lemma_prefix_nonneg(stream, precision);
    vstd::arithmetic::power2::lemma2_to64();
    assert(offset(Seq::<bool>::empty(), 0, precision) == 0) by {
        assert(bits_value(Seq::<bool>::empty()) == 0);
        assert(pow2(precision) * (1 * 0) + (1 - 1) * pow2((precision - 1) as nat) == 0)
            by (nonlinear_arith);
    }
    assert(read_position(stream, 0) == 0);
    assert(stream_prefix(stream, 0) == 0);
    assert(0 + precision == precision);
    assert(stream_prefix(stream, precision) < 1 * pow2(precision));
    lemma_reads_back::<M>(
        first_model,
        fresh,
        stream_prefix(stream, precision) as nat,
        first,
        stream,
        precision,
        first_limit,
    );
    let n = shifts(middle.3, middle.2) + precision;
    let xm = (stream_prefix(stream, n) - offset(middle.3, middle.2, precision)) as nat;
    lemma_reads_back::<X>(second_model, middle, xm, second, stream, precision, second_limit);
}

} // verus!
