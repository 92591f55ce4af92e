use arithmetic_coding::common::{assert_precision_sufficient, precision_is_sufficient};
use arithmetic_coding::fenwick::simple::FenwickModel;
use arithmetic_coding::{precision, Decoder, Encoder, Model};

// this is one bit short of what it must be
const PRECISION: u32 = 32;

fn big_model() -> FenwickModel {
    FenwickModel::builder(0, u32::MAX as u64 / 2).build()
}

// Encoder::new selects the precision itself, so it needs no check
#[test]
fn encoder_new_doesnt_panic() {
    let model = big_model();
    let max = model.max_denominator();
    assert!(precision_is_sufficient(max, precision(max)));
    assert_precision_sufficient(max, precision(max));
    let encoder = Encoder::new(model);
    assert_eq!(encoder.state.state.precision, 33);
}

#[test]
fn decoder_new_doesnt_panic() {
    let decoder = Decoder::new(big_model(), Vec::new());
    assert_eq!(decoder.state.state.precision, 33);
}

#[test]
fn precision_one_bit_short_is_insufficient() {
    let max = big_model().max_denominator();
    assert!(!precision_is_sufficient(max, PRECISION));
    assert!(precision_is_sufficient(max, PRECISION + 1));
    // log2(max) + 1 bits only cover the frequencies
    assert!(!precision_is_sufficient(4u32, 3));
    assert!(precision_is_sufficient(4u32, 5));
    assert!(!precision_is_sufficient(4u32, 30));
    assert!(precision_is_sufficient(4u32, 29));
    assert!(!precision_is_sufficient(0u32, 10));
    assert!(precision_is_sufficient(2u64, 32));
    assert!(!precision_is_sufficient(2u64, 63));
}

#[test]
fn default_precision() {
    assert_eq!(precision(4u32), 29);
    assert_eq!(precision(1u64 << 20), 43);
    assert_eq!(precision(1u128), 127);
    assert_eq!(precision(0x7fffu32), 17);
}
