use arithmetic_coding::encoder::Encoder;
use arithmetic_coding::fenwick::context_switching;
use arithmetic_coding::fenwick::simple::FenwickModel;
use arithmetic_coding::uniform::Uniform;
use arithmetic_coding::{Decoder, Error, Model};

/// A static uniform model over three symbols, EOF in slot 0.
fn uniform_three() -> Uniform {
    Uniform::new(3, 3)
}

fn encode<M: Model<Symbol = usize>>(model: M, input: &[usize]) -> Vec<bool> {
    let mut encoder = Encoder::new(model);
    assert!(encoder.encode_all(input).is_ok());
    encoder.into_inner().1.output
}

fn decode<M: Model<Symbol = usize>>(model: M, bits: Vec<bool>, limit: usize) -> Vec<usize> {
    let mut decoder = Decoder::new(model, bits);
    decoder.decode_all(limit)
}

#[test]
fn symbolic_round_trip() {
    let model = uniform_three();
    assert_eq!(model.denominator(), 4);
    assert_eq!(model.probability(None).ok(), Some(0..1));
    let input = vec![0, 1, 2];
    let bits = encode(uniform_three(), &input);
    assert!(!bits.is_empty());
    assert!(bits.len() <= 16);
    assert_eq!(bits, encode(uniform_three(), &input));
    assert_eq!(bits, vec![false, true, true, false, true, true, false, false, false]);
    assert_eq!(decode(uniform_three(), bits, 10), input);
}

#[test]
fn one_symbol_interval() {
    let mut encoder = Encoder::new(uniform_three());
    assert_eq!(encoder.state.state.precision, 29);
    assert!(encoder.encode(Some(&0)).is_ok());
    assert_eq!(encoder.state.state.high, 0x1fff_fffc);
    assert_eq!(encoder.state.output, vec![false, true]);
}

#[test]
fn integer_round_trip() {
    // The integers 1, 2 and 3 stand at the intervals [1, 2), [2, 3), [3, 4).
    let integers: Vec<usize> = vec![2, 1, 1, 2, 2, 3, 1];
    let input: Vec<usize> = integers.iter().map(|i| i - 1).collect();
    let model = uniform_three();
    assert_eq!(model.probability(Some(&0)).ok(), Some(1..2));
    assert_eq!(model.probability(Some(&1)).ok(), Some(2..3));
    assert_eq!(model.probability(Some(&2)).ok(), Some(3..4));
    let bits = encode(uniform_three(), &input);
    let output: Vec<usize> = decode(uniform_three(), bits, 20).iter().map(|s| s + 1).collect();
    assert_eq!(output, integers);
}

#[test]
fn fenwick_initial_and_updated() {
    let mut model = FenwickModel::builder(4, 1 << 20).build();
    assert_eq!(model.denominator(), 5);
    assert_eq!(model.probability(None).ok(), Some(0..1));
    model.update(Some(&0));
    assert_eq!(model.probability(Some(&0)).ok(), Some(1..3));
    assert_eq!(model.denominator(), 6);
}

#[test]
fn chained_round_trip() {
    const PRECISION: u32 = 12;
    let first = vec![0, 1, 2];
    let second_integers: Vec<usize> = vec![2, 1, 1, 2, 2];
    let second: Vec<usize> = second_integers.iter().map(|i| i - 1).collect();

    let mut encoder = Encoder::with_precision(uniform_three(), PRECISION);
    for s in &first {
        assert!(encoder.encode(Some(s)).is_ok());
    }
    assert!(encoder.encode(None).is_ok());
    let mut encoder = encoder.chain(uniform_three());
    for s in &second {
        assert!(encoder.encode(Some(s)).is_ok());
    }
    assert!(encoder.encode(None).is_ok());
    encoder.flush();
    let bits = encoder.into_inner().1.output;

    let mut decoder = Decoder::with_precision(uniform_three(), bits, PRECISION);
    let mut decoded_first = Vec::new();
    while let Some(s) = decoder.decode() {
        decoded_first.push(s);
    }
    assert_eq!(decoded_first, first);
    let mut decoder = decoder.chain(uniform_three());
    let mut decoded_second = Vec::new();
    while let Some(s) = decoder.decode() {
        decoded_second.push(s + 1);
    }
    assert_eq!(decoded_second, second_integers);
}

#[test]
fn unknown_symbol_is_rejected() {
    let mut encoder = Encoder::new(uniform_three());
    let before = encoder.state.output.len();
    match encoder.encode(Some(&3)) {
        Err(Error::ValueError(e)) => assert_eq!(e.0, 3),
        Ok(()) => panic!("symbol 3 is outside the alphabet"),
    }
    assert_eq!(encoder.state.output.len(), before);
    assert!(encoder.encode_all(&[0, 7]).is_err());
}

#[test]
fn saturation_keeps_total_at_maximum() {
    let n = 4;
    let max = 20;
    let mut model = FenwickModel::builder(n, max).build();
    for _ in 0..100 {
        model.update(Some(&1));
        assert!(model.denominator() <= max);
    }
    assert_eq!(model.denominator(), max);
    assert!(model.saturated());
    let frozen = model.probability(Some(&1)).ok();
    model.update(Some(&1));
    assert_eq!(model.probability(Some(&1)).ok(), frozen);
}

#[test]
fn empty_input_round_trip() {
    let bits = encode(uniform_three(), &[]);
    assert!(!bits.is_empty());
    assert_eq!(decode(uniform_three(), bits, 10), Vec::<usize>::new());
}

#[test]
fn decode_limit_stops_early() {
    let input = vec![0, 1, 2, 0, 1, 2];
    let bits = encode(uniform_three(), &input);
    assert_eq!(decode(uniform_three(), bits, 2), vec![0, 1]);
}

#[test]
fn context_switching_round_trip() {
    let mut model = context_switching::FenwickModel::with_symbols(256);
    assert_eq!(model.denominator(), 257);
    assert_eq!(model.max_denominator(), 1 << 17);
    model.update(Some(&97));
    // the context after 'a' has seen nothing yet
    assert_eq!(model.denominator(), 257);
    assert_eq!(model.probability(Some(&97)).ok(), Some(98..99));
    assert!(model.probability(Some(&256)).is_err());

    let input: Vec<usize> = b"abracadabra, abracadabra!".iter().map(|&b| b as usize).collect();
    let bits = encode(context_switching::FenwickModel::with_symbols(256), &input);
    let output = decode(context_switching::FenwickModel::with_symbols(256), bits, 100);
    assert_eq!(output, input);
}

#[test]
fn wide_alphabet_round_trip() {
    let input: Vec<usize> = (0..2000).map(|i| (i * 7919) % 1000).collect();
    let bits = encode(FenwickModel::builder(1000, 1 << 24).build(), &input);
    let output = decode(FenwickModel::builder(1000, 1 << 24).build(), bits, 5000);
    assert_eq!(output, input);
}

#[test]
fn saturation_flag_is_reported() {
    let model = FenwickModel::builder(2, 5).panic_on_saturation().build();
    assert!(model.panics_on_saturation());
    let mut encoder = Encoder::new(model);
    assert!(encoder.encode(Some(&0)).is_ok());
    assert!(!encoder.model.saturated());
    assert!(encoder.encode(Some(&1)).is_ok());
    assert!(encoder.model.saturated());
    let frozen = encoder.model.probability(Some(&0)).ok();
    assert_eq!(frozen, Some(1..3));
    assert!(encoder.encode(Some(&0)).is_ok());
    assert_eq!(encoder.model.probability(Some(&0)).ok(), frozen);
    assert_eq!(encoder.model.denominator(), 5);
}

#[test]
fn tag_above_interval_reads_as_eof() {
    let mut decoder = Decoder::new(uniform_three(), vec![true; 100]);
    assert_eq!(decoder.decode_all(50), vec![2]);
    assert_eq!(decoder.decode(), None);
}
