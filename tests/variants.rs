use arithmetic_coding::fixed_length;
use arithmetic_coding::max_length;
use arithmetic_coding::one_shot;
use arithmetic_coding::uniform::Uniform;
use arithmetic_coding::{Decoder, Encoder, Model};

const A: usize = 0;
const B: usize = 1;
const C: usize = 2;

fn encode<M: Model>(model: M, input: &[M::Symbol]) -> Result<Vec<bool>, ()> {
    let mut encoder = Encoder::new(model);
    match encoder.encode_all(input) {
        Ok(()) => Ok(encoder.into_inner().1.output),
        Err(_) => Err(()),
    }
}

#[test]
fn fixed_length_round_trip() {
    let input = vec![A, B, C];
    let bits = encode(fixed_length::Wrapper::new(Uniform::new(3, 3)), &input).unwrap();
    let mut decoder = Decoder::new(fixed_length::Wrapper::new(Uniform::new(3, 3)), bits.clone());
    assert_eq!(decoder.decode_all(10), input);
    assert_eq!(decoder.model.remaining(), 0);

    let with_eof = encode(Uniform::new(3, 3), &input).unwrap();
    assert_eq!(
        {
            let mut decoder = Decoder::new(Uniform::new(3, 3), with_eof.clone());
            decoder.decode_all(10)
        },
        input
    );
    assert!(bits.len() < with_eof.len());
}

#[test]
fn fixed_length_rejects_extra_symbol_and_early_eof() {
    let mut wrapper = fixed_length::Wrapper::new(Uniform::new(3, 3));
    assert!(matches!(
        wrapper.probability(None),
        Err(fixed_length::Error::UnexpectedEof)
    ));
    for s in [A, B, C] {
        assert!(wrapper.probability(Some(&s)).is_ok());
        wrapper.update(Some(&s));
    }
    assert_eq!(wrapper.remaining(), 0);
    assert!(matches!(
        wrapper.probability(Some(&A)),
        Err(fixed_length::Error::UnexpectedSymbol)
    ));
    assert_eq!(wrapper.probability(None).ok(), Some(0..3));
    assert!(encode(fixed_length::Wrapper::new(Uniform::new(3, 3)), &[A]).is_err());
}

#[test]
fn max_length_shorter() {
    let input = vec![A, B];
    let bits = encode(max_length::Wrapper::new(Uniform::new(3, 3)), &input).unwrap();
    let mut decoder = Decoder::new(max_length::Wrapper::new(Uniform::new(3, 3)), bits);
    assert_eq!(decoder.decode_all(10), input);
}

#[test]
fn max_length_exact() {
    let input = vec![A, B, C];
    let bits = encode(max_length::Wrapper::new(Uniform::new(3, 3)), &input).unwrap();
    let mut decoder = Decoder::new(max_length::Wrapper::new(Uniform::new(3, 3)), bits);
    assert_eq!(decoder.decode_all(10), input);
}

#[test]
fn max_length_longer() {
    let input = vec![A, B, C, C];
    let mut encoder = Encoder::new(max_length::Wrapper::new(Uniform::new(3, 3)));
    assert!(matches!(
        encoder.encode_all(&input),
        Err(arithmetic_coding::Error::ValueError(fixed_length::Error::UnexpectedSymbol))
    ));
}

#[test]
fn one_shot_round_trip() {
    for s in [A, B, C] {
        let bits = encode(one_shot::wrap(Uniform::new(3, 0)), &[s]).unwrap();
        let mut decoder = Decoder::new(one_shot::wrap(Uniform::new(3, 0)), bits);
        assert_eq!(decoder.decode_all(5), vec![s]);
    }
    assert!(encode(one_shot::wrap(Uniform::new(3, 0)), &[A, B]).is_err());
}
