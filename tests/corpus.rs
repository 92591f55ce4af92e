use arithmetic_coding::fenwick::simple::FenwickModel;
use arithmetic_coding::uniform::Uniform;
use arithmetic_coding::{Decoder, Encoder, Model};

const ALPHABET: &str = "abcdefghijklmnopqrstuvwxyzABCDEFGHIJKLMNOPQRSTUVWXYZ0123456789 .,\n\r-':()[]#*;\"!?&\u{e9}/\u{e0}\u{e2}\u{e8}%@$";

const TEXT: &str = "It was late in the evening when the visitor came up the stairs. \
He was a tall man, thin and grey, with the restless eyes of one who has slept little; \
and he stood in the doorway for a while before he spoke. \"You will forgive the hour,\" he said at last, \
\"but I have come a long way, and the matter will not wait until the morning.\" \
My friend waved him to the chair by the fire and asked him to begin at the beginning. \
The story, as he told it, was a strange one. Three weeks before, a letter had reached him \
with no name and no address; it held a single line, written in a careful hand: \
'The clock in the hall is wrong.' He had laughed at it, and put it aside. \
A week later a second letter came, and then a third, each with the same line and nothing more. \
On the morning of the fourth he found that the clock had indeed stopped, at a quarter past two, \
and that the key which wound it was gone. \"And that,\" said he, \"is why I am here.\" \
We listened in silence. When he had finished my friend rose, took down his hat, \
and said only that we should see the clock for ourselves before the night was out.\n";

fn alphabet() -> Vec<char> {
    let mut chars: Vec<char> = Vec::new();
    for c in ALPHABET.chars() {
        if !chars.contains(&c) {
            chars.push(c);
        }
    }
    chars
}

fn to_symbols(text: &str) -> Vec<usize> {
    let chars = alphabet();
    text.chars()
        .map(|c| chars.iter().position(|&a| a == c).unwrap())
        .collect()
}

fn round_trip<M: Model<Symbol = usize>>(encoding: M, decoding: M, input: &[usize]) -> usize {
    let mut encoder = Encoder::new(encoding);
    assert!(encoder.encode_all(input).is_ok());
    let bits = encoder.into_inner().1.output;
    let mut decoder = Decoder::new(decoding, bits.clone());
    assert_eq!(decoder.decode_all(input.len() + 1), input);
    bits.len()
}

#[test]
fn text_corpus_round_trip() {
    let text = TEXT.repeat(6);
    let input = to_symbols(&text);
    let n = alphabet().len();

    let static_bits = round_trip(Uniform::new(n as u32, 0), Uniform::new(n as u32, 0), &input);
    assert!(static_bits < input.len() * 8);

    let adaptive_bits = round_trip(
        FenwickModel::builder(n, 1 << 20).build(),
        FenwickModel::builder(n, 1 << 20).build(),
        &input,
    );
    let ratio = (text.len() * 8) as f64 / adaptive_bits as f64;
    assert!(ratio > 1.5, "compression ratio {}", ratio);
}
