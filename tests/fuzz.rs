use arithmetic_coding::fenwick::simple::FenwickModel;
use arithmetic_coding::{Decoder, Encoder};
use bitstream_io::{BigEndian, BitRead, BitReader, BitWrite, BitWriter};
use std::io::Cursor;

const MAX_DENOMINATOR: u64 = 1 << 20;

fn pack(bits: &[bool]) -> Vec<u8> {
    let mut writer = BitWriter::endian(Vec::new(), BigEndian);
    for &bit in bits {
        writer.write_bit(bit).unwrap();
    }
    writer.byte_align().unwrap();
    writer.into_writer()
}

fn unpack(bytes: &[u8]) -> Vec<bool> {
    let mut reader = BitReader::endian(Cursor::new(bytes), BigEndian);
    let mut bits = Vec::new();
    while let Ok(bit) = reader.read_bit() {
        bits.push(bit);
    }
    bits
}

#[test]
fn fuzz_round_trip() {
    let model = FenwickModel::builder(256, MAX_DENOMINATOR).build();
    let bytes: &[u8] = &[220, 255, 255];
    let input: Vec<usize> = bytes.iter().copied().map(usize::from).collect();

    let mut encoder = Encoder::new(model);
    assert!(encoder.encode_all(&input).is_ok());
    let (_, state) = encoder.into_inner();
    let buffer = pack(&state.output);

    let model = FenwickModel::builder(256, MAX_DENOMINATOR).build();
    let mut decoder = Decoder::new(model, unpack(&buffer));
    let output = decoder.decode_all(input.len() + 1);
    assert_eq!(input, output);
}
