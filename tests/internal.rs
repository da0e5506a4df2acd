use z85::internal::{decode_chunk, decode_tail, encode_chunk, encode_tail, letter_of};
use z85::DecodeError;

const BINCHUNK1: [u8; 4] = [0x86, 0x4F, 0xD2, 0x6F];
const BINCHUNK2: [u8; 4] = [0xB5, 0x59, 0xF7, 0x5B];
const Z85CHUNK1: [u8; 5] = *b"Hello";
const Z85CHUNK2: [u8; 5] = *b"World";

#[test]
fn encode_chunk_simple() {
    let ans_z85_1 = encode_chunk(&BINCHUNK1);
    assert_eq!(ans_z85_1, Z85CHUNK1);
    let ans_z85_2 = encode_chunk(&BINCHUNK2);
    assert_eq!(ans_z85_2, Z85CHUNK2);
}

#[test]
fn decode_chunk_simple() {
    let ans_bin_1 = decode_chunk(&Z85CHUNK1).unwrap();
    assert_eq!(ans_bin_1, BINCHUNK1);
    let ans_bin_2 = decode_chunk(&Z85CHUNK2).unwrap();
    assert_eq!(ans_bin_2, BINCHUNK2);
}

#[test]
fn decode_chunk_full_hash() {
    let input = "#####".as_bytes();
    let answer = decode_chunk(input);
    assert_eq!(answer, Err(DecodeError::InvalidChunk(0)));
}

#[test]
fn encode_tail_one_byte() {
    for b in 0..=255 {
        let input = &[b];
        let z85_tail = encode_tail(input);
        let bin_tail = decode_tail(&z85_tail).unwrap();
        let mut ans_vec = Vec::new();
        bin_tail.append_to_vec(&mut ans_vec);
        assert_eq!(ans_vec, input);
    }
}

#[test]
fn all_letters_seven_bits_printable() {
    for d in 0..85 {
        let letter = letter_of(d);
        assert!(0x20 < letter && letter < 0x80)
    }
}

#[test]
fn chunk_extremes() {
    assert_eq!(encode_chunk(&[0, 0, 0, 0]), *b"00000");
    assert_eq!(encode_chunk(&[0xFF, 0xFF, 0xFF, 0xFF]), *b"%nSc0");
    assert_eq!(decode_chunk(b"%nSc0"), Ok([0xFF, 0xFF, 0xFF, 0xFF]));
    assert_eq!(decode_chunk(b"%nSc1"), Err(DecodeError::InvalidChunk(0)));
}

#[test]
fn chunk_bad_byte_position() {
    assert_eq!(decode_chunk(b"He\"lo"), Err(DecodeError::InvalidByte(2, b'"')));
    assert_eq!(decode_chunk(b"Hell\x80"), Err(DecodeError::InvalidByte(4, 0x80)));
    assert_eq!(decode_chunk(b" ello"), Err(DecodeError::InvalidByte(0, b' ')));
}

#[test]
fn alphabet_order() {
    let letters: Vec<u8> = (0..85).map(letter_of).collect();
    let expected: &[u8] = b"0123456789abcdefghijklmnopqrstuvwxyzABCDEFGHIJKLMNOPQRSTUVWXYZ.-:+=^!/*?&<>()[]{}@%$#";
    assert_eq!(letters, expected);
}

#[test]
fn tails_of_two_and_three_bytes() {
    let inputs: [&[u8]; 6] = [&[0x86, 0x4F], &[0xFF, 0xFF], &[0, 0], &[0xFF, 0xFF, 0xFF], &[1, 2, 3], &[0, 0, 0]];
    for input in inputs {
        let z85_tail = encode_tail(input);
        assert_eq!(z85_tail.iter().take_while(|&&c| c == b'#').count(), 4 - input.len());
        let bin_tail = decode_tail(&z85_tail).unwrap();
        let mut ans_vec = vec![9u8];
        bin_tail.append_to_vec(&mut ans_vec);
        assert_eq!(ans_vec[0], 9);
        assert_eq!(&ans_vec[1..], input);
    }
}

#[test]
fn tail_errors() {
    assert_eq!(decode_tail(b"#####").unwrap_err(), DecodeError::InvalidTail);
    assert_eq!(decode_tail(b"####0").unwrap_err(), DecodeError::InvalidTail);
    assert_eq!(decode_tail(b"Hello").unwrap_err(), DecodeError::InvalidTail);
    // two sentinels leave room for two bytes: "zzz" is beyond 0xFFFF
    assert_eq!(decode_tail(b"##zzz").unwrap_err(), DecodeError::InvalidTail);
    assert_eq!(decode_tail(b"##z\"z").unwrap_err(), DecodeError::InvalidByte(3, b'"'));
}
