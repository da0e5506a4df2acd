use z85::encdec::{
    decode_z85, decode_z85_padded, decode_z85_padded_unchecked, decode_z85_unchecked,
    encode_z85_padded, encode_z85_unchecked, validate_z85, validate_z85_padded, ParserError,
};
use z85::{decode, encode, DecodeError};

const BINARR: [u8; 8] = [0x86, 0x4F, 0xD2, 0x6F, 0xB5, 0x59, 0xF7, 0x5B];
const Z85ARR: [u8; 10] = *b"HelloWorld";

#[test]
fn tests_encode_simple() {
    let z85_dat = encode(&BINARR);
    assert_eq!(&Z85ARR, z85_dat.as_bytes());
}

#[test]
fn tests_decode_simple() {
    let bin_dat = decode(&Z85ARR).unwrap();
    assert_eq!(&BINARR, bin_dat.as_slice());
}

#[test]
fn encode_tail_only() {
    const BINTAIL: [u8; 2] = [0x86, 0x4F];
    let z85_dat = encode(&BINTAIL);
    let out_tail = decode(z85_dat.as_bytes()).unwrap();
    assert_eq!(&BINTAIL, out_tail.as_slice());
}

#[test]
fn decode_too_big_tail() {
    let z85str = "HelloWorld#####";
    let decoded = decode(z85str.as_bytes());
    assert_eq!(decoded, Err(DecodeError::InvalidTail));
}

#[test]
fn decode_error_variants() {
    assert_eq!(decode(b"HelloWorl"), Err(DecodeError::InvalidLength(9)));
    assert_eq!(decode(b"Hello%%%%%"), Err(DecodeError::InvalidChunk(5)));
    assert_eq!(decode(b"Hello##z\"z"), Err(DecodeError::InvalidByte(8, b'"')));
    assert_eq!(decode(b"Hello##zzz"), Err(DecodeError::InvalidTail));
    let mut t = Z85ARR.to_vec();
    t[7] = 0x00;
    assert_eq!(decode(&t), Err(DecodeError::InvalidByte(7, 0x00)));
}

#[test]
fn encode_decode_empty() {
    assert_eq!(encode(&[]), "");
    assert_eq!(decode(&[]), Ok(Vec::new()));
}

#[test]
fn encode_round_trips_every_length() {
    let mut data = Vec::new();
    for len in 0..64usize {
        let text = encode(&data);
        assert_eq!(text.len(), (len + 3) / 4 * 5);
        assert!(text.bytes().all(|c| (0x21..=0x7D).contains(&c)));
        assert_eq!(decode(text.as_bytes()).unwrap(), data);
        assert_eq!(encode_z85_padded(&data), text.as_bytes());
        data.push((len * 131 + 255) as u8);
    }
}

#[test]
fn every_byte_value_round_trips() {
    let data: Vec<u8> = (0..=255u8).rev().collect();
    for len in [253usize, 254, 255, 256] {
        let text = encode(&data[..len]);
        assert_eq!(decode(text.as_bytes()).unwrap(), &data[..len]);
    }
}

#[test]
fn validator_agrees_with_decoder() {
    let inputs: [&[u8]; 8] = [
        b"", b"HelloWorld", b"#####", b"Hello%%%%%", b"HelloWorl", b"He\x00loWorld", b"%nSc0", b"HelloWorld##0zz",
    ];
    for t in inputs {
        let checked = decode_z85(t);
        assert_eq!(validate_z85(t).is_ok(), checked.is_ok());
        assert_eq!(validate_z85(t).err(), checked.clone().err());
        if let Ok(bytes) = checked {
            assert_eq!(decode_z85_unchecked(t), bytes);
        }
        let checked = decode_z85_padded(t);
        assert_eq!(validate_z85_padded(t).is_ok(), checked.is_ok());
        assert_eq!(validate_z85_padded(t).err(), checked.clone().err());
        if let Ok(bytes) = checked {
            assert_eq!(decode_z85_padded_unchecked(t), bytes);
        }
    }
}

#[test]
fn encdec_vectors_and_errors() {
    assert_eq!(encode_z85_unchecked(&BINARR), Z85ARR);
    assert_eq!(decode_z85(&Z85ARR).unwrap(), BINARR);
    assert_eq!(decode_z85(b"#####"), Err(ParserError::InvalidChunk(0)));
    assert_eq!(decode_z85(b"Hello#"), Err(ParserError::InvalidInputSize(6)));
    assert_eq!(decode_z85_padded(b"HelloWorld#####"), Err(ParserError::InvalidChunk(10)));
    assert_eq!(decode_z85_padded(&encode_z85_padded(&[1, 2, 3, 4, 5])).unwrap(), [1, 2, 3, 4, 5]);
}

#[test]
fn truncated_encodings_rejected() {
    let text = encode(&[7u8; 11]);
    for k in 0..text.len() {
        if k % 5 != 0 {
            assert_eq!(decode(&text.as_bytes()[..k]), Err(DecodeError::InvalidLength(k)));
            assert_eq!(decode_z85_padded(&text.as_bytes()[..k]), Err(ParserError::InvalidInputSize(k)));
        }
    }
}

#[test]
fn unchecked_decoders_stay_in_bounds() {
    assert_eq!(decode_z85_unchecked(b"\x00\xFF\x80 \x7F###").len(), 4);
    assert_eq!(decode_z85_padded_unchecked(b"abc").len(), 0);
    assert_eq!(decode_z85_padded_unchecked(b"Hello#####").len(), 4);
}
