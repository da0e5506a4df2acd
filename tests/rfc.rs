use z85::rfc::{decode, encode, EncoderError, ParserError, Z85};

const BS: &[u8] = &[0x86, 0x4F, 0xD2, 0x6F, 0xB5, 0x59, 0xF7, 0x5B];
const LS: &[u8] = b"HelloWorld";

#[test]
fn rfc_encode_simple() {
    let z85 = Z85::encode(BS).unwrap();
    assert_eq!(LS, z85.as_bytes());
}

#[test]
fn rfc_decode_simple() {
    let z85 = Z85::wrap_bytes_unchecked(LS.to_vec());
    assert_eq!(z85.decode(), BS)
}

#[test]
fn rfc_vectors() {
    assert_eq!(encode(BS).unwrap(), LS);
    assert_eq!(decode(LS).unwrap(), BS);
    assert_eq!(decode(b"#####"), Err(ParserError::InvalidChunk(0)));
    assert_eq!(Z85::encode(BS).unwrap().as_str(), "HelloWorld");
}

#[test]
fn rfc_error_position() {
    let mut t = LS.to_vec();
    t[7] = 0x00;
    assert_eq!(decode(&t), Err(ParserError::InvalidByte(7, 0x00)));
    assert!(Z85::wrap_bytes(t).is_err());
}

#[test]
fn rfc_errors() {
    assert_eq!(encode(&[1, 2, 3]), Err(EncoderError(3)));
    assert_eq!(Z85::encode(&[1, 2, 3, 4, 5]), Err(EncoderError(5)));
    assert_eq!(decode(b"Hello%%%%%"), Err(ParserError::InvalidChunk(5)));
    assert_eq!(decode(b"HelloWorl"), Err(ParserError::InvalidInputSize(9)));
    assert_eq!(Z85::wrap_bytes(b"Hello%%%%%".to_vec()), Err(ParserError::InvalidChunk(5)));
}

#[test]
fn rfc_round_trip_and_lengths() {
    let mut data = Vec::new();
    for len in 0..40usize {
        let encoded = encode(&data[..len / 4 * 4]).unwrap();
        assert_eq!(encoded.len(), len / 4 * 5);
        assert!(encoded.iter().all(|&c| (0x21..=0x7D).contains(&c)));
        assert_eq!(decode(&encoded).unwrap(), &data[..len / 4 * 4]);
        let z = Z85::wrap_bytes(encoded.clone()).unwrap();
        assert_eq!(z.decode(), &data[..len / 4 * 4]);
        assert!(std::str::from_utf8(&encoded).is_ok());
        data.push((len * 37 + 200) as u8);
    }
}

#[test]
fn rfc_truncation_rejected() {
    let encoded = encode(&[0xFF; 12]).unwrap();
    for k in 0..encoded.len() {
        if k % 5 != 0 {
            assert_eq!(decode(&encoded[..k]), Err(ParserError::InvalidInputSize(k)));
        }
    }
}
