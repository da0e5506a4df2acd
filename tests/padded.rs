use z85::padded::{decode, encode, ParserError, Z85p};

const BS: &[u8] = &[0x86, 0x4F, 0xD2, 0x6F, 0xB5, 0x59, 0xF7, 0x5B];
const LS: &[u8] = b"HelloWorld";

#[test]
fn padded_encode_simple() {
    let z85p = Z85p::encode(BS);
    assert_eq!(LS, z85p.as_bytes());
}

#[test]
fn padded_decode_simple() {
    let z85p = Z85p::wrap_bytes_unchecked(LS.to_vec());
    assert_eq!(z85p.decode(), BS)
}

#[test]
fn padded_two_byte_tail() {
    let encoded = encode(&[0x86, 0x4F]);
    assert_eq!(encoded.len(), 5);
    assert_eq!(&encoded[..2], b"##");
    assert_ne!(encoded[2], b'#');
    assert_eq!(decode(&encoded).unwrap(), [0x86, 0x4F]);
    assert_eq!(Z85p::encode(&[0x86, 0x4F]).as_str().len(), 5);
}

#[test]
fn padded_round_trip_and_lengths() {
    let mut data = Vec::new();
    for len in 0..40usize {
        let encoded = encode(&data);
        assert_eq!(encoded.len(), (len + 3) / 4 * 5);
        assert!(encoded.iter().all(|&c| (0x21..=0x7D).contains(&c)));
        assert_eq!(decode(&encoded).unwrap(), data);
        let z = Z85p::wrap_bytes(encoded.clone()).unwrap();
        assert_eq!(z.decode(), data);
        assert_eq!(z.as_str().as_bytes(), &encoded[..]);
        data.push((len * 91 + 7) as u8);
    }
}

#[test]
fn padded_errors() {
    assert_eq!(decode(b"HelloWorld#####"), Err(ParserError::InvalidChunk(10)));
    assert_eq!(decode(b"Hello##zzz"), Err(ParserError::InvalidChunk(5)));
    assert_eq!(decode(b"Hello##z\"z"), Err(ParserError::InvalidByte(8, b'"')));
    assert_eq!(decode(b"He\"lo##zzz"), Err(ParserError::InvalidByte(2, b'"')));
    assert_eq!(decode(b"HelloWorld#"), Err(ParserError::InvalidInputSize(11)));
    assert_eq!(Z85p::wrap_bytes(b"#####".to_vec()), Err(ParserError::InvalidChunk(0)));
}

#[test]
fn padded_empty() {
    assert_eq!(encode(&[]), Vec::<u8>::new());
    assert_eq!(decode(&[]), Ok(Vec::new()));
}
