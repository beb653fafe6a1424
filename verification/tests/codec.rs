use dual_judge::{decode, encode, recode, CodecError};

#[test]
fn roundtrip_empty() {
    let back = recode(&[]).unwrap();
    assert_eq!(back, Vec::<u8>::new());
}

#[test]
fn roundtrip_text() {
    let data = b"hello, judge! hello, judge! hello, judge!".to_vec();
    let back = recode(&data).unwrap();
    assert_eq!(back, data);
}

#[test]
fn roundtrip_binary() {
    let mut data = Vec::new();
    for i in 0..4096u32 {
        data.push((i % 251) as u8);
        data.push((i / 3) as u8);
    }
    let back = recode(&data).unwrap();
    assert_eq!(back, data);
}

#[test]
fn encode_then_decode_explicitly() {
    let data = b"one two three".to_vec();
    let text = encode(&data).unwrap();
    // The transport text has no padding and stays in the encoding alphabet.
    assert!(!text.contains('='));
    assert!(text.is_ascii());
    let back = decode(&text).unwrap();
    assert_eq!(back, data);
}

#[test]
fn encode_is_not_identity() {
    // A wrapper that handed its input back unchanged would fail here: the
    // compressed, encoded form of a long repetitive input is much shorter.
    let data = vec![b'a'; 10_000];
    let text = encode(&data).unwrap();
    assert!(text.len() < data.len() / 10);
}

#[test]
fn decode_rejects_bad_alphabet() {
    assert_eq!(decode("???not base64???").unwrap_err(), CodecError::Alphabet);
}

#[test]
fn decode_rejects_truncated_text() {
    // A single symbol cannot end a base64 quad.
    assert_eq!(decode("A").unwrap_err(), CodecError::Truncated);
}

#[test]
fn decode_rejects_corrupt_stream() {
    // Valid transport alphabet, but the byte it carries opens a compressed
    // block of a reserved type, which no compressor emits.
    assert_eq!(decode("/w").unwrap_err(), CodecError::Corrupt);
}
