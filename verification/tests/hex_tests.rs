use snapsign::hexs::{hex_decode, hex_encode};

#[test]
fn encode_matches_reference_hex() {
    let bytes: Vec<u8> = vec![0x00, 0x0f, 0xa5, 0xff, 0x10];
    let ours = hex_encode(&bytes);
    assert_eq!(String::from_utf8(ours).unwrap(), hex::encode(&bytes));
}

#[test]
fn decode_inverts_encode() {
    let bytes: Vec<u8> = (0u16..=255).map(|x| x as u8).collect();
    let encoded = hex_encode(&bytes);
    let decoded = hex_decode(&encoded).unwrap();
    assert_eq!(decoded, bytes);
}

#[test]
fn decode_accepts_uppercase() {
    let text = b"DEADBEEF".to_vec();
    assert_eq!(hex_decode(&text).unwrap(), vec![0xde, 0xad, 0xbe, 0xef]);
}

#[test]
fn decode_rejects_odd_length() {
    assert!(hex_decode(&b"abc".to_vec()).is_none());
}

#[test]
fn decode_rejects_non_hex() {
    assert!(hex_decode(&b"zz".to_vec()).is_none());
    assert!(hex_decode(&b"0x".to_vec()).is_none());
}

#[test]
fn empty_round_trip() {
    let empty: Vec<u8> = Vec::new();
    assert_eq!(hex_encode(&empty), Vec::<u8>::new());
    assert_eq!(hex_decode(&Vec::new()).unwrap(), Vec::<u8>::new());
}
