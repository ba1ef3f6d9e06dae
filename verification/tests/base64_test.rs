use learn_rs::base64::encode;

#[test]
fn test_base64_encode() {
    let encoded = encode(b"Rust");
    assert_eq!("UnVzdA==", encoded);
}

#[test]
fn test_base64_encode_has_padding() {
    let encoded = encode(b"Rust");
    assert!(encoded.ends_with("=="));
}

#[test]
fn base64_encode_lengths() {
    assert_eq!(encode(b""), "");
    assert_eq!(encode(b"M"), "TQ==");
    assert_eq!(encode(b"Ma"), "TWE=");
    assert_eq!(encode(b"Man"), "TWFu");
    assert_eq!(encode(b"light work."), "bGlnaHQgd29yay4=");
}
