use piecewise::bytearray::ByteArray;

#[test]
fn zero_buffer_is_all_zero_hex() {
    let z = ByteArray::zero(3);
    assert_eq!(z.len(), 3);
    assert_eq!(z.to_hex(), "000000");
}

#[test]
fn zero_buffer_of_length_zero() {
    let z = ByteArray::zero(0);
    assert_eq!(z.len(), 0);
    assert_eq!(z.to_hex(), "");
}

#[test]
fn random_buffer_has_requested_length() {
    assert_eq!(ByteArray::random(16).len(), 16);
    assert_eq!(ByteArray::random(0).len(), 0);
}

#[test]
fn hex_round_trip() {
    let b = ByteArray::from_hex("00ff10ab").unwrap();
    assert_eq!(b.len(), 4);
    assert_eq!(b.to_hex(), "00ff10ab");
}

#[test]
fn hex_accepts_uppercase_and_encodes_lowercase() {
    let b = ByteArray::from_hex("00FFAb").unwrap();
    assert_eq!(b.to_hex(), "00ffab");
}

#[test]
fn hex_rejects_odd_length() {
    assert!(ByteArray::from_hex("0f0").is_err());
    assert!(ByteArray::from_hex("a").is_err());
}

#[test]
fn hex_rejects_non_hex_digits() {
    assert!(ByteArray::from_hex("0g").is_err());
    assert!(ByteArray::from_hex("zz11").is_err());
    assert!(ByteArray::from_hex("68 9").is_err());
}

#[test]
fn hex_of_empty_is_empty() {
    let b = ByteArray::from_hex("").unwrap();
    assert_eq!(b.len(), 0);
    assert_eq!(b.to_hex(), "");
}

#[test]
fn string_round_trip() {
    let b = ByteArray::from_string("hello");
    assert_eq!(b.len(), 5);
    assert_eq!(b.to_string().unwrap(), "hello");
}

#[test]
fn string_round_trip_multibyte() {
    let text = "h\u{e9}llo";
    let b = ByteArray::from_string(text);
    assert_eq!(b.len(), 6);
    assert_eq!(b.to_string().unwrap(), text);
}

#[test]
fn to_string_rejects_invalid_utf8() {
    let b = ByteArray::from_hex("ff").unwrap();
    assert!(b.to_string().is_err());
}

#[test]
fn xor_combines_bytes() {
    let a = ByteArray::from_hex("a5c3").unwrap();
    let b = ByteArray::from_hex("5a3c").unwrap();
    assert_eq!(a.xor(&b).to_hex(), "ffff");
}

#[test]
fn xor_is_commutative() {
    let a = ByteArray::from_hex("1234abcd").unwrap();
    let b = ByteArray::from_hex("00ff9966").unwrap();
    assert_eq!(a.xor(&b).to_hex(), b.xor(&a).to_hex());
}

#[test]
fn xor_with_itself_is_zero() {
    let a = ByteArray::from_hex("deadbeef").unwrap();
    assert_eq!(a.xor(&a).to_hex(), "00000000");
}

#[test]
fn xor_is_self_inverse() {
    let a = ByteArray::from_hex("1234abcd").unwrap();
    let b = ByteArray::from_hex("00ff9966").unwrap();
    assert_eq!(a.xor(&a.xor(&b)).to_hex(), b.to_hex());
}

#[test]
fn xor_with_zero_is_identity() {
    let a = ByteArray::from_hex("cafe").unwrap();
    let z = ByteArray::zero(2);
    assert_eq!(a.xor(&z).to_hex(), "cafe");
    assert_eq!(z.xor(&a).to_hex(), "cafe");
}
