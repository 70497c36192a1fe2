use piecewise::bytearray::ByteArray;
use piecewise::keysplit::{merge, split, Error};

#[test]
fn split_then_merge_recovers_secret() {
    for n in 2..=5 {
        let shares = split("correct horse", n).unwrap();
        assert_eq!(shares.len(), n);
        for share in &shares {
            assert_eq!(share.len(), 2 * "correct horse".len());
        }
        assert_eq!(merge(&shares).unwrap(), "correct horse");
    }
}

#[test]
fn split_then_merge_empty_secret() {
    let shares = split("", 2).unwrap();
    assert_eq!(shares.len(), 2);
    assert_eq!(shares[0], "");
    assert_eq!(shares[1], "");
    assert_eq!(merge(&shares).unwrap(), "");
}

#[test]
fn split_hi_into_two_pieces() {
    let shares = split("hi", 2).unwrap();
    assert_eq!(shares.len(), 2);
    assert_eq!(shares[0].len(), 4);
    assert_eq!(shares[1].len(), 4);
    let r = ByteArray::from_hex(&shares[0]).unwrap();
    let x = ByteArray::from_hex(&shares[1]).unwrap();
    let combined = r.xor(&x);
    assert_eq!(combined.to_hex(), "6869");
    assert_eq!(combined.to_string().unwrap(), "hi");
}

#[test]
fn split_shares_differ_across_calls() {
    let secret = "a long enough secret";
    let first = split(secret, 2).unwrap();
    let second = split(secret, 2).unwrap();
    assert_ne!(first[0], second[0]);
}

#[test]
fn split_rejects_control_characters() {
    assert_eq!(split("a\u{1}b", 2), Err(Error::InvalidInputKey));
}

#[test]
fn split_rejects_non_ascii_secret() {
    assert_eq!(split("caf\u{e9}", 2), Err(Error::InvalidInputKey));
}

#[test]
fn merge_non_printable_result() {
    let shares = vec!["68".to_string(), "69".to_string()];
    assert_eq!(merge(&shares), Err(Error::InvalidMergedKey));
}

#[test]
fn merge_mismatched_lengths() {
    let shares = vec!["6869".to_string(), "68".to_string()];
    assert_eq!(merge(&shares), Err(Error::NonMatchingLengths(1)));
}

#[test]
fn merge_reports_first_mismatched_index() {
    let shares = vec!["68".to_string(), "6969".to_string(), "0000".to_string()];
    assert_eq!(merge(&shares), Err(Error::NonMatchingLengths(1)));
}

#[test]
fn merge_odd_length_first_share() {
    let shares = vec!["686".to_string(), "6869".to_string()];
    assert_eq!(merge(&shares), Err(Error::InvalidHex(0)));
}

#[test]
fn merge_odd_length_later_share() {
    let shares = vec!["6869".to_string(), "686".to_string()];
    assert_eq!(merge(&shares), Err(Error::InvalidHex(1)));
}

#[test]
fn merge_invalid_hex_digits() {
    let shares = vec!["zz11".to_string(), "6869".to_string()];
    assert_eq!(merge(&shares), Err(Error::InvalidHex(0)));
}

#[test]
fn merge_invalid_hex_wins_over_length_mismatch() {
    let shares = vec!["6869".to_string(), "7g".to_string()];
    assert_eq!(merge(&shares), Err(Error::InvalidHex(1)));
}

#[test]
fn merge_two_known_shares() {
    let shares = vec!["11".to_string(), "79".to_string()];
    assert_eq!(merge(&shares).unwrap(), "h");
}

#[test]
fn merge_many_shares() {
    let shares = vec![
        "0000".to_string(),
        "6869".to_string(),
        "0000".to_string(),
        "0000".to_string(),
    ];
    assert_eq!(merge(&shares).unwrap(), "hi");
}
