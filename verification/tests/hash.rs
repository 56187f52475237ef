use gash::error::GashError;
use gash::hash::{create_validator, hex_string, should_search, word_range_for_char};

#[test]
fn word_ranges() {
    for i in 0x00..=0xff_u8 {
        let ch = char::from_digit((i / 16).into(), 16).unwrap();
        println!("{} = {}", ch, i);
        assert_eq!(true, word_range_for_char(ch).contains(&i));
    }
}

// Validator edge cases

#[test]
fn validator_odd_prefix() {
    // Odd signature + prefix uses range to check validity
    let validator = create_validator("dad", false).unwrap();
    for ch in 0x0..=0xf_u8 {
        let ch = char::from_digit(ch.into(), 16).unwrap();
        let hash_bytes = hex::decode(format!("da{}0", ch)).unwrap();
        assert_eq!(matches!(ch, 'd'), validator.matches(&hash_bytes));
    }
}

#[test]
fn validator_odd_suffix() {
    // Odd signature + suffix uses subtraction to test validity
    let validator = create_validator("dad", true).unwrap();
    for ch in 0x0..=0xf_u8 {
        let ch = char::from_digit(ch.into(), 16).unwrap();
        let hash_bytes = hex::decode(format!("0{}ad", ch)).unwrap();
        assert_eq!(matches!(ch, 'd'), validator.matches(&hash_bytes));
    }
}

// Test signature validation

fn test_sig(sig: &str, hash: &str, suffix: bool) -> bool {
    let validator = create_validator(sig, suffix).unwrap();
    let hash_bytes = hex::decode(hash).unwrap();
    validator.matches(&hash_bytes)
}

#[test]
fn boundary_length_conditions() {
    // Even, prefix (full length)
    assert_eq!(true, test_sig("123456", "123456", false));
    // Even, suffix (full length)
    assert_eq!(true, test_sig("123456", "123456", true));
    // Odd, prefix  (length - 1)
    assert_eq!(true, test_sig("12345", "12345f", false));
    // Odd, suffix  (length - 1)
    assert_eq!(true, test_sig("12345", "f12345", true));
}

#[test]
fn returns_true_if_hash_starts_with_prefix() {
    assert_eq!(true, test_sig("abcd", "abcd123456", false));
    assert_eq!(true, test_sig("abc", "abcd123456", false));
    assert_eq!(true, test_sig("ab", "abcd123456", false));
    assert_eq!(true, test_sig("a", "abcd123456", false));
}

#[test]
fn returns_true_with_empty_prefix() {
    assert_eq!(true, test_sig("", "abcd123456", false));
}

#[test]
fn returns_false_if_hash_does_not_start_with_prefix() {
    assert_eq!(false, test_sig("abcd", "deadbeef00", false));
    assert_eq!(false, test_sig("abc", "deadbeef00", false));
    assert_eq!(false, test_sig("ab", "deadbeef00", false));
    assert_eq!(false, test_sig("a", "deadbeef00", false));
}

#[test]
fn returns_true_if_hash_ends_with_suffix() {
    assert_eq!(true, test_sig("abcd", "123456abcd", true));
    assert_eq!(true, test_sig("bcd", "123456abcd", true));
    assert_eq!(true, test_sig("cd", "123456abcd", true));
    assert_eq!(true, test_sig("d", "123456abcd", true));
}

#[test]
fn returns_true_with_empty_suffix() {
    assert_eq!(true, test_sig("", "abcd123456", true));
}

#[test]
fn returns_false_if_hash_does_not_end_with_suffix() {
    assert_eq!(false, test_sig("abcd", "00deadbeef", false));
    assert_eq!(false, test_sig("bcd", "00deadbeef", false));
    assert_eq!(false, test_sig("cd", "00deadbeef", false));
    assert_eq!(false, test_sig("d", "00deadbeef", false));
}

// Signature validation errors

#[test]
fn validator_rejects_signature_over_forty_chars() {
    let sig = "0123456789012345678901234567890123456789a";
    assert_eq!(41, sig.len());
    match create_validator(sig, false) {
        Err(GashError::SignatureTooLong) => {}
        _ => panic!("expected SignatureTooLong"),
    }
}

#[test]
fn validator_rejects_non_hex_characters() {
    for sig in ["g", "dag", "DAD", "12 34", "hook"] {
        match create_validator(sig, false) {
            Err(GashError::SignatureNotHex) => {}
            _ => panic!("expected SignatureNotHex for {}", sig),
        }
    }
}

#[test]
fn validator_accepts_forty_chars() {
    let sig = "0123456789abcdef0123456789abcdef01234567";
    assert_eq!(40, sig.len());
    assert!(create_validator(sig, false).is_ok());
    assert!(create_validator(sig, true).is_ok());
}

// Matching agrees with the reference hex encoder on every prefix and
// suffix of a digest.

#[test]
fn matcher_agrees_with_reference_hex_encoder() {
    let digest = hex::decode("2aae6c35c94fcfb415dbe95f408b9ce91ee846ed").unwrap();
    let full = hex::encode(&digest);
    for len in 0..=40 {
        let prefix = &full[..len];
        let suffix = &full[full.len() - len..];
        assert!(create_validator(prefix, false).unwrap().matches(&digest));
        assert!(create_validator(suffix, true).unwrap().matches(&digest));
    }
    // A flipped nibble must not match.
    assert!(!create_validator("2aaf", false).unwrap().matches(&digest));
    assert!(!create_validator("46ed", false).unwrap().matches(&digest));
    assert!(!create_validator("6ee", true).unwrap().matches(&digest));
}

#[test]
fn hex_string_matches_reference_encoder() {
    let bytes: Vec<u8> = (0u8..=255).collect();
    assert_eq!(hex::encode(&bytes), hex_string(&bytes));
    assert_eq!("", hex_string(&Vec::new()));
}

// The short-circuit at the caller boundary: when the current digest
// already carries the signature and force is off, no search is made.

#[test]
fn skips_search_when_hash_already_matches() {
    let curr = "1337aae6c35c94fcfb415dbe95f408b9ce91ee84";
    assert_eq!(false, should_search(curr, "1337", false, false));
    assert_eq!(false, should_search(curr, "", false, false));
    assert_eq!(false, should_search(curr, "ee84", true, false));
    assert_eq!(true, should_search(curr, "1337", false, true));
    assert_eq!(true, should_search(curr, "dead", false, false));
    assert_eq!(true, should_search(curr, "1337", true, false));
}
