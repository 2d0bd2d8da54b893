use chud::crypto::hash::{HashParseError, HexError};

#[test]
fn to_hex_is_lower_case() {
    let mut bytes = [0u8; 32];
    bytes[0] = 0xab;
    bytes[31] = 0x0f;
    let h = chud::crypto::hash::Hash::new(bytes);
    let hex = h.to_hex();
    assert_eq!(hex.len(), 64);
    assert!(hex.starts_with("ab00"));
    assert!(hex.ends_with("000f"));
}

#[test]
fn hex_round_trip() {
    let mut bytes = [0u8; 32];
    for (i, b) in bytes.iter_mut().enumerate() {
        *b = (i * 37 % 256) as u8;
    }
    let h = chud::crypto::hash::Hash::new(bytes);
    assert_eq!(chud::crypto::hash::Hash::from_hex(&h.to_hex()), Ok(h));
}

#[test]
fn from_hex_accepts_upper_case() {
    let h = chud::crypto::hash::Hash::new([0xcd; 32]);
    let upper = "CD".repeat(32);
    assert_eq!(chud::crypto::hash::Hash::from_hex(&upper), Ok(h));
}

#[test]
fn from_hex_rejects_bad_input() {
    assert_eq!(chud::crypto::hash::Hash::from_hex("abc"), Err(HashParseError::InvalidHex(HexError::OddLength)));
    assert_eq!(
        chud::crypto::hash::Hash::from_hex(&"zz".repeat(32)),
        Err(HashParseError::InvalidHex(HexError::InvalidHexCharacter { c: 'z', index: 0 }))
    );
    assert_eq!(
        chud::crypto::hash::Hash::from_hex("0a1g2h"),
        Err(HashParseError::InvalidHex(HexError::InvalidHexCharacter { c: 'g', index: 3 }))
    );
    assert_eq!(chud::crypto::hash::Hash::from_hex("abcd"), Err(HashParseError::InvalidLength));
    assert_eq!(chud::crypto::hash::Hash::from_hex(&"00".repeat(33)), Err(HashParseError::InvalidLength));
}

#[test]
fn equals_compares_bytes() {
    let a = chud::crypto::hash::Hash::new([1; 32]);
    let mut other = [1u8; 32];
    assert!(a.equals(&chud::crypto::hash::Hash::new(other)));
    other[17] = 2;
    assert!(!a.equals(&chud::crypto::hash::Hash::new(other)));
}
