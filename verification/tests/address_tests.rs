use ethclient::address::Address;
use ethclient::errors::ClientError;

fn sample_bytes() -> Vec<u8> {
    (0..20u8).map(|i| i.wrapping_mul(13).wrapping_add(0xab)).collect()
}

#[test]
fn parses_lowercase_hex() {
    let a = Address::parse("0xf6febd05224397e58cfd604220b31f84c089a2e1").unwrap();
    assert_eq!(a.bytes.len(), 20);
    assert_eq!(a.bytes[0], 0xf6);
    assert_eq!(a.bytes[19], 0xe1);
}

#[test]
fn parses_without_prefix() {
    let a = Address::parse("f6febd05224397e58cfd604220b31f84c089a2e1").unwrap();
    assert_eq!(a.bytes[0], 0xf6);
}

#[test]
fn parses_all_uppercase_without_checksum() {
    let a = Address::parse("0xF6FEBD05224397E58CFD604220B31F84C089A2E1").unwrap();
    assert_eq!(a.bytes[0], 0xf6);
}

#[test]
fn rejects_wrong_length() {
    assert_eq!(
        Address::parse("0xf6febd"),
        Err(ClientError::InvalidAddress)
    );
    assert_eq!(Address::parse(""), Err(ClientError::InvalidAddress));
}

#[test]
fn rejects_non_hex_characters() {
    assert_eq!(
        Address::parse("0xg6febd05224397e58cfd604220b31f84c089a2e1"),
        Err(ClientError::InvalidAddress)
    );
}

#[test]
fn format_is_deterministic_lowercase() {
    let a = Address::from_bytes(sample_bytes()).unwrap();
    let s1 = a.format(false);
    let s2 = a.format(false);
    assert_eq!(s1, s2);
    assert!(s1.starts_with("0x"));
    assert_eq!(s1.len(), 42);
    assert!(s1[2..].chars().all(|c| c.is_ascii_hexdigit() && !c.is_ascii_uppercase()));
}

#[test]
fn checksummed_format_round_trips() {
    let a = Address::from_bytes(sample_bytes()).unwrap();
    let s = a.format(true);
    let b = Address::parse(&s).unwrap();
    assert_eq!(a.bytes, b.bytes);
}

#[test]
fn known_checksummed_address_parses_and_reformats() {
    // the canonical mixed-case example of the checksum scheme
    let s = "0x5aAeb6053F3E94C9b9A09f33669435E7Ef1BeAed";
    let a = Address::parse(s).unwrap();
    assert_eq!(a.format(true), s);
}

#[test]
fn checksum_mismatch_always_fails() {
    let a = Address::from_bytes(sample_bytes()).unwrap();
    let s = a.format(true);
    // flip the case of one hex letter: the checksum no longer validates
    let mut flipped = String::from("0x");
    let mut done = false;
    for c in s[2..].chars() {
        if !done && c.is_ascii_alphabetic() {
            if c.is_ascii_lowercase() {
                flipped.push(c.to_ascii_uppercase());
            } else {
                flipped.push(c.to_ascii_lowercase());
            }
            done = true;
        } else {
            flipped.push(c);
        }
    }
    assert!(done, "the sample address has at least one hex letter");
    assert_eq!(Address::parse(&flipped), Err(ClientError::InvalidAddress));
}

#[test]
fn from_bytes_requires_twenty() {
    assert!(Address::from_bytes(vec![1, 2, 3]).is_err());
    assert!(Address::from_bytes(vec![0u8; 20]).is_ok());
}
