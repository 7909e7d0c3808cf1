use felt_miner::felt::Felt;

fn felt_of(v: u128) -> Felt {
    let mut bytes = [0u8; 32];
    bytes[16..].copy_from_slice(&v.to_be_bytes());
    Felt { bytes }
}

#[test]
fn to_hex_keeps_leading_zeros() {
    assert_eq!(
        felt_of(0xab).to_hex(),
        "0x00000000000000000000000000000000000000000000000000000000000000ab"
    );
    assert_eq!(felt_of(0).to_hex().len(), 66);
}

#[test]
fn to_hex_is_lowercase_big_endian() {
    let mut bytes = [0u8; 32];
    bytes[0] = 0x07;
    bytes[1] = 0xfe;
    bytes[31] = 0x10;
    let h = Felt { bytes }.to_hex();
    assert!(h.starts_with("0x07fe00"));
    assert!(h.ends_with("0010"));
}

#[test]
fn hex_round_trip() {
    let mut bytes = [0u8; 32];
    for (i, b) in bytes.iter_mut().enumerate() {
        *b = (i as u8).wrapping_mul(37);
    }
    bytes[0] = 0x03;
    for f in [felt_of(0), felt_of(1), felt_of(u128::MAX), Felt { bytes }] {
        assert_eq!(Felt::from_hex(&f.to_hex()), Some(f));
    }
}

#[test]
fn from_hex_reads_upper_case() {
    let lower = "0x00000000000000000000000000000000000000000000000000000000000000ab";
    let upper = "0x00000000000000000000000000000000000000000000000000000000000000AB";
    assert_eq!(Felt::from_hex(upper), Some(felt_of(0xab)));
    assert_eq!(Felt::from_hex(lower), Some(felt_of(0xab)));
}

#[test]
fn from_hex_rejects_modulus_and_bad_digits() {
    let modulus = "0x0800000000000011000000000000000000000000000000000000000000000001";
    let max = "0x0800000000000011000000000000000000000000000000000000000000000000";
    assert_eq!(Felt::from_hex(modulus), None);
    assert!(Felt::from_hex(max).is_some());
    let bad = "0x000000000000000000000000000000000000000000000000000000000000000g";
    assert_eq!(Felt::from_hex(bad), None);
}

#[test]
fn lt_compares_as_integers() {
    assert!(felt_of(1).lt(&felt_of(2)));
    assert!(!felt_of(2).lt(&felt_of(1)));
    assert!(!felt_of(5).lt(&felt_of(5)));
    let mut high = [0u8; 32];
    high[0] = 1;
    assert!(felt_of(u128::MAX).lt(&Felt { bytes: high }));
    assert!(felt_of(0x0100).lt(&felt_of(0x00ff_ff)));
}
