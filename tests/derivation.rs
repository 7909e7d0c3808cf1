use felt_miner::address::{derive_addr, Config, CLASS_HASH_HEX, CONST_STRING_HEX};
use felt_miner::felt::Felt;
use std::collections::HashSet;

fn felt_of(v: u128) -> Felt {
    let mut bytes = [0u8; 32];
    bytes[16..].copy_from_slice(&v.to_be_bytes());
    Felt { bytes }
}

#[test]
fn standard_constants_parse() {
    let c = Config::standard();
    assert_eq!(c.const_string.to_hex(), CONST_STRING_HEX);
    assert_eq!(c.class_hash.to_hex(), CLASS_HASH_HEX);
    assert_eq!(c.deployer, felt_of(0));
    assert_eq!(c.arg_count, felt_of(5));
    assert_eq!(
        c.initial_min.to_hex(),
        "0x0800000000000011000000000000000000000000000000000000000000000000"
    );
}

#[test]
fn constructor_params_hash_is_hash_of_zeros() {
    let c = Config::standard();
    assert_eq!(
        c.constructor_params_hash.to_hex(),
        "0x049ee3eba8c1600700ee1b87eb599f16716b0b1022947733551fde4050ca6804"
    );
}

#[test]
fn from_parts_rejects_bad_text() {
    assert!(Config::from_parts("0xzz", CLASS_HASH_HEX).is_none());
    let too_big = "0x0800000000000011000000000000000000000000000000000000000000000001";
    assert!(Config::from_parts(CONST_STRING_HEX, too_big).is_none());
}

#[test]
fn derive_is_deterministic() {
    let c = Config::standard();
    for salt in [0u128, 1, 42, u128::MAX] {
        assert_eq!(derive_addr(&c, salt).bytes, derive_addr(&c, salt).bytes);
    }
}

#[test]
fn derive_golden_vector() {
    let c = Config::standard();
    assert_eq!(
        derive_addr(&c, 0).to_hex(),
        "0x006730d8df988b2b47fc0d4d533a3aca84e574ab1a0fdf60b424579ad9aa387e"
    );
}

#[test]
fn derive_no_collisions_in_sample() {
    let c = Config::standard();
    let mut seen = HashSet::new();
    for k in 0u128..200 {
        let salt = k.wrapping_mul(0x9e37_79b9_7f4a_7c15_f39c_c060_5ced_c835);
        assert!(seen.insert(derive_addr(&c, salt).bytes));
    }
}

#[test]
fn derive_depends_on_class_hash() {
    let a = Config::standard();
    let other = "0x0000000000000000000000000000000000000000000000000000000000000001";
    let b = Config::from_parts(CONST_STRING_HEX, other).unwrap();
    assert_ne!(derive_addr(&a, 7).bytes, derive_addr(&b, 7).bytes);
}
