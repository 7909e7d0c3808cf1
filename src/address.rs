//! The contract-address derivation: a fixed chain of Pedersen hashes over
//! constants computed once, applied to a salt.

use crate::felt::{be_bytes, be_nat, modulus, Felt};
use vstd::prelude::*;

verus! {

/// What starknet's `pedersen_hash` returns on two canonical encodings, as the
/// canonical encoding of the result.
pub uninterp spec fn pedersen_of(a: Seq<u8>, b: Seq<u8>) -> Seq<u8>;

/// Relies on starknet's pedersen_hash, a pure function of its two field
/// elements; FieldElement::from_bytes_be accepts the canonical inputs, and
/// FieldElement::to_bytes_be gives the canonical bytes of the result.
#[verifier::external_body]
fn pedersen(a: &Felt, b: &Felt) -> (r: Felt)
    requires
        a.wf(),
        b.wf(),
    ensures
        r@ == pedersen_of(a@, b@),
        r.wf(),
{
    let x = starknet::core::types::FieldElement::from_bytes_be(&a.bytes).unwrap();
    let y = starknet::core::types::FieldElement::from_bytes_be(&b.bytes).unwrap();
    Felt { bytes: starknet::core::crypto::pedersen_hash(&x, &y).to_bytes_be() }
}

/// Relies on starknet's `From<u128>` for FieldElement, which embeds the integer
/// as it is, and FieldElement::to_bytes_be, which writes it big-endian.
#[verifier::external_body]
fn felt_of_u128(v: u128) -> (r: Felt)
    ensures
        r@ == be_bytes(v as nat, 32),
        r.wf(),
{
    Felt { bytes: starknet::core::types::FieldElement::from(v).to_bytes_be() }
}

/// Relies on starknet's FieldElement::MAX, documented as 2^251 + 17 * 2^192,
/// the largest element.
#[verifier::external_body]
fn felt_max() -> (r: Felt)
    ensures
        r.value() == modulus() - 1,
{
    Felt { bytes: starknet::core::types::FieldElement::MAX.to_bytes_be() }
}

/// The encoding of zero, the field's additive identity.
pub open spec fn zero_bytes() -> Seq<u8> {
    be_bytes(0, 32)
}

/// The constants of the derivation, computed once and read thereafter.
pub struct Config {
    /// Domain separation tag for contract addresses.
    pub const_string: Felt,
    /// Address of the deployer: zero.
    pub deployer: Felt,
    pub class_hash: Felt,
    /// Commitment to the (empty) constructor arguments: hash(0, 0).
    pub constructor_params_hash: Felt,
    /// Number of elements hashed, as a field element: five.
    pub arg_count: Felt,
    /// hash(hash(0, const_string), deployer), the salt-independent prefix.
    pub precomputed: Felt,
    /// The largest element, the bound that every search starts from.
    pub initial_min: Felt,
}

impl Config {
    pub open spec fn wf(&self) -> bool {
        &&& self.const_string.wf()
        &&& self.deployer.wf()
        &&& self.class_hash.wf()
        &&& self.constructor_params_hash.wf()
        &&& self.arg_count.wf()
        &&& self.precomputed.wf()
        &&& self.deployer@ == zero_bytes()
        &&& self.constructor_params_hash@ == pedersen_of(zero_bytes(), zero_bytes())
        &&& self.arg_count@ == be_bytes(5, 32)
        &&& self.precomputed@ == pedersen_of(
            pedersen_of(zero_bytes(), self.const_string@),
            self.deployer@,
        )
        &&& self.initial_min.value() == modulus() - 1
    }

    /// Builds the constants from the address domain tag and the class hash
    /// written as hexadecimal text; `None` where either does not parse to a
    /// field element.
    pub fn from_parts(const_string_hex: &str, class_hash_hex: &str) -> (r: Option<Config>)
        ensures
            r matches Some(c) ==> c.wf(),
            crate::hex::is_canonical_hex(const_string_hex@) && crate::hex::is_canonical_hex(
                class_hash_hex@,
            ) ==> (r.is_some() <==> (be_nat(crate::hex::hex_bytes(const_string_hex@)) < modulus()
                && be_nat(crate::hex::hex_bytes(class_hash_hex@)) < modulus())),
            crate::hex::is_canonical_hex(const_string_hex@) && crate::hex::is_canonical_hex(
                class_hash_hex@,
            ) ==> (r matches Some(c) ==> c.const_string@ == crate::hex::hex_bytes(
                const_string_hex@,
            ) && c.class_hash@ == crate::hex::hex_bytes(class_hash_hex@)),
    {
        let const_string = match Felt::from_hex(const_string_hex) {
            Some(f) => f,
            None => return None,
        };
        let class_hash = match Felt::from_hex(class_hash_hex) {
            Some(f) => f,
            None => return None,
        };
        let zero = felt_of_u128(0);
        let deployer = felt_of_u128(0);
        let constructor_params_hash = pedersen(&zero, &zero);
        let arg_count = felt_of_u128(5);
        let precomputed = pedersen(&pedersen(&zero, &const_string), &deployer);
        let initial_min = felt_max();
        Some(
            Config {
                const_string,
                deployer,
                class_hash,
                constructor_params_hash,
                arg_count,
                precomputed,
                initial_min,
            },
        )
    }
}

/// The address domain tag, `STARKNET_CONTRACT_ADDRESS` in ASCII.
pub const CONST_STRING_HEX: &'static str = "0x00000000000000535441524b4e45545f434f4e54524143545f41444452455353";

/// The class hash of the contract whose address is mined.
pub const CLASS_HASH_HEX: &'static str = "0x059d886a22f84091b75918faecebfc0d93128000d4b045f57b71d51871453d6f";

impl Config {
    /// The constants of the contract whose address is mined; the two texts are
    /// canonical and below the modulus, so parsing them cannot fail.
    pub fn standard() -> (c: Config)
        ensures
            c.wf(),
            c.const_string@ == crate::hex::hex_bytes(CONST_STRING_HEX@),
            c.class_hash@ == crate::hex::hex_bytes(CLASS_HASH_HEX@),
    {
        proof {
            lemma_standard_literals();
        }
        Config::from_parts(CONST_STRING_HEX, CLASS_HASH_HEX).unwrap()
    }
}

/// A 32-byte encoding whose first byte is below 8 is below 2^251, hence canonical.
proof fn lemma_small_lead_is_canonical(s: Seq<u8>)
    requires
        s.len() == 32,
        s[0] < 8,
    ensures
        be_nat(s) < modulus(),
{
    let rest = s.subrange(1, 32);
    crate::felt::lemma_be_nat_bound(rest);
    let p = crate::felt::pow256(31);
    let d = s[0] as nat;
    let x = be_nat(rest);
    assert(d * p + x < 8 * p) by (nonlinear_arith)
        requires
            d < 8,
            x < p,
    ;
}

proof fn lemma_standard_literals()
    ensures
        crate::hex::is_canonical_hex(CONST_STRING_HEX@),
        crate::hex::is_canonical_hex(CLASS_HASH_HEX@),
        be_nat(crate::hex::hex_bytes(CONST_STRING_HEX@)) < modulus(),
        be_nat(crate::hex::hex_bytes(CLASS_HASH_HEX@)) < modulus(),
{
    reveal_strlit("0x00000000000000535441524b4e45545f434f4e54524143545f41444452455353");
    reveal_strlit("0x059d886a22f84091b75918faecebfc0d93128000d4b045f57b71d51871453d6f");
    assert(CONST_STRING_HEX@.len() == 66);
    assert(CONST_STRING_HEX@[2] == '0');
    lemma_small_lead_is_canonical(crate::hex::hex_bytes(CONST_STRING_HEX@));
    lemma_small_lead_is_canonical(crate::hex::hex_bytes(CLASS_HASH_HEX@));
}

/// The address that a salt derives under the constants `c`.
pub open spec fn derived(c: Config, salt: u128) -> Seq<u8> {
    pedersen_of(
        pedersen_of(
            pedersen_of(pedersen_of(c.precomputed@, be_bytes(salt as nat, 32)), c.class_hash@),
            c.constructor_params_hash@,
        ),
        c.arg_count@,
    )
}

/// hash(hash(hash(hash(precomputed, salt), class_hash), constructor_params_hash), arg_count).
pub fn derive_addr(c: &Config, salt: u128) -> (r: Felt)
    requires
        c.wf(),
    ensures
        r@ == derived(*c, salt),
        r.wf(),
{
    let s = felt_of_u128(salt);
    let h1 = pedersen(&c.precomputed, &s);
    let h2 = pedersen(&h1, &c.class_hash);
    let h3 = pedersen(&h2, &c.constructor_params_hash);
    pedersen(&h3, &c.arg_count)
}

/// Two derivations of one salt under the same constants give the same bytes.
pub proof fn lemma_derive_deterministic(c: Config, salt: u128, r1: Felt, r2: Felt)
    requires
        r1@ == derived(c, salt),
        r2@ == derived(c, salt),
    ensures
        r1@ == r2@,
{
}

} // verus!
