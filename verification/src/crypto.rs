//! Trusted boundary to the cryptographic primitives: BLAKE3 content
//! hashes, Ed25519 key pairs and signatures, and hex strings.
//!
//! Every item here either wraps one outside function behind a contract or
//! gives a name to its result. Nothing else in the crate calls the outside
//! crates directly.

use vstd::prelude::*;

verus! {

/// The 32-byte BLAKE3 hash of a byte sequence. A function of the bytes
/// alone; no contract states its value on given bytes.
pub uninterp spec fn hash_of(bytes: Seq<u8>) -> Seq<u8>;

/// The 32-byte Ed25519 public key derived from a 32-byte signing key.
pub uninterp spec fn pk_of(sk: Seq<u8>) -> Seq<u8>;

/// The 64-byte Ed25519 signature over `msg` by the signing key `sk`.
pub uninterp spec fn sign_of(sk: Seq<u8>, msg: Seq<u8>) -> Seq<u8>;

/// Whether `sig` is a signature over `msg` that verifies under the public
/// key bytes `pk` (false also when `pk` is not a valid key).
pub uninterp spec fn sig_check(pk: Seq<u8>, msg: Seq<u8>, sig: Seq<u8>) -> bool;

/// Whether 32 bytes decode to a valid Ed25519 public key.
pub uninterp spec fn valid_pk(pk: Seq<u8>) -> bool;

/// Relies on `p2panda_core::Hash::digest`: the BLAKE3 hash of the given
/// bytes, 32 bytes long, a function of the bytes alone.
#[verifier::external_body]
pub fn hash_bytes(bytes: &Vec<u8>) -> (r: Vec<u8>)
    ensures
        r@ == hash_of(bytes@),
        r@.len() == 32,
{
    p2panda_core::Hash::digest(bytes).as_bytes().to_vec()
}

/// Relies on `p2panda_core::SigningKey::generate`: a fresh random 32-byte
/// signing key. Random, so nothing is stated beyond its length.
#[verifier::external_body]
pub fn generate_signing_key() -> (r: Vec<u8>)
    ensures
        r@.len() == 32,
{
    p2panda_core::SigningKey::generate().as_bytes().to_vec()
}

/// Relies on `p2panda_core::SigningKey::verifying_key`: the public
/// counterpart of a signing key, 32 bytes, itself a valid key.
#[verifier::external_body]
pub fn derive_public_key(sk: &Vec<u8>) -> (r: Vec<u8>)
    requires
        sk@.len() == 32,
    ensures
        r@ == pk_of(sk@),
        r@.len() == 32,
        valid_pk(r@),
{
    let arr: [u8; 32] = sk.as_slice().try_into().unwrap();
    p2panda_core::SigningKey::from_bytes(&arr).verifying_key().as_bytes().to_vec()
}

/// Relies on `p2panda_core::SigningKey::sign`: the Ed25519 signature over
/// `msg`, 64 bytes, deterministic in key and message, and verifying under
/// the key's public counterpart.
#[verifier::external_body]
pub fn sign_bytes(sk: &Vec<u8>, msg: &Vec<u8>) -> (r: Vec<u8>)
    requires
        sk@.len() == 32,
    ensures
        r@ == sign_of(sk@, msg@),
        r@.len() == 64,
        sig_check(pk_of(sk@), msg@, r@),
{
    let arr: [u8; 32] = sk.as_slice().try_into().unwrap();
    p2panda_core::SigningKey::from_bytes(&arr).sign(msg).to_bytes().to_vec()
}

/// Relies on `p2panda_core::VerifyingKey::verify`: whether the signature
/// verifies over `msg` under the key; false when the key bytes do not
/// decode to a valid key.
#[verifier::external_body]
pub fn verify_bytes(pk: &Vec<u8>, msg: &Vec<u8>, sig: &Vec<u8>) -> (r: bool)
    requires
        pk@.len() == 32,
        sig@.len() == 64,
    ensures
        r == sig_check(pk@, msg@, sig@),
{
    let pk_arr: [u8; 32] = pk.as_slice().try_into().unwrap();
    let sig_arr: [u8; 64] = sig.as_slice().try_into().unwrap();
    match p2panda_core::VerifyingKey::from_bytes(&pk_arr) {
        Ok(key) => key.verify(msg, &p2panda_core::Signature::from_bytes(&sig_arr)),
        Err(_) => false,
    }
}

/// Relies on `p2panda_core::VerifyingKey::from_bytes`: whether the 32
/// bytes decode to a valid public key.
#[verifier::external_body]
pub fn check_public_key(pk: &Vec<u8>) -> (r: bool)
    requires
        pk@.len() == 32,
    ensures
        r == valid_pk(pk@),
{
    let arr: [u8; 32] = pk.as_slice().try_into().unwrap();
    p2panda_core::VerifyingKey::from_bytes(&arr).is_ok()
}

/// The lowercase hex digit for a value below 16.
pub open spec fn hex_digit(n: u8) -> char {
    if n == 0 {
        '0'
    } else if n == 1 {
        '1'
    } else if n == 2 {
        '2'
    } else if n == 3 {
        '3'
    } else if n == 4 {
        '4'
    } else if n == 5 {
        '5'
    } else if n == 6 {
        '6'
    } else if n == 7 {
        '7'
    } else if n == 8 {
        '8'
    } else if n == 9 {
        '9'
    } else if n == 10 {
        'a'
    } else if n == 11 {
        'b'
    } else if n == 12 {
        'c'
    } else if n == 13 {
        'd'
    } else if n == 14 {
        'e'
    } else {
        'f'
    }
}

/// The lowercase hex encoding of a byte sequence: two digits per byte.
pub open spec fn hex_of(b: Seq<u8>) -> Seq<char>
    decreases b.len(),
{
    if b.len() == 0 {
        Seq::empty()
    } else {
        seq![hex_digit(b.first() / 16), hex_digit(b.first() % 16)] + hex_of(b.drop_first())
    }
}

/// Whether a character is a hex digit of either case.
pub open spec fn is_hex_char(c: char) -> bool {
    ('0' <= c && c <= '9') || ('a' <= c && c <= 'f') || ('A' <= c && c <= 'F')
}

/// The value of a hex digit of either case.
pub open spec fn hex_char_val(c: char) -> u8 {
    if '0' <= c && c <= '9' {
        (c as u8 - '0' as u8) as u8
    } else if 'a' <= c && c <= 'f' {
        (c as u8 - 'a' as u8 + 10) as u8
    } else {
        (c as u8 - 'A' as u8 + 10) as u8
    }
}

/// Whether a string is a well-formed hex encoding: an even number of hex
/// digits of either case.
pub open spec fn is_hex_str(s: Seq<char>) -> bool {
    s.len() % 2 == 0 && forall|i: int| 0 <= i < s.len() ==> is_hex_char(#[trigger] s[i])
}

/// The bytes a well-formed hex string decodes to.
pub open spec fn hex_val(s: Seq<char>) -> Seq<u8>
    decreases s.len(),
{
    if s.len() < 2 {
        Seq::empty()
    } else {
        seq![(hex_char_val(s[0]) * 16 + hex_char_val(s[1])) as u8] + hex_val(s.skip(2))
    }
}

/// Relies on `hex::encode`: the lowercase hex string of the bytes, two
/// digits per byte.
#[verifier::external_body]
pub fn hex_encode(b: &Vec<u8>) -> (r: String)
    ensures
        r@ == hex_of(b@),
{
    hex::encode(b)
}

/// Relies on `hex::decode`: decodes an even number of hex digits of either
/// case, and rejects anything else.
#[verifier::external_body]
pub fn hex_decode(s: &str) -> (r: Option<Vec<u8>>)
    ensures
        match r {
            Some(v) => is_hex_str(s@) && v@ == hex_val(s@),
            None => !is_hex_str(s@),
        },
{
    match hex::decode(s) {
        Ok(v) => Some(v),
        Err(_) => None,
    }
}

} // verus!
