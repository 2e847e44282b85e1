//! Calls into the hashing and serialization crates, with what the library
//! relies on of each.
use vstd::prelude::*;

verus! {

/// The SHA-512 digest of a byte string (computed by the `sha2` crate).
pub uninterp spec fn sha512_spec(data: Seq<u8>) -> Seq<u8>;

/// The SHA3-256 digest of a byte string (computed by the `sha3` crate).
pub uninterp spec fn sha3_256_spec(data: Seq<u8>) -> Seq<u8>;

/// The lowest `n` bytes of `x`, least significant first.
pub open spec fn le_bytes(x: nat, n: nat) -> Seq<u8>
    decreases n,
{
    if n == 0 {
        Seq::empty()
    } else {
        seq![(x % 256) as u8] + le_bytes(x / 256, (n - 1) as nat)
    }
}

/// The value of an ASCII hexadecimal digit (either case).
pub open spec fn hex_digit(b: u8) -> Option<u8> {
    if 48 <= b <= 57 {
        Some((b - 48) as u8)
    } else if 97 <= b <= 102 {
        Some((b - 87) as u8)
    } else if 65 <= b <= 70 {
        Some((b - 55) as u8)
    } else {
        None
    }
}

/// The bytes that a hexadecimal text stands for: `None` if its length is odd
/// or one of its bytes is not a hexadecimal digit.
pub open spec fn hex_decode_spec(s: Seq<u8>) -> Option<Seq<u8>> {
    if s.len() % 2 != 0 {
        None
    } else if exists|i: int| 0 <= i < s.len() && hex_digit(#[trigger] s[i]) is None {
        None
    } else {
        Some(Seq::new(s.len() / 2, |i: int| (hex_digit(s[2 * i])->0 * 16 + hex_digit(s[2 * i + 1])->0) as u8))
    }
}

/// The lower-case hexadecimal digit of `n` (less than 16).
pub open spec fn hex_char(n: u8) -> char {
    if n < 10 {
        (n + 48) as char
    } else {
        (n + 87) as char
    }
}

/// The lower-case hexadecimal text of some bytes, two digits per byte.
pub open spec fn hex_encode_spec(b: Seq<u8>) -> Seq<char> {
    Seq::new(
        2 * b.len(),
        |i: int| if i % 2 == 0 {
            hex_char(b[i / 2] / 16)
        } else {
            hex_char(b[i / 2] % 16)
        },
    )
}

/// Calls `hex::decode`. Claimed, from its source: an error when the length
/// is odd or a byte is not a hexadecimal digit, else the bytes that each
/// pair of digits stands for (the error's details are dropped).
#[verifier::external_body]
pub(crate) fn hex_decode(data: &[u8]) -> (r: Option<Vec<u8>>)
    ensures
        match r {
            Some(v) => hex_decode_spec(data@) == Some(v@),
            None => hex_decode_spec(data@) is None,
        },
{
    match hex::decode(data) {
        Ok(bytes) => Some(bytes),
        Err(_) => None,
    }
}

/// Calls `hex::encode`. Claimed, from its source: two lower-case digits per
/// byte, the high half first.
#[verifier::external_body]
pub(crate) fn hex_encode(data: &[u8]) -> (r: String)
    ensures
        r@ == hex_encode_spec(data@),
{
    hex::encode(data)
}

/// Calls `sha2::Sha512::digest`. Claimed: the result is the SHA-512 digest of
/// `data`, which is 64 bytes long.
#[verifier::external_body]
pub(crate) fn sha512_digest(data: &[u8]) -> (r: Vec<u8>)
    ensures
        r@ == sha512_spec(data@),
        r@.len() == 64,
{
    <sha2::Sha512 as sha2::Digest>::digest(data).to_vec()
}

/// Calls `sha3::Sha3_256::digest`. Claimed: the result is the SHA3-256 digest
/// of `data`, which is 32 bytes long.
#[verifier::external_body]
pub(crate) fn sha3_256_digest(data: &[u8]) -> (r: Vec<u8>)
    ensures
        r@ == sha3_256_spec(data@),
        r@.len() == 32,
{
    <sha3::Sha3_256 as sha3::Digest>::digest(data).to_vec()
}

/// Calls `bcs::to_bytes` on an `i32`. Claimed: BCS writes the four bytes of
/// the two's complement, least significant first (`serialize_i32` writes
/// `(v as u32).to_le_bytes()` into a vector, which cannot fail).
#[verifier::external_body]
pub(crate) fn bcs_i32(x: i32) -> (r: Vec<u8>)
    ensures
        r@ == le_bytes((x as u32) as nat, 4),
{
    match bcs::to_bytes(&x) {
        Ok(bytes) => bytes,
        Err(_) => Vec::new(),
    }
}

/// Calls `bcs::to_bytes` on a `u32`. Claimed: BCS writes the four bytes of
/// the value, least significant first (`serialize_u32` writes
/// `v.to_le_bytes()` into a vector, which cannot fail).
#[verifier::external_body]
pub(crate) fn bcs_u32(x: u32) -> (r: Vec<u8>)
    ensures
        r@ == le_bytes(x as nat, 4),
{
    match bcs::to_bytes(&x) {
        Ok(bytes) => bytes,
        Err(_) => Vec::new(),
    }
}

/// Calls `bcs::to_bytes` on a `u64`. Claimed: BCS writes the eight bytes of
/// the value, least significant first (`serialize_u64` writes
/// `v.to_le_bytes()` into a vector, which cannot fail).
#[verifier::external_body]
pub(crate) fn bcs_u64(x: u64) -> (r: Vec<u8>)
    ensures
        r@ == le_bytes(x as nat, 8),
{
    match bcs::to_bytes(&x) {
        Ok(bytes) => bytes,
        Err(_) => Vec::new(),
    }
}

} // verus!
