//! The cryptographic fingerprint primitive and the canonical text form of a
//! fingerprint. Both lean on outside crates; everything stated of them here
//! is what those crates' sources show.
use vstd::prelude::*;

verus! {

/// The 32-byte Blake2b digest of a byte sequence. The digest is a function
/// of the input bytes alone; nothing further is assumed of it.
pub uninterp spec fn blake2_of(bytes: Seq<u8>) -> Seq<u8>;

/// Relies on blake2's `Blake2b` with a 32-byte output size: the digest is
/// deterministic in the input and is always exactly 32 bytes long.
#[verifier::external_body]
pub(crate) fn blake2_256(input: &[u8]) -> (r: Vec<u8>)
    ensures
        r@ == blake2_of(input@),
        r@.len() == 32,
{
    let digest = <blake2::Blake2b<blake2::digest::consts::U32> as blake2::Digest>::digest(input);
    digest.to_vec()
}

/// The lowercase hexadecimal digit for a nibble value.
pub open spec fn hex_digit(n: u8) -> char {
    if n == 0 {
        '0'
    } else if n == 1 {
        '1'
    } else if n == 2 {
        '2'
    } else if n == 3 {
        '3'
    } else if n == 4 {
        '4'
    } else if n == 5 {
        '5'
    } else if n == 6 {
        '6'
    } else if n == 7 {
        '7'
    } else if n == 8 {
        '8'
    } else if n == 9 {
        '9'
    } else if n == 10 {
        'a'
    } else if n == 11 {
        'b'
    } else if n == 12 {
        'c'
    } else if n == 13 {
        'd'
    } else if n == 14 {
        'e'
    } else {
        'f'
    }
}

/// The lowercase hexadecimal text of a byte sequence: two digits per byte,
/// high nibble first.
pub open spec fn hex_of(s: Seq<u8>) -> Seq<char> {
    Seq::new(
        2 * s.len(),
        |i: int| if i % 2 == 0 {
            hex_digit(s[i / 2] / 16)
        } else {
            hex_digit(s[i / 2] % 16)
        },
    )
}

/// Relies on hex::encode: for each input byte it emits the lowercase digit
/// of the high nibble and then of the low nibble.
#[verifier::external_body]
pub(crate) fn hex_encode(b: &[u8]) -> (r: String)
    ensures
        r@ == hex_of(b@),
{
    hex::encode(b)
}

} // verus!
