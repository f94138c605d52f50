//! Request digests: SHA-256 of the operation bytes, rendered as lowercase
//! hexadecimal.

use vstd::prelude::*;

verus! {

/// The SHA-256 digest of a byte sequence, as the outside digest routine
/// computes it; the result is a function of the input bytes alone.
pub uninterp spec fn sha256_of(data: Seq<u8>) -> Seq<u8>;

/// The lowercase hexadecimal digit for a nibble.
pub open spec fn hex_digit(n: u8) -> u8 {
    if n < 10 {
        (n + 48) as u8
    } else {
        (n + 87) as u8
    }
}

/// Lowercase hexadecimal rendering of bytes: two digits per byte, high
/// nibble first.
pub open spec fn hex_of(data: Seq<u8>) -> Seq<u8>
    decreases data.len(),
{
    if data.len() == 0 {
        Seq::empty()
    } else {
        seq![hex_digit(data[0] / 16), hex_digit(data[0] % 16)] + hex_of(data.drop_first())
    }
}

/// The protocol digest of an operation: lowercase hex of its SHA-256.
pub open spec fn digest_of(op: Seq<u8>) -> Seq<u8> {
    hex_of(sha256_of(op))
}

/// Relies on ring::digest::digest with the SHA256 algorithm: a 32-byte
/// digest that is a function of the input bytes alone.
#[verifier::external_body]
fn sha256(data: &Vec<u8>) -> (r: Vec<u8>)
    ensures
        r@ == sha256_of(data@),
        r@.len() == 32,
{
    ring::digest::digest(&ring::digest::SHA256, data.as_slice()).as_ref().to_vec()
}

/// Relies on hex::encode: lowercase hexadecimal, two digits per byte, high
/// nibble first.
#[verifier::external_body]
fn hex_encode(data: &Vec<u8>) -> (r: Vec<u8>)
    ensures
        r@ == hex_of(data@),
{
    hex::encode(data.as_slice()).into_bytes()
}

/// The digest under which a request is agreed on: the SHA-256 of the
/// operation bytes, as lowercase hex.
pub fn compute_digest(operation: &Vec<u8>) -> (r: Vec<u8>)
    ensures
        r@ == digest_of(operation@),
        r@.len() == 64,
{
    let h = sha256(operation);
    proof {
        lemma_hex_len(h@);
    }
    hex_encode(&h)
}

/// A hex rendering is twice as long as its input.
pub proof fn lemma_hex_len(data: Seq<u8>)
    ensures
        hex_of(data).len() == 2 * data.len(),
    decreases data.len(),
{
    if data.len() > 0 {
        lemma_hex_len(data.drop_first());
    }
}

/// Digest determinism: identical operation bytes yield identical digests,
/// on every replica.
pub proof fn lemma_digest_deterministic(a: Seq<u8>, b: Seq<u8>)
    requires
        a == b,
    ensures
        digest_of(a) == digest_of(b),
{
}

} // verus!
