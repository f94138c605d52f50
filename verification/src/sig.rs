//! Ed25519 message authentication: signing under a 32-byte secret key and
//! verification under the derived 32-byte verifying key.

use vstd::prelude::*;

verus! {

/// The 32 verifying-key bytes the outside signing crate derives from 32
/// secret-key bytes; a function of the secret bytes alone.
pub uninterp spec fn vkey_of(secret: Seq<u8>) -> Seq<u8>;

/// Whether the outside Ed25519 verifier accepts `sig` over `msg` under the
/// verifying-key bytes `vkey`; a function of its three arguments alone.
/// Malformed key or signature bytes are never accepted.
pub uninterp spec fn sig_verifies(vkey: Seq<u8>, msg: Seq<u8>, sig: Seq<u8>) -> bool;

/// Relies on ed25519_dalek::SigningKey::from_bytes (any 32 bytes form a
/// signing key) and SigningKey::verifying_key: the verifying key is 32
/// bytes and a function of the secret bytes.
#[verifier::external_body]
pub fn derive_public_key(secret: &Vec<u8>) -> (r: Vec<u8>)
    requires
        secret@.len() == 32,
    ensures
        r@ == vkey_of(secret@),
        r@.len() == 32,
{
    let bytes: [u8; 32] = secret.as_slice().try_into().unwrap();
    let sk = ed25519_dalek::SigningKey::from_bytes(&bytes);
    sk.verifying_key().to_bytes().to_vec()
}

/// Relies on ed25519_dalek::SigningKey::sign: the 64-byte signature it
/// produces verifies under the key's verifying key.
#[verifier::external_body]
pub fn sign_bytes(secret: &Vec<u8>, msg: &Vec<u8>) -> (r: Vec<u8>)
    requires
        secret@.len() == 32,
    ensures
        r@.len() == 64,
        sig_verifies(vkey_of(secret@), msg@, r@),
{
    let bytes: [u8; 32] = secret.as_slice().try_into().unwrap();
    let sk = ed25519_dalek::SigningKey::from_bytes(&bytes);
    ed25519_dalek::Signer::sign(&sk, msg.as_slice()).to_bytes().to_vec()
}

/// Relies on ed25519_dalek::VerifyingKey::{from_bytes, verify} and
/// ed25519_dalek::Signature::from_bytes: acceptance is a function of the
/// key bytes, the message and the signature; a key or signature of the
/// wrong length, or key bytes that are no curve point, are rejected.
#[verifier::external_body]
pub fn verify_bytes(vkey: &Vec<u8>, msg: &Vec<u8>, sig: &Vec<u8>) -> (r: bool)
    ensures
        r == sig_verifies(vkey@, msg@, sig@),
{
    let kb: [u8; 32] = match vkey.as_slice().try_into() {
        Ok(kb) => kb,
        Err(_) => return false,
    };
    let sb: [u8; 64] = match sig.as_slice().try_into() {
        Ok(sb) => sb,
        Err(_) => return false,
    };
    match ed25519_dalek::VerifyingKey::from_bytes(&kb) {
        Ok(vk) => {
            let signature = ed25519_dalek::Signature::from_bytes(&sb);
            ed25519_dalek::Verifier::verify(&vk, msg.as_slice(), &signature).is_ok()
        },
        Err(_) => false,
    }
}

} // verus!
