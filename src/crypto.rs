//! Signing, signature checks and hashing, done by solana_sdk.
use vstd::prelude::*;

verus! {

/// The ed25519 signature that the keypair with these 64 bytes (secret key,
/// then public key) makes of a message.
pub uninterp spec fn ed25519_signature(keypair: Seq<u8>, message: Seq<u8>) -> Seq<u8>;

/// Whether 64 bytes form an ed25519 keypair that solana_sdk accepts: a
/// secret key, then a public key that decompresses and is the one derived
/// from that secret key.
pub uninterp spec fn ed25519_keypair_ok(keypair: Seq<u8>) -> bool;

/// Whether a 64-byte signature of a message checks against a 32-byte public key.
pub uninterp spec fn ed25519_verifies(pubkey: Seq<u8>, message: Seq<u8>, signature: Seq<u8>) -> bool;

/// The SHA-256 digest of a byte string.
pub uninterp spec fn sha256(data: Seq<u8>) -> Seq<u8>;

/// Relies on solana_sdk's `Keypair::from_bytes`, which reads the 64 bytes as a
/// secret key and its public key and fails where either is malformed or the
/// public key is not the one derived from the secret key, and on
/// `Signer::sign_message` for `Keypair`, whose ed25519 signature depends on the
/// key and the message alone.
#[verifier::external_body]
pub(crate) fn sign_message(keypair: &[u8; 64], message: &Vec<u8>) -> (r: Option<[u8; 64]>)
    ensures
        r is Some <==> ed25519_keypair_ok(keypair@),
        r matches Some(s) ==> s@ == ed25519_signature(keypair@, message@),
{
    match solana_sdk::signer::keypair::Keypair::from_bytes(keypair) {
        Ok(k) => Some(solana_sdk::signer::Signer::sign_message(&k, message).into()),
        Err(_) => None,
    }
}

/// Relies on solana_sdk's `Signature::verify`: a strict ed25519 check of the
/// signature of the message against the public key.
#[verifier::external_body]
pub(crate) fn verify_signature(signature: &[u8; 64], pubkey: &[u8; 32], message: &Vec<u8>) -> (r: bool)
    ensures
        r == ed25519_verifies(pubkey@, message@, signature@),
{
    solana_sdk::signature::Signature::from(*signature).verify(pubkey, message)
}

/// Relies on solana_sdk's `hash::hashv`: the SHA-256 digest of its parts,
/// fed to the hasher one after another.
#[verifier::external_body]
pub(crate) fn hash_two(first: &Vec<u8>, second: &Vec<u8>) -> (r: [u8; 32])
    ensures
        r@ == sha256(first@ + second@),
{
    solana_sdk::hash::hashv(&[first.as_slice(), second.as_slice()]).to_bytes()
}

} // verus!
