//! The challenge-response liveness check.
use crate::crypto::{ed25519_keypair_ok, ed25519_signature, ed25519_verifies, hash_two, sha256, sign_message, verify_signature};
use crate::value::GossipError;
use crate::wire::{put_array, Digest, Pubkey, Signature};
use vstd::prelude::*;

verus! {

/// Number of bytes in the randomly generated token sent with ping messages.
pub const GOSSIP_PING_TOKEN_SIZE: usize = 32;

#[derive(Clone, PartialEq, Eq, Debug)]
pub struct PingGeneric<T> {
    pub from: Pubkey,
    pub token: T,
    pub signature: Signature,
}

pub type Ping = PingGeneric<[u8; GOSSIP_PING_TOKEN_SIZE]>;

/// A response to a ping: the responder, the digest of the ping's token and
/// the responder's signature of that digest.
#[derive(Clone, PartialEq, Eq, Debug)]
pub struct Pong {
    pub from: Pubkey,
    pub hash: Digest,
    pub signature: Signature,
}

/// The ASCII text `SOLANA_PING_PONG`, which sets this digest apart from every
/// other use of the hash.
pub open spec fn ping_pong_prefix() -> Seq<u8> {
    seq![83u8, 79, 76, 65, 78, 65, 95, 80, 73, 78, 71, 95, 80, 79, 78, 71]
}

/// The digest that a pong for a ping with this token carries.
pub open spec fn token_digest(token: Seq<u8>) -> Seq<u8> {
    sha256(ping_pong_prefix() + token)
}

/// The public half of a 64-byte keypair.
pub open spec fn public_half(keypair: Seq<u8>) -> Seq<u8> {
    keypair.subrange(32, 64)
}

fn ping_pong_prefix_bytes() -> (r: Vec<u8>)
    ensures
        r@ == ping_pong_prefix(),
{
    let r: Vec<u8> = vec![83u8, 79, 76, 65, 78, 65, 95, 80, 73, 78, 71, 95, 80, 79, 78, 71];
    assert(r@ =~= ping_pong_prefix());
    r
}

fn array_to_vec<const N: usize>(a: &[u8; N]) -> (r: Vec<u8>)
    ensures
        r@ == a@,
{
    let mut r: Vec<u8> = Vec::new();
    put_array(&mut r, a);
    assert(r@ =~= a@);
    r
}

/// The public key of a 64-byte keypair: its last 32 bytes.
pub fn public_key_of(keypair: &[u8; 64]) -> (r: Pubkey)
    ensures
        r.bytes@ == public_half(keypair@),
{
    let mut bytes = [0u8; 32];
    let mut i: usize = 0;
    while i < 32
        invariant
            i <= 32,
            keypair@.len() == 64,
            bytes@.len() == 32,
            forall|j: int| 0 <= j < i ==> bytes@[j] == keypair@[32 + j],
        decreases 32 - i,
    {
        bytes[i] = keypair[32 + i];
        i = i + 1;
    }
    let r = Pubkey { bytes };
    assert(r.bytes@ =~= public_half(keypair@));
    r
}

impl PingGeneric<[u8; GOSSIP_PING_TOKEN_SIZE]> {
    /// The canonical encoding: sender, token, signature.
    pub open spec fn wire(&self) -> Seq<u8> {
        self.from.bytes@ + self.token@ + self.signature.bytes@
    }

    pub fn serialize(&self) -> (r: Vec<u8>)
        ensures
            r@ == self.wire(),
    {
        let mut out: Vec<u8> = Vec::new();
        self.from.encode_to(&mut out);
        put_array(&mut out, &self.token);
        self.signature.encode_to(&mut out);
        assert(out@ =~= self.wire());
        out
    }

    /// A ping with this token, signed by `keypair`.
    pub fn new(token: [u8; GOSSIP_PING_TOKEN_SIZE], keypair: &[u8; 64]) -> (r: Result<Ping, GossipError>)
        ensures
            r is Ok <==> ed25519_keypair_ok(keypair@),
            match r {
                Ok(p) => p.from.bytes@ == public_half(keypair@) && p.token == token
                    && p.signature.bytes@ == ed25519_signature(keypair@, token@),
                Err(e) => e == GossipError::InvalidKeypair,
            },
    {
        let message = array_to_vec(&token);
        match sign_message(keypair, &message) {
            Some(bytes) => Ok(
                PingGeneric { from: public_key_of(keypair), token, signature: Signature { bytes } },
            ),
            None => Err(GossipError::InvalidKeypair),
        }
    }

    /// Whether the ping's signature of its token checks against its sender.
    pub fn verify(&self) -> (r: bool)
        ensures
            r == ed25519_verifies(self.from.bytes@, self.token@, self.signature.bytes@),
    {
        let message = array_to_vec(&self.token);
        verify_signature(&self.signature.bytes, &self.from.bytes, &message)
    }
}

impl Pong {
    /// The canonical encoding: sender, digest, signature.
    pub open spec fn wire(&self) -> Seq<u8> {
        self.from.bytes@ + self.hash.bytes@ + self.signature.bytes@
    }

    pub fn serialize(&self) -> (r: Vec<u8>)
        ensures
            r@ == self.wire(),
    {
        let mut out: Vec<u8> = Vec::new();
        self.from.encode_to(&mut out);
        self.hash.encode_to(&mut out);
        self.signature.encode_to(&mut out);
        assert(out@ =~= self.wire());
        out
    }

    /// Answers `ping`: the digest of the prefix and the ping's encoded token,
    /// signed by `keypair`, from the keypair's public key.
    pub fn new(ping: &Ping, keypair: &[u8; 64]) -> (r: Result<Pong, GossipError>)
        ensures
            r is Ok <==> ed25519_keypair_ok(keypair@),
            match r {
                Ok(p) => p.from.bytes@ == public_half(keypair@) && p.hash.bytes@ == token_digest(ping.token@)
                    && p.signature.bytes@ == ed25519_signature(keypair@, p.hash.bytes@),
                Err(e) => e == GossipError::InvalidKeypair,
            },
    {
        let token = array_to_vec(&ping.token);
        let prefix = ping_pong_prefix_bytes();
        let hash = hash_two(&prefix, &token);
        let message = array_to_vec(&hash);
        match sign_message(keypair, &message) {
            Some(bytes) => Ok(
                Pong { from: public_key_of(keypair), hash: Digest { bytes: hash }, signature: Signature { bytes } },
            ),
            None => Err(GossipError::InvalidKeypair),
        }
    }

    /// Whether this pong answers `ping`: its digest is that of `ping`'s token,
    /// and its signature of the digest checks against its sender.
    pub fn verify(&self, ping: &Ping) -> (r: bool)
        ensures
            r == (self.hash.bytes@ == token_digest(ping.token@) && ed25519_verifies(
                self.from.bytes@,
                self.hash.bytes@,
                self.signature.bytes@,
            )),
    {
        let token = array_to_vec(&ping.token);
        let prefix = ping_pong_prefix_bytes();
        let expected = hash_two(&prefix, &token);
        let mut i: usize = 0;
        while i < 32
            invariant
                i <= 32,
                expected@.len() == 32,
                expected@ == token_digest(ping.token@),
                self.hash.bytes@.len() == 32,
                forall|j: int| 0 <= j < i ==> expected@[j] == self.hash.bytes@[j],
            decreases 32 - i,
        {
            if expected[i] != self.hash.bytes[i] {
                assert(expected@[i as int] != self.hash.bytes@[i as int]);
                return false;
            }
            i = i + 1;
        }
        assert(expected@ =~= self.hash.bytes@);
        let message = array_to_vec(&self.hash.bytes);
        verify_signature(&self.signature.bytes, &self.from.bytes, &message)
    }
}

/// Pongs to pings with different tokens hash different inputs: the digest
/// binds a pong to one token. That the digests then differ is the hash's
/// collision resistance, which nothing here can prove.
pub proof fn lemma_pong_preimages_distinct(t1: [u8; GOSSIP_PING_TOKEN_SIZE], t2: [u8; GOSSIP_PING_TOKEN_SIZE])
    requires
        t1 != t2,
    ensures
        ping_pong_prefix() + t1@ != ping_pong_prefix() + t2@,
{
    let p = ping_pong_prefix();
    if p + t1@ == p + t2@ {
        assert(t1@ =~= (p + t1@).subrange(16, 48));
        assert(t2@ =~= (p + t2@).subrange(16, 48));
        assert(t1 == t2);
    }
}

} // verus!
