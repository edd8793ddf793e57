//! Signed records.
use crate::crds::CrdsData;
use crate::crypto::{ed25519_keypair_ok, ed25519_signature, ed25519_verifies, sign_message, verify_signature};
use crate::wire::{Pubkey, Signature};
use vstd::prelude::*;

verus! {

/// Why a record or a pong could not be made.
#[derive(Clone, Copy, PartialEq, Eq, Debug)]
pub enum GossipError {
    /// The 64 bytes are no ed25519 keypair.
    InvalidKeypair,
    /// A reserved record variant carries no content and cannot be signed.
    UnimplementedVariant,
}

/// A record and its origin's signature of the record's canonical encoding.
#[derive(Clone, PartialEq, Eq, Debug)]
pub struct CrdsValue {
    pub signature: Signature,
    pub data: CrdsData,
}

impl CrdsValue {
    /// The canonical encoding: the signature, then the record.
    pub open spec fn wire(&self) -> Seq<u8> {
        self.signature.bytes@ + self.data.wire()
    }

    pub fn encode_to(&self, out: &mut Vec<u8>)
        ensures
            final(out)@ == old(out)@ + self.wire(),
    {
        let ghost start = out@;
        self.signature.encode_to(out);
        self.data.encode_to(out);
        assert(out@ =~= start + self.wire());
    }

    pub fn serialize(&self) -> (r: Vec<u8>)
        ensures
            r@ == self.wire(),
    {
        let mut out: Vec<u8> = Vec::new();
        self.encode_to(&mut out);
        assert(out@ =~= self.wire());
        out
    }

    /// Signs the canonical encoding of `data` with `keypair` (secret key, then
    /// public key). The record must be well formed. Reserved variants are
    /// refused; every other record is
    /// signed whenever the keypair is well formed.
    pub fn new_signed(data: CrdsData, keypair: &[u8; 64]) -> (r: Result<CrdsValue, GossipError>)
        requires
            data.wf(),
        ensures
            data.is_reserved() ==> r == Err::<CrdsValue, GossipError>(GossipError::UnimplementedVariant),
            !data.is_reserved() ==> (r is Ok <==> ed25519_keypair_ok(keypair@)),
            !data.is_reserved() ==> match r {
                Ok(v) => v.data == data && v.signature.bytes@ == ed25519_signature(keypair@, data.wire()),
                Err(e) => e == GossipError::InvalidKeypair,
            },
    {
        match &data {
            CrdsData::DuplicateShred() => {
                return Err(GossipError::UnimplementedVariant);
            },
            CrdsData::ContactInfo() => {
                return Err(GossipError::UnimplementedVariant);
            },
            _ => {},
        }
        let signable = data.serialize();
        match sign_message(keypair, &signable) {
            Some(bytes) => Ok(CrdsValue { signature: Signature { bytes }, data }),
            None => Err(GossipError::InvalidKeypair),
        }
    }

    /// Whether the signature checks against `pubkey` over the canonical
    /// encoding of the record.
    pub fn verify(&self, pubkey: &Pubkey) -> (r: bool)
        ensures
            r == ed25519_verifies(pubkey.bytes@, self.data.wire(), self.signature.bytes@),
    {
        let signed = self.data.serialize();
        verify_signature(&self.signature.bytes, &pubkey.bytes, &signed)
    }
}

} // verus!
