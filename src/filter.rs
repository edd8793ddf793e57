//! The pull-request filter: a bloom filter scoped to one shard of the hash space.
use crate::shard::{compute_mask, is_least_cover, lemma_shard_bits_of_least, mask_bits, mask_of, shard_bits};
use solana_bloom::bloom::Bloom;
use vstd::arithmetic::power2::{lemma2_to64, lemma_pow2_pos, pow2};
use crate::wire::{le_u32, le_u64, put_raw, put_u32, put_u64};
use vstd::prelude::*;

verus! {

/// A bloom filter of record hashes, solana_bloom's `Bloom<Hash>`.
#[verifier::external_body]
#[derive(PartialEq, Eq, Debug)]
pub struct HashBloom {
    bloom: Bloom<solana_sdk::hash::Hash>,
}

/// The hash keys of a bloom filter.
pub uninterp spec fn bloom_keys(b: HashBloom) -> Seq<u64>;

/// The bits of a bloom filter.
pub uninterp spec fn bloom_bits(b: HashBloom) -> Seq<bool>;

/// Relies on solana_bloom's `Bloom::new`: it keeps the keys and makes a bit
/// vector of `num_bits` bits, all clear.
#[verifier::external_body]
fn new_bloom(num_bits: usize, keys: Vec<u64>) -> (r: HashBloom)
    ensures
        bloom_keys(r) == keys@,
        bloom_bits(r).len() == num_bits,
        forall|i: int| 0 <= i < num_bits ==> !#[trigger] bloom_bits(r)[i],
{
    HashBloom { bloom: Bloom::new(num_bits, keys) }
}

/// The canonical encoding of a bloom filter.
pub uninterp spec fn bloom_encoding(b: HashBloom) -> Seq<u8>;

/// Relies on `bincode::serialize` of solana_bloom's `Bloom`, whose derived
/// encoding writes the keys, the bit vector and the count of set bits; it
/// cannot fail on these types, which hold no map and no unsized value.
#[verifier::external_body]
fn encode_bloom(b: &HashBloom) -> (r: Vec<u8>)
    ensures
        r@ == bloom_encoding(*b),
{
    bincode::serialize(&b.bloom).unwrap()
}

/// Items that one bloom filter holds at the target false-positive rate.
pub const DEFAULT_MAX_ITEMS: u64 = 1287;

/// Bits that one bloom filter may use.
pub const DEFAULT_MAX_BITS: usize = 7424;

/// The item count that the default filter assumes.
pub const DEFAULT_NUM_ITEMS: u64 = 512;

/// A bloom filter of record hashes, and the shard it covers: the hashes whose
/// top `mask_bits` bits agree with `mask`.
#[derive(PartialEq, Eq, Debug)]
pub struct CrdsFilter {
    pub filter: HashBloom,
    pub mask: u64,
    pub mask_bits: u32,
}

impl CrdsFilter {
    /// The canonical encoding: the bloom filter, the mask, the mask's bit count.
    pub open spec fn wire(&self) -> Seq<u8> {
        bloom_encoding(self.filter) + le_u64(self.mask) + le_u32(self.mask_bits)
    }

    pub fn encode_to(&self, out: &mut Vec<u8>)
        ensures
            final(out)@ == old(out)@ + self.wire(),
    {
        let ghost start = out@;
        let b = encode_bloom(&self.filter);
        put_raw(out, &b);
        put_u64(out, self.mask);
        put_u32(out, self.mask_bits);
        assert(out@ =~= start + self.wire());
    }

    pub fn serialize(&self) -> (r: Vec<u8>)
        ensures
            r@ == self.wire(),
    {
        let mut out: Vec<u8> = Vec::new();
        self.encode_to(&mut out);
        assert(out@ =~= self.wire());
        out
    }

    /// An empty filter of `num_bits` bits with these hash keys, for the first
    /// of the shards that split `num_items` items into shards of at most
    /// `max_items`.
    pub fn new(num_bits: usize, keys: Vec<u64>, num_items: u64, max_items: u64) -> (r: CrdsFilter)
        requires
            max_items >= 1,
        ensures
            bloom_keys(r.filter) == keys@,
            bloom_bits(r.filter).len() == num_bits,
            forall|i: int| 0 <= i < num_bits ==> !#[trigger] bloom_bits(r.filter)[i],
            r.mask_bits as nat == shard_bits(num_items as nat, max_items as nat),
            r.mask as nat == mask_of(0, r.mask_bits as nat),
    {
        let bits = mask_bits(num_items, max_items);
        proof {
            lemma_pow2_pos(bits as nat);
        }
        let mask = compute_mask(0, bits);
        CrdsFilter { filter: new_bloom(num_bits, keys), mask, mask_bits: bits }
    }

    /// An empty filter of `num_bits` bits (at least one, within the bit
    /// budget) with at least one hash key, for the default parameters: `512` items in shards of at most `1287` make one
    /// shard, the whole hash space.
    pub fn new_default(num_bits: usize, keys: Vec<u64>) -> (r: CrdsFilter)
        requires
            1 <= num_bits <= DEFAULT_MAX_BITS,
            keys@.len() >= 1,
        ensures
            bloom_keys(r.filter) == keys@,
            bloom_bits(r.filter).len() == num_bits,
            forall|i: int| 0 <= i < num_bits ==> !#[trigger] bloom_bits(r.filter)[i],
            r.mask_bits == 0,
            r.mask == 0xffff_ffff_ffff_ffffu64,
    {
        proof {
            lemma2_to64();
            assert(is_least_cover(DEFAULT_NUM_ITEMS as nat, DEFAULT_MAX_ITEMS as nat, 0));
            lemma_shard_bits_of_least(DEFAULT_NUM_ITEMS, DEFAULT_MAX_ITEMS, 0);
        }
        CrdsFilter::new(num_bits, keys, DEFAULT_NUM_ITEMS, DEFAULT_MAX_ITEMS)
    }
}

} // verus!
