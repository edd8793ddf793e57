//! Address-space partitioning for pull requests.
//!
//! A 64-bit record hash falls into one of `2^mask_bits` shards: the shard is
//! named by the hash's top `mask_bits` bits. A filter's `mask` fixes those top
//! bits to the shard's seed and sets every lower bit.
use vstd::arithmetic::div_mod::{lemma_fundamental_div_mod, lemma_fundamental_div_mod_converse, lemma_small_mod};
use vstd::arithmetic::mul::{lemma_mul_inequality, lemma_mul_strict_inequality};
use vstd::arithmetic::power2::{lemma2_to64, lemma_pow2_adds, lemma_pow2_pos, lemma_pow2_unfold, lemma_pow2_strictly_increases, pow2};
use vstd::prelude::*;

verus! {

/// Number of bits in a record hash.
pub const HASH_BITS: u32 = 64;

/// Number of low bits that a mask with `mask_bits` fixed bits leaves free.
pub open spec fn free_bits(mask_bits: nat) -> nat {
    (64 - mask_bits) as nat
}

/// The mask of the shard with this seed: the seed (taken modulo `2^mask_bits`)
/// in the top `mask_bits` bits, every lower bit set.
pub open spec fn mask_of(seed: nat, mask_bits: nat) -> nat {
    ((seed % pow2(mask_bits)) * pow2(free_bits(mask_bits)) + (pow2(free_bits(mask_bits)) - 1)) as nat
}

/// The shard a 64-bit value falls into: its top `mask_bits` bits.
pub open spec fn shard_of(h: nat, mask_bits: nat) -> nat {
    h / pow2(free_bits(mask_bits))
}

/// Whether `h` lies in the shard that `mask` describes.
pub open spec fn in_shard(h: nat, mask: nat, mask_bits: nat) -> bool {
    shard_of(h, mask_bits) == shard_of(mask, mask_bits)
}

/// `mask_bits` shards of `capacity` items each hold `num_items` items.
pub open spec fn covers(num_items: nat, capacity: nat, mask_bits: nat) -> bool {
    num_items <= capacity * pow2(mask_bits)
}

/// `mask_bits` is the least shard exponent that covers `num_items`.
pub open spec fn is_least_cover(num_items: nat, capacity: nat, mask_bits: nat) -> bool {
    &&& covers(num_items, capacity, mask_bits)
    &&& forall|j: nat| j < mask_bits ==> !covers(num_items, capacity, j)
}

/// `max(0, ceil(log2(num_items / capacity)))`, over the integers: the least
/// exponent `k` with `num_items <= capacity * 2^k`.
pub open spec fn shard_bits(num_items: nat, capacity: nat) -> nat {
    choose|k: nat| is_least_cover(num_items, capacity, k)
}

proof fn lemma_least_cover_unique(n: nat, cap: nat, k1: nat, k2: nat)
    requires
        is_least_cover(n, cap, k1),
        is_least_cover(n, cap, k2),
    ensures
        k1 == k2,
{
    if k1 < k2 {
        assert(!covers(n, cap, k1));
    } else if k2 < k1 {
        assert(!covers(n, cap, k2));
    }
}

/// Any least covering exponent is `shard_bits`.
pub proof fn lemma_shard_bits_of_least(n: u64, cap: u64, k: nat)
    requires
        cap >= 1,
        is_least_cover(n as nat, cap as nat, k),
    ensures
        shard_bits(n as nat, cap as nat) == k,
{
    lemma_shard_bits_is_least(n, cap);
    lemma_least_cover_unique(n as nat, cap as nat, k, shard_bits(n as nat, cap as nat));
}

proof fn lemma_find_least_cover(n: nat, cap: nat, i: nat, bound: nat)
    requires
        i <= bound,
        covers(n, cap, bound),
        forall|j: nat| j < i ==> !covers(n, cap, j),
    ensures
        is_least_cover(n, cap, shard_bits(n, cap)),
    decreases bound - i,
{
    if covers(n, cap, i) {
        assert(is_least_cover(n, cap, i));
    } else {
        lemma_find_least_cover(n, cap, i + 1, bound);
    }
}

/// For a 64-bit item count and a positive capacity, `shard_bits` is the least
/// covering exponent, and it is at most 64.
pub proof fn lemma_shard_bits_is_least(n: u64, cap: u64)
    requires
        cap >= 1,
    ensures
        is_least_cover(n as nat, cap as nat, shard_bits(n as nat, cap as nat)),
        shard_bits(n as nat, cap as nat) <= 64,
{
    lemma2_to64();
    lemma_mul_inequality(1, cap as int, pow2(64) as int);
    assert(covers(n as nat, cap as nat, 64));
    lemma_find_least_cover(n as nat, cap as nat, 0, 64);
    let k = shard_bits(n as nat, cap as nat);
    if k > 64 {
        assert(!covers(n as nat, cap as nat, 64));
    }
}

/// The shard count never falls as the item count grows, and is never negative.
pub proof fn lemma_shard_bits_monotone(n1: u64, n2: u64, cap: u64)
    requires
        cap >= 1,
        n1 <= n2,
    ensures
        shard_bits(n1 as nat, cap as nat) <= shard_bits(n2 as nat, cap as nat),
        shard_bits(n1 as nat, cap as nat) >= 0,
{
    lemma_shard_bits_is_least(n1, cap);
    lemma_shard_bits_is_least(n2, cap);
    let k1 = shard_bits(n1 as nat, cap as nat);
    let k2 = shard_bits(n2 as nat, cap as nat);
    if k2 < k1 {
        assert(covers(n1 as nat, cap as nat, k2));
    }
}

/// For `mask_bits <= 64` the masks of the seeds `0 .. 2^mask_bits` are pairwise
/// distinct 64-bit words, and their shards split the 64-bit space with no gap
/// and no overlap: every 64-bit value lies in the shard of exactly one seed.
pub proof fn lemma_masks_partition(mask_bits: nat)
    requires
        mask_bits <= 64,
    ensures
        forall|s: nat| s < pow2(mask_bits) ==> #[trigger] mask_of(s, mask_bits) < pow2(64)
            && shard_of(mask_of(s, mask_bits), mask_bits) == s,
        forall|h: nat| h < pow2(64) ==> #[trigger] shard_of(h, mask_bits) < pow2(mask_bits),
        forall|h: nat, s: nat|
            h < pow2(64) && s < pow2(mask_bits) ==> (#[trigger] in_shard(h, mask_of(s, mask_bits), mask_bits)
                <==> s == shard_of(h, mask_bits)),
        forall|s1: nat, s2: nat|
            s1 < pow2(mask_bits) && s2 < pow2(mask_bits) && s1 != s2 ==> #[trigger] mask_of(s1, mask_bits)
                != #[trigger] mask_of(s2, mask_bits),
{
    let m = mask_bits;
    let w = free_bits(m);
    lemma_pow2_adds(m, w);
    lemma_pow2_pos(m);
    lemma_pow2_pos(w);
    assert forall|s: nat| s < pow2(m) implies #[trigger] mask_of(s, m) < pow2(64) && shard_of(
        mask_of(s, m),
        m,
    ) == s by {
        lemma_small_mod(s, pow2(m));
        let mask = mask_of(s, m);
        assert(mask == s * pow2(w) + (pow2(w) - 1));
        lemma_fundamental_div_mod_converse(mask as int, pow2(w) as int, s as int, pow2(w) - 1);
        lemma_mul_inequality((s + 1) as int, pow2(m) as int, pow2(w) as int);
        assert((s + 1) * pow2(w) == s * pow2(w) + pow2(w)) by (nonlinear_arith);
    }
    assert forall|h: nat| h < pow2(64) implies #[trigger] shard_of(h, m) < pow2(m) by {
        lemma_fundamental_div_mod(h as int, pow2(w) as int);
        if shard_of(h, m) >= pow2(m) {
            lemma_mul_inequality(pow2(m) as int, shard_of(h, m) as int, pow2(w) as int);
            assert(pow2(w) * shard_of(h, m) == shard_of(h, m) * pow2(w)) by (nonlinear_arith);
        }
    }
}

fn pow2_u128(k: u32) -> (r: u128)
    requires
        k <= 64,
    ensures
        r == pow2(k as nat),
        r <= pow2(64),
{
    proof {
        lemma2_to64();
    }
    let mut r: u128 = 1;
    let mut i: u32 = 0;
    proof {
        assert(pow2(0) == 1) by {
            lemma2_to64();
        }
    }
    while i < k
        invariant
            i <= k <= 64,
            r == pow2(i as nat),
            pow2(64) == 0x1_0000_0000_0000_0000,
        decreases k - i,
    {
        proof {
            lemma_pow2_unfold((i + 1) as nat);
            if i + 1 < 64 {
                lemma_pow2_strictly_increases((i + 1) as nat, 64);
            }
        }
        r = r * 2;
        i = i + 1;
    }
    proof {
        if k < 64 {
            lemma_pow2_strictly_increases(k as nat, 64);
        }
    }
    r
}

/// The mask of the shard `seed` among `2^mask_bits` shards: `seed` shifted
/// into the top `mask_bits` bits (no bits when `mask_bits == 0`), OR a suffix
/// of `64 - mask_bits` set bits.
pub fn compute_mask(seed: u64, mask_bits: u32) -> (r: u64)
    requires
        mask_bits <= 64,
        seed <= pow2(mask_bits as nat),
    ensures
        r == mask_of(seed as nat, mask_bits as nat),
{
    let lo = pow2_u128(mask_bits);
    let hi = pow2_u128(HASH_BITS - mask_bits);
    proof {
        lemma_pow2_pos(mask_bits as nat);
    }
    let s = (seed as u128) % lo;
    proof {
        lemma_pow2_pos(free_bits(mask_bits as nat));
        lemma_pow2_adds(mask_bits as nat, free_bits(mask_bits as nat));
        lemma2_to64();
        lemma_mul_strict_inequality(s as int, lo as int, hi as int);
        lemma_mul_inequality(s as int + 1, lo as int, hi as int);
        assert((s + 1) * hi == s * hi + hi) by (nonlinear_arith);
    }
    let r = s * hi + (hi - 1);
    r as u64
}

/// The least `k` with `num_items <= max_items * 2^k`: the number of top hash
/// bits that a filter's mask fixes so that each shard holds at most
/// `max_items` of `num_items` records.
pub fn mask_bits(num_items: u64, max_items: u64) -> (r: u32)
    requires
        max_items >= 1,
    ensures
        r as nat == shard_bits(num_items as nat, max_items as nat),
        r <= 64,
{
    let mut k: u32 = 0;
    let mut limit: u128 = max_items as u128;
    proof {
        lemma2_to64();
        assert(limit == max_items * pow2(0));
    }
    while limit < num_items as u128
        invariant
            k <= 64,
            limit == max_items * pow2(k as nat),
            max_items >= 1,
            pow2(64) == 0x1_0000_0000_0000_0000,
            forall|j: nat| j < k ==> !covers(num_items as nat, max_items as nat, j),
        decreases 64 - k,
    {
        proof {
            if k == 64 {
                lemma_mul_inequality(1, max_items as int, pow2(64) as int);
            }
            assert(k < 64);
            lemma_pow2_unfold((k + 1) as nat);
            if k + 1 < 64 {
                lemma_pow2_strictly_increases((k + 1) as nat, 64);
            }
            lemma_mul_inequality(max_items as int, 0xffff_ffff_ffff_ffff, pow2((k + 1) as nat) as int);
            lemma_mul_inequality(pow2((k + 1) as nat) as int, pow2(64) as int, 0xffff_ffff_ffff_ffff);
            assert(max_items * pow2((k + 1) as nat) == (max_items * pow2(k as nat)) * 2) by (nonlinear_arith)
                requires pow2((k + 1) as nat) == 2 * pow2(k as nat);
            assert(!covers(num_items as nat, max_items as nat, k as nat));
        }
        limit = limit * 2;
        k = k + 1;
    }
    proof {
        assert(is_least_cover(num_items as nat, max_items as nat, k as nat));
        lemma_shard_bits_is_least(num_items, max_items);
        lemma_least_cover_unique(num_items as nat, max_items as nat, k as nat, shard_bits(num_items as nat, max_items as nat));
    }
    k
}

} // verus!
