//! Decoding the canonical encoding of records.
use crate::crds::{addrs5_wire, compressed_slots_wire, BitVec, CompressedSlots, EpochSlots, Flate2, Uncompressed, LowestSlot, stash_wire, DeprecatedCompressionType, DeprecatedEpochIncompleteSlots, IncrementalSnapshotHashes, SnapshotHashes, slot_hash_wire, slot_hashes_wire, SlotHash, CrdsData, LegacyContactInfo, LegacyVersion, Transaction, Vote, LegacyVersion1, LegacyVersion2, NodeInstance, Version};
use crate::wire::{len_prefix, concat_map, enc_byte_vec, enc_opt_u32, enc_seq, le_u16, le_u32, le_u64, lemma_concat_map_step, Digest, Pubkey, SocketAddr};
use vstd::prelude::*;

verus! {

pub open spec fn u16_of(b: Seq<u8>) -> u16 {
    (b[0] as u16) | ((b[1] as u16) << 8u16)
}

pub open spec fn u32_of(b: Seq<u8>) -> u32 {
    (b[0] as u32) | ((b[1] as u32) << 8u32) | ((b[2] as u32) << 16u32) | ((b[3] as u32) << 24u32)
}

pub open spec fn u64_of(b: Seq<u8>) -> u64 {
    (b[0] as u64) | ((b[1] as u64) << 8u64) | ((b[2] as u64) << 16u64) | ((b[3] as u64) << 24u64)
        | ((b[4] as u64) << 32u64) | ((b[5] as u64) << 40u64) | ((b[6] as u64) << 48u64) | ((b[7] as u64)
        << 56u64)
}

proof fn lemma_u16_bytes(x: u16, b0: u8, b1: u8)
    ensures
        (b0 == x as u8 && b1 == (x >> 8u16) as u8) <==> x == ((b0 as u16) | ((b1 as u16) << 8u16)),
{
    assert((b0 == x as u8 && b1 == (x >> 8u16) as u8) <==> x == ((b0 as u16) | ((b1 as u16) << 8u16)))
        by (bit_vector);
}

proof fn lemma_u32_bytes(x: u32, b0: u8, b1: u8, b2: u8, b3: u8)
    ensures
        (b0 == x as u8 && b1 == (x >> 8u32) as u8 && b2 == (x >> 16u32) as u8 && b3 == (x >> 24u32) as u8)
            <==> x == ((b0 as u32) | ((b1 as u32) << 8u32) | ((b2 as u32) << 16u32) | ((b3 as u32)
            << 24u32)),
{
    assert((b0 == x as u8 && b1 == (x >> 8u32) as u8 && b2 == (x >> 16u32) as u8 && b3 == (x >> 24u32)
        as u8) <==> x == ((b0 as u32) | ((b1 as u32) << 8u32) | ((b2 as u32) << 16u32) | ((b3 as u32)
        << 24u32))) by (bit_vector);
}

proof fn lemma_u64_bytes(x: u64, b0: u8, b1: u8, b2: u8, b3: u8, b4: u8, b5: u8, b6: u8, b7: u8)
    ensures
        (b0 == x as u8 && b1 == (x >> 8u64) as u8 && b2 == (x >> 16u64) as u8 && b3 == (x >> 24u64) as u8
            && b4 == (x >> 32u64) as u8 && b5 == (x >> 40u64) as u8 && b6 == (x >> 48u64) as u8 && b7 == (x
            >> 56u64) as u8) <==> x == ((b0 as u64) | ((b1 as u64) << 8u64) | ((b2 as u64) << 16u64) | ((
        b3 as u64) << 24u64) | ((b4 as u64) << 32u64) | ((b5 as u64) << 40u64) | ((b6 as u64) << 48u64)
            | ((b7 as u64) << 56u64)),
{
    assert((b0 == x as u8 && b1 == (x >> 8u64) as u8 && b2 == (x >> 16u64) as u8 && b3 == (x >> 24u64)
        as u8 && b4 == (x >> 32u64) as u8 && b5 == (x >> 40u64) as u8 && b6 == (x >> 48u64) as u8 && b7
        == (x >> 56u64) as u8) <==> x == ((b0 as u64) | ((b1 as u64) << 8u64) | ((b2 as u64) << 16u64)
        | ((b3 as u64) << 24u64) | ((b4 as u64) << 32u64) | ((b5 as u64) << 40u64) | ((b6 as u64)
        << 48u64) | ((b7 as u64) << 56u64))) by (bit_vector);
}

/// Eight bytes are the encoding of exactly one `u64`, the one they spell.
pub proof fn lemma_le_u64_exact(b: Seq<u8>, x: u64)
    requires
        b.len() == 8,
    ensures
        (b == le_u64(x)) <==> (x == u64_of(b)),
{
    lemma_u64_bytes(x, b[0], b[1], b[2], b[3], b[4], b[5], b[6], b[7]);
    if x == u64_of(b) {
        assert(b =~= le_u64(x));
    }
}

pub proof fn lemma_le_u32_exact(b: Seq<u8>, x: u32)
    requires
        b.len() == 4,
    ensures
        (b == le_u32(x)) <==> (x == u32_of(b)),
{
    lemma_u32_bytes(x, b[0], b[1], b[2], b[3]);
    if x == u32_of(b) {
        assert(b =~= le_u32(x));
    }
}

pub proof fn lemma_le_u16_exact(b: Seq<u8>, x: u16)
    requires
        b.len() == 2,
    ensures
        (b == le_u16(x)) <==> (x == u16_of(b)),
{
    lemma_u16_bytes(x, b[0], b[1]);
    if x == u16_of(b) {
        assert(b =~= le_u16(x));
    }
}

proof fn lemma_join(s: Seq<u8>, pos: int, mid: int, q: int, a: Seq<u8>, b: Seq<u8>)
    requires
        0 <= pos <= mid <= q <= s.len(),
        s.subrange(pos, mid) == a,
        s.subrange(mid, q) == b,
    ensures
        s.subrange(pos, q) == a + b,
{
    assert(s.subrange(pos, q) =~= a + b);
}

proof fn lemma_prefix(s: Seq<u8>, pos: int, q: int, c: Seq<u8>, k: int)
    requires
        0 <= pos <= q <= s.len(),
        s.subrange(pos, q) == c,
        0 <= k <= c.len(),
    ensures
        s.subrange(pos, pos + k) == c.subrange(0, k),
{
    assert forall|j: int| 0 <= j < k implies #[trigger] s.subrange(pos, pos + k)[j] == c.subrange(0, k)[j] by {
        assert(s.subrange(pos, q)[j] == c[j]);
    }
    assert(s.subrange(pos, pos + k) =~= c.subrange(0, k));
}

proof fn lemma_split(s: Seq<u8>, pos: int, q: int, a: Seq<u8>, b: Seq<u8>)
    requires
        0 <= pos <= q <= s.len(),
        s.subrange(pos, q) == a + b,
    ensures
        pos <= pos + a.len() <= q,
        s.subrange(pos, pos + a.len()) == a,
        s.subrange(pos + a.len(), q) == b,
{
    let w = s.subrange(pos, q);
    assert(w.len() == a.len() + b.len());
    assert forall|i: int| 0 <= i < a.len() implies #[trigger] s.subrange(pos, pos + a.len())[i] == a[i] by {
        assert(w[i] == (a + b)[i]);
    }
    assert forall|i: int| 0 <= i < b.len() implies #[trigger] s.subrange(pos + a.len(), q)[i] == b[i] by {
        assert(w[a.len() + i] == (a + b)[a.len() + i]);
    }
    assert(s.subrange(pos, pos + a.len()) =~= a);
    assert(s.subrange(pos + a.len(), q) =~= b);
}

fn read_u16(s: &Vec<u8>, pos: usize) -> (r: Option<(u16, usize)>)
    ensures
        r matches Some((v, p)) ==> pos + 2 <= s@.len() && p == pos + 2 && s@.subrange(pos as int, p as int)
            == le_u16(v),
        forall|v: u16, q: int|
            #![trigger s@.subrange(pos as int, q), le_u16(v)]
            pos <= q <= s@.len() && s@.subrange(pos as int, q) == le_u16(v) ==> r == Some(
                (v, q as usize),
            ),
{
    if pos > s.len() || s.len() - pos < 2 {
        proof {
            assert forall|w: u16, q: int|
                #![trigger s@.subrange(pos as int, q), le_u16(w)]
                pos <= q <= s@.len() && s@.subrange(pos as int, q) == le_u16(w) implies false by {
                assert(le_u16(w).len() == 2);
            }
        }
        return None;
    }
    let v: u16 = (s[pos] as u16) | ((s[pos + 1] as u16) << 8u16);
    let ghost b = s@.subrange(pos as int, pos + 2);
    assert(v == u16_of(b));
    proof {
        lemma_le_u16_exact(b, v);
        assert forall|w: u16, q: int|
            #![trigger s@.subrange(pos as int, q), le_u16(w)]
            pos <= q <= s@.len() && s@.subrange(pos as int, q) == le_u16(w) implies w == v && q
                == pos + 2 by {
            assert(le_u16(w).len() == 2);
            assert(q == pos + 2);
            lemma_le_u16_exact(b, w);
        }
    }
    Some((v, pos + 2))
}

fn read_u32(s: &Vec<u8>, pos: usize) -> (r: Option<(u32, usize)>)
    ensures
        r matches Some((v, p)) ==> pos + 4 <= s@.len() && p == pos + 4 && s@.subrange(pos as int, p as int)
            == le_u32(v),
        forall|v: u32, q: int|
            #![trigger s@.subrange(pos as int, q), le_u32(v)]
            pos <= q <= s@.len() && s@.subrange(pos as int, q) == le_u32(v) ==> r == Some(
                (v, q as usize),
            ),
{
    if pos > s.len() || s.len() - pos < 4 {
        proof {
            assert forall|w: u32, q: int|
                #![trigger s@.subrange(pos as int, q), le_u32(w)]
                pos <= q <= s@.len() && s@.subrange(pos as int, q) == le_u32(w) implies false by {
                assert(le_u32(w).len() == 4);
            }
        }
        return None;
    }
    let v: u32 = (s[pos] as u32) | ((s[pos + 1] as u32) << 8u32) | ((s[pos + 2] as u32) << 16u32) | ((s[pos
        + 3] as u32) << 24u32);
    let ghost b = s@.subrange(pos as int, pos + 4);
    assert(v == u32_of(b));
    proof {
        lemma_le_u32_exact(b, v);
        assert forall|w: u32, q: int|
            #![trigger s@.subrange(pos as int, q), le_u32(w)]
            pos <= q <= s@.len() && s@.subrange(pos as int, q) == le_u32(w) implies w == v && q
                == pos + 4 by {
            assert(le_u32(w).len() == 4);
            assert(q == pos + 4);
            lemma_le_u32_exact(b, w);
        }
    }
    Some((v, pos + 4))
}

fn read_u64(s: &Vec<u8>, pos: usize) -> (r: Option<(u64, usize)>)
    ensures
        r matches Some((v, p)) ==> pos + 8 <= s@.len() && p == pos + 8 && s@.subrange(pos as int, p as int)
            == le_u64(v),
        forall|v: u64, q: int|
            #![trigger s@.subrange(pos as int, q), le_u64(v)]
            pos <= q <= s@.len() && s@.subrange(pos as int, q) == le_u64(v) ==> r == Some(
                (v, q as usize),
            ),
{
    if pos > s.len() || s.len() - pos < 8 {
        proof {
            assert forall|w: u64, q: int|
                #![trigger s@.subrange(pos as int, q), le_u64(w)]
                pos <= q <= s@.len() && s@.subrange(pos as int, q) == le_u64(w) implies false by {
                assert(le_u64(w).len() == 8);
            }
        }
        return None;
    }
    let v: u64 = (s[pos] as u64) | ((s[pos + 1] as u64) << 8u64) | ((s[pos + 2] as u64) << 16u64) | ((s[pos
        + 3] as u64) << 24u64) | ((s[pos + 4] as u64) << 32u64) | ((s[pos + 5] as u64) << 40u64) | ((s[pos
        + 6] as u64) << 48u64) | ((s[pos + 7] as u64) << 56u64);
    let ghost b = s@.subrange(pos as int, pos + 8);
    assert(v == u64_of(b));
    proof {
        lemma_le_u64_exact(b, v);
        assert forall|w: u64, q: int|
            #![trigger s@.subrange(pos as int, q), le_u64(w)]
            pos <= q <= s@.len() && s@.subrange(pos as int, q) == le_u64(w) implies w == v && q
                == pos + 8 by {
            assert(le_u64(w).len() == 8);
            assert(q == pos + 8);
            lemma_le_u64_exact(b, w);
        }
    }
    Some((v, pos + 8))
}

fn read_array<const N: usize>(s: &Vec<u8>, pos: usize) -> (r: Option<([u8; N], usize)>)
    ensures
        r matches Some((v, p)) ==> pos + N <= s@.len() && p == pos + N && s@.subrange(pos as int, p as int)
            == v@,
        forall|v: [u8; N], q: int|
            #![trigger s@.subrange(pos as int, q), v@]
            pos <= q <= s@.len() && s@.subrange(pos as int, q) == v@ ==> r == Some((v, q as usize)),
{
    if pos > s.len() || s.len() - pos < N {
        proof {
            assert forall|w: [u8; N], q: int|
                #![trigger s@.subrange(pos as int, q), w@]
                pos <= q <= s@.len() && s@.subrange(pos as int, q) == w@ implies false by {
                assert(w@.len() == N);
            }
        }
        return None;
    }
    let mut a = [0u8; N];
    let mut i: usize = 0;
    while i < N
        invariant
            i <= N,
            pos + N <= s@.len() == s.len() <= usize::MAX,
            a@.len() == N,
            forall|j: int| 0 <= j < i ==> a@[j] == s@[pos + j],
        decreases N - i,
    {
        a[i] = s[pos + i];
        i = i + 1;
    }
    assert(s@.subrange(pos as int, pos + N) =~= a@);
    proof {
        assert forall|w: [u8; N], q: int|
            #![trigger s@.subrange(pos as int, q), w@]
            pos <= q <= s@.len() && s@.subrange(pos as int, q) == w@ implies w == a && q == pos
                + N by {
            assert(w@.len() == N);
            assert(w@ =~= a@);
        }
    }
    Some((a, pos + N))
}

fn read_pubkey(s: &Vec<u8>, pos: usize) -> (r: Option<(Pubkey, usize)>)
    ensures
        r matches Some((v, p)) ==> pos <= p <= s@.len() && s@.subrange(pos as int, p as int) == v.bytes@,
        forall|v: Pubkey, q: int|
            #![trigger s@.subrange(pos as int, q), v.bytes@]
            pos <= q <= s@.len() && s@.subrange(pos as int, q) == v.bytes@ ==> r == Some(
                (v, q as usize),
            ),
{
    match read_array::<32>(s, pos) {
        Some((bytes, p)) => Some((Pubkey { bytes }, p)),
        None => None,
    }
}

fn read_opt_u32(s: &Vec<u8>, pos: usize) -> (r: Option<(Option<u32>, usize)>)
    ensures
        r matches Some((v, p)) ==> pos <= p <= s@.len() && s@.subrange(pos as int, p as int) == enc_opt_u32(v),
        forall|v: Option<u32>, q: int|
            #![trigger s@.subrange(pos as int, q), enc_opt_u32(v)]
            pos <= q <= s@.len() && s@.subrange(pos as int, q) == enc_opt_u32(v) ==> r == Some((v, q as usize)),
{
    proof {
        assert forall|v: Option<u32>, q: int|
            #![trigger s@.subrange(pos as int, q), enc_opt_u32(v)]
            pos <= q <= s@.len() && s@.subrange(pos as int, q) == enc_opt_u32(v) implies {
                &&& pos < s@.len()
                &&& s@[pos as int] == (if v is Some { 1u8 } else { 0u8 })
                &&& v matches Some(x) ==> q == pos + 5 && s@.subrange(pos + 1, q) == le_u32(x)
                &&& v is None ==> q == pos + 1
            } by {
            assert(s@.subrange(pos as int, q).len() == q - pos);
            match v {
                Some(x) => {
                    assert(enc_opt_u32(v) == seq![1u8] + le_u32(x));
                    assert(enc_opt_u32(v).len() == 5);
                    assert(s@[pos as int] == s@.subrange(pos as int, q)[0]);
                    lemma_split(s@, pos as int, q, seq![1u8], le_u32(x));
                },
                None => {
                    assert(enc_opt_u32(v).len() == 1);
                    assert(s@[pos as int] == s@.subrange(pos as int, q)[0]);
                },
            }
        }
    }
    if pos >= s.len() {
        return None;
    }
    let tag = s[pos];
    if tag == 0 {
        let res = Some((None, pos + 1));
        assert(s@.subrange(pos as int, pos + 1) =~= seq![0u8]);
        return res;
    }
    if tag != 1 {
        return None;
    }
    let r1 = read_u32(s, pos + 1);
    match r1 {
        None => None,
        Some((x, p)) => {
            proof {
                assert(s@.subrange(pos as int, pos + 1) =~= seq![1u8]);
                lemma_join(s@, pos as int, pos + 1, p as int, seq![1u8], le_u32(x));
            }
            Some((Some(x), p))
        },
    }
}

fn read_node_instance(s: &Vec<u8>, pos: usize) -> (r: Option<(NodeInstance, usize)>)
    ensures
        r matches Some((v, p)) ==> pos <= p <= s@.len() && s@.subrange(pos as int, p as int) == v.wire(),
        forall|v: NodeInstance, q: int|
            #![trigger s@.subrange(pos as int, q), v.wire()]
            pos <= q <= s@.len() && s@.subrange(pos as int, q) == v.wire() ==> r == Some((v, q as usize)),
{
    proof {
        assert forall|v: NodeInstance, q: int|
            #![trigger s@.subrange(pos as int, q), v.wire()]
            pos <= q <= s@.len() && s@.subrange(pos as int, q) == v.wire() implies {
                &&& q == pos + (v.from.bytes@ + le_u64(v.wallclock) + le_u64(v.timestamp) + le_u64(v.token)).len()
                &&& s@.subrange(pos as int, pos + (v.from.bytes@).len()) == v.from.bytes@
                &&& s@.subrange(pos + (v.from.bytes@).len(), pos + (v.from.bytes@ + le_u64(v.wallclock)).len()) == le_u64(v.wallclock)
                &&& s@.subrange(pos + (v.from.bytes@ + le_u64(v.wallclock)).len(), pos + (v.from.bytes@ + le_u64(v.wallclock) + le_u64(v.timestamp)).len()) == le_u64(v.timestamp)
                &&& s@.subrange(pos + (v.from.bytes@ + le_u64(v.wallclock) + le_u64(v.timestamp)).len(), q) == le_u64(v.token)
            } by {
            assert(v.wire() == v.from.bytes@ + le_u64(v.wallclock) + le_u64(v.timestamp) + le_u64(v.token));
            lemma_split(s@, pos as int, q, v.from.bytes@ + le_u64(v.wallclock) + le_u64(v.timestamp), le_u64(v.token));
            lemma_split(s@, pos as int, pos + (v.from.bytes@ + le_u64(v.wallclock) + le_u64(v.timestamp)).len(), v.from.bytes@ + le_u64(v.wallclock), le_u64(v.timestamp));
            lemma_split(s@, pos as int, pos + (v.from.bytes@ + le_u64(v.wallclock)).len(), v.from.bytes@, le_u64(v.wallclock));
        }
    }
    let r0 = read_pubkey(s, pos);
    if r0.is_none() {
        proof {
            assert forall|v: NodeInstance, q: int|
                #![trigger s@.subrange(pos as int, q), v.wire()]
                pos <= q <= s@.len() && s@.subrange(pos as int, q) == v.wire() implies false by {
                    assert(s@.subrange(pos as int, pos + (v.from.bytes@).len()) == v.from.bytes@);
                    assert(r0 == Some((v.from, (pos + (v.from.bytes@).len()) as usize)));
            }
        }
        return None;
    }
    let (from, end0) = r0.unwrap();
    let r1 = read_u64(s, end0);
    if r1.is_none() {
        proof {
            assert forall|v: NodeInstance, q: int|
                #![trigger s@.subrange(pos as int, q), v.wire()]
                pos <= q <= s@.len() && s@.subrange(pos as int, q) == v.wire() implies false by {
                    assert(s@.subrange(pos as int, pos + (v.from.bytes@).len()) == v.from.bytes@);
                    assert(r0 == Some((v.from, (pos + (v.from.bytes@).len()) as usize)));
                    assert(s@.subrange(pos + (v.from.bytes@).len(), pos + (v.from.bytes@ + le_u64(v.wallclock)).len()) == le_u64(v.wallclock));
                    assert(r1 == Some((v.wallclock, (pos + (v.from.bytes@ + le_u64(v.wallclock)).len()) as usize)));
            }
        }
        return None;
    }
    let (wallclock, end1) = r1.unwrap();
    let r2 = read_u64(s, end1);
    if r2.is_none() {
        proof {
            assert forall|v: NodeInstance, q: int|
                #![trigger s@.subrange(pos as int, q), v.wire()]
                pos <= q <= s@.len() && s@.subrange(pos as int, q) == v.wire() implies false by {
                    assert(s@.subrange(pos as int, pos + (v.from.bytes@).len()) == v.from.bytes@);
                    assert(r0 == Some((v.from, (pos + (v.from.bytes@).len()) as usize)));
                    assert(s@.subrange(pos + (v.from.bytes@).len(), pos + (v.from.bytes@ + le_u64(v.wallclock)).len()) == le_u64(v.wallclock));
                    assert(r1 == Some((v.wallclock, (pos + (v.from.bytes@ + le_u64(v.wallclock)).len()) as usize)));
                    assert(s@.subrange(pos + (v.from.bytes@ + le_u64(v.wallclock)).len(), pos + (v.from.bytes@ + le_u64(v.wallclock) + le_u64(v.timestamp)).len()) == le_u64(v.timestamp));
                    assert(r2 == Some((v.timestamp, (pos + (v.from.bytes@ + le_u64(v.wallclock) + le_u64(v.timestamp)).len()) as usize)));
            }
        }
        return None;
    }
    let (timestamp, end2) = r2.unwrap();
    let r3 = read_u64(s, end2);
    if r3.is_none() {
        proof {
            assert forall|v: NodeInstance, q: int|
                #![trigger s@.subrange(pos as int, q), v.wire()]
                pos <= q <= s@.len() && s@.subrange(pos as int, q) == v.wire() implies false by {
                    assert(s@.subrange(pos as int, pos + (v.from.bytes@).len()) == v.from.bytes@);
                    assert(r0 == Some((v.from, (pos + (v.from.bytes@).len()) as usize)));
                    assert(s@.subrange(pos + (v.from.bytes@).len(), pos + (v.from.bytes@ + le_u64(v.wallclock)).len()) == le_u64(v.wallclock));
                    assert(r1 == Some((v.wallclock, (pos + (v.from.bytes@ + le_u64(v.wallclock)).len()) as usize)));
                    assert(s@.subrange(pos + (v.from.bytes@ + le_u64(v.wallclock)).len(), pos + (v.from.bytes@ + le_u64(v.wallclock) + le_u64(v.timestamp)).len()) == le_u64(v.timestamp));
                    assert(r2 == Some((v.timestamp, (pos + (v.from.bytes@ + le_u64(v.wallclock) + le_u64(v.timestamp)).len()) as usize)));
                    assert(s@.subrange(pos + (v.from.bytes@ + le_u64(v.wallclock) + le_u64(v.timestamp)).len(), q) == le_u64(v.token));
                    assert(r3 == Some((v.token, (q) as usize)));
            }
        }
        return None;
    }
    let (token, end3) = r3.unwrap();
    let res = Some((NodeInstance { from, wallclock, timestamp, token }, end3));
    proof {
        lemma_join(s@, pos as int, end0 as int, end1 as int, from.bytes@, le_u64(wallclock));
        lemma_join(s@, pos as int, end1 as int, end2 as int, from.bytes@ + le_u64(wallclock), le_u64(timestamp));
        lemma_join(s@, pos as int, end2 as int, end3 as int, from.bytes@ + le_u64(wallclock) + le_u64(timestamp), le_u64(token));
        assert forall|v: NodeInstance, q: int|
            #![trigger s@.subrange(pos as int, q), v.wire()]
            pos <= q <= s@.len() && s@.subrange(pos as int, q) == v.wire() implies res == Some((v, q as usize)) by {
                assert(s@.subrange(pos as int, pos + (v.from.bytes@).len()) == v.from.bytes@);
                assert(r0 == Some((v.from, (pos + (v.from.bytes@).len()) as usize)));
                assert(s@.subrange(pos + (v.from.bytes@).len(), pos + (v.from.bytes@ + le_u64(v.wallclock)).len()) == le_u64(v.wallclock));
                assert(r1 == Some((v.wallclock, (pos + (v.from.bytes@ + le_u64(v.wallclock)).len()) as usize)));
                assert(s@.subrange(pos + (v.from.bytes@ + le_u64(v.wallclock)).len(), pos + (v.from.bytes@ + le_u64(v.wallclock) + le_u64(v.timestamp)).len()) == le_u64(v.timestamp));
                assert(r2 == Some((v.timestamp, (pos + (v.from.bytes@ + le_u64(v.wallclock) + le_u64(v.timestamp)).len()) as usize)));
                assert(s@.subrange(pos + (v.from.bytes@ + le_u64(v.wallclock) + le_u64(v.timestamp)).len(), q) == le_u64(v.token));
                assert(r3 == Some((v.token, (q) as usize)));
        }
    }
    res
}


fn read_legacy_version1(s: &Vec<u8>, pos: usize) -> (r: Option<(LegacyVersion1, usize)>)
    ensures
        r matches Some((v, p)) ==> pos <= p <= s@.len() && s@.subrange(pos as int, p as int) == v.wire(),
        forall|v: LegacyVersion1, q: int|
            #![trigger s@.subrange(pos as int, q), v.wire()]
            pos <= q <= s@.len() && s@.subrange(pos as int, q) == v.wire() ==> r == Some((v, q as usize)),
{
    proof {
        assert forall|v: LegacyVersion1, q: int|
            #![trigger s@.subrange(pos as int, q), v.wire()]
            pos <= q <= s@.len() && s@.subrange(pos as int, q) == v.wire() implies {
                &&& q == pos + (le_u16(v.major) + le_u16(v.minor) + le_u16(v.patch) + enc_opt_u32(v.commit)).len()
                &&& s@.subrange(pos as int, pos + (le_u16(v.major)).len()) == le_u16(v.major)
                &&& s@.subrange(pos + (le_u16(v.major)).len(), pos + (le_u16(v.major) + le_u16(v.minor)).len()) == le_u16(v.minor)
                &&& s@.subrange(pos + (le_u16(v.major) + le_u16(v.minor)).len(), pos + (le_u16(v.major) + le_u16(v.minor) + le_u16(v.patch)).len()) == le_u16(v.patch)
                &&& s@.subrange(pos + (le_u16(v.major) + le_u16(v.minor) + le_u16(v.patch)).len(), q) == enc_opt_u32(v.commit)
            } by {
            assert(v.wire() == le_u16(v.major) + le_u16(v.minor) + le_u16(v.patch) + enc_opt_u32(v.commit));
            lemma_split(s@, pos as int, q, le_u16(v.major) + le_u16(v.minor) + le_u16(v.patch), enc_opt_u32(v.commit));
            lemma_split(s@, pos as int, pos + (le_u16(v.major) + le_u16(v.minor) + le_u16(v.patch)).len(), le_u16(v.major) + le_u16(v.minor), le_u16(v.patch));
            lemma_split(s@, pos as int, pos + (le_u16(v.major) + le_u16(v.minor)).len(), le_u16(v.major), le_u16(v.minor));
        }
    }
    let r0 = read_u16(s, pos);
    if r0.is_none() {
        proof {
            assert forall|v: LegacyVersion1, q: int|
                #![trigger s@.subrange(pos as int, q), v.wire()]
                pos <= q <= s@.len() && s@.subrange(pos as int, q) == v.wire() implies false by {
                    assert(s@.subrange(pos as int, pos + (le_u16(v.major)).len()) == le_u16(v.major));
                    assert(r0 == Some((v.major, (pos + (le_u16(v.major)).len()) as usize)));
            }
        }
        return None;
    }
    let (major, end0) = r0.unwrap();
    let r1 = read_u16(s, end0);
    if r1.is_none() {
        proof {
            assert forall|v: LegacyVersion1, q: int|
                #![trigger s@.subrange(pos as int, q), v.wire()]
                pos <= q <= s@.len() && s@.subrange(pos as int, q) == v.wire() implies false by {
                    assert(s@.subrange(pos as int, pos + (le_u16(v.major)).len()) == le_u16(v.major));
                    assert(r0 == Some((v.major, (pos + (le_u16(v.major)).len()) as usize)));
                    assert(s@.subrange(pos + (le_u16(v.major)).len(), pos + (le_u16(v.major) + le_u16(v.minor)).len()) == le_u16(v.minor));
                    assert(r1 == Some((v.minor, (pos + (le_u16(v.major) + le_u16(v.minor)).len()) as usize)));
            }
        }
        return None;
    }
    let (minor, end1) = r1.unwrap();
    let r2 = read_u16(s, end1);
    if r2.is_none() {
        proof {
            assert forall|v: LegacyVersion1, q: int|
                #![trigger s@.subrange(pos as int, q), v.wire()]
                pos <= q <= s@.len() && s@.subrange(pos as int, q) == v.wire() implies false by {
                    assert(s@.subrange(pos as int, pos + (le_u16(v.major)).len()) == le_u16(v.major));
                    assert(r0 == Some((v.major, (pos + (le_u16(v.major)).len()) as usize)));
                    assert(s@.subrange(pos + (le_u16(v.major)).len(), pos + (le_u16(v.major) + le_u16(v.minor)).len()) == le_u16(v.minor));
                    assert(r1 == Some((v.minor, (pos + (le_u16(v.major) + le_u16(v.minor)).len()) as usize)));
                    assert(s@.subrange(pos + (le_u16(v.major) + le_u16(v.minor)).len(), pos + (le_u16(v.major) + le_u16(v.minor) + le_u16(v.patch)).len()) == le_u16(v.patch));
                    assert(r2 == Some((v.patch, (pos + (le_u16(v.major) + le_u16(v.minor) + le_u16(v.patch)).len()) as usize)));
            }
        }
        return None;
    }
    let (patch, end2) = r2.unwrap();
    let r3 = read_opt_u32(s, end2);
    if r3.is_none() {
        proof {
            assert forall|v: LegacyVersion1, q: int|
                #![trigger s@.subrange(pos as int, q), v.wire()]
                pos <= q <= s@.len() && s@.subrange(pos as int, q) == v.wire() implies false by {
                    assert(s@.subrange(pos as int, pos + (le_u16(v.major)).len()) == le_u16(v.major));
                    assert(r0 == Some((v.major, (pos + (le_u16(v.major)).len()) as usize)));
                    assert(s@.subrange(pos + (le_u16(v.major)).len(), pos + (le_u16(v.major) + le_u16(v.minor)).len()) == le_u16(v.minor));
                    assert(r1 == Some((v.minor, (pos + (le_u16(v.major) + le_u16(v.minor)).len()) as usize)));
                    assert(s@.subrange(pos + (le_u16(v.major) + le_u16(v.minor)).len(), pos + (le_u16(v.major) + le_u16(v.minor) + le_u16(v.patch)).len()) == le_u16(v.patch));
                    assert(r2 == Some((v.patch, (pos + (le_u16(v.major) + le_u16(v.minor) + le_u16(v.patch)).len()) as usize)));
                    assert(s@.subrange(pos + (le_u16(v.major) + le_u16(v.minor) + le_u16(v.patch)).len(), q) == enc_opt_u32(v.commit));
                    assert(r3 == Some((v.commit, (q) as usize)));
            }
        }
        return None;
    }
    let (commit, end3) = r3.unwrap();
    let res = Some((LegacyVersion1 { major, minor, patch, commit }, end3));
    proof {
        lemma_join(s@, pos as int, end0 as int, end1 as int, le_u16(major), le_u16(minor));
        lemma_join(s@, pos as int, end1 as int, end2 as int, le_u16(major) + le_u16(minor), le_u16(patch));
        lemma_join(s@, pos as int, end2 as int, end3 as int, le_u16(major) + le_u16(minor) + le_u16(patch), enc_opt_u32(commit));
        assert forall|v: LegacyVersion1, q: int|
            #![trigger s@.subrange(pos as int, q), v.wire()]
            pos <= q <= s@.len() && s@.subrange(pos as int, q) == v.wire() implies res == Some((v, q as usize)) by {
                assert(s@.subrange(pos as int, pos + (le_u16(v.major)).len()) == le_u16(v.major));
                assert(r0 == Some((v.major, (pos + (le_u16(v.major)).len()) as usize)));
                assert(s@.subrange(pos + (le_u16(v.major)).len(), pos + (le_u16(v.major) + le_u16(v.minor)).len()) == le_u16(v.minor));
                assert(r1 == Some((v.minor, (pos + (le_u16(v.major) + le_u16(v.minor)).len()) as usize)));
                assert(s@.subrange(pos + (le_u16(v.major) + le_u16(v.minor)).len(), pos + (le_u16(v.major) + le_u16(v.minor) + le_u16(v.patch)).len()) == le_u16(v.patch));
                assert(r2 == Some((v.patch, (pos + (le_u16(v.major) + le_u16(v.minor) + le_u16(v.patch)).len()) as usize)));
                assert(s@.subrange(pos + (le_u16(v.major) + le_u16(v.minor) + le_u16(v.patch)).len(), q) == enc_opt_u32(v.commit));
                assert(r3 == Some((v.commit, (q) as usize)));
        }
    }
    res
}

fn read_legacy_version2(s: &Vec<u8>, pos: usize) -> (r: Option<(LegacyVersion2, usize)>)
    ensures
        r matches Some((v, p)) ==> pos <= p <= s@.len() && s@.subrange(pos as int, p as int) == v.wire(),
        forall|v: LegacyVersion2, q: int|
            #![trigger s@.subrange(pos as int, q), v.wire()]
            pos <= q <= s@.len() && s@.subrange(pos as int, q) == v.wire() ==> r == Some((v, q as usize)),
{
    proof {
        assert forall|v: LegacyVersion2, q: int|
            #![trigger s@.subrange(pos as int, q), v.wire()]
            pos <= q <= s@.len() && s@.subrange(pos as int, q) == v.wire() implies {
                &&& q == pos + (le_u16(v.major) + le_u16(v.minor) + le_u16(v.patch) + enc_opt_u32(v.commit) + le_u32(v.feature_set)).len()
                &&& s@.subrange(pos as int, pos + (le_u16(v.major)).len()) == le_u16(v.major)
                &&& s@.subrange(pos + (le_u16(v.major)).len(), pos + (le_u16(v.major) + le_u16(v.minor)).len()) == le_u16(v.minor)
                &&& s@.subrange(pos + (le_u16(v.major) + le_u16(v.minor)).len(), pos + (le_u16(v.major) + le_u16(v.minor) + le_u16(v.patch)).len()) == le_u16(v.patch)
                &&& s@.subrange(pos + (le_u16(v.major) + le_u16(v.minor) + le_u16(v.patch)).len(), pos + (le_u16(v.major) + le_u16(v.minor) + le_u16(v.patch) + enc_opt_u32(v.commit)).len()) == enc_opt_u32(v.commit)
                &&& s@.subrange(pos + (le_u16(v.major) + le_u16(v.minor) + le_u16(v.patch) + enc_opt_u32(v.commit)).len(), q) == le_u32(v.feature_set)
            } by {
            assert(v.wire() == le_u16(v.major) + le_u16(v.minor) + le_u16(v.patch) + enc_opt_u32(v.commit) + le_u32(v.feature_set));
            lemma_split(s@, pos as int, q, le_u16(v.major) + le_u16(v.minor) + le_u16(v.patch) + enc_opt_u32(v.commit), le_u32(v.feature_set));
            lemma_split(s@, pos as int, pos + (le_u16(v.major) + le_u16(v.minor) + le_u16(v.patch) + enc_opt_u32(v.commit)).len(), le_u16(v.major) + le_u16(v.minor) + le_u16(v.patch), enc_opt_u32(v.commit));
            lemma_split(s@, pos as int, pos + (le_u16(v.major) + le_u16(v.minor) + le_u16(v.patch)).len(), le_u16(v.major) + le_u16(v.minor), le_u16(v.patch));
            lemma_split(s@, pos as int, pos + (le_u16(v.major) + le_u16(v.minor)).len(), le_u16(v.major), le_u16(v.minor));
        }
    }
    let r0 = read_u16(s, pos);
    if r0.is_none() {
        proof {
            assert forall|v: LegacyVersion2, q: int|
                #![trigger s@.subrange(pos as int, q), v.wire()]
                pos <= q <= s@.len() && s@.subrange(pos as int, q) == v.wire() implies false by {
                    assert(s@.subrange(pos as int, pos + (le_u16(v.major)).len()) == le_u16(v.major));
                    assert(r0 == Some((v.major, (pos + (le_u16(v.major)).len()) as usize)));
            }
        }
        return None;
    }
    let (major, end0) = r0.unwrap();
    let r1 = read_u16(s, end0);
    if r1.is_none() {
        proof {
            assert forall|v: LegacyVersion2, q: int|
                #![trigger s@.subrange(pos as int, q), v.wire()]
                pos <= q <= s@.len() && s@.subrange(pos as int, q) == v.wire() implies false by {
                    assert(s@.subrange(pos as int, pos + (le_u16(v.major)).len()) == le_u16(v.major));
                    assert(r0 == Some((v.major, (pos + (le_u16(v.major)).len()) as usize)));
                    assert(s@.subrange(pos + (le_u16(v.major)).len(), pos + (le_u16(v.major) + le_u16(v.minor)).len()) == le_u16(v.minor));
                    assert(r1 == Some((v.minor, (pos + (le_u16(v.major) + le_u16(v.minor)).len()) as usize)));
            }
        }
        return None;
    }
    let (minor, end1) = r1.unwrap();
    let r2 = read_u16(s, end1);
    if r2.is_none() {
        proof {
            assert forall|v: LegacyVersion2, q: int|
                #![trigger s@.subrange(pos as int, q), v.wire()]
                pos <= q <= s@.len() && s@.subrange(pos as int, q) == v.wire() implies false by {
                    assert(s@.subrange(pos as int, pos + (le_u16(v.major)).len()) == le_u16(v.major));
                    assert(r0 == Some((v.major, (pos + (le_u16(v.major)).len()) as usize)));
                    assert(s@.subrange(pos + (le_u16(v.major)).len(), pos + (le_u16(v.major) + le_u16(v.minor)).len()) == le_u16(v.minor));
                    assert(r1 == Some((v.minor, (pos + (le_u16(v.major) + le_u16(v.minor)).len()) as usize)));
                    assert(s@.subrange(pos + (le_u16(v.major) + le_u16(v.minor)).len(), pos + (le_u16(v.major) + le_u16(v.minor) + le_u16(v.patch)).len()) == le_u16(v.patch));
                    assert(r2 == Some((v.patch, (pos + (le_u16(v.major) + le_u16(v.minor) + le_u16(v.patch)).len()) as usize)));
            }
        }
        return None;
    }
    let (patch, end2) = r2.unwrap();
    let r3 = read_opt_u32(s, end2);
    if r3.is_none() {
        proof {
            assert forall|v: LegacyVersion2, q: int|
                #![trigger s@.subrange(pos as int, q), v.wire()]
                pos <= q <= s@.len() && s@.subrange(pos as int, q) == v.wire() implies false by {
                    assert(s@.subrange(pos as int, pos + (le_u16(v.major)).len()) == le_u16(v.major));
                    assert(r0 == Some((v.major, (pos + (le_u16(v.major)).len()) as usize)));
                    assert(s@.subrange(pos + (le_u16(v.major)).len(), pos + (le_u16(v.major) + le_u16(v.minor)).len()) == le_u16(v.minor));
                    assert(r1 == Some((v.minor, (pos + (le_u16(v.major) + le_u16(v.minor)).len()) as usize)));
                    assert(s@.subrange(pos + (le_u16(v.major) + le_u16(v.minor)).len(), pos + (le_u16(v.major) + le_u16(v.minor) + le_u16(v.patch)).len()) == le_u16(v.patch));
                    assert(r2 == Some((v.patch, (pos + (le_u16(v.major) + le_u16(v.minor) + le_u16(v.patch)).len()) as usize)));
                    assert(s@.subrange(pos + (le_u16(v.major) + le_u16(v.minor) + le_u16(v.patch)).len(), pos + (le_u16(v.major) + le_u16(v.minor) + le_u16(v.patch) + enc_opt_u32(v.commit)).len()) == enc_opt_u32(v.commit));
                    assert(r3 == Some((v.commit, (pos + (le_u16(v.major) + le_u16(v.minor) + le_u16(v.patch) + enc_opt_u32(v.commit)).len()) as usize)));
            }
        }
        return None;
    }
    let (commit, end3) = r3.unwrap();
    let r4 = read_u32(s, end3);
    if r4.is_none() {
        proof {
            assert forall|v: LegacyVersion2, q: int|
                #![trigger s@.subrange(pos as int, q), v.wire()]
                pos <= q <= s@.len() && s@.subrange(pos as int, q) == v.wire() implies false by {
                    assert(s@.subrange(pos as int, pos + (le_u16(v.major)).len()) == le_u16(v.major));
                    assert(r0 == Some((v.major, (pos + (le_u16(v.major)).len()) as usize)));
                    assert(s@.subrange(pos + (le_u16(v.major)).len(), pos + (le_u16(v.major) + le_u16(v.minor)).len()) == le_u16(v.minor));
                    assert(r1 == Some((v.minor, (pos + (le_u16(v.major) + le_u16(v.minor)).len()) as usize)));
                    assert(s@.subrange(pos + (le_u16(v.major) + le_u16(v.minor)).len(), pos + (le_u16(v.major) + le_u16(v.minor) + le_u16(v.patch)).len()) == le_u16(v.patch));
                    assert(r2 == Some((v.patch, (pos + (le_u16(v.major) + le_u16(v.minor) + le_u16(v.patch)).len()) as usize)));
                    assert(s@.subrange(pos + (le_u16(v.major) + le_u16(v.minor) + le_u16(v.patch)).len(), pos + (le_u16(v.major) + le_u16(v.minor) + le_u16(v.patch) + enc_opt_u32(v.commit)).len()) == enc_opt_u32(v.commit));
                    assert(r3 == Some((v.commit, (pos + (le_u16(v.major) + le_u16(v.minor) + le_u16(v.patch) + enc_opt_u32(v.commit)).len()) as usize)));
                    assert(s@.subrange(pos + (le_u16(v.major) + le_u16(v.minor) + le_u16(v.patch) + enc_opt_u32(v.commit)).len(), q) == le_u32(v.feature_set));
                    assert(r4 == Some((v.feature_set, (q) as usize)));
            }
        }
        return None;
    }
    let (feature_set, end4) = r4.unwrap();
    let res = Some((LegacyVersion2 { major, minor, patch, commit, feature_set }, end4));
    proof {
        lemma_join(s@, pos as int, end0 as int, end1 as int, le_u16(major), le_u16(minor));
        lemma_join(s@, pos as int, end1 as int, end2 as int, le_u16(major) + le_u16(minor), le_u16(patch));
        lemma_join(s@, pos as int, end2 as int, end3 as int, le_u16(major) + le_u16(minor) + le_u16(patch), enc_opt_u32(commit));
        lemma_join(s@, pos as int, end3 as int, end4 as int, le_u16(major) + le_u16(minor) + le_u16(patch) + enc_opt_u32(commit), le_u32(feature_set));
        assert forall|v: LegacyVersion2, q: int|
            #![trigger s@.subrange(pos as int, q), v.wire()]
            pos <= q <= s@.len() && s@.subrange(pos as int, q) == v.wire() implies res == Some((v, q as usize)) by {
                assert(s@.subrange(pos as int, pos + (le_u16(v.major)).len()) == le_u16(v.major));
                assert(r0 == Some((v.major, (pos + (le_u16(v.major)).len()) as usize)));
                assert(s@.subrange(pos + (le_u16(v.major)).len(), pos + (le_u16(v.major) + le_u16(v.minor)).len()) == le_u16(v.minor));
                assert(r1 == Some((v.minor, (pos + (le_u16(v.major) + le_u16(v.minor)).len()) as usize)));
                assert(s@.subrange(pos + (le_u16(v.major) + le_u16(v.minor)).len(), pos + (le_u16(v.major) + le_u16(v.minor) + le_u16(v.patch)).len()) == le_u16(v.patch));
                assert(r2 == Some((v.patch, (pos + (le_u16(v.major) + le_u16(v.minor) + le_u16(v.patch)).len()) as usize)));
                assert(s@.subrange(pos + (le_u16(v.major) + le_u16(v.minor) + le_u16(v.patch)).len(), pos + (le_u16(v.major) + le_u16(v.minor) + le_u16(v.patch) + enc_opt_u32(v.commit)).len()) == enc_opt_u32(v.commit));
                assert(r3 == Some((v.commit, (pos + (le_u16(v.major) + le_u16(v.minor) + le_u16(v.patch) + enc_opt_u32(v.commit)).len()) as usize)));
                assert(s@.subrange(pos + (le_u16(v.major) + le_u16(v.minor) + le_u16(v.patch) + enc_opt_u32(v.commit)).len(), q) == le_u32(v.feature_set));
                assert(r4 == Some((v.feature_set, (q) as usize)));
        }
    }
    res
}

fn read_legacy_version(s: &Vec<u8>, pos: usize) -> (r: Option<(LegacyVersion, usize)>)
    ensures
        r matches Some((v, p)) ==> pos <= p <= s@.len() && s@.subrange(pos as int, p as int) == v.wire(),
        forall|v: LegacyVersion, q: int|
            #![trigger s@.subrange(pos as int, q), v.wire()]
            pos <= q <= s@.len() && s@.subrange(pos as int, q) == v.wire() ==> r == Some((v, q as usize)),
{
    proof {
        assert forall|v: LegacyVersion, q: int|
            #![trigger s@.subrange(pos as int, q), v.wire()]
            pos <= q <= s@.len() && s@.subrange(pos as int, q) == v.wire() implies {
                &&& q == pos + (v.from.bytes@ + le_u64(v.wallclock) + v.version.wire()).len()
                &&& s@.subrange(pos as int, pos + (v.from.bytes@).len()) == v.from.bytes@
                &&& s@.subrange(pos + (v.from.bytes@).len(), pos + (v.from.bytes@ + le_u64(v.wallclock)).len()) == le_u64(v.wallclock)
                &&& s@.subrange(pos + (v.from.bytes@ + le_u64(v.wallclock)).len(), q) == v.version.wire()
            } by {
            assert(v.wire() == v.from.bytes@ + le_u64(v.wallclock) + v.version.wire());
            lemma_split(s@, pos as int, q, v.from.bytes@ + le_u64(v.wallclock), v.version.wire());
            lemma_split(s@, pos as int, pos + (v.from.bytes@ + le_u64(v.wallclock)).len(), v.from.bytes@, le_u64(v.wallclock));
        }
    }
    let r0 = read_pubkey(s, pos);
    if r0.is_none() {
        proof {
            assert forall|v: LegacyVersion, q: int|
                #![trigger s@.subrange(pos as int, q), v.wire()]
                pos <= q <= s@.len() && s@.subrange(pos as int, q) == v.wire() implies false by {
                    assert(s@.subrange(pos as int, pos + (v.from.bytes@).len()) == v.from.bytes@);
                    assert(r0 == Some((v.from, (pos + (v.from.bytes@).len()) as usize)));
            }
        }
        return None;
    }
    let (from, end0) = r0.unwrap();
    let r1 = read_u64(s, end0);
    if r1.is_none() {
        proof {
            assert forall|v: LegacyVersion, q: int|
                #![trigger s@.subrange(pos as int, q), v.wire()]
                pos <= q <= s@.len() && s@.subrange(pos as int, q) == v.wire() implies false by {
                    assert(s@.subrange(pos as int, pos + (v.from.bytes@).len()) == v.from.bytes@);
                    assert(r0 == Some((v.from, (pos + (v.from.bytes@).len()) as usize)));
                    assert(s@.subrange(pos + (v.from.bytes@).len(), pos + (v.from.bytes@ + le_u64(v.wallclock)).len()) == le_u64(v.wallclock));
                    assert(r1 == Some((v.wallclock, (pos + (v.from.bytes@ + le_u64(v.wallclock)).len()) as usize)));
            }
        }
        return None;
    }
    let (wallclock, end1) = r1.unwrap();
    let r2 = read_legacy_version1(s, end1);
    if r2.is_none() {
        proof {
            assert forall|v: LegacyVersion, q: int|
                #![trigger s@.subrange(pos as int, q), v.wire()]
                pos <= q <= s@.len() && s@.subrange(pos as int, q) == v.wire() implies false by {
                    assert(s@.subrange(pos as int, pos + (v.from.bytes@).len()) == v.from.bytes@);
                    assert(r0 == Some((v.from, (pos + (v.from.bytes@).len()) as usize)));
                    assert(s@.subrange(pos + (v.from.bytes@).len(), pos + (v.from.bytes@ + le_u64(v.wallclock)).len()) == le_u64(v.wallclock));
                    assert(r1 == Some((v.wallclock, (pos + (v.from.bytes@ + le_u64(v.wallclock)).len()) as usize)));
                    assert(s@.subrange(pos + (v.from.bytes@ + le_u64(v.wallclock)).len(), q) == v.version.wire());
                    assert(r2 == Some((v.version, (q) as usize)));
            }
        }
        return None;
    }
    let (version, end2) = r2.unwrap();
    let res = Some((LegacyVersion { from, wallclock, version }, end2));
    proof {
        lemma_join(s@, pos as int, end0 as int, end1 as int, from.bytes@, le_u64(wallclock));
        lemma_join(s@, pos as int, end1 as int, end2 as int, from.bytes@ + le_u64(wallclock), version.wire());
        assert forall|v: LegacyVersion, q: int|
            #![trigger s@.subrange(pos as int, q), v.wire()]
            pos <= q <= s@.len() && s@.subrange(pos as int, q) == v.wire() implies res == Some((v, q as usize)) by {
                assert(s@.subrange(pos as int, pos + (v.from.bytes@).len()) == v.from.bytes@);
                assert(r0 == Some((v.from, (pos + (v.from.bytes@).len()) as usize)));
                assert(s@.subrange(pos + (v.from.bytes@).len(), pos + (v.from.bytes@ + le_u64(v.wallclock)).len()) == le_u64(v.wallclock));
                assert(r1 == Some((v.wallclock, (pos + (v.from.bytes@ + le_u64(v.wallclock)).len()) as usize)));
                assert(s@.subrange(pos + (v.from.bytes@ + le_u64(v.wallclock)).len(), q) == v.version.wire());
                assert(r2 == Some((v.version, (q) as usize)));
        }
    }
    res
}

fn read_version(s: &Vec<u8>, pos: usize) -> (r: Option<(Version, usize)>)
    ensures
        r matches Some((v, p)) ==> pos <= p <= s@.len() && s@.subrange(pos as int, p as int) == v.wire(),
        forall|v: Version, q: int|
            #![trigger s@.subrange(pos as int, q), v.wire()]
            pos <= q <= s@.len() && s@.subrange(pos as int, q) == v.wire() ==> r == Some((v, q as usize)),
{
    proof {
        assert forall|v: Version, q: int|
            #![trigger s@.subrange(pos as int, q), v.wire()]
            pos <= q <= s@.len() && s@.subrange(pos as int, q) == v.wire() implies {
                &&& q == pos + (v.from.bytes@ + le_u64(v.wallclock) + v.version.wire()).len()
                &&& s@.subrange(pos as int, pos + (v.from.bytes@).len()) == v.from.bytes@
                &&& s@.subrange(pos + (v.from.bytes@).len(), pos + (v.from.bytes@ + le_u64(v.wallclock)).len()) == le_u64(v.wallclock)
                &&& s@.subrange(pos + (v.from.bytes@ + le_u64(v.wallclock)).len(), q) == v.version.wire()
            } by {
            assert(v.wire() == v.from.bytes@ + le_u64(v.wallclock) + v.version.wire());
            lemma_split(s@, pos as int, q, v.from.bytes@ + le_u64(v.wallclock), v.version.wire());
            lemma_split(s@, pos as int, pos + (v.from.bytes@ + le_u64(v.wallclock)).len(), v.from.bytes@, le_u64(v.wallclock));
        }
    }
    let r0 = read_pubkey(s, pos);
    if r0.is_none() {
        proof {
            assert forall|v: Version, q: int|
                #![trigger s@.subrange(pos as int, q), v.wire()]
                pos <= q <= s@.len() && s@.subrange(pos as int, q) == v.wire() implies false by {
                    assert(s@.subrange(pos as int, pos + (v.from.bytes@).len()) == v.from.bytes@);
                    assert(r0 == Some((v.from, (pos + (v.from.bytes@).len()) as usize)));
            }
        }
        return None;
    }
    let (from, end0) = r0.unwrap();
    let r1 = read_u64(s, end0);
    if r1.is_none() {
        proof {
            assert forall|v: Version, q: int|
                #![trigger s@.subrange(pos as int, q), v.wire()]
                pos <= q <= s@.len() && s@.subrange(pos as int, q) == v.wire() implies false by {
                    assert(s@.subrange(pos as int, pos + (v.from.bytes@).len()) == v.from.bytes@);
                    assert(r0 == Some((v.from, (pos + (v.from.bytes@).len()) as usize)));
                    assert(s@.subrange(pos + (v.from.bytes@).len(), pos + (v.from.bytes@ + le_u64(v.wallclock)).len()) == le_u64(v.wallclock));
                    assert(r1 == Some((v.wallclock, (pos + (v.from.bytes@ + le_u64(v.wallclock)).len()) as usize)));
            }
        }
        return None;
    }
    let (wallclock, end1) = r1.unwrap();
    let r2 = read_legacy_version2(s, end1);
    if r2.is_none() {
        proof {
            assert forall|v: Version, q: int|
                #![trigger s@.subrange(pos as int, q), v.wire()]
                pos <= q <= s@.len() && s@.subrange(pos as int, q) == v.wire() implies false by {
                    assert(s@.subrange(pos as int, pos + (v.from.bytes@).len()) == v.from.bytes@);
                    assert(r0 == Some((v.from, (pos + (v.from.bytes@).len()) as usize)));
                    assert(s@.subrange(pos + (v.from.bytes@).len(), pos + (v.from.bytes@ + le_u64(v.wallclock)).len()) == le_u64(v.wallclock));
                    assert(r1 == Some((v.wallclock, (pos + (v.from.bytes@ + le_u64(v.wallclock)).len()) as usize)));
                    assert(s@.subrange(pos + (v.from.bytes@ + le_u64(v.wallclock)).len(), q) == v.version.wire());
                    assert(r2 == Some((v.version, (q) as usize)));
            }
        }
        return None;
    }
    let (version, end2) = r2.unwrap();
    let res = Some((Version { from, wallclock, version }, end2));
    proof {
        lemma_join(s@, pos as int, end0 as int, end1 as int, from.bytes@, le_u64(wallclock));
        lemma_join(s@, pos as int, end1 as int, end2 as int, from.bytes@ + le_u64(wallclock), version.wire());
        assert forall|v: Version, q: int|
            #![trigger s@.subrange(pos as int, q), v.wire()]
            pos <= q <= s@.len() && s@.subrange(pos as int, q) == v.wire() implies res == Some((v, q as usize)) by {
                assert(s@.subrange(pos as int, pos + (v.from.bytes@).len()) == v.from.bytes@);
                assert(r0 == Some((v.from, (pos + (v.from.bytes@).len()) as usize)));
                assert(s@.subrange(pos + (v.from.bytes@).len(), pos + (v.from.bytes@ + le_u64(v.wallclock)).len()) == le_u64(v.wallclock));
                assert(r1 == Some((v.wallclock, (pos + (v.from.bytes@ + le_u64(v.wallclock)).len()) as usize)));
                assert(s@.subrange(pos + (v.from.bytes@ + le_u64(v.wallclock)).len(), q) == v.version.wire());
                assert(r2 == Some((v.version, (q) as usize)));
        }
    }
    res
}

fn read_socket_addr(s: &Vec<u8>, pos: usize) -> (r: Option<(SocketAddr, usize)>)
    ensures
        r matches Some((v, p)) ==> pos <= p <= s@.len() && s@.subrange(pos as int, p as int) == v.wire(),
        forall|v: SocketAddr, q: int|
            #![trigger s@.subrange(pos as int, q), v.wire()]
            pos <= q <= s@.len() && s@.subrange(pos as int, q) == v.wire() ==> r == Some((v, q as usize)),
{
    proof {
        assert forall|v: SocketAddr, q: int|
            #![trigger s@.subrange(pos as int, q), v.wire()]
            pos <= q <= s@.len() && s@.subrange(pos as int, q) == v.wire() implies match v {
                SocketAddr::V4 { ip4, port } => {
                    &&& q == pos + 10
                    &&& s@.subrange(pos as int, pos + 4) == le_u32(0)
                    &&& s@.subrange(pos + 4, pos + 8) == ip4@
                    &&& s@.subrange(pos + 8, q) == le_u16(port)
                },
                SocketAddr::V6 { ip6, port } => {
                    &&& q == pos + 22
                    &&& s@.subrange(pos as int, pos + 4) == le_u32(1)
                    &&& s@.subrange(pos + 4, pos + 20) == ip6@
                    &&& s@.subrange(pos + 20, q) == le_u16(port)
                },
            } by {
            match v {
                SocketAddr::V4 { ip4, port } => {
                    lemma_split(s@, pos as int, q, le_u32(0) + ip4@, le_u16(port));
                    lemma_split(s@, pos as int, q - 2, le_u32(0), ip4@);
                },
                SocketAddr::V6 { ip6, port } => {
                    lemma_split(s@, pos as int, q, le_u32(1) + ip6@, le_u16(port));
                    lemma_split(s@, pos as int, q - 2, le_u32(1), ip6@);
                },
            }
        }
    }
    let r0 = read_u32(s, pos);
    let (tag, end0) = match r0 {
        None => {
            proof {
                assert forall|v: SocketAddr, q: int|
                    #![trigger s@.subrange(pos as int, q), v.wire()]
                    pos <= q <= s@.len() && s@.subrange(pos as int, q) == v.wire() implies false by {
                    match v {
                        SocketAddr::V4 { .. } => assert(r0 == Some((0u32, (pos + 4) as usize))),
                        SocketAddr::V6 { .. } => assert(r0 == Some((1u32, (pos + 4) as usize))),
                    }
                }
            }
            return None;
        },
        Some(x) => x,
    };
    if tag == 0 {
        let r1 = read_array::<4>(s, end0);
        let r2 = match r1 {
            Some((_, end1)) => read_u16(s, end1),
            None => None,
        };
        match (r1, r2) {
            (Some((ip4, end1)), Some((port, end2))) => {
                let res = Some((SocketAddr::V4 { ip4, port }, end2));
                proof {
                    lemma_join(s@, pos as int, end0 as int, end1 as int, le_u32(0), ip4@);
                    lemma_join(s@, pos as int, end1 as int, end2 as int, le_u32(0) + ip4@, le_u16(port));
                    assert forall|v: SocketAddr, q: int|
                        #![trigger s@.subrange(pos as int, q), v.wire()]
                        pos <= q <= s@.len() && s@.subrange(pos as int, q) == v.wire() implies res == Some(
                            (v, q as usize),
                        ) by {
                        match v {
                            SocketAddr::V4 { ip4: a, port: b } => {
                                assert(r1 == Some((a, (pos + 8) as usize)));
                                assert(r2 == Some((b, q as usize)));
                            },
                            SocketAddr::V6 { .. } => assert(r0 == Some((1u32, (pos + 4) as usize))),
                        }
                    }
                }
                res
            },
            _ => {
                proof {
                    assert forall|v: SocketAddr, q: int|
                        #![trigger s@.subrange(pos as int, q), v.wire()]
                        pos <= q <= s@.len() && s@.subrange(pos as int, q) == v.wire() implies false by {
                        match v {
                            SocketAddr::V4 { ip4: a, port: b } => {
                                assert(r1 == Some((a, (pos + 8) as usize)));
                                assert(r2 == Some((b, q as usize)));
                            },
                            SocketAddr::V6 { .. } => assert(r0 == Some((1u32, (pos + 4) as usize))),
                        }
                    }
                }
                None
            },
        }
    } else if tag == 1 {
        let r1 = read_array::<16>(s, end0);
        let r2 = match r1 {
            Some((_, end1)) => read_u16(s, end1),
            None => None,
        };
        match (r1, r2) {
            (Some((ip6, end1)), Some((port, end2))) => {
                let res = Some((SocketAddr::V6 { ip6, port }, end2));
                proof {
                    lemma_join(s@, pos as int, end0 as int, end1 as int, le_u32(1), ip6@);
                    lemma_join(s@, pos as int, end1 as int, end2 as int, le_u32(1) + ip6@, le_u16(port));
                    assert forall|v: SocketAddr, q: int|
                        #![trigger s@.subrange(pos as int, q), v.wire()]
                        pos <= q <= s@.len() && s@.subrange(pos as int, q) == v.wire() implies res == Some(
                            (v, q as usize),
                        ) by {
                        match v {
                            SocketAddr::V6 { ip6: a, port: b } => {
                                assert(r1 == Some((a, (pos + 20) as usize)));
                                assert(r2 == Some((b, q as usize)));
                            },
                            SocketAddr::V4 { .. } => assert(r0 == Some((0u32, (pos + 4) as usize))),
                        }
                    }
                }
                res
            },
            _ => {
                proof {
                    assert forall|v: SocketAddr, q: int|
                        #![trigger s@.subrange(pos as int, q), v.wire()]
                        pos <= q <= s@.len() && s@.subrange(pos as int, q) == v.wire() implies false by {
                        match v {
                            SocketAddr::V6 { ip6: a, port: b } => {
                                assert(r1 == Some((a, (pos + 20) as usize)));
                                assert(r2 == Some((b, q as usize)));
                            },
                            SocketAddr::V4 { .. } => assert(r0 == Some((0u32, (pos + 4) as usize))),
                        }
                    }
                }
                None
            },
        }
    } else {
        proof {
            assert forall|v: SocketAddr, q: int|
                #![trigger s@.subrange(pos as int, q), v.wire()]
                pos <= q <= s@.len() && s@.subrange(pos as int, q) == v.wire() implies false by {
                match v {
                    SocketAddr::V4 { .. } => assert(r0 == Some((0u32, (pos + 4) as usize))),
                    SocketAddr::V6 { .. } => assert(r0 == Some((1u32, (pos + 4) as usize))),
                }
            }
        }
        None
    }
}

fn read_addrs5(s: &Vec<u8>, pos: usize) -> (r: Option<((SocketAddr, SocketAddr, SocketAddr, SocketAddr, SocketAddr), usize)>)
    ensures
        r matches Some((v, p)) ==> pos <= p <= s@.len() && s@.subrange(pos as int, p as int) == addrs5_wire(v),
        forall|v: (SocketAddr, SocketAddr, SocketAddr, SocketAddr, SocketAddr), q: int|
            #![trigger s@.subrange(pos as int, q), addrs5_wire(v)]
            pos <= q <= s@.len() && s@.subrange(pos as int, q) == addrs5_wire(v) ==> r == Some((v, q as usize)),
{
    proof {
        assert forall|v: (SocketAddr, SocketAddr, SocketAddr, SocketAddr, SocketAddr), q: int|
            #![trigger s@.subrange(pos as int, q), addrs5_wire(v)]
            pos <= q <= s@.len() && s@.subrange(pos as int, q) == addrs5_wire(v) implies {
                &&& q == pos + (v.0.wire() + v.1.wire() + v.2.wire() + v.3.wire() + v.4.wire()).len()
                &&& s@.subrange(pos as int, pos + (v.0.wire()).len()) == v.0.wire()
                &&& s@.subrange(pos + (v.0.wire()).len(), pos + (v.0.wire() + v.1.wire()).len()) == v.1.wire()
                &&& s@.subrange(pos + (v.0.wire() + v.1.wire()).len(), pos + (v.0.wire() + v.1.wire() + v.2.wire()).len()) == v.2.wire()
                &&& s@.subrange(pos + (v.0.wire() + v.1.wire() + v.2.wire()).len(), pos + (v.0.wire() + v.1.wire() + v.2.wire() + v.3.wire()).len()) == v.3.wire()
                &&& s@.subrange(pos + (v.0.wire() + v.1.wire() + v.2.wire() + v.3.wire()).len(), q) == v.4.wire()
            } by {
            assert(addrs5_wire(v) == v.0.wire() + v.1.wire() + v.2.wire() + v.3.wire() + v.4.wire());
            lemma_split(s@, pos as int, q, v.0.wire() + v.1.wire() + v.2.wire() + v.3.wire(), v.4.wire());
            lemma_split(s@, pos as int, pos + (v.0.wire() + v.1.wire() + v.2.wire() + v.3.wire()).len(), v.0.wire() + v.1.wire() + v.2.wire(), v.3.wire());
            lemma_split(s@, pos as int, pos + (v.0.wire() + v.1.wire() + v.2.wire()).len(), v.0.wire() + v.1.wire(), v.2.wire());
            lemma_split(s@, pos as int, pos + (v.0.wire() + v.1.wire()).len(), v.0.wire(), v.1.wire());
        }
    }
    let r0 = read_socket_addr(s, pos);
    if r0.is_none() {
        proof {
            assert forall|v: (SocketAddr, SocketAddr, SocketAddr, SocketAddr, SocketAddr), q: int|
                #![trigger s@.subrange(pos as int, q), addrs5_wire(v)]
                pos <= q <= s@.len() && s@.subrange(pos as int, q) == addrs5_wire(v) implies false by {
                    assert(s@.subrange(pos as int, pos + (v.0.wire()).len()) == v.0.wire());
                    assert(r0 == Some((v.0, (pos + (v.0.wire()).len()) as usize)));
            }
        }
        return None;
    }
    let (a0, end0) = r0.unwrap();
    let r1 = read_socket_addr(s, end0);
    if r1.is_none() {
        proof {
            assert forall|v: (SocketAddr, SocketAddr, SocketAddr, SocketAddr, SocketAddr), q: int|
                #![trigger s@.subrange(pos as int, q), addrs5_wire(v)]
                pos <= q <= s@.len() && s@.subrange(pos as int, q) == addrs5_wire(v) implies false by {
                    assert(s@.subrange(pos as int, pos + (v.0.wire()).len()) == v.0.wire());
                    assert(r0 == Some((v.0, (pos + (v.0.wire()).len()) as usize)));
                    assert(s@.subrange(pos + (v.0.wire()).len(), pos + (v.0.wire() + v.1.wire()).len()) == v.1.wire());
                    assert(r1 == Some((v.1, (pos + (v.0.wire() + v.1.wire()).len()) as usize)));
            }
        }
        return None;
    }
    let (a1, end1) = r1.unwrap();
    let r2 = read_socket_addr(s, end1);
    if r2.is_none() {
        proof {
            assert forall|v: (SocketAddr, SocketAddr, SocketAddr, SocketAddr, SocketAddr), q: int|
                #![trigger s@.subrange(pos as int, q), addrs5_wire(v)]
                pos <= q <= s@.len() && s@.subrange(pos as int, q) == addrs5_wire(v) implies false by {
                    assert(s@.subrange(pos as int, pos + (v.0.wire()).len()) == v.0.wire());
                    assert(r0 == Some((v.0, (pos + (v.0.wire()).len()) as usize)));
                    assert(s@.subrange(pos + (v.0.wire()).len(), pos + (v.0.wire() + v.1.wire()).len()) == v.1.wire());
                    assert(r1 == Some((v.1, (pos + (v.0.wire() + v.1.wire()).len()) as usize)));
                    assert(s@.subrange(pos + (v.0.wire() + v.1.wire()).len(), pos + (v.0.wire() + v.1.wire() + v.2.wire()).len()) == v.2.wire());
                    assert(r2 == Some((v.2, (pos + (v.0.wire() + v.1.wire() + v.2.wire()).len()) as usize)));
            }
        }
        return None;
    }
    let (a2, end2) = r2.unwrap();
    let r3 = read_socket_addr(s, end2);
    if r3.is_none() {
        proof {
            assert forall|v: (SocketAddr, SocketAddr, SocketAddr, SocketAddr, SocketAddr), q: int|
                #![trigger s@.subrange(pos as int, q), addrs5_wire(v)]
                pos <= q <= s@.len() && s@.subrange(pos as int, q) == addrs5_wire(v) implies false by {
                    assert(s@.subrange(pos as int, pos + (v.0.wire()).len()) == v.0.wire());
                    assert(r0 == Some((v.0, (pos + (v.0.wire()).len()) as usize)));
                    assert(s@.subrange(pos + (v.0.wire()).len(), pos + (v.0.wire() + v.1.wire()).len()) == v.1.wire());
                    assert(r1 == Some((v.1, (pos + (v.0.wire() + v.1.wire()).len()) as usize)));
                    assert(s@.subrange(pos + (v.0.wire() + v.1.wire()).len(), pos + (v.0.wire() + v.1.wire() + v.2.wire()).len()) == v.2.wire());
                    assert(r2 == Some((v.2, (pos + (v.0.wire() + v.1.wire() + v.2.wire()).len()) as usize)));
                    assert(s@.subrange(pos + (v.0.wire() + v.1.wire() + v.2.wire()).len(), pos + (v.0.wire() + v.1.wire() + v.2.wire() + v.3.wire()).len()) == v.3.wire());
                    assert(r3 == Some((v.3, (pos + (v.0.wire() + v.1.wire() + v.2.wire() + v.3.wire()).len()) as usize)));
            }
        }
        return None;
    }
    let (a3, end3) = r3.unwrap();
    let r4 = read_socket_addr(s, end3);
    if r4.is_none() {
        proof {
            assert forall|v: (SocketAddr, SocketAddr, SocketAddr, SocketAddr, SocketAddr), q: int|
                #![trigger s@.subrange(pos as int, q), addrs5_wire(v)]
                pos <= q <= s@.len() && s@.subrange(pos as int, q) == addrs5_wire(v) implies false by {
                    assert(s@.subrange(pos as int, pos + (v.0.wire()).len()) == v.0.wire());
                    assert(r0 == Some((v.0, (pos + (v.0.wire()).len()) as usize)));
                    assert(s@.subrange(pos + (v.0.wire()).len(), pos + (v.0.wire() + v.1.wire()).len()) == v.1.wire());
                    assert(r1 == Some((v.1, (pos + (v.0.wire() + v.1.wire()).len()) as usize)));
                    assert(s@.subrange(pos + (v.0.wire() + v.1.wire()).len(), pos + (v.0.wire() + v.1.wire() + v.2.wire()).len()) == v.2.wire());
                    assert(r2 == Some((v.2, (pos + (v.0.wire() + v.1.wire() + v.2.wire()).len()) as usize)));
                    assert(s@.subrange(pos + (v.0.wire() + v.1.wire() + v.2.wire()).len(), pos + (v.0.wire() + v.1.wire() + v.2.wire() + v.3.wire()).len()) == v.3.wire());
                    assert(r3 == Some((v.3, (pos + (v.0.wire() + v.1.wire() + v.2.wire() + v.3.wire()).len()) as usize)));
                    assert(s@.subrange(pos + (v.0.wire() + v.1.wire() + v.2.wire() + v.3.wire()).len(), q) == v.4.wire());
                    assert(r4 == Some((v.4, (q) as usize)));
            }
        }
        return None;
    }
    let (a4, end4) = r4.unwrap();
    let res = Some(((a0, a1, a2, a3, a4), end4));
    proof {
        lemma_join(s@, pos as int, end0 as int, end1 as int, a0.wire(), a1.wire());
        lemma_join(s@, pos as int, end1 as int, end2 as int, a0.wire() + a1.wire(), a2.wire());
        lemma_join(s@, pos as int, end2 as int, end3 as int, a0.wire() + a1.wire() + a2.wire(), a3.wire());
        lemma_join(s@, pos as int, end3 as int, end4 as int, a0.wire() + a1.wire() + a2.wire() + a3.wire(), a4.wire());
        assert forall|v: (SocketAddr, SocketAddr, SocketAddr, SocketAddr, SocketAddr), q: int|
            #![trigger s@.subrange(pos as int, q), addrs5_wire(v)]
            pos <= q <= s@.len() && s@.subrange(pos as int, q) == addrs5_wire(v) implies res == Some((v, q as usize)) by {
                assert(s@.subrange(pos as int, pos + (v.0.wire()).len()) == v.0.wire());
                assert(r0 == Some((v.0, (pos + (v.0.wire()).len()) as usize)));
                assert(s@.subrange(pos + (v.0.wire()).len(), pos + (v.0.wire() + v.1.wire()).len()) == v.1.wire());
                assert(r1 == Some((v.1, (pos + (v.0.wire() + v.1.wire()).len()) as usize)));
                assert(s@.subrange(pos + (v.0.wire() + v.1.wire()).len(), pos + (v.0.wire() + v.1.wire() + v.2.wire()).len()) == v.2.wire());
                assert(r2 == Some((v.2, (pos + (v.0.wire() + v.1.wire() + v.2.wire()).len()) as usize)));
                assert(s@.subrange(pos + (v.0.wire() + v.1.wire() + v.2.wire()).len(), pos + (v.0.wire() + v.1.wire() + v.2.wire() + v.3.wire()).len()) == v.3.wire());
                assert(r3 == Some((v.3, (pos + (v.0.wire() + v.1.wire() + v.2.wire() + v.3.wire()).len()) as usize)));
                assert(s@.subrange(pos + (v.0.wire() + v.1.wire() + v.2.wire() + v.3.wire()).len(), q) == v.4.wire());
                assert(r4 == Some((v.4, (q) as usize)));
        }
    }
    res
}

fn read_legacy_contact_info(s: &Vec<u8>, pos: usize) -> (r: Option<(LegacyContactInfo, usize)>)
    ensures
        r matches Some((v, p)) ==> pos <= p <= s@.len() && s@.subrange(pos as int, p as int) == v.wire(),
        forall|v: LegacyContactInfo, q: int|
            #![trigger s@.subrange(pos as int, q), v.wire()]
            pos <= q <= s@.len() && s@.subrange(pos as int, q) == v.wire() ==> r == Some((v, q as usize)),
{
    proof {
        assert forall|v: LegacyContactInfo, q: int|
            #![trigger s@.subrange(pos as int, q), v.wire()]
            pos <= q <= s@.len() && s@.subrange(pos as int, q) == v.wire() implies {
                &&& q == pos + (v.id.bytes@ + addrs5_wire(v.front_addrs()) + addrs5_wire(v.back_addrs()) + le_u64(v.wallclock) + le_u16(v.shred_version)).len()
                &&& s@.subrange(pos as int, pos + (v.id.bytes@).len()) == v.id.bytes@
                &&& s@.subrange(pos + (v.id.bytes@).len(), pos + (v.id.bytes@ + addrs5_wire(v.front_addrs())).len()) == addrs5_wire(v.front_addrs())
                &&& s@.subrange(pos + (v.id.bytes@ + addrs5_wire(v.front_addrs())).len(), pos + (v.id.bytes@ + addrs5_wire(v.front_addrs()) + addrs5_wire(v.back_addrs())).len()) == addrs5_wire(v.back_addrs())
                &&& s@.subrange(pos + (v.id.bytes@ + addrs5_wire(v.front_addrs()) + addrs5_wire(v.back_addrs())).len(), pos + (v.id.bytes@ + addrs5_wire(v.front_addrs()) + addrs5_wire(v.back_addrs()) + le_u64(v.wallclock)).len()) == le_u64(v.wallclock)
                &&& s@.subrange(pos + (v.id.bytes@ + addrs5_wire(v.front_addrs()) + addrs5_wire(v.back_addrs()) + le_u64(v.wallclock)).len(), q) == le_u16(v.shred_version)
            } by {
            assert(v.wire() == v.id.bytes@ + addrs5_wire(v.front_addrs()) + addrs5_wire(v.back_addrs()) + le_u64(v.wallclock) + le_u16(v.shred_version));
            lemma_split(s@, pos as int, q, v.id.bytes@ + addrs5_wire(v.front_addrs()) + addrs5_wire(v.back_addrs()) + le_u64(v.wallclock), le_u16(v.shred_version));
            lemma_split(s@, pos as int, pos + (v.id.bytes@ + addrs5_wire(v.front_addrs()) + addrs5_wire(v.back_addrs()) + le_u64(v.wallclock)).len(), v.id.bytes@ + addrs5_wire(v.front_addrs()) + addrs5_wire(v.back_addrs()), le_u64(v.wallclock));
            lemma_split(s@, pos as int, pos + (v.id.bytes@ + addrs5_wire(v.front_addrs()) + addrs5_wire(v.back_addrs())).len(), v.id.bytes@ + addrs5_wire(v.front_addrs()), addrs5_wire(v.back_addrs()));
            lemma_split(s@, pos as int, pos + (v.id.bytes@ + addrs5_wire(v.front_addrs())).len(), v.id.bytes@, addrs5_wire(v.front_addrs()));
        }
    }
    let r0 = read_pubkey(s, pos);
    if r0.is_none() {
        proof {
            assert forall|v: LegacyContactInfo, q: int|
                #![trigger s@.subrange(pos as int, q), v.wire()]
                pos <= q <= s@.len() && s@.subrange(pos as int, q) == v.wire() implies false by {
                    assert(s@.subrange(pos as int, pos + (v.id.bytes@).len()) == v.id.bytes@);
                    assert(r0 == Some((v.id, (pos + (v.id.bytes@).len()) as usize)));
            }
        }
        return None;
    }
    let (id, end0) = r0.unwrap();
    let r1 = read_addrs5(s, end0);
    if r1.is_none() {
        proof {
            assert forall|v: LegacyContactInfo, q: int|
                #![trigger s@.subrange(pos as int, q), v.wire()]
                pos <= q <= s@.len() && s@.subrange(pos as int, q) == v.wire() implies false by {
                    assert(s@.subrange(pos as int, pos + (v.id.bytes@).len()) == v.id.bytes@);
                    assert(r0 == Some((v.id, (pos + (v.id.bytes@).len()) as usize)));
                    assert(s@.subrange(pos + (v.id.bytes@).len(), pos + (v.id.bytes@ + addrs5_wire(v.front_addrs())).len()) == addrs5_wire(v.front_addrs()));
                    assert(r1 == Some((v.front_addrs(), (pos + (v.id.bytes@ + addrs5_wire(v.front_addrs())).len()) as usize)));
            }
        }
        return None;
    }
    let ((gossip, tvu, tvu_forwards, repair, tpu), end1) = r1.unwrap();
    let r2 = read_addrs5(s, end1);
    if r2.is_none() {
        proof {
            assert forall|v: LegacyContactInfo, q: int|
                #![trigger s@.subrange(pos as int, q), v.wire()]
                pos <= q <= s@.len() && s@.subrange(pos as int, q) == v.wire() implies false by {
                    assert(s@.subrange(pos as int, pos + (v.id.bytes@).len()) == v.id.bytes@);
                    assert(r0 == Some((v.id, (pos + (v.id.bytes@).len()) as usize)));
                    assert(s@.subrange(pos + (v.id.bytes@).len(), pos + (v.id.bytes@ + addrs5_wire(v.front_addrs())).len()) == addrs5_wire(v.front_addrs()));
                    assert(r1 == Some((v.front_addrs(), (pos + (v.id.bytes@ + addrs5_wire(v.front_addrs())).len()) as usize)));
                    assert(s@.subrange(pos + (v.id.bytes@ + addrs5_wire(v.front_addrs())).len(), pos + (v.id.bytes@ + addrs5_wire(v.front_addrs()) + addrs5_wire(v.back_addrs())).len()) == addrs5_wire(v.back_addrs()));
                    assert(r2 == Some((v.back_addrs(), (pos + (v.id.bytes@ + addrs5_wire(v.front_addrs()) + addrs5_wire(v.back_addrs())).len()) as usize)));
            }
        }
        return None;
    }
    let ((tpu_forwards, tpu_vote, rpc, rpc_pubsub, serve_repair), end2) = r2.unwrap();
    let r3 = read_u64(s, end2);
    if r3.is_none() {
        proof {
            assert forall|v: LegacyContactInfo, q: int|
                #![trigger s@.subrange(pos as int, q), v.wire()]
                pos <= q <= s@.len() && s@.subrange(pos as int, q) == v.wire() implies false by {
                    assert(s@.subrange(pos as int, pos + (v.id.bytes@).len()) == v.id.bytes@);
                    assert(r0 == Some((v.id, (pos + (v.id.bytes@).len()) as usize)));
                    assert(s@.subrange(pos + (v.id.bytes@).len(), pos + (v.id.bytes@ + addrs5_wire(v.front_addrs())).len()) == addrs5_wire(v.front_addrs()));
                    assert(r1 == Some((v.front_addrs(), (pos + (v.id.bytes@ + addrs5_wire(v.front_addrs())).len()) as usize)));
                    assert(s@.subrange(pos + (v.id.bytes@ + addrs5_wire(v.front_addrs())).len(), pos + (v.id.bytes@ + addrs5_wire(v.front_addrs()) + addrs5_wire(v.back_addrs())).len()) == addrs5_wire(v.back_addrs()));
                    assert(r2 == Some((v.back_addrs(), (pos + (v.id.bytes@ + addrs5_wire(v.front_addrs()) + addrs5_wire(v.back_addrs())).len()) as usize)));
                    assert(s@.subrange(pos + (v.id.bytes@ + addrs5_wire(v.front_addrs()) + addrs5_wire(v.back_addrs())).len(), pos + (v.id.bytes@ + addrs5_wire(v.front_addrs()) + addrs5_wire(v.back_addrs()) + le_u64(v.wallclock)).len()) == le_u64(v.wallclock));
                    assert(r3 == Some((v.wallclock, (pos + (v.id.bytes@ + addrs5_wire(v.front_addrs()) + addrs5_wire(v.back_addrs()) + le_u64(v.wallclock)).len()) as usize)));
            }
        }
        return None;
    }
    let (wallclock, end3) = r3.unwrap();
    let r4 = read_u16(s, end3);
    if r4.is_none() {
        proof {
            assert forall|v: LegacyContactInfo, q: int|
                #![trigger s@.subrange(pos as int, q), v.wire()]
                pos <= q <= s@.len() && s@.subrange(pos as int, q) == v.wire() implies false by {
                    assert(s@.subrange(pos as int, pos + (v.id.bytes@).len()) == v.id.bytes@);
                    assert(r0 == Some((v.id, (pos + (v.id.bytes@).len()) as usize)));
                    assert(s@.subrange(pos + (v.id.bytes@).len(), pos + (v.id.bytes@ + addrs5_wire(v.front_addrs())).len()) == addrs5_wire(v.front_addrs()));
                    assert(r1 == Some((v.front_addrs(), (pos + (v.id.bytes@ + addrs5_wire(v.front_addrs())).len()) as usize)));
                    assert(s@.subrange(pos + (v.id.bytes@ + addrs5_wire(v.front_addrs())).len(), pos + (v.id.bytes@ + addrs5_wire(v.front_addrs()) + addrs5_wire(v.back_addrs())).len()) == addrs5_wire(v.back_addrs()));
                    assert(r2 == Some((v.back_addrs(), (pos + (v.id.bytes@ + addrs5_wire(v.front_addrs()) + addrs5_wire(v.back_addrs())).len()) as usize)));
                    assert(s@.subrange(pos + (v.id.bytes@ + addrs5_wire(v.front_addrs()) + addrs5_wire(v.back_addrs())).len(), pos + (v.id.bytes@ + addrs5_wire(v.front_addrs()) + addrs5_wire(v.back_addrs()) + le_u64(v.wallclock)).len()) == le_u64(v.wallclock));
                    assert(r3 == Some((v.wallclock, (pos + (v.id.bytes@ + addrs5_wire(v.front_addrs()) + addrs5_wire(v.back_addrs()) + le_u64(v.wallclock)).len()) as usize)));
                    assert(s@.subrange(pos + (v.id.bytes@ + addrs5_wire(v.front_addrs()) + addrs5_wire(v.back_addrs()) + le_u64(v.wallclock)).len(), q) == le_u16(v.shred_version));
                    assert(r4 == Some((v.shred_version, (q) as usize)));
            }
        }
        return None;
    }
    let (shred_version, end4) = r4.unwrap();
    let res = Some((LegacyContactInfo { id, gossip, tvu, tvu_forwards, repair, tpu, tpu_forwards, tpu_vote, rpc, rpc_pubsub, serve_repair, wallclock, shred_version }, end4));
    proof {
        lemma_join(s@, pos as int, end0 as int, end1 as int, id.bytes@, addrs5_wire((gossip, tvu, tvu_forwards, repair, tpu)));
        lemma_join(s@, pos as int, end1 as int, end2 as int, id.bytes@ + addrs5_wire((gossip, tvu, tvu_forwards, repair, tpu)), addrs5_wire((tpu_forwards, tpu_vote, rpc, rpc_pubsub, serve_repair)));
        lemma_join(s@, pos as int, end2 as int, end3 as int, id.bytes@ + addrs5_wire((gossip, tvu, tvu_forwards, repair, tpu)) + addrs5_wire((tpu_forwards, tpu_vote, rpc, rpc_pubsub, serve_repair)), le_u64(wallclock));
        lemma_join(s@, pos as int, end3 as int, end4 as int, id.bytes@ + addrs5_wire((gossip, tvu, tvu_forwards, repair, tpu)) + addrs5_wire((tpu_forwards, tpu_vote, rpc, rpc_pubsub, serve_repair)) + le_u64(wallclock), le_u16(shred_version));
        assert forall|v: LegacyContactInfo, q: int|
            #![trigger s@.subrange(pos as int, q), v.wire()]
            pos <= q <= s@.len() && s@.subrange(pos as int, q) == v.wire() implies res == Some((v, q as usize)) by {
                assert(s@.subrange(pos as int, pos + (v.id.bytes@).len()) == v.id.bytes@);
                assert(r0 == Some((v.id, (pos + (v.id.bytes@).len()) as usize)));
                assert(s@.subrange(pos + (v.id.bytes@).len(), pos + (v.id.bytes@ + addrs5_wire(v.front_addrs())).len()) == addrs5_wire(v.front_addrs()));
                assert(r1 == Some((v.front_addrs(), (pos + (v.id.bytes@ + addrs5_wire(v.front_addrs())).len()) as usize)));
                assert(s@.subrange(pos + (v.id.bytes@ + addrs5_wire(v.front_addrs())).len(), pos + (v.id.bytes@ + addrs5_wire(v.front_addrs()) + addrs5_wire(v.back_addrs())).len()) == addrs5_wire(v.back_addrs()));
                assert(r2 == Some((v.back_addrs(), (pos + (v.id.bytes@ + addrs5_wire(v.front_addrs()) + addrs5_wire(v.back_addrs())).len()) as usize)));
                assert(s@.subrange(pos + (v.id.bytes@ + addrs5_wire(v.front_addrs()) + addrs5_wire(v.back_addrs())).len(), pos + (v.id.bytes@ + addrs5_wire(v.front_addrs()) + addrs5_wire(v.back_addrs()) + le_u64(v.wallclock)).len()) == le_u64(v.wallclock));
                assert(r3 == Some((v.wallclock, (pos + (v.id.bytes@ + addrs5_wire(v.front_addrs()) + addrs5_wire(v.back_addrs()) + le_u64(v.wallclock)).len()) as usize)));
                assert(s@.subrange(pos + (v.id.bytes@ + addrs5_wire(v.front_addrs()) + addrs5_wire(v.back_addrs()) + le_u64(v.wallclock)).len(), q) == le_u16(v.shred_version));
                assert(r4 == Some((v.shred_version, (q) as usize)));
        }
    }
    res
}


fn read_digest(s: &Vec<u8>, pos: usize) -> (r: Option<(Digest, usize)>)
    ensures
        r matches Some((v, p)) ==> pos <= p <= s@.len() && s@.subrange(pos as int, p as int) == v.bytes@,
        forall|v: Digest, q: int|
            #![trigger s@.subrange(pos as int, q), v.bytes@]
            pos <= q <= s@.len() && s@.subrange(pos as int, q) == v.bytes@ ==> r == Some((v, q as usize)),
{
    match read_array::<32>(s, pos) {
        Some((bytes, p)) => Some((Digest { bytes }, p)),
        None => None,
    }
}

fn read_slot_hash(s: &Vec<u8>, pos: usize) -> (r: Option<(SlotHash, usize)>)
    ensures
        r matches Some((v, p)) ==> pos <= p <= s@.len() && s@.subrange(pos as int, p as int) == slot_hash_wire(v),
        forall|v: SlotHash, q: int|
            #![trigger s@.subrange(pos as int, q), slot_hash_wire(v)]
            pos <= q <= s@.len() && s@.subrange(pos as int, q) == slot_hash_wire(v) ==> r == Some((v, q as usize)),
{
    proof {
        assert forall|v: SlotHash, q: int|
            #![trigger s@.subrange(pos as int, q), slot_hash_wire(v)]
            pos <= q <= s@.len() && s@.subrange(pos as int, q) == slot_hash_wire(v) implies {
                &&& q == pos + (le_u64(v.slot) + v.hash.bytes@).len()
                &&& s@.subrange(pos as int, pos + (le_u64(v.slot)).len()) == le_u64(v.slot)
                &&& s@.subrange(pos + (le_u64(v.slot)).len(), q) == v.hash.bytes@
            } by {
            assert(slot_hash_wire(v) == le_u64(v.slot) + v.hash.bytes@);
            lemma_split(s@, pos as int, q, le_u64(v.slot), v.hash.bytes@);
        }
    }
    let r0 = read_u64(s, pos);
    if r0.is_none() {
        proof {
            assert forall|v: SlotHash, q: int|
                #![trigger s@.subrange(pos as int, q), slot_hash_wire(v)]
                pos <= q <= s@.len() && s@.subrange(pos as int, q) == slot_hash_wire(v) implies false by {
                    assert(s@.subrange(pos as int, pos + (le_u64(v.slot)).len()) == le_u64(v.slot));
                    assert(r0 == Some((v.slot, (pos + (le_u64(v.slot)).len()) as usize)));
            }
        }
        return None;
    }
    let (slot, p0) = r0.unwrap();
    let r1 = read_digest(s, p0);
    if r1.is_none() {
        proof {
            assert forall|v: SlotHash, q: int|
                #![trigger s@.subrange(pos as int, q), slot_hash_wire(v)]
                pos <= q <= s@.len() && s@.subrange(pos as int, q) == slot_hash_wire(v) implies false by {
                    assert(s@.subrange(pos as int, pos + (le_u64(v.slot)).len()) == le_u64(v.slot));
                    assert(r0 == Some((v.slot, (pos + (le_u64(v.slot)).len()) as usize)));
                    assert(s@.subrange(pos + (le_u64(v.slot)).len(), q) == v.hash.bytes@);
                    assert(r1 == Some((v.hash, (q) as usize)));
            }
        }
        return None;
    }
    let (hash, p1) = r1.unwrap();
    let res = Some((SlotHash { slot, hash }, p1));
    proof {
        lemma_join(s@, pos as int, p0 as int, p1 as int, le_u64(slot), hash.bytes@);
        assert forall|v: SlotHash, q: int|
            #![trigger s@.subrange(pos as int, q), slot_hash_wire(v)]
            pos <= q <= s@.len() && s@.subrange(pos as int, q) == slot_hash_wire(v) implies res == Some((v, q as usize)) by {
                assert(s@.subrange(pos as int, pos + (le_u64(v.slot)).len()) == le_u64(v.slot));
                assert(r0 == Some((v.slot, (pos + (le_u64(v.slot)).len()) as usize)));
                assert(s@.subrange(pos + (le_u64(v.slot)).len(), q) == v.hash.bytes@);
                assert(r1 == Some((v.hash, (q) as usize)));
        }
    }
    res
}

proof fn lemma_slot_hashes_prefix(v: Seq<SlotHash>, i: int)
    requires
        0 <= i <= v.len(),
    ensures
        concat_map(v, |p: SlotHash| slot_hash_wire(p)).len() == 40 * v.len(),
        concat_map(v, |p: SlotHash| slot_hash_wire(p)).subrange(0, 40 * i) == concat_map(
            v.subrange(0, i),
            |p: SlotHash| slot_hash_wire(p),
        ),
    decreases v.len(),
{
    let f = |p: SlotHash| slot_hash_wire(p);
    if v.len() == 0 {
        assert(v.subrange(0, i) =~= v);
        assert(concat_map(v, f).subrange(0, 0) =~= Seq::<u8>::empty());
    } else {
        let d = v.drop_last();
        assert(f(v.last()).len() == 40);
        if i == v.len() {
            lemma_slot_hashes_prefix(d, 0);
            assert(v.subrange(0, i) =~= v);
            assert(concat_map(v, f).subrange(0, 40 * i) =~= concat_map(v, f));
        } else {
            lemma_slot_hashes_prefix(d, i);
            assert(d.subrange(0, i) =~= v.subrange(0, i));
            assert(concat_map(v, f).subrange(0, 40 * i) =~= concat_map(d, f).subrange(0, 40 * i));
        }
    }
}

fn read_slot_hashes(s: &Vec<u8>, pos: usize) -> (r: Option<(Vec<SlotHash>, usize)>)
    ensures
        r matches Some((v, p)) ==> pos <= p <= s@.len() && s@.subrange(pos as int, p as int) == slot_hashes_wire(v@),
        forall|v: Seq<SlotHash>, q: int|
            #![trigger s@.subrange(pos as int, q), slot_hashes_wire(v)]
            pos <= q <= s@.len() && s@.subrange(pos as int, q) == slot_hashes_wire(v) ==> (r matches Some((w, p)) && w@
                == v && p == q),
{
    let ghost f = |p: SlotHash| slot_hash_wire(p);
    proof {
        assert forall|v: Seq<SlotHash>, q: int|
            #![trigger s@.subrange(pos as int, q), slot_hashes_wire(v)]
            pos <= q <= s@.len() && s@.subrange(pos as int, q) == slot_hashes_wire(v) implies {
                &&& s@.subrange(pos as int, pos + 8) == le_u64(v.len() as u64)
                &&& s@.subrange(pos + 8, q) == concat_map(v, f)
                &&& q == pos + 8 + 40 * v.len()
            } by {
            lemma_slot_hashes_prefix(v, 0);
            lemma_split(s@, pos as int, q, le_u64(v.len() as u64), concat_map(v, f));
        }
    }
    let r0 = read_u64(s, pos);
    let (n, p0) = match r0 {
        Some(x) => x,
        None => {
            proof {
                assert forall|v: Seq<SlotHash>, q: int|
                    #![trigger s@.subrange(pos as int, q), slot_hashes_wire(v)]
                    pos <= q <= s@.len() && s@.subrange(pos as int, q) == slot_hashes_wire(v) implies false by {
                    assert(r0 == Some((v.len() as u64, (pos + 8) as usize)));
                }
            }
            return None;
        },
    };
    let slen = s.len();
    let mut out: Vec<SlotHash> = Vec::new();
    let mut at: usize = p0;
    let mut i: u64 = 0;
    assert(s@.subrange(p0 as int, p0 as int) =~= concat_map(out@, f));
    proof {
        assert forall|v: Seq<SlotHash>, q: int|
            #![trigger s@.subrange(pos as int, q), slot_hashes_wire(v)]
            pos <= q <= s@.len() && s@.subrange(pos as int, q) == slot_hashes_wire(v) implies v.len() == n && out@
                == v.subrange(0, 0) && q == pos + 8 + 40 * v.len() && s@.subrange(pos + 8, q) == concat_map(v, f) by {
            assert(q <= slen);
            assert(v.len() < 0x1_0000_0000_0000_0000);
            assert(r0 == Some((v.len() as u64, (pos + 8) as usize)));
            assert(v.subrange(0, 0) =~= out@);
        }
    }
    while i < n
        invariant
            pos + 8 == p0 <= at <= s@.len(),
            i <= n,
            out@.len() == i,
            at == p0 + 40 * i,
            s@.subrange(pos as int, p0 as int) == le_u64(n),
            s@.subrange(p0 as int, at as int) == concat_map(out@, f),
            f == (|p: SlotHash| slot_hash_wire(p)),
            forall|v: Seq<SlotHash>, q: int|
                #![trigger s@.subrange(pos as int, q), slot_hashes_wire(v)]
                pos <= q <= s@.len() && s@.subrange(pos as int, q) == slot_hashes_wire(v) ==> v.len() == n && out@
                    == v.subrange(0, i as int) && q == pos + 8 + 40 * v.len() && s@.subrange(pos + 8, q) == concat_map(v, f),
        decreases n - i,
    {
        let r1 = read_slot_hash(s, at);
        proof {
            assert forall|v: Seq<SlotHash>, q: int|
                #![trigger s@.subrange(pos as int, q), slot_hashes_wire(v)]
                pos <= q <= s@.len() && s@.subrange(pos as int, q) == slot_hashes_wire(v) implies r1 == Some(
                    (v[i as int], (at + 40) as usize),
                ) by {
                lemma_slot_hashes_prefix(v, i + 1);
                lemma_concat_map_step(v, f, i as int);
                let c = concat_map(v, f);
                assert(q == pos + 8 + 40 * v.len());
                lemma_prefix(s@, p0 as int, q, c, 40 * (i + 1));
                lemma_split(s@, p0 as int, p0 + 40 * (i + 1), concat_map(v.subrange(0, i as int), f), f(v[i as int]));
            }
        }
        let (x, e) = match r1 {
            Some(y) => y,
            None => {
                proof {
                    assert forall|v: Seq<SlotHash>, q: int|
                        #![trigger s@.subrange(pos as int, q), slot_hashes_wire(v)]
                        pos <= q <= s@.len() && s@.subrange(pos as int, q) == slot_hashes_wire(v) implies false by {
                        assert(r1 == Some((v[i as int], (at + 40) as usize)));
                    }
                }
                return None;
            },
        };
        proof {
            assert(x.hash.bytes@.len() == 32);
            assert(s@.subrange(at as int, e as int).len() == e - at);
            lemma_concat_map_step(out@.push(x), f, i as int);
            assert(out@.push(x).subrange(0, i as int) =~= out@);
            assert(out@.push(x).subrange(0, i + 1) =~= out@.push(x));
            lemma_join(s@, p0 as int, at as int, e as int, concat_map(out@, f), f(x));
        }
        out.push(x);
        at = e;
        i = i + 1;
        proof {
            assert forall|v: Seq<SlotHash>, q: int|
                #![trigger s@.subrange(pos as int, q), slot_hashes_wire(v)]
                pos <= q <= s@.len() && s@.subrange(pos as int, q) == slot_hashes_wire(v) implies out@ == v.subrange(
                    0,
                    i as int,
                ) && q == pos + 8 + 40 * v.len() && s@.subrange(pos + 8, q) == concat_map(v, f) by {
                assert(r1 == Some((v[i - 1], e)));
                assert(out@ =~= v.subrange(0, i as int));
            }
        }
    }
    proof {
        lemma_join(s@, pos as int, p0 as int, at as int, le_u64(n), concat_map(out@, f));
        assert forall|v: Seq<SlotHash>, q: int|
            #![trigger s@.subrange(pos as int, q), slot_hashes_wire(v)]
            pos <= q <= s@.len() && s@.subrange(pos as int, q) == slot_hashes_wire(v) implies out@ == v && at == q by {
            assert(v.subrange(0, v.len() as int) =~= v);
        }
    }
    Some((out, at))
}

fn read_snapshot_hashes(s: &Vec<u8>, pos: usize) -> (r: Option<(SnapshotHashes, usize)>)
    ensures
        r matches Some((v, p)) ==> pos <= p <= s@.len() && s@.subrange(pos as int, p as int) == v.wire(),
        forall|v: SnapshotHashes, q: int|
            #![trigger s@.subrange(pos as int, q), v.wire()]
            pos <= q <= s@.len() && s@.subrange(pos as int, q) == v.wire() ==> (r matches Some((x, p)) && p == q && x.from == v.from && x.hashes@ == v.hashes@ && x.wallclock == v.wallclock),
{
    proof {
        assert forall|v: SnapshotHashes, q: int|
            #![trigger s@.subrange(pos as int, q), v.wire()]
            pos <= q <= s@.len() && s@.subrange(pos as int, q) == v.wire() implies {
                &&& q == pos + (v.from.bytes@ + slot_hashes_wire(v.hashes@) + le_u64(v.wallclock)).len()
                &&& s@.subrange(pos as int, pos + (v.from.bytes@).len()) == v.from.bytes@
                &&& s@.subrange(pos + (v.from.bytes@).len(), pos + (v.from.bytes@ + slot_hashes_wire(v.hashes@)).len()) == slot_hashes_wire(v.hashes@)
                &&& s@.subrange(pos + (v.from.bytes@ + slot_hashes_wire(v.hashes@)).len(), q) == le_u64(v.wallclock)
            } by {
            assert(v.wire() == v.from.bytes@ + slot_hashes_wire(v.hashes@) + le_u64(v.wallclock));
            lemma_split(s@, pos as int, q, v.from.bytes@ + slot_hashes_wire(v.hashes@), le_u64(v.wallclock));
            lemma_split(s@, pos as int, pos + (v.from.bytes@ + slot_hashes_wire(v.hashes@)).len(), v.from.bytes@, slot_hashes_wire(v.hashes@));
        }
    }
    let r0 = read_pubkey(s, pos);
    if r0.is_none() {
        proof {
            assert forall|v: SnapshotHashes, q: int|
                #![trigger s@.subrange(pos as int, q), v.wire()]
                pos <= q <= s@.len() && s@.subrange(pos as int, q) == v.wire() implies false by {
                assert(s@.subrange(pos as int, pos + (v.from.bytes@).len()) == v.from.bytes@);
            }
        }
        return None;
    }
    let (from, end0) = r0.unwrap();
    proof {
        assert forall|v: SnapshotHashes, q: int|
            #![trigger s@.subrange(pos as int, q), v.wire()]
            pos <= q <= s@.len() && s@.subrange(pos as int, q) == v.wire() implies from == v.from && end0 == pos + (v.from.bytes@).len() by {
            assert(s@.subrange(pos as int, pos + (v.from.bytes@).len()) == v.from.bytes@);
        }
    }
    let r1 = read_slot_hashes(s, end0);
    if r1.is_none() {
        proof {
            assert forall|v: SnapshotHashes, q: int|
                #![trigger s@.subrange(pos as int, q), v.wire()]
                pos <= q <= s@.len() && s@.subrange(pos as int, q) == v.wire() implies false by {
                assert(s@.subrange(pos as int, pos + (v.from.bytes@).len()) == v.from.bytes@);
                assert(s@.subrange(pos + (v.from.bytes@).len(), pos + (v.from.bytes@ + slot_hashes_wire(v.hashes@)).len()) == slot_hashes_wire(v.hashes@));
            }
        }
        return None;
    }
    let (hashes, end1) = r1.unwrap();
    proof {
        assert forall|v: SnapshotHashes, q: int|
            #![trigger s@.subrange(pos as int, q), v.wire()]
            pos <= q <= s@.len() && s@.subrange(pos as int, q) == v.wire() implies hashes@ == v.hashes@ && end1 == pos + (v.from.bytes@ + slot_hashes_wire(v.hashes@)).len() by {
            assert(s@.subrange(pos as int, pos + (v.from.bytes@).len()) == v.from.bytes@);
            assert(s@.subrange(pos + (v.from.bytes@).len(), pos + (v.from.bytes@ + slot_hashes_wire(v.hashes@)).len()) == slot_hashes_wire(v.hashes@));
        }
    }
    let r2 = read_u64(s, end1);
    if r2.is_none() {
        proof {
            assert forall|v: SnapshotHashes, q: int|
                #![trigger s@.subrange(pos as int, q), v.wire()]
                pos <= q <= s@.len() && s@.subrange(pos as int, q) == v.wire() implies false by {
                assert(s@.subrange(pos as int, pos + (v.from.bytes@).len()) == v.from.bytes@);
                assert(s@.subrange(pos + (v.from.bytes@).len(), pos + (v.from.bytes@ + slot_hashes_wire(v.hashes@)).len()) == slot_hashes_wire(v.hashes@));
                assert(s@.subrange(pos + (v.from.bytes@ + slot_hashes_wire(v.hashes@)).len(), q) == le_u64(v.wallclock));
            }
        }
        return None;
    }
    let (wallclock, end2) = r2.unwrap();
    proof {
        assert forall|v: SnapshotHashes, q: int|
            #![trigger s@.subrange(pos as int, q), v.wire()]
            pos <= q <= s@.len() && s@.subrange(pos as int, q) == v.wire() implies wallclock == v.wallclock && end2 == q by {
            assert(s@.subrange(pos as int, pos + (v.from.bytes@).len()) == v.from.bytes@);
            assert(s@.subrange(pos + (v.from.bytes@).len(), pos + (v.from.bytes@ + slot_hashes_wire(v.hashes@)).len()) == slot_hashes_wire(v.hashes@));
            assert(s@.subrange(pos + (v.from.bytes@ + slot_hashes_wire(v.hashes@)).len(), q) == le_u64(v.wallclock));
        }
    }
    let res = SnapshotHashes { from, hashes, wallclock };
    proof {
        lemma_join(s@, pos as int, end0 as int, end1 as int, from.bytes@, slot_hashes_wire(hashes@));
        lemma_join(s@, pos as int, end1 as int, end2 as int, from.bytes@ + slot_hashes_wire(hashes@), le_u64(wallclock));
        assert(res.wire() == from.bytes@ + slot_hashes_wire(hashes@) + le_u64(wallclock));
    }
    Some((res, end2))
}

fn read_incremental_snapshot_hashes(s: &Vec<u8>, pos: usize) -> (r: Option<(IncrementalSnapshotHashes, usize)>)
    ensures
        r matches Some((v, p)) ==> pos <= p <= s@.len() && s@.subrange(pos as int, p as int) == v.wire(),
        forall|v: IncrementalSnapshotHashes, q: int|
            #![trigger s@.subrange(pos as int, q), v.wire()]
            pos <= q <= s@.len() && s@.subrange(pos as int, q) == v.wire() ==> (r matches Some((x, p)) && p == q && x.from == v.from && x.base == v.base && x.hashes@ == v.hashes@ && x.wallclock == v.wallclock),
{
    proof {
        assert forall|v: IncrementalSnapshotHashes, q: int|
            #![trigger s@.subrange(pos as int, q), v.wire()]
            pos <= q <= s@.len() && s@.subrange(pos as int, q) == v.wire() implies {
                &&& q == pos + (v.from.bytes@ + slot_hash_wire(v.base) + slot_hashes_wire(v.hashes@) + le_u64(v.wallclock)).len()
                &&& s@.subrange(pos as int, pos + (v.from.bytes@).len()) == v.from.bytes@
                &&& s@.subrange(pos + (v.from.bytes@).len(), pos + (v.from.bytes@ + slot_hash_wire(v.base)).len()) == slot_hash_wire(v.base)
                &&& s@.subrange(pos + (v.from.bytes@ + slot_hash_wire(v.base)).len(), pos + (v.from.bytes@ + slot_hash_wire(v.base) + slot_hashes_wire(v.hashes@)).len()) == slot_hashes_wire(v.hashes@)
                &&& s@.subrange(pos + (v.from.bytes@ + slot_hash_wire(v.base) + slot_hashes_wire(v.hashes@)).len(), q) == le_u64(v.wallclock)
            } by {
            assert(v.wire() == v.from.bytes@ + slot_hash_wire(v.base) + slot_hashes_wire(v.hashes@) + le_u64(v.wallclock));
            lemma_split(s@, pos as int, q, v.from.bytes@ + slot_hash_wire(v.base) + slot_hashes_wire(v.hashes@), le_u64(v.wallclock));
            lemma_split(s@, pos as int, pos + (v.from.bytes@ + slot_hash_wire(v.base) + slot_hashes_wire(v.hashes@)).len(), v.from.bytes@ + slot_hash_wire(v.base), slot_hashes_wire(v.hashes@));
            lemma_split(s@, pos as int, pos + (v.from.bytes@ + slot_hash_wire(v.base)).len(), v.from.bytes@, slot_hash_wire(v.base));
        }
    }
    let r0 = read_pubkey(s, pos);
    if r0.is_none() {
        proof {
            assert forall|v: IncrementalSnapshotHashes, q: int|
                #![trigger s@.subrange(pos as int, q), v.wire()]
                pos <= q <= s@.len() && s@.subrange(pos as int, q) == v.wire() implies false by {
                assert(s@.subrange(pos as int, pos + (v.from.bytes@).len()) == v.from.bytes@);
            }
        }
        return None;
    }
    let (from, end0) = r0.unwrap();
    proof {
        assert forall|v: IncrementalSnapshotHashes, q: int|
            #![trigger s@.subrange(pos as int, q), v.wire()]
            pos <= q <= s@.len() && s@.subrange(pos as int, q) == v.wire() implies from == v.from && end0 == pos + (v.from.bytes@).len() by {
            assert(s@.subrange(pos as int, pos + (v.from.bytes@).len()) == v.from.bytes@);
        }
    }
    let r1 = read_slot_hash(s, end0);
    if r1.is_none() {
        proof {
            assert forall|v: IncrementalSnapshotHashes, q: int|
                #![trigger s@.subrange(pos as int, q), v.wire()]
                pos <= q <= s@.len() && s@.subrange(pos as int, q) == v.wire() implies false by {
                assert(s@.subrange(pos as int, pos + (v.from.bytes@).len()) == v.from.bytes@);
                assert(s@.subrange(pos + (v.from.bytes@).len(), pos + (v.from.bytes@ + slot_hash_wire(v.base)).len()) == slot_hash_wire(v.base));
            }
        }
        return None;
    }
    let (base, end1) = r1.unwrap();
    proof {
        assert forall|v: IncrementalSnapshotHashes, q: int|
            #![trigger s@.subrange(pos as int, q), v.wire()]
            pos <= q <= s@.len() && s@.subrange(pos as int, q) == v.wire() implies base == v.base && end1 == pos + (v.from.bytes@ + slot_hash_wire(v.base)).len() by {
            assert(s@.subrange(pos as int, pos + (v.from.bytes@).len()) == v.from.bytes@);
            assert(s@.subrange(pos + (v.from.bytes@).len(), pos + (v.from.bytes@ + slot_hash_wire(v.base)).len()) == slot_hash_wire(v.base));
        }
    }
    let r2 = read_slot_hashes(s, end1);
    if r2.is_none() {
        proof {
            assert forall|v: IncrementalSnapshotHashes, q: int|
                #![trigger s@.subrange(pos as int, q), v.wire()]
                pos <= q <= s@.len() && s@.subrange(pos as int, q) == v.wire() implies false by {
                assert(s@.subrange(pos as int, pos + (v.from.bytes@).len()) == v.from.bytes@);
                assert(s@.subrange(pos + (v.from.bytes@).len(), pos + (v.from.bytes@ + slot_hash_wire(v.base)).len()) == slot_hash_wire(v.base));
                assert(s@.subrange(pos + (v.from.bytes@ + slot_hash_wire(v.base)).len(), pos + (v.from.bytes@ + slot_hash_wire(v.base) + slot_hashes_wire(v.hashes@)).len()) == slot_hashes_wire(v.hashes@));
            }
        }
        return None;
    }
    let (hashes, end2) = r2.unwrap();
    proof {
        assert forall|v: IncrementalSnapshotHashes, q: int|
            #![trigger s@.subrange(pos as int, q), v.wire()]
            pos <= q <= s@.len() && s@.subrange(pos as int, q) == v.wire() implies hashes@ == v.hashes@ && end2 == pos + (v.from.bytes@ + slot_hash_wire(v.base) + slot_hashes_wire(v.hashes@)).len() by {
            assert(s@.subrange(pos as int, pos + (v.from.bytes@).len()) == v.from.bytes@);
            assert(s@.subrange(pos + (v.from.bytes@).len(), pos + (v.from.bytes@ + slot_hash_wire(v.base)).len()) == slot_hash_wire(v.base));
            assert(s@.subrange(pos + (v.from.bytes@ + slot_hash_wire(v.base)).len(), pos + (v.from.bytes@ + slot_hash_wire(v.base) + slot_hashes_wire(v.hashes@)).len()) == slot_hashes_wire(v.hashes@));
        }
    }
    let r3 = read_u64(s, end2);
    if r3.is_none() {
        proof {
            assert forall|v: IncrementalSnapshotHashes, q: int|
                #![trigger s@.subrange(pos as int, q), v.wire()]
                pos <= q <= s@.len() && s@.subrange(pos as int, q) == v.wire() implies false by {
                assert(s@.subrange(pos as int, pos + (v.from.bytes@).len()) == v.from.bytes@);
                assert(s@.subrange(pos + (v.from.bytes@).len(), pos + (v.from.bytes@ + slot_hash_wire(v.base)).len()) == slot_hash_wire(v.base));
                assert(s@.subrange(pos + (v.from.bytes@ + slot_hash_wire(v.base)).len(), pos + (v.from.bytes@ + slot_hash_wire(v.base) + slot_hashes_wire(v.hashes@)).len()) == slot_hashes_wire(v.hashes@));
                assert(s@.subrange(pos + (v.from.bytes@ + slot_hash_wire(v.base) + slot_hashes_wire(v.hashes@)).len(), q) == le_u64(v.wallclock));
            }
        }
        return None;
    }
    let (wallclock, end3) = r3.unwrap();
    proof {
        assert forall|v: IncrementalSnapshotHashes, q: int|
            #![trigger s@.subrange(pos as int, q), v.wire()]
            pos <= q <= s@.len() && s@.subrange(pos as int, q) == v.wire() implies wallclock == v.wallclock && end3 == q by {
            assert(s@.subrange(pos as int, pos + (v.from.bytes@).len()) == v.from.bytes@);
            assert(s@.subrange(pos + (v.from.bytes@).len(), pos + (v.from.bytes@ + slot_hash_wire(v.base)).len()) == slot_hash_wire(v.base));
            assert(s@.subrange(pos + (v.from.bytes@ + slot_hash_wire(v.base)).len(), pos + (v.from.bytes@ + slot_hash_wire(v.base) + slot_hashes_wire(v.hashes@)).len()) == slot_hashes_wire(v.hashes@));
            assert(s@.subrange(pos + (v.from.bytes@ + slot_hash_wire(v.base) + slot_hashes_wire(v.hashes@)).len(), q) == le_u64(v.wallclock));
        }
    }
    let res = IncrementalSnapshotHashes { from, base, hashes, wallclock };
    proof {
        lemma_join(s@, pos as int, end0 as int, end1 as int, from.bytes@, slot_hash_wire(base));
        lemma_join(s@, pos as int, end1 as int, end2 as int, from.bytes@ + slot_hash_wire(base), slot_hashes_wire(hashes@));
        lemma_join(s@, pos as int, end2 as int, end3 as int, from.bytes@ + slot_hash_wire(base) + slot_hashes_wire(hashes@), le_u64(wallclock));
        assert(res.wire() == from.bytes@ + slot_hash_wire(base) + slot_hashes_wire(hashes@) + le_u64(wallclock));
    }
    Some((res, end3))
}

/// A sequence of `u64`s: its length, then each value.
pub open spec fn u64s_wire(v: Seq<u64>) -> Seq<u8> {
    enc_seq(v, |x: u64| le_u64(x))
}

/// The encodings of a non-empty sequence: the first element's, then the rest's.
proof fn lemma_concat_map_first<A>(w: Seq<A>, f: spec_fn(A) -> Seq<u8>)
    requires
        w.len() > 0,
    ensures
        concat_map(w, f) == f(w[0]) + concat_map(w.drop_first(), f),
    decreases w.len(),
{
    if w.len() == 1 {
        assert(w.drop_last() =~= Seq::<A>::empty());
        assert(w.drop_first() =~= Seq::<A>::empty());
        assert(concat_map(w, f) =~= f(w[0]) + concat_map(w.drop_first(), f));
    } else {
        let d = w.drop_last();
        lemma_concat_map_first(d, f);
        assert(w.drop_first().drop_last() =~= d.drop_first());
        assert(w.drop_first().last() == w.last());
        assert(concat_map(w, f) =~= f(w[0]) + concat_map(w.drop_first(), f));
    }
}

proof fn lemma_concat_map_at<A>(v: Seq<A>, f: spec_fn(A) -> Seq<u8>, i: int)
    requires
        0 <= i < v.len(),
    ensures
        concat_map(v.subrange(i, v.len() as int), f) == f(v[i]) + concat_map(v.subrange(i + 1, v.len() as int), f),
{
    let w = v.subrange(i, v.len() as int);
    lemma_concat_map_first(w, f);
    assert(w.drop_first() =~= v.subrange(i + 1, v.len() as int));
}

/// Where every element takes at least one byte, the encodings are at least as
/// long as the sequence.
proof fn lemma_concat_map_len<A>(v: Seq<A>, f: spec_fn(A) -> Seq<u8>)
    requires
        forall|x: A| #[trigger] f(x).len() >= 1,
    ensures
        concat_map(v, f).len() >= v.len(),
    decreases v.len(),
{
    if v.len() > 0 {
        lemma_concat_map_len(v.drop_last(), f);
        assert(f(v.last()).len() >= 1);
    }
}

fn read_byte_vec(s: &Vec<u8>, pos: usize) -> (r: Option<(Vec<u8>, usize)>)
    ensures
        r matches Some((x, p)) ==> pos <= p <= s@.len() && s@.subrange(pos as int, p as int) == enc_byte_vec(x@),
        forall|b: Seq<u8>, q: int|
            #![trigger s@.subrange(pos as int, q), enc_byte_vec(b)]
            pos <= q <= s@.len() && s@.subrange(pos as int, q) == enc_byte_vec(b) ==> (r matches Some((x, p)) && p
                == q && x@ == b),
{
    let slen = s.len();
    proof {
        assert forall|b: Seq<u8>, q: int|
            #![trigger s@.subrange(pos as int, q), enc_byte_vec(b)]
            pos <= q <= s@.len() && s@.subrange(pos as int, q) == enc_byte_vec(b) implies s@.subrange(
                pos as int,
                pos + 8,
            ) == le_u64(b.len() as u64) && s@.subrange(pos + 8, q) == b && q == pos + 8 + b.len() && b.len()
                < 0x1_0000_0000_0000_0000 by {
            lemma_split(s@, pos as int, q, le_u64(b.len() as u64), b);
            assert(q <= slen);
        }
    }
    let r0 = read_u64(s, pos);
    let (n, p0) = match r0 {
        Some(x) => x,
        None => {
            proof {
                assert forall|b: Seq<u8>, q: int|
                    #![trigger s@.subrange(pos as int, q), enc_byte_vec(b)]
                    pos <= q <= s@.len() && s@.subrange(pos as int, q) == enc_byte_vec(b) implies false by {
                    assert(r0 == Some((b.len() as u64, (pos + 8) as usize)));
                }
            }
            return None;
        },
    };
    if n > (slen - p0) as u64 {
        proof {
            assert forall|b: Seq<u8>, q: int|
                #![trigger s@.subrange(pos as int, q), enc_byte_vec(b)]
                pos <= q <= s@.len() && s@.subrange(pos as int, q) == enc_byte_vec(b) implies false by {
                assert(r0 == Some((b.len() as u64, (pos + 8) as usize)));
            }
        }
        return None;
    }
    let end = p0 + n as usize;
    let mut x: Vec<u8> = Vec::new();
    let mut i: usize = p0;
    assert(x@ =~= s@.subrange(p0 as int, p0 as int));
    while i < end
        invariant
            p0 <= i <= end <= s@.len(),
            x@ == s@.subrange(p0 as int, i as int),
        decreases end - i,
    {
        x.push(s[i]);
        i = i + 1;
        assert(x@ =~= s@.subrange(p0 as int, i as int));
    }
    proof {
        assert(x@.len() == n);
        lemma_join(s@, pos as int, p0 as int, end as int, le_u64(n), x@);
        assert forall|b: Seq<u8>, q: int|
            #![trigger s@.subrange(pos as int, q), enc_byte_vec(b)]
            pos <= q <= s@.len() && s@.subrange(pos as int, q) == enc_byte_vec(b) implies end == q && x@ == b by {
            assert(r0 == Some((b.len() as u64, (pos + 8) as usize)));
        }
    }
    Some((x, end))
}

fn read_stash_item(s: &Vec<u8>, pos: usize) -> (r: Option<(DeprecatedEpochIncompleteSlots, usize)>)
    ensures
        r matches Some((x, p)) ==> pos <= p <= s@.len() && s@.subrange(pos as int, p as int) == x.wire(),
        forall|v: DeprecatedEpochIncompleteSlots, q: int|
            #![trigger s@.subrange(pos as int, q), v.wire()]
            pos <= q <= s@.len() && s@.subrange(pos as int, q) == v.wire() ==> (r matches Some((x, p)) && p == q
                && x.same(v)),
{
    proof {
        assert forall|v: DeprecatedEpochIncompleteSlots, q: int|
            #![trigger s@.subrange(pos as int, q), v.wire()]
            pos <= q <= s@.len() && s@.subrange(pos as int, q) == v.wire() implies pos + 12 <= q && s@.subrange(pos as int, pos + 8)
                == le_u64(v.first) && s@.subrange(pos + 8, pos + 12) == le_u32(v.compression.tag()) && s@.subrange(
                pos + 12,
                q,
            ) == enc_byte_vec(v.compressed_list@) by {
            lemma_split(s@, pos as int, q, le_u64(v.first) + le_u32(v.compression.tag()), enc_byte_vec(v.compressed_list@));
            lemma_split(s@, pos as int, pos + 12, le_u64(v.first), le_u32(v.compression.tag()));
        }
    }
    let r0 = read_u64(s, pos);
    if r0.is_none() {
        proof {
            assert forall|v: DeprecatedEpochIncompleteSlots, q: int|
                #![trigger s@.subrange(pos as int, q), v.wire()]
                pos <= q <= s@.len() && s@.subrange(pos as int, q) == v.wire() implies false by {
                assert(r0 == Some((v.first, (pos + 8) as usize)));
            }
        }
        return None;
    }
    let (first, e0) = r0.unwrap();
    let r1 = read_u32(s, e0);
    proof {
        assert forall|v: DeprecatedEpochIncompleteSlots, q: int|
            #![trigger s@.subrange(pos as int, q), v.wire()]
            pos <= q <= s@.len() && s@.subrange(pos as int, q) == v.wire() implies first == v.first && e0 == pos + 8
                && r1 == Some((v.compression.tag(), (pos + 12) as usize)) by {
            assert(r0 == Some((v.first, (pos + 8) as usize)));
        }
    }
    if r1.is_none() {
        return None;
    }
    let (tag, e1) = r1.unwrap();
    if tag > 2 {
        return None;
    }
    let compression = if tag == 0 {
        DeprecatedCompressionType::Uncompressed
    } else if tag == 1 {
        DeprecatedCompressionType::GZip
    } else {
        DeprecatedCompressionType::BZip2
    };
    let r2 = read_byte_vec(s, e1);
    proof {
        assert forall|v: DeprecatedEpochIncompleteSlots, q: int|
            #![trigger s@.subrange(pos as int, q), v.wire()]
            pos <= q <= s@.len() && s@.subrange(pos as int, q) == v.wire() implies compression == v.compression
                && (r2 matches Some((y, e)) && e == q && y@ == v.compressed_list@) by {
            assert(r0 == Some((v.first, (pos + 8) as usize)));
            assert(s@.subrange(pos + 12, q) == enc_byte_vec(v.compressed_list@));
        }
    }
    let (compressed_list, e2) = match r2 {
        Some(x) => x,
        None => {
            return None;
        },
    };
    let res = DeprecatedEpochIncompleteSlots { first, compression, compressed_list };
    proof {
        assert(compression.tag() == tag);
        lemma_join(s@, pos as int, e0 as int, e1 as int, le_u64(first), le_u32(tag));
        lemma_join(s@, pos as int, e1 as int, e2 as int, le_u64(first) + le_u32(tag), enc_byte_vec(compressed_list@));
    }
    Some((res, e2))
}

fn read_u64_seq(s: &Vec<u8>, pos: usize) -> (r: Option<(Vec<u64>, usize)>)
    ensures
        r matches Some((x, p)) ==> pos <= p <= s@.len() && s@.subrange(pos as int, p as int) == u64s_wire(x@),
        forall|v: Seq<u64>, q: int|
            #![trigger s@.subrange(pos as int, q), u64s_wire(v)]
            pos <= q <= s@.len() && s@.subrange(pos as int, q) == u64s_wire(v) ==> (r matches Some((x, p)) && p == q && x@.len() == v.len() && forall|j: int|
                0 <= j < v.len() ==> #[trigger] x@[j] == v[j]),
{
    let ghost f = |x: u64| le_u64(x);
    let slen = s.len();
    proof {
        assert forall|x: u64| #[trigger] f(x).len() >= 1 by {
            assert(f(x) == le_u64(x));
        }
        assert forall|v: Seq<u64>, q: int|
            #![trigger s@.subrange(pos as int, q), u64s_wire(v)]
            pos <= q <= s@.len() && s@.subrange(pos as int, q) == u64s_wire(v) implies pos + 8 <= q && s@.subrange(pos as int, pos + 8) == le_u64(v.len() as u64) && s@.subrange(pos + 8, q)
                == concat_map(v, f) && v.len() < 0x1_0000_0000_0000_0000 by {
            lemma_split(s@, pos as int, q, le_u64(v.len() as u64), concat_map(v, f));
            lemma_concat_map_len(v, f);
            assert(q <= slen);
        }
    }
    let r0 = read_u64(s, pos);
    let (n, p0) = match r0 {
        Some(x) => x,
        None => {
            proof {
                assert forall|v: Seq<u64>, q: int|
                    #![trigger s@.subrange(pos as int, q), u64s_wire(v)]
                    pos <= q <= s@.len() && s@.subrange(pos as int, q) == u64s_wire(v) implies false by {
                    assert(r0 == Some((v.len() as u64, (pos + 8) as usize)));
                }
            }
            return None;
        },
    };
    let mut out: Vec<u64> = Vec::new();
    let mut at: usize = p0;
    let mut i: u64 = 0;
    assert(s@.subrange(p0 as int, p0 as int) =~= concat_map(out@, f));
    proof {
        assert forall|v: Seq<u64>, q: int|
            #![trigger s@.subrange(pos as int, q), u64s_wire(v)]
            pos <= q <= s@.len() && s@.subrange(pos as int, q) == u64s_wire(v) implies v.len() == n && at <= q && s@.subrange(at as int, q) == concat_map(v.subrange(0, v.len() as int), f) by {
            assert(r0 == Some((v.len() as u64, (pos + 8) as usize)));
            assert(v.subrange(0, v.len() as int) =~= v);
        }
    }
    while i < n
        invariant
            pos + 8 == p0 <= at <= s@.len(),
            i <= n,
            out@.len() == i,
            s@.subrange(pos as int, p0 as int) == le_u64(n),
            s@.subrange(p0 as int, at as int) == concat_map(out@, f),
            f == (|x: u64| le_u64(x)),
            forall|v: Seq<u64>, q: int|
                #![trigger s@.subrange(pos as int, q), u64s_wire(v)]
                pos <= q <= s@.len() && s@.subrange(pos as int, q) == u64s_wire(v) ==> v.len() == n && at <= q && s@.subrange(at as int, q) == concat_map(v.subrange(i as int, v.len() as int), f)
                    && forall|j: int| 0 <= j < i ==> #[trigger] out@[j] == v[j],
        decreases n - i,
    {
        let r1 = read_u64(s, at);
        proof {
            assert forall|v: Seq<u64>, q: int|
                #![trigger s@.subrange(pos as int, q), u64s_wire(v)]
                pos <= q <= s@.len() && s@.subrange(pos as int, q) == u64s_wire(v) implies (r1 matches Some((x, e)) && x == v[i as int] && e <= q && s@.subrange(e as int, q)
                    == concat_map(v.subrange(i + 1, v.len() as int), f)) by {
                lemma_concat_map_at(v, f, i as int);
                assert(f(v[i as int]) == le_u64(v[i as int]));
                lemma_split(s@, at as int, q, f(v[i as int]), concat_map(v.subrange(i + 1, v.len() as int), f));
            }
        }
        let (x, e) = match r1 {
            Some(y) => y,
            None => {
                proof {
                    assert forall|v: Seq<u64>, q: int|
                        #![trigger s@.subrange(pos as int, q), u64s_wire(v)]
                        pos <= q <= s@.len() && s@.subrange(pos as int, q) == u64s_wire(v) implies false by {
                        assert(r1 is Some);
                    }
                }
                return None;
            },
        };
        proof {
            lemma_concat_map_step(out@.push(x), f, i as int);
            assert(out@.push(x).subrange(0, i as int) =~= out@);
            assert(out@.push(x).subrange(0, i + 1) =~= out@.push(x));
            assert(f(x) == le_u64(x));
            lemma_join(s@, p0 as int, at as int, e as int, concat_map(out@, f), f(x));
        }
        let ghost old_out = out@;
        out.push(x);
        at = e;
        i = i + 1;
        proof {
            assert forall|v: Seq<u64>, q: int|
                #![trigger s@.subrange(pos as int, q), u64s_wire(v)]
                pos <= q <= s@.len() && s@.subrange(pos as int, q) == u64s_wire(v) implies v.len() == n && at <= q && s@.subrange(at as int, q) == concat_map(v.subrange(i as int, v.len() as int), f)
                    && forall|j: int| 0 <= j < i ==> #[trigger] out@[j] == v[j] by {
                assert(r1 is Some);
                assert forall|j: int| 0 <= j < i implies #[trigger] out@[j] == v[j] by {
                    if j < i - 1 {
                        assert(out@[j] == old_out[j]);
                    }
                }
            }
        }
    }
    proof {
        lemma_join(s@, pos as int, p0 as int, at as int, le_u64(n), concat_map(out@, f));
        assert forall|v: Seq<u64>, q: int|
            #![trigger s@.subrange(pos as int, q), u64s_wire(v)]
            pos <= q <= s@.len() && s@.subrange(pos as int, q) == u64s_wire(v) implies at == q by {
            assert(v.subrange(n as int, v.len() as int).len() == 0);
            assert(concat_map(v.subrange(n as int, v.len() as int), f).len() == 0);
        }
    }
    Some((out, at))
}


fn read_stash(s: &Vec<u8>, pos: usize) -> (r: Option<(Vec<DeprecatedEpochIncompleteSlots>, usize)>)
    ensures
        r matches Some((x, p)) ==> pos <= p <= s@.len() && s@.subrange(pos as int, p as int) == stash_wire(x@),
        forall|v: Seq<DeprecatedEpochIncompleteSlots>, q: int|
            #![trigger s@.subrange(pos as int, q), stash_wire(v)]
            pos <= q <= s@.len() && s@.subrange(pos as int, q) == stash_wire(v) ==> (r matches Some((x, p)) && p == q && x@.len() == v.len() && forall|j: int|
                0 <= j < v.len() ==> #[trigger] x@[j].same(v[j])),
{
    let ghost f = |d: DeprecatedEpochIncompleteSlots| d.wire();
    let slen = s.len();
    proof {
        assert forall|x: DeprecatedEpochIncompleteSlots| #[trigger] f(x).len() >= 1 by {
            assert(f(x) == x.wire());
        }
        assert forall|v: Seq<DeprecatedEpochIncompleteSlots>, q: int|
            #![trigger s@.subrange(pos as int, q), stash_wire(v)]
            pos <= q <= s@.len() && s@.subrange(pos as int, q) == stash_wire(v) implies pos + 8 <= q && s@.subrange(pos as int, pos + 8) == le_u64(v.len() as u64) && s@.subrange(pos + 8, q)
                == concat_map(v, f) && v.len() < 0x1_0000_0000_0000_0000 by {
            lemma_split(s@, pos as int, q, le_u64(v.len() as u64), concat_map(v, f));
            lemma_concat_map_len(v, f);
            assert(q <= slen);
        }
    }
    let r0 = read_u64(s, pos);
    let (n, p0) = match r0 {
        Some(x) => x,
        None => {
            proof {
                assert forall|v: Seq<DeprecatedEpochIncompleteSlots>, q: int|
                    #![trigger s@.subrange(pos as int, q), stash_wire(v)]
                    pos <= q <= s@.len() && s@.subrange(pos as int, q) == stash_wire(v) implies false by {
                    assert(r0 == Some((v.len() as u64, (pos + 8) as usize)));
                }
            }
            return None;
        },
    };
    let mut out: Vec<DeprecatedEpochIncompleteSlots> = Vec::new();
    let mut at: usize = p0;
    let mut i: u64 = 0;
    assert(s@.subrange(p0 as int, p0 as int) =~= concat_map(out@, f));
    proof {
        assert forall|v: Seq<DeprecatedEpochIncompleteSlots>, q: int|
            #![trigger s@.subrange(pos as int, q), stash_wire(v)]
            pos <= q <= s@.len() && s@.subrange(pos as int, q) == stash_wire(v) implies v.len() == n && at <= q && s@.subrange(at as int, q) == concat_map(v.subrange(0, v.len() as int), f) by {
            assert(r0 == Some((v.len() as u64, (pos + 8) as usize)));
            assert(v.subrange(0, v.len() as int) =~= v);
        }
    }
    while i < n
        invariant
            pos + 8 == p0 <= at <= s@.len(),
            i <= n,
            out@.len() == i,
            s@.subrange(pos as int, p0 as int) == le_u64(n),
            s@.subrange(p0 as int, at as int) == concat_map(out@, f),
            f == (|d: DeprecatedEpochIncompleteSlots| d.wire()),
            forall|v: Seq<DeprecatedEpochIncompleteSlots>, q: int|
                #![trigger s@.subrange(pos as int, q), stash_wire(v)]
                pos <= q <= s@.len() && s@.subrange(pos as int, q) == stash_wire(v) ==> v.len() == n && at <= q && s@.subrange(at as int, q) == concat_map(v.subrange(i as int, v.len() as int), f)
                    && forall|j: int| 0 <= j < i ==> #[trigger] out@[j].same(v[j]),
        decreases n - i,
    {
        let r1 = read_stash_item(s, at);
        proof {
            assert forall|v: Seq<DeprecatedEpochIncompleteSlots>, q: int|
                #![trigger s@.subrange(pos as int, q), stash_wire(v)]
                pos <= q <= s@.len() && s@.subrange(pos as int, q) == stash_wire(v) implies (r1 matches Some((x, e)) && x.same(v[i as int]) && e <= q && s@.subrange(e as int, q)
                    == concat_map(v.subrange(i + 1, v.len() as int), f)) by {
                lemma_concat_map_at(v, f, i as int);
                assert(f(v[i as int]) == v[i as int].wire());
                lemma_split(s@, at as int, q, f(v[i as int]), concat_map(v.subrange(i + 1, v.len() as int), f));
            }
        }
        let (x, e) = match r1 {
            Some(y) => y,
            None => {
                proof {
                    assert forall|v: Seq<DeprecatedEpochIncompleteSlots>, q: int|
                        #![trigger s@.subrange(pos as int, q), stash_wire(v)]
                        pos <= q <= s@.len() && s@.subrange(pos as int, q) == stash_wire(v) implies false by {
                        assert(r1 is Some);
                    }
                }
                return None;
            },
        };
        proof {
            lemma_concat_map_step(out@.push(x), f, i as int);
            assert(out@.push(x).subrange(0, i as int) =~= out@);
            assert(out@.push(x).subrange(0, i + 1) =~= out@.push(x));
            assert(f(x) == x.wire());
            lemma_join(s@, p0 as int, at as int, e as int, concat_map(out@, f), f(x));
        }
        let ghost old_out = out@;
        out.push(x);
        at = e;
        i = i + 1;
        proof {
            assert forall|v: Seq<DeprecatedEpochIncompleteSlots>, q: int|
                #![trigger s@.subrange(pos as int, q), stash_wire(v)]
                pos <= q <= s@.len() && s@.subrange(pos as int, q) == stash_wire(v) implies v.len() == n && at <= q && s@.subrange(at as int, q) == concat_map(v.subrange(i as int, v.len() as int), f)
                    && forall|j: int| 0 <= j < i ==> #[trigger] out@[j].same(v[j]) by {
                assert(r1 is Some);
                assert forall|j: int| 0 <= j < i implies #[trigger] out@[j].same(v[j]) by {
                    if j < i - 1 {
                        assert(out@[j] == old_out[j]);
                    }
                }
            }
        }
    }
    proof {
        lemma_join(s@, pos as int, p0 as int, at as int, le_u64(n), concat_map(out@, f));
        assert forall|v: Seq<DeprecatedEpochIncompleteSlots>, q: int|
            #![trigger s@.subrange(pos as int, q), stash_wire(v)]
            pos <= q <= s@.len() && s@.subrange(pos as int, q) == stash_wire(v) implies at == q by {
            assert(v.subrange(n as int, v.len() as int).len() == 0);
            assert(concat_map(v.subrange(n as int, v.len() as int), f).len() == 0);
        }
    }
    Some((out, at))
}


fn read_lowest_slot(s: &Vec<u8>, pos: usize) -> (r: Option<(LowestSlot, usize)>)
    ensures
        r matches Some((v, p)) ==> pos <= p <= s@.len() && s@.subrange(pos as int, p as int) == v.wire(),
        forall|v: LowestSlot, q: int|
            #![trigger s@.subrange(pos as int, q), v.wire()]
            pos <= q <= s@.len() && s@.subrange(pos as int, q) == v.wire() ==> (r matches Some((x, p)) && p == q && x.same(v)),
{
    proof {
        assert forall|v: LowestSlot, q: int|
            #![trigger s@.subrange(pos as int, q), v.wire()]
            pos <= q <= s@.len() && s@.subrange(pos as int, q) == v.wire() implies {
                &&& q == pos + (v.from.bytes@ + le_u64(v.root) + le_u64(v.lowest) + u64s_wire(v.slots@) + stash_wire(v.stash@) + le_u64(v.wallclock)).len()
                &&& s@.subrange(pos as int, pos + (v.from.bytes@).len()) == v.from.bytes@
                &&& s@.subrange(pos + (v.from.bytes@).len(), pos + (v.from.bytes@ + le_u64(v.root)).len()) == le_u64(v.root)
                &&& s@.subrange(pos + (v.from.bytes@ + le_u64(v.root)).len(), pos + (v.from.bytes@ + le_u64(v.root) + le_u64(v.lowest)).len()) == le_u64(v.lowest)
                &&& s@.subrange(pos + (v.from.bytes@ + le_u64(v.root) + le_u64(v.lowest)).len(), pos + (v.from.bytes@ + le_u64(v.root) + le_u64(v.lowest) + u64s_wire(v.slots@)).len()) == u64s_wire(v.slots@)
                &&& s@.subrange(pos + (v.from.bytes@ + le_u64(v.root) + le_u64(v.lowest) + u64s_wire(v.slots@)).len(), pos + (v.from.bytes@ + le_u64(v.root) + le_u64(v.lowest) + u64s_wire(v.slots@) + stash_wire(v.stash@)).len()) == stash_wire(v.stash@)
                &&& s@.subrange(pos + (v.from.bytes@ + le_u64(v.root) + le_u64(v.lowest) + u64s_wire(v.slots@) + stash_wire(v.stash@)).len(), q) == le_u64(v.wallclock)
            } by {
            assert(v.wire() == v.from.bytes@ + le_u64(v.root) + le_u64(v.lowest) + u64s_wire(v.slots@) + stash_wire(v.stash@) + le_u64(v.wallclock));
            lemma_split(s@, pos as int, q, v.from.bytes@ + le_u64(v.root) + le_u64(v.lowest) + u64s_wire(v.slots@) + stash_wire(v.stash@), le_u64(v.wallclock));
            lemma_split(s@, pos as int, pos + (v.from.bytes@ + le_u64(v.root) + le_u64(v.lowest) + u64s_wire(v.slots@) + stash_wire(v.stash@)).len(), v.from.bytes@ + le_u64(v.root) + le_u64(v.lowest) + u64s_wire(v.slots@), stash_wire(v.stash@));
            lemma_split(s@, pos as int, pos + (v.from.bytes@ + le_u64(v.root) + le_u64(v.lowest) + u64s_wire(v.slots@)).len(), v.from.bytes@ + le_u64(v.root) + le_u64(v.lowest), u64s_wire(v.slots@));
            lemma_split(s@, pos as int, pos + (v.from.bytes@ + le_u64(v.root) + le_u64(v.lowest)).len(), v.from.bytes@ + le_u64(v.root), le_u64(v.lowest));
            lemma_split(s@, pos as int, pos + (v.from.bytes@ + le_u64(v.root)).len(), v.from.bytes@, le_u64(v.root));
        }
    }
    let r0 = read_pubkey(s, pos);
    if r0.is_none() {
        proof {
            assert forall|v: LowestSlot, q: int|
                #![trigger s@.subrange(pos as int, q), v.wire()]
                pos <= q <= s@.len() && s@.subrange(pos as int, q) == v.wire() implies false by {
                assert(s@.subrange(pos as int, pos + (v.from.bytes@).len()) == v.from.bytes@);
            }
        }
        return None;
    }
    let (from, end0) = r0.unwrap();
    proof {
        assert forall|v: LowestSlot, q: int|
            #![trigger s@.subrange(pos as int, q), v.wire()]
            pos <= q <= s@.len() && s@.subrange(pos as int, q) == v.wire() implies from == v.from && end0 == pos + (v.from.bytes@).len() by {
            assert(s@.subrange(pos as int, pos + (v.from.bytes@).len()) == v.from.bytes@);
        }
    }
    let r1 = read_u64(s, end0);
    if r1.is_none() {
        proof {
            assert forall|v: LowestSlot, q: int|
                #![trigger s@.subrange(pos as int, q), v.wire()]
                pos <= q <= s@.len() && s@.subrange(pos as int, q) == v.wire() implies false by {
                assert(s@.subrange(pos + (v.from.bytes@).len(), pos + (v.from.bytes@ + le_u64(v.root)).len()) == le_u64(v.root));
            }
        }
        return None;
    }
    let (root, end1) = r1.unwrap();
    proof {
        assert forall|v: LowestSlot, q: int|
            #![trigger s@.subrange(pos as int, q), v.wire()]
            pos <= q <= s@.len() && s@.subrange(pos as int, q) == v.wire() implies root == v.root && end1 == pos + (v.from.bytes@ + le_u64(v.root)).len() by {
            assert(s@.subrange(pos + (v.from.bytes@).len(), pos + (v.from.bytes@ + le_u64(v.root)).len()) == le_u64(v.root));
        }
    }
    let r2 = read_u64(s, end1);
    if r2.is_none() {
        proof {
            assert forall|v: LowestSlot, q: int|
                #![trigger s@.subrange(pos as int, q), v.wire()]
                pos <= q <= s@.len() && s@.subrange(pos as int, q) == v.wire() implies false by {
                assert(s@.subrange(pos + (v.from.bytes@ + le_u64(v.root)).len(), pos + (v.from.bytes@ + le_u64(v.root) + le_u64(v.lowest)).len()) == le_u64(v.lowest));
            }
        }
        return None;
    }
    let (lowest, end2) = r2.unwrap();
    proof {
        assert forall|v: LowestSlot, q: int|
            #![trigger s@.subrange(pos as int, q), v.wire()]
            pos <= q <= s@.len() && s@.subrange(pos as int, q) == v.wire() implies lowest == v.lowest && end2 == pos + (v.from.bytes@ + le_u64(v.root) + le_u64(v.lowest)).len() by {
            assert(s@.subrange(pos + (v.from.bytes@ + le_u64(v.root)).len(), pos + (v.from.bytes@ + le_u64(v.root) + le_u64(v.lowest)).len()) == le_u64(v.lowest));
        }
    }
    let r3 = read_u64_seq(s, end2);
    if r3.is_none() {
        proof {
            assert forall|v: LowestSlot, q: int|
                #![trigger s@.subrange(pos as int, q), v.wire()]
                pos <= q <= s@.len() && s@.subrange(pos as int, q) == v.wire() implies false by {
                assert(s@.subrange(pos + (v.from.bytes@ + le_u64(v.root) + le_u64(v.lowest)).len(), pos + (v.from.bytes@ + le_u64(v.root) + le_u64(v.lowest) + u64s_wire(v.slots@)).len()) == u64s_wire(v.slots@));
            }
        }
        return None;
    }
    let (slots, end3) = r3.unwrap();
    proof {
        assert forall|v: LowestSlot, q: int|
            #![trigger s@.subrange(pos as int, q), v.wire()]
            pos <= q <= s@.len() && s@.subrange(pos as int, q) == v.wire() implies slots@ == v.slots@ && end3 == pos + (v.from.bytes@ + le_u64(v.root) + le_u64(v.lowest) + u64s_wire(v.slots@)).len() by {
            assert(s@.subrange(pos + (v.from.bytes@ + le_u64(v.root) + le_u64(v.lowest)).len(), pos + (v.from.bytes@ + le_u64(v.root) + le_u64(v.lowest) + u64s_wire(v.slots@)).len()) == u64s_wire(v.slots@));
            assert(slots@ =~= v.slots@);
        }
    }
    let r4 = read_stash(s, end3);
    if r4.is_none() {
        proof {
            assert forall|v: LowestSlot, q: int|
                #![trigger s@.subrange(pos as int, q), v.wire()]
                pos <= q <= s@.len() && s@.subrange(pos as int, q) == v.wire() implies false by {
                assert(s@.subrange(pos + (v.from.bytes@ + le_u64(v.root) + le_u64(v.lowest) + u64s_wire(v.slots@)).len(), pos + (v.from.bytes@ + le_u64(v.root) + le_u64(v.lowest) + u64s_wire(v.slots@) + stash_wire(v.stash@)).len()) == stash_wire(v.stash@));
            }
        }
        return None;
    }
    let (stash, end4) = r4.unwrap();
    proof {
        assert forall|v: LowestSlot, q: int|
            #![trigger s@.subrange(pos as int, q), v.wire()]
            pos <= q <= s@.len() && s@.subrange(pos as int, q) == v.wire() implies stash@.len() == v.stash@.len() && (forall|j: int| 0 <= j < stash@.len() ==> #[trigger] stash@[j].same(v.stash@[j])) && end4 == pos + (v.from.bytes@ + le_u64(v.root) + le_u64(v.lowest) + u64s_wire(v.slots@) + stash_wire(v.stash@)).len() by {
            assert(s@.subrange(pos + (v.from.bytes@ + le_u64(v.root) + le_u64(v.lowest) + u64s_wire(v.slots@)).len(), pos + (v.from.bytes@ + le_u64(v.root) + le_u64(v.lowest) + u64s_wire(v.slots@) + stash_wire(v.stash@)).len()) == stash_wire(v.stash@));
        }
    }
    let r5 = read_u64(s, end4);
    if r5.is_none() {
        proof {
            assert forall|v: LowestSlot, q: int|
                #![trigger s@.subrange(pos as int, q), v.wire()]
                pos <= q <= s@.len() && s@.subrange(pos as int, q) == v.wire() implies false by {
                assert(s@.subrange(pos + (v.from.bytes@ + le_u64(v.root) + le_u64(v.lowest) + u64s_wire(v.slots@) + stash_wire(v.stash@)).len(), q) == le_u64(v.wallclock));
            }
        }
        return None;
    }
    let (wallclock, end5) = r5.unwrap();
    proof {
        assert forall|v: LowestSlot, q: int|
            #![trigger s@.subrange(pos as int, q), v.wire()]
            pos <= q <= s@.len() && s@.subrange(pos as int, q) == v.wire() implies wallclock == v.wallclock && end5 == q by {
            assert(s@.subrange(pos + (v.from.bytes@ + le_u64(v.root) + le_u64(v.lowest) + u64s_wire(v.slots@) + stash_wire(v.stash@)).len(), q) == le_u64(v.wallclock));
        }
    }
    let res = LowestSlot { from, root, lowest, slots, stash, wallclock };
    proof {
        lemma_join(s@, pos as int, end0 as int, end1 as int, from.bytes@, le_u64(root));
        lemma_join(s@, pos as int, end1 as int, end2 as int, from.bytes@ + le_u64(root), le_u64(lowest));
        lemma_join(s@, pos as int, end2 as int, end3 as int, from.bytes@ + le_u64(root) + le_u64(lowest), u64s_wire(slots@));
        lemma_join(s@, pos as int, end3 as int, end4 as int, from.bytes@ + le_u64(root) + le_u64(lowest) + u64s_wire(slots@), stash_wire(stash@));
        lemma_join(s@, pos as int, end4 as int, end5 as int, from.bytes@ + le_u64(root) + le_u64(lowest) + u64s_wire(slots@) + stash_wire(stash@), le_u64(wallclock));
        assert(res.wire() == from.bytes@ + le_u64(root) + le_u64(lowest) + u64s_wire(slots@) + stash_wire(stash@) + le_u64(wallclock));
    }
    Some((res, end5))
}


fn read_usize(s: &Vec<u8>, pos: usize) -> (r: Option<(usize, usize)>)
    ensures
        r matches Some((v, p)) ==> pos <= p <= s@.len() && s@.subrange(pos as int, p as int) == len_prefix(v as nat),
        forall|v: usize, q: int|
            #![trigger s@.subrange(pos as int, q), len_prefix(v as nat)]
            pos <= q <= s@.len() && s@.subrange(pos as int, q) == len_prefix(v as nat) ==> r == Some((v, q as usize)),
{
    let r0 = read_u64(s, pos);
    match r0 {
        Some((x, p)) => {
            if x > usize::MAX as u64 {
                proof {
                    assert forall|v: usize, q: int|
                        #![trigger s@.subrange(pos as int, q), len_prefix(v as nat)]
                        pos <= q <= s@.len() && s@.subrange(pos as int, q) == len_prefix(v as nat) implies false by {
                        assert(r0 == Some(((v as nat) as u64, q as usize)));
                    }
                }
                None
            } else {
                proof {
                    assert forall|v: usize, q: int|
                        #![trigger s@.subrange(pos as int, q), len_prefix(v as nat)]
                        pos <= q <= s@.len() && s@.subrange(pos as int, q) == len_prefix(v as nat) implies v == x as usize && q == p by {
                        assert(len_prefix(v as nat) == le_u64(v as u64));
                        assert(r0 == Some((v as u64, q as usize)));
                        assert(x == v as u64);
                        assert(v as u64 == v as int);
                    }
                }
                Some((x as usize, p))
            }
        },
        None => {
            proof {
                assert forall|v: usize, q: int|
                    #![trigger s@.subrange(pos as int, q), len_prefix(v as nat)]
                    pos <= q <= s@.len() && s@.subrange(pos as int, q) == len_prefix(v as nat) implies false by {
                    assert(r0 == Some(((v as nat) as u64, q as usize)));
                }
            }
            None
        },
    }
}

fn read_bitvec(s: &Vec<u8>, pos: usize) -> (r: Option<(BitVec, usize)>)
    ensures
        r matches Some((v, p)) ==> pos <= p <= s@.len() && s@.subrange(pos as int, p as int) == v.wire(),
        forall|v: BitVec, q: int|
            #![trigger s@.subrange(pos as int, q), v.wire()]
            pos <= q <= s@.len() && s@.subrange(pos as int, q) == v.wire() ==> (r matches Some((x, p)) && p == q
                && x.same(v)),
{
    proof {
        assert forall|v: BitVec, q: int|
            #![trigger s@.subrange(pos as int, q), v.wire()]
            pos <= q <= s@.len() && s@.subrange(pos as int, q) == v.wire() implies pos + 9 <= q && s@[pos as int] == (if v.blocks@.len() == 0 { 0u8 } else { 1u8 })
                && s@.subrange(q - 8, q) == le_u64(v.len) && (v.blocks@.len() == 0 ==> q == pos + 9)
                && (v.blocks@.len() != 0 ==> s@.subrange(pos + 1, q - 8) == enc_byte_vec(v.blocks@)) by {
            let head = if v.blocks@.len() == 0 { seq![0u8] } else { seq![1u8] + enc_byte_vec(v.blocks@) };
            lemma_split(s@, pos as int, q, head, le_u64(v.len));
            assert(s@[pos as int] == s@.subrange(pos as int, q)[0]);
            if v.blocks@.len() != 0 {
                lemma_split(s@, pos as int, q - 8, seq![1u8], enc_byte_vec(v.blocks@));
            }
        }
    }
    if pos >= s.len() {
        return None;
    }
    let tag = s[pos];
    if tag == 0 {
        let r1 = read_u64(s, pos + 1);
        proof {
            assert forall|v: BitVec, q: int|
                #![trigger s@.subrange(pos as int, q), v.wire()]
                pos <= q <= s@.len() && s@.subrange(pos as int, q) == v.wire() implies v.blocks@.len() == 0 && r1 == Some((v.len, q as usize)) by {
                assert(s@.subrange(q - 8, q) == le_u64(v.len));
            }
        }
        match r1 {
            Some((len, e)) => {
                let res = BitVec { blocks: Vec::new(), len };
                proof {
                    assert(s@.subrange(pos as int, pos + 1) =~= seq![0u8]);
                    lemma_join(s@, pos as int, pos + 1, e as int, seq![0u8], le_u64(len));
                    assert(res.blocks@ =~= Seq::<u8>::empty());
                    assert forall|v: BitVec, q: int|
                        #![trigger s@.subrange(pos as int, q), v.wire()]
                        pos <= q <= s@.len() && s@.subrange(pos as int, q) == v.wire() implies res.same(v) by {
                        assert(s@.subrange(q - 8, q) == le_u64(v.len));
                        assert(v.blocks@ =~= res.blocks@);
                    }
                }
                Some((res, e))
            },
            None => None,
        }
    } else if tag == 1 {
        let r1 = read_byte_vec(s, pos + 1);
        proof {
            assert forall|v: BitVec, q: int|
                #![trigger s@.subrange(pos as int, q), v.wire()]
                pos <= q <= s@.len() && s@.subrange(pos as int, q) == v.wire() implies v.blocks@.len() != 0 && (r1 matches Some((
                    y,
                    e,
                )) && e == q - 8 && y@ == v.blocks@) by {
                assert(s@.subrange(pos + 1, q - 8) == enc_byte_vec(v.blocks@));
            }
        }
        let (blocks, e1) = match r1 {
            Some(x) => x,
            None => {
                return None;
            },
        };
        if blocks.len() == 0 {
            return None;
        }
        let r2 = read_u64(s, e1);
        proof {
            assert forall|v: BitVec, q: int|
                #![trigger s@.subrange(pos as int, q), v.wire()]
                pos <= q <= s@.len() && s@.subrange(pos as int, q) == v.wire() implies r2 == Some((v.len, q as usize)) by {
                assert(s@.subrange(q - 8, q) == le_u64(v.len));
            }
        }
        match r2 {
            Some((len, e)) => {
                let res = BitVec { blocks, len };
                proof {
                    assert(s@.subrange(pos as int, pos + 1) =~= seq![1u8]);
                    lemma_join(s@, pos as int, pos + 1, e1 as int, seq![1u8], enc_byte_vec(blocks@));
                    lemma_join(s@, pos as int, e1 as int, e as int, seq![1u8] + enc_byte_vec(blocks@), le_u64(len));
                }
                Some((res, e))
            },
            None => None,
        }
    } else {
        None
    }
}

fn read_flate2(s: &Vec<u8>, pos: usize) -> (r: Option<(Flate2, usize)>)
    ensures
        r matches Some((v, p)) ==> pos <= p <= s@.len() && s@.subrange(pos as int, p as int) == v.wire(),
        forall|v: Flate2, q: int|
            #![trigger s@.subrange(pos as int, q), v.wire()]
            pos <= q <= s@.len() && s@.subrange(pos as int, q) == v.wire() ==> (r matches Some((x, p)) && p == q && x.same(v)),
{
    proof {
        assert forall|v: Flate2, q: int|
            #![trigger s@.subrange(pos as int, q), v.wire()]
            pos <= q <= s@.len() && s@.subrange(pos as int, q) == v.wire() implies {
                &&& q == pos + (le_u64(v.first_slot) + len_prefix(v.num as nat) + enc_byte_vec(v.compressed@)).len()
                &&& s@.subrange(pos as int, pos + (le_u64(v.first_slot)).len()) == le_u64(v.first_slot)
                &&& s@.subrange(pos + (le_u64(v.first_slot)).len(), pos + (le_u64(v.first_slot) + len_prefix(v.num as nat)).len()) == len_prefix(v.num as nat)
                &&& s@.subrange(pos + (le_u64(v.first_slot) + len_prefix(v.num as nat)).len(), q) == enc_byte_vec(v.compressed@)
            } by {
            assert(v.wire() == le_u64(v.first_slot) + len_prefix(v.num as nat) + enc_byte_vec(v.compressed@));
            lemma_split(s@, pos as int, q, le_u64(v.first_slot) + len_prefix(v.num as nat), enc_byte_vec(v.compressed@));
            lemma_split(s@, pos as int, pos + (le_u64(v.first_slot) + len_prefix(v.num as nat)).len(), le_u64(v.first_slot), len_prefix(v.num as nat));
        }
    }
    let r0 = read_u64(s, pos);
    if r0.is_none() {
        proof {
            assert forall|v: Flate2, q: int|
                #![trigger s@.subrange(pos as int, q), v.wire()]
                pos <= q <= s@.len() && s@.subrange(pos as int, q) == v.wire() implies false by {
                assert(s@.subrange(pos as int, pos + (le_u64(v.first_slot)).len()) == le_u64(v.first_slot));
            }
        }
        return None;
    }
    let (first_slot, end0) = r0.unwrap();
    proof {
        assert forall|v: Flate2, q: int|
            #![trigger s@.subrange(pos as int, q), v.wire()]
            pos <= q <= s@.len() && s@.subrange(pos as int, q) == v.wire() implies first_slot == v.first_slot && end0 == pos + (le_u64(v.first_slot)).len() by {
            assert(s@.subrange(pos as int, pos + (le_u64(v.first_slot)).len()) == le_u64(v.first_slot));
        }
    }
    let r1 = read_usize(s, end0);
    if r1.is_none() {
        proof {
            assert forall|v: Flate2, q: int|
                #![trigger s@.subrange(pos as int, q), v.wire()]
                pos <= q <= s@.len() && s@.subrange(pos as int, q) == v.wire() implies false by {
                assert(s@.subrange(pos + (le_u64(v.first_slot)).len(), pos + (le_u64(v.first_slot) + len_prefix(v.num as nat)).len()) == len_prefix(v.num as nat));
            }
        }
        return None;
    }
    let (num, end1) = r1.unwrap();
    proof {
        assert forall|v: Flate2, q: int|
            #![trigger s@.subrange(pos as int, q), v.wire()]
            pos <= q <= s@.len() && s@.subrange(pos as int, q) == v.wire() implies num == v.num && end1 == pos + (le_u64(v.first_slot) + len_prefix(v.num as nat)).len() by {
            assert(s@.subrange(pos + (le_u64(v.first_slot)).len(), pos + (le_u64(v.first_slot) + len_prefix(v.num as nat)).len()) == len_prefix(v.num as nat));
        }
    }
    let r2 = read_byte_vec(s, end1);
    if r2.is_none() {
        proof {
            assert forall|v: Flate2, q: int|
                #![trigger s@.subrange(pos as int, q), v.wire()]
                pos <= q <= s@.len() && s@.subrange(pos as int, q) == v.wire() implies false by {
                assert(s@.subrange(pos + (le_u64(v.first_slot) + len_prefix(v.num as nat)).len(), q) == enc_byte_vec(v.compressed@));
            }
        }
        return None;
    }
    let (compressed, end2) = r2.unwrap();
    proof {
        assert forall|v: Flate2, q: int|
            #![trigger s@.subrange(pos as int, q), v.wire()]
            pos <= q <= s@.len() && s@.subrange(pos as int, q) == v.wire() implies compressed@ == v.compressed@ && end2 == q by {
            assert(s@.subrange(pos + (le_u64(v.first_slot) + len_prefix(v.num as nat)).len(), q) == enc_byte_vec(v.compressed@));
        }
    }
    let res = Flate2 { first_slot, num, compressed };
    proof {
        lemma_join(s@, pos as int, end0 as int, end1 as int, le_u64(first_slot), len_prefix(num as nat));
        lemma_join(s@, pos as int, end1 as int, end2 as int, le_u64(first_slot) + len_prefix(num as nat), enc_byte_vec(compressed@));
        assert(res.wire() == le_u64(first_slot) + len_prefix(num as nat) + enc_byte_vec(compressed@));
    }
    Some((res, end2))
}

fn read_uncompressed(s: &Vec<u8>, pos: usize) -> (r: Option<(Uncompressed, usize)>)
    ensures
        r matches Some((v, p)) ==> pos <= p <= s@.len() && s@.subrange(pos as int, p as int) == v.wire(),
        forall|v: Uncompressed, q: int|
            #![trigger s@.subrange(pos as int, q), v.wire()]
            pos <= q <= s@.len() && s@.subrange(pos as int, q) == v.wire() ==> (r matches Some((x, p)) && p == q && x.same(v)),
{
    proof {
        assert forall|v: Uncompressed, q: int|
            #![trigger s@.subrange(pos as int, q), v.wire()]
            pos <= q <= s@.len() && s@.subrange(pos as int, q) == v.wire() implies {
                &&& q == pos + (le_u64(v.first_slot) + len_prefix(v.num as nat) + v.slots.wire()).len()
                &&& s@.subrange(pos as int, pos + (le_u64(v.first_slot)).len()) == le_u64(v.first_slot)
                &&& s@.subrange(pos + (le_u64(v.first_slot)).len(), pos + (le_u64(v.first_slot) + len_prefix(v.num as nat)).len()) == len_prefix(v.num as nat)
                &&& s@.subrange(pos + (le_u64(v.first_slot) + len_prefix(v.num as nat)).len(), q) == v.slots.wire()
            } by {
            assert(v.wire() == le_u64(v.first_slot) + len_prefix(v.num as nat) + v.slots.wire());
            lemma_split(s@, pos as int, q, le_u64(v.first_slot) + len_prefix(v.num as nat), v.slots.wire());
            lemma_split(s@, pos as int, pos + (le_u64(v.first_slot) + len_prefix(v.num as nat)).len(), le_u64(v.first_slot), len_prefix(v.num as nat));
        }
    }
    let r0 = read_u64(s, pos);
    if r0.is_none() {
        proof {
            assert forall|v: Uncompressed, q: int|
                #![trigger s@.subrange(pos as int, q), v.wire()]
                pos <= q <= s@.len() && s@.subrange(pos as int, q) == v.wire() implies false by {
                assert(s@.subrange(pos as int, pos + (le_u64(v.first_slot)).len()) == le_u64(v.first_slot));
            }
        }
        return None;
    }
    let (first_slot, end0) = r0.unwrap();
    proof {
        assert forall|v: Uncompressed, q: int|
            #![trigger s@.subrange(pos as int, q), v.wire()]
            pos <= q <= s@.len() && s@.subrange(pos as int, q) == v.wire() implies first_slot == v.first_slot && end0 == pos + (le_u64(v.first_slot)).len() by {
            assert(s@.subrange(pos as int, pos + (le_u64(v.first_slot)).len()) == le_u64(v.first_slot));
        }
    }
    let r1 = read_usize(s, end0);
    if r1.is_none() {
        proof {
            assert forall|v: Uncompressed, q: int|
                #![trigger s@.subrange(pos as int, q), v.wire()]
                pos <= q <= s@.len() && s@.subrange(pos as int, q) == v.wire() implies false by {
                assert(s@.subrange(pos + (le_u64(v.first_slot)).len(), pos + (le_u64(v.first_slot) + len_prefix(v.num as nat)).len()) == len_prefix(v.num as nat));
            }
        }
        return None;
    }
    let (num, end1) = r1.unwrap();
    proof {
        assert forall|v: Uncompressed, q: int|
            #![trigger s@.subrange(pos as int, q), v.wire()]
            pos <= q <= s@.len() && s@.subrange(pos as int, q) == v.wire() implies num == v.num && end1 == pos + (le_u64(v.first_slot) + len_prefix(v.num as nat)).len() by {
            assert(s@.subrange(pos + (le_u64(v.first_slot)).len(), pos + (le_u64(v.first_slot) + len_prefix(v.num as nat)).len()) == len_prefix(v.num as nat));
        }
    }
    let r2 = read_bitvec(s, end1);
    if r2.is_none() {
        proof {
            assert forall|v: Uncompressed, q: int|
                #![trigger s@.subrange(pos as int, q), v.wire()]
                pos <= q <= s@.len() && s@.subrange(pos as int, q) == v.wire() implies false by {
                assert(s@.subrange(pos + (le_u64(v.first_slot) + len_prefix(v.num as nat)).len(), q) == v.slots.wire());
            }
        }
        return None;
    }
    let (slots, end2) = r2.unwrap();
    proof {
        assert forall|v: Uncompressed, q: int|
            #![trigger s@.subrange(pos as int, q), v.wire()]
            pos <= q <= s@.len() && s@.subrange(pos as int, q) == v.wire() implies slots.same(v.slots) && end2 == q by {
            assert(s@.subrange(pos + (le_u64(v.first_slot) + len_prefix(v.num as nat)).len(), q) == v.slots.wire());
        }
    }
    let res = Uncompressed { first_slot, num, slots };
    proof {
        lemma_join(s@, pos as int, end0 as int, end1 as int, le_u64(first_slot), len_prefix(num as nat));
        lemma_join(s@, pos as int, end1 as int, end2 as int, le_u64(first_slot) + len_prefix(num as nat), slots.wire());
        assert(res.wire() == le_u64(first_slot) + len_prefix(num as nat) + slots.wire());
    }
    Some((res, end2))
}

fn read_compressed_slots(s: &Vec<u8>, pos: usize) -> (r: Option<(CompressedSlots, usize)>)
    ensures
        r matches Some((v, p)) ==> pos <= p <= s@.len() && s@.subrange(pos as int, p as int) == v.wire(),
        forall|v: CompressedSlots, q: int|
            #![trigger s@.subrange(pos as int, q), v.wire()]
            pos <= q <= s@.len() && s@.subrange(pos as int, q) == v.wire() ==> (r matches Some((x, p)) && p == q
                && x.same(v)),
{
    let r0 = read_u32(s, pos);
    proof {
        assert forall|v: CompressedSlots, q: int|
            #![trigger s@.subrange(pos as int, q), v.wire()]
            pos <= q <= s@.len() && s@.subrange(pos as int, q) == v.wire() implies match v {
                CompressedSlots::Flate2(a) => pos + 4 <= q && r0 == Some((0u32, (pos + 4) as usize)) && s@.subrange(pos + 4, q) == a.wire(),
                CompressedSlots::Uncompressed(a) => pos + 4 <= q && r0 == Some((1u32, (pos + 4) as usize)) && s@.subrange(pos + 4, q) == a.wire(),
            } by {
            match v {
                CompressedSlots::Flate2(a) => {
                    lemma_split(s@, pos as int, q, le_u32(0), a.wire());
                },
                CompressedSlots::Uncompressed(a) => {
                    lemma_split(s@, pos as int, q, le_u32(1), a.wire());
                },
            }
        }
    }
    let (tag, e0) = match r0 {
        Some(x) => x,
        None => {
            return None;
        },
    };
    if tag == 0 {
        let r1 = read_flate2(s, e0);
        proof {
            assert forall|v: CompressedSlots, q: int|
                #![trigger s@.subrange(pos as int, q), v.wire()]
                pos <= q <= s@.len() && s@.subrange(pos as int, q) == v.wire() implies (v matches CompressedSlots::Flate2(a) && (r1 matches Some((x, p)) && p == q && x.same(a))) by {
                if let CompressedSlots::Flate2(a) = v {
                    assert(s@.subrange(pos + 4, q) == a.wire());
                }
            }
        }
        match r1 {
            Some((a, e)) => {
                proof {
                    lemma_join(s@, pos as int, e0 as int, e as int, le_u32(0), a.wire());
                }
                Some((CompressedSlots::Flate2(a), e))
            },
            None => None,
        }
    } else if tag == 1 {
        let r1 = read_uncompressed(s, e0);
        proof {
            assert forall|v: CompressedSlots, q: int|
                #![trigger s@.subrange(pos as int, q), v.wire()]
                pos <= q <= s@.len() && s@.subrange(pos as int, q) == v.wire() implies (v matches CompressedSlots::Uncompressed(a) && (r1 matches Some((x, p)) && p == q && x.same(a))) by {
                if let CompressedSlots::Uncompressed(a) = v {
                    assert(s@.subrange(pos + 4, q) == a.wire());
                }
            }
        }
        match r1 {
            Some((a, e)) => {
                proof {
                    lemma_join(s@, pos as int, e0 as int, e as int, le_u32(1), a.wire());
                }
                Some((CompressedSlots::Uncompressed(a), e))
            },
            None => None,
        }
    } else {
        None
    }
}

fn read_compressed_slots_seq(s: &Vec<u8>, pos: usize) -> (r: Option<(Vec<CompressedSlots>, usize)>)
    ensures
        r matches Some((x, p)) ==> pos <= p <= s@.len() && s@.subrange(pos as int, p as int) == compressed_slots_wire(x@),
        forall|v: Seq<CompressedSlots>, q: int|
            #![trigger s@.subrange(pos as int, q), compressed_slots_wire(v)]
            pos <= q <= s@.len() && s@.subrange(pos as int, q) == compressed_slots_wire(v) ==> (r matches Some((x, p)) && p == q && x@.len() == v.len() && forall|j: int|
                0 <= j < v.len() ==> #[trigger] x@[j].same(v[j])),
{
    let ghost f = |c: CompressedSlots| c.wire();
    let slen = s.len();
    proof {
        assert forall|x: CompressedSlots| #[trigger] f(x).len() >= 1 by {
            assert(f(x) == x.wire());
        }
        assert forall|v: Seq<CompressedSlots>, q: int|
            #![trigger s@.subrange(pos as int, q), compressed_slots_wire(v)]
            pos <= q <= s@.len() && s@.subrange(pos as int, q) == compressed_slots_wire(v) implies pos + 8 <= q && s@.subrange(pos as int, pos + 8) == le_u64(v.len() as u64) && s@.subrange(pos + 8, q)
                == concat_map(v, f) && v.len() < 0x1_0000_0000_0000_0000 by {
            lemma_split(s@, pos as int, q, le_u64(v.len() as u64), concat_map(v, f));
            lemma_concat_map_len(v, f);
            assert(q <= slen);
        }
    }
    let r0 = read_u64(s, pos);
    let (n, p0) = match r0 {
        Some(x) => x,
        None => {
            proof {
                assert forall|v: Seq<CompressedSlots>, q: int|
                    #![trigger s@.subrange(pos as int, q), compressed_slots_wire(v)]
                    pos <= q <= s@.len() && s@.subrange(pos as int, q) == compressed_slots_wire(v) implies false by {
                    assert(r0 == Some((v.len() as u64, (pos + 8) as usize)));
                }
            }
            return None;
        },
    };
    let mut out: Vec<CompressedSlots> = Vec::new();
    let mut at: usize = p0;
    let mut i: u64 = 0;
    assert(s@.subrange(p0 as int, p0 as int) =~= concat_map(out@, f));
    proof {
        assert forall|v: Seq<CompressedSlots>, q: int|
            #![trigger s@.subrange(pos as int, q), compressed_slots_wire(v)]
            pos <= q <= s@.len() && s@.subrange(pos as int, q) == compressed_slots_wire(v) implies v.len() == n && at <= q && s@.subrange(at as int, q) == concat_map(v.subrange(0, v.len() as int), f) by {
            assert(r0 == Some((v.len() as u64, (pos + 8) as usize)));
            assert(v.subrange(0, v.len() as int) =~= v);
        }
    }
    while i < n
        invariant
            pos + 8 == p0 <= at <= s@.len(),
            i <= n,
            out@.len() == i,
            s@.subrange(pos as int, p0 as int) == le_u64(n),
            s@.subrange(p0 as int, at as int) == concat_map(out@, f),
            f == (|c: CompressedSlots| c.wire()),
            forall|v: Seq<CompressedSlots>, q: int|
                #![trigger s@.subrange(pos as int, q), compressed_slots_wire(v)]
                pos <= q <= s@.len() && s@.subrange(pos as int, q) == compressed_slots_wire(v) ==> v.len() == n && at <= q && s@.subrange(at as int, q) == concat_map(v.subrange(i as int, v.len() as int), f)
                    && forall|j: int| 0 <= j < i ==> #[trigger] out@[j].same(v[j]),
        decreases n - i,
    {
        let r1 = read_compressed_slots(s, at);
        proof {
            assert forall|v: Seq<CompressedSlots>, q: int|
                #![trigger s@.subrange(pos as int, q), compressed_slots_wire(v)]
                pos <= q <= s@.len() && s@.subrange(pos as int, q) == compressed_slots_wire(v) implies (r1 matches Some((x, e)) && x.same(v[i as int]) && e <= q && s@.subrange(e as int, q)
                    == concat_map(v.subrange(i + 1, v.len() as int), f)) by {
                lemma_concat_map_at(v, f, i as int);
                assert(f(v[i as int]) == v[i as int].wire());
                lemma_split(s@, at as int, q, f(v[i as int]), concat_map(v.subrange(i + 1, v.len() as int), f));
            }
        }
        let (x, e) = match r1 {
            Some(y) => y,
            None => {
                proof {
                    assert forall|v: Seq<CompressedSlots>, q: int|
                        #![trigger s@.subrange(pos as int, q), compressed_slots_wire(v)]
                        pos <= q <= s@.len() && s@.subrange(pos as int, q) == compressed_slots_wire(v) implies false by {
                        assert(r1 is Some);
                    }
                }
                return None;
            },
        };
        proof {
            lemma_concat_map_step(out@.push(x), f, i as int);
            assert(out@.push(x).subrange(0, i as int) =~= out@);
            assert(out@.push(x).subrange(0, i + 1) =~= out@.push(x));
            assert(f(x) == x.wire());
            lemma_join(s@, p0 as int, at as int, e as int, concat_map(out@, f), f(x));
        }
        let ghost old_out = out@;
        out.push(x);
        at = e;
        i = i + 1;
        proof {
            assert forall|v: Seq<CompressedSlots>, q: int|
                #![trigger s@.subrange(pos as int, q), compressed_slots_wire(v)]
                pos <= q <= s@.len() && s@.subrange(pos as int, q) == compressed_slots_wire(v) implies v.len() == n && at <= q && s@.subrange(at as int, q) == concat_map(v.subrange(i as int, v.len() as int), f)
                    && forall|j: int| 0 <= j < i ==> #[trigger] out@[j].same(v[j]) by {
                assert(r1 is Some);
                assert forall|j: int| 0 <= j < i implies #[trigger] out@[j].same(v[j]) by {
                    if j < i - 1 {
                        assert(out@[j] == old_out[j]);
                    }
                }
            }
        }
    }
    proof {
        lemma_join(s@, pos as int, p0 as int, at as int, le_u64(n), concat_map(out@, f));
        assert forall|v: Seq<CompressedSlots>, q: int|
            #![trigger s@.subrange(pos as int, q), compressed_slots_wire(v)]
            pos <= q <= s@.len() && s@.subrange(pos as int, q) == compressed_slots_wire(v) implies at == q by {
            assert(v.subrange(n as int, v.len() as int).len() == 0);
            assert(concat_map(v.subrange(n as int, v.len() as int), f).len() == 0);
        }
    }
    Some((out, at))
}


fn read_epoch_slots(s: &Vec<u8>, pos: usize) -> (r: Option<(EpochSlots, usize)>)
    ensures
        r matches Some((v, p)) ==> pos <= p <= s@.len() && s@.subrange(pos as int, p as int) == v.wire(),
        forall|v: EpochSlots, q: int|
            #![trigger s@.subrange(pos as int, q), v.wire()]
            pos <= q <= s@.len() && s@.subrange(pos as int, q) == v.wire() ==> (r matches Some((x, p)) && p == q && x.same(v)),
{
    proof {
        assert forall|v: EpochSlots, q: int|
            #![trigger s@.subrange(pos as int, q), v.wire()]
            pos <= q <= s@.len() && s@.subrange(pos as int, q) == v.wire() implies {
                &&& q == pos + (v.from.bytes@ + compressed_slots_wire(v.slots@) + le_u64(v.wallclock)).len()
                &&& s@.subrange(pos as int, pos + (v.from.bytes@).len()) == v.from.bytes@
                &&& s@.subrange(pos + (v.from.bytes@).len(), pos + (v.from.bytes@ + compressed_slots_wire(v.slots@)).len()) == compressed_slots_wire(v.slots@)
                &&& s@.subrange(pos + (v.from.bytes@ + compressed_slots_wire(v.slots@)).len(), q) == le_u64(v.wallclock)
            } by {
            assert(v.wire() == v.from.bytes@ + compressed_slots_wire(v.slots@) + le_u64(v.wallclock));
            lemma_split(s@, pos as int, q, v.from.bytes@ + compressed_slots_wire(v.slots@), le_u64(v.wallclock));
            lemma_split(s@, pos as int, pos + (v.from.bytes@ + compressed_slots_wire(v.slots@)).len(), v.from.bytes@, compressed_slots_wire(v.slots@));
        }
    }
    let r0 = read_pubkey(s, pos);
    if r0.is_none() {
        proof {
            assert forall|v: EpochSlots, q: int|
                #![trigger s@.subrange(pos as int, q), v.wire()]
                pos <= q <= s@.len() && s@.subrange(pos as int, q) == v.wire() implies false by {
                assert(s@.subrange(pos as int, pos + (v.from.bytes@).len()) == v.from.bytes@);
            }
        }
        return None;
    }
    let (from, end0) = r0.unwrap();
    proof {
        assert forall|v: EpochSlots, q: int|
            #![trigger s@.subrange(pos as int, q), v.wire()]
            pos <= q <= s@.len() && s@.subrange(pos as int, q) == v.wire() implies from == v.from && end0 == pos + (v.from.bytes@).len() by {
            assert(s@.subrange(pos as int, pos + (v.from.bytes@).len()) == v.from.bytes@);
        }
    }
    let r1 = read_compressed_slots_seq(s, end0);
    if r1.is_none() {
        proof {
            assert forall|v: EpochSlots, q: int|
                #![trigger s@.subrange(pos as int, q), v.wire()]
                pos <= q <= s@.len() && s@.subrange(pos as int, q) == v.wire() implies false by {
                assert(s@.subrange(pos + (v.from.bytes@).len(), pos + (v.from.bytes@ + compressed_slots_wire(v.slots@)).len()) == compressed_slots_wire(v.slots@));
            }
        }
        return None;
    }
    let (slots, end1) = r1.unwrap();
    proof {
        assert forall|v: EpochSlots, q: int|
            #![trigger s@.subrange(pos as int, q), v.wire()]
            pos <= q <= s@.len() && s@.subrange(pos as int, q) == v.wire() implies slots@.len() == v.slots@.len() && (forall|j: int| 0 <= j < slots@.len() ==> #[trigger] slots@[j].same(v.slots@[j])) && end1 == pos + (v.from.bytes@ + compressed_slots_wire(v.slots@)).len() by {
            assert(s@.subrange(pos + (v.from.bytes@).len(), pos + (v.from.bytes@ + compressed_slots_wire(v.slots@)).len()) == compressed_slots_wire(v.slots@));
        }
    }
    let r2 = read_u64(s, end1);
    if r2.is_none() {
        proof {
            assert forall|v: EpochSlots, q: int|
                #![trigger s@.subrange(pos as int, q), v.wire()]
                pos <= q <= s@.len() && s@.subrange(pos as int, q) == v.wire() implies false by {
                assert(s@.subrange(pos + (v.from.bytes@ + compressed_slots_wire(v.slots@)).len(), q) == le_u64(v.wallclock));
            }
        }
        return None;
    }
    let (wallclock, end2) = r2.unwrap();
    proof {
        assert forall|v: EpochSlots, q: int|
            #![trigger s@.subrange(pos as int, q), v.wire()]
            pos <= q <= s@.len() && s@.subrange(pos as int, q) == v.wire() implies wallclock == v.wallclock && end2 == q by {
            assert(s@.subrange(pos + (v.from.bytes@ + compressed_slots_wire(v.slots@)).len(), q) == le_u64(v.wallclock));
        }
    }
    let res = EpochSlots { from, slots, wallclock };
    proof {
        lemma_join(s@, pos as int, end0 as int, end1 as int, from.bytes@, compressed_slots_wire(slots@));
        lemma_join(s@, pos as int, end1 as int, end2 as int, from.bytes@ + compressed_slots_wire(slots@), le_u64(wallclock));
        assert(res.wire() == from.bytes@ + compressed_slots_wire(slots@) + le_u64(wallclock));
    }
    Some((res, end2))
}


/// The encoding of a vote record with index `i`.
pub open spec fn vote_record_wire(i: u8, x: Vote) -> Seq<u8> {
    le_u32(1) + (seq![i] + x.wire())
}

/// The vote record whose encoding is all of `bytes`, if any: the transaction
/// is what lies between the voter and the final wallclock.
#[verifier::spinoff_prover]
fn read_vote(bytes: &Vec<u8>) -> (r: Option<(u8, Vote)>)
    requires
        bytes@.len() >= 45,
    ensures
        r matches Some((i, x)) ==> vote_record_wire(i, x) == bytes@,
        forall|i: u8, x: Vote|
            #[trigger] vote_record_wire(i, x) == bytes@ ==> (r matches Some((j, y)) && j == i && y.from == x.from
                && y.wallclock == x.wallclock && y.transaction.encoded@ == x.transaction.encoded@),
{
    let n = bytes.len();
    let r0 = read_u32(bytes, 0);
    let r2 = read_pubkey(bytes, 5);
    let r3 = read_u64(bytes, n - 8);
    proof {
        assert(bytes@.subrange(0, n as int) =~= bytes@);
        assert forall|i: u8, x: Vote| #[trigger] vote_record_wire(i, x) == bytes@ implies (r0 == Some((1u32, 4usize))
            && bytes@[4] == i && r2 == Some((x.from, 37usize)) && r3 == Some((x.wallclock, n)) && bytes@.subrange(37, n - 8)
            == x.transaction.encoded@) by {
            let a = x.from.bytes@;
            let t = x.transaction.encoded@;
            let c = le_u64(x.wallclock);
            lemma_split(bytes@, 0, n as int, le_u32(1), seq![i] + (a + t + c));
            lemma_split(bytes@, 4, n as int, seq![i], a + t + c);
            assert(bytes@[4] == bytes@.subrange(4, 5)[0]);
            lemma_split(bytes@, 5, n as int, a + t, c);
            lemma_split(bytes@, 5, n - 8, a, t);
        }
    }
    let (tag, _) = match r0 {
        Some(x) => x,
        None => {
            return None;
        },
    };
    if tag != 1 {
        return None;
    }
    let (from, e2) = match r2 {
        Some(x) => x,
        None => {
            return None;
        },
    };
    let (wallclock, _) = match r3 {
        Some(x) => x,
        None => {
            return None;
        },
    };
    assert(from.bytes@.len() == 32);
    assert(bytes@.subrange(5, e2 as int).len() == e2 - 5);
    assert(e2 == 37);
    let mut encoded: Vec<u8> = Vec::new();
    let mut i: usize = 37;
    while i < n - 8
        invariant
            37 <= i <= n - 8,
            n == bytes@.len(),
            encoded@ == bytes@.subrange(37, i as int),
        decreases n - 8 - i,
    {
        encoded.push(bytes[i]);
        i = i + 1;
        assert(encoded@ =~= bytes@.subrange(37, i as int));
    }
    let idx = bytes[4];
    let vote = Vote { from, transaction: Transaction { encoded }, wallclock };
    proof {
        assert(bytes@.subrange(4, 5) =~= seq![idx]);
        lemma_join(bytes@, 37, n - 8, n as int, encoded@, le_u64(wallclock));
        lemma_join(bytes@, 5, 37, n as int, from.bytes@, encoded@ + le_u64(wallclock));
        lemma_join(bytes@, 4, 5, n as int, seq![idx], from.bytes@ + (encoded@ + le_u64(wallclock)));
        lemma_join(bytes@, 0, 4, n as int, le_u32(1), seq![idx] + (from.bytes@ + (encoded@ + le_u64(wallclock))));
        assert(vote_record_wire(idx, vote) =~= bytes@);
    }
    Some((idx, vote))
}

impl CrdsData {
    /// Decodes a whole byte string as a record. What comes back encodes to
    /// exactly the input, and every record's encoding decodes to that record
    /// (its vectors to vectors of the same contents).
    #[verifier::spinoff_prover]
    #[verifier::rlimit(50)]
    pub fn deserialize(bytes: &Vec<u8>) -> (r: Option<CrdsData>)
        ensures
            r matches Some(v) ==> v.wire() == bytes@,
            forall|v: CrdsData| #[trigger] v.wire() == bytes@ && v.has_compact_layout() ==> r == Some(v),
            forall|v: CrdsData|
                #[trigger] v.wire() == bytes@ ==> (r matches Some(w) && w.same_record(v)),
    {
        let n = bytes.len();
        proof {
            assert(bytes@.subrange(0, n as int) =~= bytes@);
            assert forall|v: CrdsData| #[trigger] v.wire() == bytes@ implies {
                &&& bytes@.subrange(0, 4) == le_u32(v.tag())
                &&& bytes@.subrange(4, n as int) == v.payload_wire()
            } by {
                lemma_split(bytes@, 0, n as int, le_u32(v.tag()), v.payload_wire());
            }
        }
        let r0 = read_u32(bytes, 0);
        let (tag, end0) = match r0 {
            None => {
                proof {
                    assert forall|v: CrdsData| #[trigger] v.wire() == bytes@ implies false by {
                        assert(r0 == Some((v.tag(), 4usize)));
                    }
                }
                return None;
            },
            Some(x) => x,
        };
        if tag == 0 {
            let r1 = read_legacy_contact_info(bytes, end0);
            proof {
                assert forall|v: CrdsData| #[trigger] v.wire() == bytes@ && v.has_compact_layout() implies v matches CrdsData::LegacyContactInfo(x) && r1 == Some((x, n)) by {
                    assert(r0 == Some((v.tag(), 4usize)));
                }
            }
            match r1 {
                Some((x, p)) if p == n => {
                    proof {
                        lemma_join(bytes@, 0, 4, n as int, le_u32(0), x.wire());
                    }
                    Some(CrdsData::LegacyContactInfo(x))
                },
                _ => None,
            }
        } else if tag == 6 {
            let r1 = read_legacy_version(bytes, end0);
            proof {
                assert forall|v: CrdsData| #[trigger] v.wire() == bytes@ && v.has_compact_layout() implies v matches CrdsData::LegacyVersion(x) && r1 == Some((x, n)) by {
                    assert(r0 == Some((v.tag(), 4usize)));
                }
            }
            match r1 {
                Some((x, p)) if p == n => {
                    proof {
                        lemma_join(bytes@, 0, 4, n as int, le_u32(6), x.wire());
                    }
                    Some(CrdsData::LegacyVersion(x))
                },
                _ => None,
            }
        } else if tag == 7 {
            let r1 = read_version(bytes, end0);
            proof {
                assert forall|v: CrdsData| #[trigger] v.wire() == bytes@ && v.has_compact_layout() implies v matches CrdsData::Version(x) && r1 == Some((x, n)) by {
                    assert(r0 == Some((v.tag(), 4usize)));
                }
            }
            match r1 {
                Some((x, p)) if p == n => {
                    proof {
                        lemma_join(bytes@, 0, 4, n as int, le_u32(7), x.wire());
                    }
                    Some(CrdsData::Version(x))
                },
                _ => None,
            }
        } else if tag == 8 {
            let r1 = read_node_instance(bytes, end0);
            proof {
                assert forall|v: CrdsData| #[trigger] v.wire() == bytes@ && v.has_compact_layout() implies v matches CrdsData::NodeInstance(x) && r1 == Some((x, n)) by {
                    assert(r0 == Some((v.tag(), 4usize)));
                }
            }
            match r1 {
                Some((x, p)) if p == n => {
                    proof {
                        lemma_join(bytes@, 0, 4, n as int, le_u32(8), x.wire());
                    }
                    Some(CrdsData::NodeInstance(x))
                },
                _ => None,
            }
        } else if tag == 1 && n >= 45 {
            let r1 = read_vote(bytes);
            proof {
                assert forall|v: CrdsData| #[trigger] v.wire() == bytes@ implies v is Vote by {
                    assert(r0 == Some((v.tag(), 4usize)));
                }
            }
            proof {
                assert forall|v: CrdsData| #[trigger] v.wire() == bytes@ implies v is Vote
                    && vote_record_wire(v->Vote_0, v->Vote_1) == bytes@ by {
                    assert(r0 == Some((v.tag(), 4usize)));
                }
            }
            match r1 {
                Some((idx, vote)) => {
                    assert(CrdsData::Vote(idx, vote).wire() == vote_record_wire(idx, vote));
                    Some(CrdsData::Vote(idx, vote))
                },
                None => None,
            }
        } else if tag == 3 {
            let r1 = read_snapshot_hashes(bytes, end0);
            proof {
                assert forall|v: CrdsData| #[trigger] v.wire() == bytes@ implies (v matches CrdsData::SnapshotHashes(
                    y,
                ) && (r1 matches Some((x, e)) && e == n && x.from == y.from && x.hashes@ == y.hashes@ && x.wallclock == y.wallclock
                   )) by {
                    assert(r0 == Some((v.tag(), 4usize)));
                }
            }
            match r1 {
                Some((x, e)) if e == n => {
                    proof {
                        lemma_join(bytes@, 0, 4, n as int, le_u32(3), x.wire());
                    }
                    Some(CrdsData::SnapshotHashes(x))
                },
                _ => None,
            }
        } else if tag == 4 {
            let r1 = read_snapshot_hashes(bytes, end0);
            proof {
                assert forall|v: CrdsData| #[trigger] v.wire() == bytes@ implies (v matches CrdsData::AccountsHashes(
                    y,
                ) && (r1 matches Some((x, e)) && e == n && x.from == y.from && x.hashes@ == y.hashes@ && x.wallclock == y.wallclock
                   )) by {
                    assert(r0 == Some((v.tag(), 4usize)));
                }
            }
            match r1 {
                Some((x, e)) if e == n => {
                    proof {
                        lemma_join(bytes@, 0, 4, n as int, le_u32(4), x.wire());
                    }
                    Some(CrdsData::AccountsHashes(x))
                },
                _ => None,
            }
        } else if tag == 10 {
            let r1 = read_incremental_snapshot_hashes(bytes, end0);
            proof {
                assert forall|v: CrdsData| #[trigger] v.wire() == bytes@ implies (v matches CrdsData::IncrementalSnapshotHashes(
                    y,
                ) && (r1 matches Some((x, e)) && e == n && x.from == y.from && x.base == y.base && x.hashes@ == y.hashes@ && x.wallclock == y.wallclock
                   )) by {
                    assert(r0 == Some((v.tag(), 4usize)));
                }
            }
            match r1 {
                Some((x, e)) if e == n => {
                    proof {
                        lemma_join(bytes@, 0, 4, n as int, le_u32(10), x.wire());
                    }
                    Some(CrdsData::IncrementalSnapshotHashes(x))
                },
                _ => None,
            }
        } else if tag == 2 && n >= 5 {
            let idx = bytes[4];
            let r1 = read_lowest_slot(bytes, 5);
            proof {
                assert forall|v: CrdsData| #[trigger] v.wire() == bytes@ implies (v matches CrdsData::LowestSlot(
                    i,
                    y,
                ) && i == idx && (r1 matches Some((x, e)) && e == n && x.same(y))) by {
                    assert(r0 == Some((v.tag(), 4usize)));
                    if let CrdsData::LowestSlot(i, y) = v {
                        lemma_split(bytes@, 4, n as int, seq![i], y.wire());
                        assert(bytes@[4] == bytes@.subrange(4, 5)[0]);
                    }
                }
            }
            match r1 {
                Some((x, e)) if e == n => {
                    proof {
                        assert(bytes@.subrange(4, 5) =~= seq![idx]);
                        lemma_join(bytes@, 4, 5, n as int, seq![idx], x.wire());
                        lemma_join(bytes@, 0, 4, n as int, le_u32(2), seq![idx] + x.wire());
                    }
                    Some(CrdsData::LowestSlot(idx, x))
                },
                _ => None,
            }
        } else if tag == 5 && n >= 5 {
            let idx = bytes[4];
            let r1 = read_epoch_slots(bytes, 5);
            proof {
                assert forall|v: CrdsData| #[trigger] v.wire() == bytes@ implies (v matches CrdsData::EpochSlots(
                    i,
                    y,
                ) && i == idx && (r1 matches Some((x, e)) && e == n && x.same(y))) by {
                    assert(r0 == Some((v.tag(), 4usize)));
                    if let CrdsData::EpochSlots(i, y) = v {
                        lemma_split(bytes@, 4, n as int, seq![i], y.wire());
                        assert(bytes@[4] == bytes@.subrange(4, 5)[0]);
                    }
                }
            }
            match r1 {
                Some((x, e)) if e == n => {
                    proof {
                        assert(bytes@.subrange(4, 5) =~= seq![idx]);
                        lemma_join(bytes@, 4, 5, n as int, seq![idx], x.wire());
                        lemma_join(bytes@, 0, 4, n as int, le_u32(5), seq![idx] + x.wire());
                    }
                    Some(CrdsData::EpochSlots(idx, x))
                },
                _ => None,
            }
        } else if (tag == 9 || tag == 11) && n == 4 {
            let v = if tag == 9 { CrdsData::DuplicateShred() } else { CrdsData::ContactInfo() };
            proof {
                assert(v.wire() =~= bytes@);
                assert forall|w: CrdsData| #[trigger] w.wire() == bytes@ && w.has_compact_layout() implies w == v by {
                    assert(r0 == Some((w.tag(), 4usize)));
                    if !(w is DuplicateShred || w is ContactInfo) {
                        assert(w.payload_wire().len() > 0);
                    }
                }
            }
            Some(v)
        } else {
            proof {
                assert forall|v: CrdsData| #[trigger] v.wire() == bytes@ implies false by {
                    assert(r0 == Some((v.tag(), 4usize)));
                    assert(bytes@.subrange(4, n as int).len() == n - 4);
                }
            }
            None
        }
    }
}

} // verus!
