//! Cluster-state records and their canonical encoding.
use crate::wire::{
    concat_map, enc_byte_vec, enc_opt_u32, enc_seq, le_u16, le_u32, le_u64, lemma_concat_map_step,
    len_prefix, put_array, put_byte_vec, put_len, put_opt_u32, put_raw, put_u16, put_u32, put_u64,
    put_u64_seq, put_u8, Digest, Pubkey, SocketAddr,
};
use vstd::prelude::*;

verus! {

pub type Slot = u64;

pub type VoteIndex = u8;

pub type EpochSlotsIndex = u8;

/// A node's identity and the addresses of its services.
#[derive(Clone, PartialEq, Eq, Debug)]
pub struct LegacyContactInfo {
    pub id: Pubkey,
    /// gossip address
    pub gossip: SocketAddr,
    /// address to connect to for replication
    pub tvu: SocketAddr,
    /// address to forward shreds to
    pub tvu_forwards: SocketAddr,
    /// address to send repair responses to
    pub repair: SocketAddr,
    /// transactions address
    pub tpu: SocketAddr,
    /// address to forward unprocessed transactions to
    pub tpu_forwards: SocketAddr,
    /// address to which to send bank state requests
    pub tpu_vote: SocketAddr,
    /// address to which to send JSON-RPC requests
    pub rpc: SocketAddr,
    /// websocket for JSON-RPC push notifications
    pub rpc_pubsub: SocketAddr,
    /// address to send repair requests to
    pub serve_repair: SocketAddr,
    /// latest wallclock picked
    pub wallclock: u64,
    /// node shred version
    pub shred_version: u16,
}

pub open spec fn is_unspecified(a: SocketAddr) -> bool {
    a matches SocketAddr::V4 { ip4, port } && port == 0 && ip4@ == seq![0u8, 0u8, 0u8, 0u8]
}

/// Five socket addresses, one after another.
pub open spec fn addrs5_wire(a: (SocketAddr, SocketAddr, SocketAddr, SocketAddr, SocketAddr)) -> Seq<u8> {
    a.0.wire() + a.1.wire() + a.2.wire() + a.3.wire() + a.4.wire()
}

impl LegacyContactInfo {
    pub open spec fn front_addrs(&self) -> (SocketAddr, SocketAddr, SocketAddr, SocketAddr, SocketAddr) {
        (self.gossip, self.tvu, self.tvu_forwards, self.repair, self.tpu)
    }

    pub open spec fn back_addrs(&self) -> (SocketAddr, SocketAddr, SocketAddr, SocketAddr, SocketAddr) {
        (self.tpu_forwards, self.tpu_vote, self.rpc, self.rpc_pubsub, self.serve_repair)
    }

    /// The identity, the ten addresses in field order, the wallclock and the
    /// shred version.
    pub open spec fn wire(&self) -> Seq<u8> {
        self.id.bytes@ + addrs5_wire(self.front_addrs()) + addrs5_wire(self.back_addrs()) + le_u64(
            self.wallclock,
        ) + le_u16(self.shred_version)
    }

    pub fn encode_to(&self, out: &mut Vec<u8>)
        ensures
            final(out)@ == old(out)@ + self.wire(),
    {
        let ghost start = out@;
        self.id.encode_to(out);
        let ghost mid = out@;
        self.gossip.encode_to(out);
        self.tvu.encode_to(out);
        self.tvu_forwards.encode_to(out);
        self.repair.encode_to(out);
        self.tpu.encode_to(out);
        assert(out@ =~= mid + addrs5_wire(self.front_addrs()));
        let ghost mid2 = out@;
        self.tpu_forwards.encode_to(out);
        self.tpu_vote.encode_to(out);
        self.rpc.encode_to(out);
        self.rpc_pubsub.encode_to(out);
        self.serve_repair.encode_to(out);
        assert(out@ =~= mid2 + addrs5_wire(self.back_addrs()));
        put_u64(out, self.wallclock);
        put_u16(out, self.shred_version);
        assert(out@ =~= start + self.wire());
    }
}

impl Default for LegacyContactInfo {
    /// The all-zero identity, every address `0.0.0.0:0`, wallclock and shred
    /// version zero.
    fn default() -> (r: Self)
        ensures
            forall|i: int| 0 <= i < 32 ==> r.id.bytes@[i] == 0,
            is_unspecified(r.gossip),
            is_unspecified(r.tvu),
            is_unspecified(r.tvu_forwards),
            is_unspecified(r.repair),
            is_unspecified(r.tpu),
            is_unspecified(r.tpu_forwards),
            is_unspecified(r.tpu_vote),
            is_unspecified(r.rpc),
            is_unspecified(r.rpc_pubsub),
            is_unspecified(r.serve_repair),
            r.wallclock == 0,
            r.shred_version == 0,
    {
        LegacyContactInfo {
            id: Pubkey::new_default(),
            gossip: SocketAddr::unspecified(),
            tvu: SocketAddr::unspecified(),
            tvu_forwards: SocketAddr::unspecified(),
            repair: SocketAddr::unspecified(),
            tpu: SocketAddr::unspecified(),
            tpu_forwards: SocketAddr::unspecified(),
            tpu_vote: SocketAddr::unspecified(),
            rpc: SocketAddr::unspecified(),
            rpc_pubsub: SocketAddr::unspecified(),
            serve_repair: SocketAddr::unspecified(),
            wallclock: 0,
            shred_version: 0,
        }
    }
}

/// A vote transaction, carried in its own canonical encoding.
#[derive(Clone, PartialEq, Eq, Debug)]
pub struct Transaction {
    pub encoded: Vec<u8>,
}

#[derive(Clone, PartialEq, Eq, Debug)]
pub struct Vote {
    pub from: Pubkey,
    pub transaction: Transaction,
    pub wallclock: u64,
}

impl Vote {
    pub open spec fn wire(&self) -> Seq<u8> {
        self.from.bytes@ + self.transaction.encoded@ + le_u64(self.wallclock)
    }

    pub fn encode_to(&self, out: &mut Vec<u8>)
        ensures
            final(out)@ == old(out)@ + self.wire(),
    {
        let ghost start = out@;
        self.from.encode_to(out);
        put_raw(out, &self.transaction.encoded);
        put_u64(out, self.wallclock);
        assert(out@ =~= start + self.wire());
    }
}

/// A slot and the digest of the snapshot taken at it; on the wire, the pair.
#[derive(Clone, Copy, PartialEq, Eq, Debug)]
pub struct SlotHash {
    pub slot: Slot,
    pub hash: Digest,
}

pub open spec fn slot_hash_wire(p: SlotHash) -> Seq<u8> {
    le_u64(p.slot) + p.hash.bytes@
}

pub open spec fn slot_hashes_wire(s: Seq<SlotHash>) -> Seq<u8> {
    enc_seq(s, |p: SlotHash| slot_hash_wire(p))
}

fn put_slot_hash(out: &mut Vec<u8>, p: &SlotHash)
    ensures
        final(out)@ == old(out)@ + slot_hash_wire(*p),
{
    let ghost start = out@;
    put_u64(out, p.slot);
    p.hash.encode_to(out);
    assert(out@ =~= start + slot_hash_wire(*p));
}

fn put_slot_hashes(out: &mut Vec<u8>, s: &Vec<SlotHash>)
    ensures
        final(out)@ == old(out)@ + slot_hashes_wire(s@),
{
    let ghost start = out@;
    let ghost f = |p: SlotHash| slot_hash_wire(p);
    put_len(out, s.len());
    let mut i: usize = 0;
    assert(s@.subrange(0, 0) =~= Seq::<SlotHash>::empty());
    while i < s.len()
        invariant
            i <= s.len(),
            out@ == start + len_prefix(s@.len()) + concat_map(s@.subrange(0, i as int), f),
            f == (|p: SlotHash| slot_hash_wire(p)),
        decreases s.len() - i,
    {
        proof {
            lemma_concat_map_step(s@, f, i as int);
        }
        let ghost before = out@;
        put_slot_hash(out, &s[i]);
        assert(out@ =~= before + f(s@[i as int]));
        i = i + 1;
    }
    assert(s@.subrange(0, s.len() as int) =~= s@);
    assert(out@ =~= start + slot_hashes_wire(s@));
}

#[derive(Clone, PartialEq, Eq, Debug)]
pub struct SnapshotHashes {
    pub from: Pubkey,
    pub hashes: Vec<SlotHash>,
    pub wallclock: u64,
}

impl SnapshotHashes {
    pub open spec fn wire(&self) -> Seq<u8> {
        self.from.bytes@ + slot_hashes_wire(self.hashes@) + le_u64(self.wallclock)
    }

    pub fn encode_to(&self, out: &mut Vec<u8>)
        ensures
            final(out)@ == old(out)@ + self.wire(),
    {
        let ghost start = out@;
        self.from.encode_to(out);
        put_slot_hashes(out, &self.hashes);
        put_u64(out, self.wallclock);
        assert(out@ =~= start + self.wire());
    }
}

#[derive(Clone, PartialEq, Eq, Debug)]
pub struct IncrementalSnapshotHashes {
    pub from: Pubkey,
    pub base: SlotHash,
    pub hashes: Vec<SlotHash>,
    pub wallclock: u64,
}

impl IncrementalSnapshotHashes {
    pub open spec fn wire(&self) -> Seq<u8> {
        self.from.bytes@ + slot_hash_wire(self.base) + slot_hashes_wire(self.hashes@) + le_u64(
            self.wallclock,
        )
    }

    pub fn encode_to(&self, out: &mut Vec<u8>)
        ensures
            final(out)@ == old(out)@ + self.wire(),
    {
        let ghost start = out@;
        self.from.encode_to(out);
        put_slot_hash(out, &self.base);
        put_slot_hashes(out, &self.hashes);
        put_u64(out, self.wallclock);
        assert(out@ =~= start + self.wire());
    }
}

/// Version of a node's software: major, minor and patch numbers and the first
/// four bytes of the commit hash.
#[derive(Clone, Copy, PartialEq, Eq, Debug)]
pub struct LegacyVersion1 {
    pub major: u16,
    pub minor: u16,
    pub patch: u16,
    pub commit: Option<u32>,
}

impl LegacyVersion1 {
    pub open spec fn wire(&self) -> Seq<u8> {
        le_u16(self.major) + le_u16(self.minor) + le_u16(self.patch) + enc_opt_u32(self.commit)
    }

    pub fn encode_to(&self, out: &mut Vec<u8>)
        ensures
            final(out)@ == old(out)@ + self.wire(),
    {
        let ghost start = out@;
        put_u16(out, self.major);
        put_u16(out, self.minor);
        put_u16(out, self.patch);
        put_opt_u32(out, self.commit);
        assert(out@ =~= start + self.wire());
    }
}

#[derive(Clone, PartialEq, Eq, Debug)]
pub struct LegacyVersion {
    pub from: Pubkey,
    pub wallclock: u64,
    pub version: LegacyVersion1,
}

impl LegacyVersion {
    pub open spec fn wire(&self) -> Seq<u8> {
        self.from.bytes@ + le_u64(self.wallclock) + self.version.wire()
    }

    pub fn encode_to(&self, out: &mut Vec<u8>)
        ensures
            final(out)@ == old(out)@ + self.wire(),
    {
        let ghost start = out@;
        self.from.encode_to(out);
        put_u64(out, self.wallclock);
        self.version.encode_to(out);
        assert(out@ =~= start + self.wire());
    }
}

/// `LegacyVersion1` with the identifier of the node's feature set.
#[derive(Clone, Copy, PartialEq, Eq, Debug)]
pub struct LegacyVersion2 {
    pub major: u16,
    pub minor: u16,
    pub patch: u16,
    pub commit: Option<u32>,
    pub feature_set: u32,
}

impl LegacyVersion2 {
    pub open spec fn wire(&self) -> Seq<u8> {
        le_u16(self.major) + le_u16(self.minor) + le_u16(self.patch) + enc_opt_u32(self.commit)
            + le_u32(self.feature_set)
    }

    pub fn encode_to(&self, out: &mut Vec<u8>)
        ensures
            final(out)@ == old(out)@ + self.wire(),
    {
        let ghost start = out@;
        put_u16(out, self.major);
        put_u16(out, self.minor);
        put_u16(out, self.patch);
        put_opt_u32(out, self.commit);
        put_u32(out, self.feature_set);
        assert(out@ =~= start + self.wire());
    }
}

#[derive(Clone, PartialEq, Eq, Debug)]
pub struct Version {
    pub from: Pubkey,
    pub wallclock: u64,
    pub version: LegacyVersion2,
}

impl Version {
    pub open spec fn wire(&self) -> Seq<u8> {
        self.from.bytes@ + le_u64(self.wallclock) + self.version.wire()
    }

    pub fn encode_to(&self, out: &mut Vec<u8>)
        ensures
            final(out)@ == old(out)@ + self.wire(),
    {
        let ghost start = out@;
        self.from.encode_to(out);
        put_u64(out, self.wallclock);
        self.version.encode_to(out);
        assert(out@ =~= start + self.wire());
    }
}

/// A restart-instance token: a node that restarts announces a new one.
#[derive(Clone, PartialEq, Eq, Debug)]
pub struct NodeInstance {
    pub from: Pubkey,
    pub wallclock: u64,
    pub timestamp: u64,
    pub token: u64,
}

impl NodeInstance {
    pub open spec fn wire(&self) -> Seq<u8> {
        self.from.bytes@ + le_u64(self.wallclock) + le_u64(self.timestamp) + le_u64(self.token)
    }

    pub fn encode_to(&self, out: &mut Vec<u8>)
        ensures
            final(out)@ == old(out)@ + self.wire(),
    {
        let ghost start = out@;
        self.from.encode_to(out);
        put_u64(out, self.wallclock);
        put_u64(out, self.timestamp);
        put_u64(out, self.token);
        assert(out@ =~= start + self.wire());
    }
}

/// A bit vector as the wire carries it: its storage blocks (absent when there
/// are none) and its length in bits.
#[derive(Clone, PartialEq, Eq, Debug)]
pub struct BitVec {
    pub blocks: Vec<u8>,
    pub len: u64,
}

impl BitVec {
    /// The same blocks and length.
    pub open spec fn same(&self, o: BitVec) -> bool {
        self.blocks@ == o.blocks@ && self.len == o.len
    }

    /// The length fits in the blocks.
    pub open spec fn wf(&self) -> bool {
        self.len <= 8 * self.blocks@.len()
    }

    pub open spec fn wire(&self) -> Seq<u8> {
        (if self.blocks@.len() == 0 {
            seq![0u8]
        } else {
            seq![1u8] + enc_byte_vec(self.blocks@)
        }) + le_u64(self.len)
    }

    pub fn encode_to(&self, out: &mut Vec<u8>)
        ensures
            final(out)@ == old(out)@ + self.wire(),
    {
        let ghost start = out@;
        if self.blocks.len() == 0 {
            put_u8(out, 0);
        } else {
            put_u8(out, 1);
            put_byte_vec(out, &self.blocks);
        }
        put_u64(out, self.len);
        assert(out@ =~= start + self.wire());
    }
}

#[derive(Clone, PartialEq, Eq, Debug)]
pub struct Flate2 {
    pub first_slot: Slot,
    pub num: usize,
    pub compressed: Vec<u8>,
}

impl Flate2 {
    pub open spec fn same(&self, o: Flate2) -> bool {
        self.first_slot == o.first_slot && self.num == o.num && self.compressed@ == o.compressed@
    }

    pub open spec fn wire(&self) -> Seq<u8> {
        le_u64(self.first_slot) + len_prefix(self.num as nat) + enc_byte_vec(self.compressed@)
    }

    pub fn encode_to(&self, out: &mut Vec<u8>)
        ensures
            final(out)@ == old(out)@ + self.wire(),
    {
        let ghost start = out@;
        put_u64(out, self.first_slot);
        put_len(out, self.num);
        put_byte_vec(out, &self.compressed);
        assert(out@ =~= start + self.wire());
    }
}

#[derive(Clone, PartialEq, Eq, Debug)]
pub struct Uncompressed {
    pub first_slot: Slot,
    pub num: usize,
    pub slots: BitVec,
}

impl Uncompressed {
    pub open spec fn same(&self, o: Uncompressed) -> bool {
        self.first_slot == o.first_slot && self.num == o.num && self.slots.same(o.slots)
    }

    pub open spec fn wire(&self) -> Seq<u8> {
        le_u64(self.first_slot) + len_prefix(self.num as nat) + self.slots.wire()
    }

    pub fn encode_to(&self, out: &mut Vec<u8>)
        ensures
            final(out)@ == old(out)@ + self.wire(),
    {
        let ghost start = out@;
        put_u64(out, self.first_slot);
        put_len(out, self.num);
        self.slots.encode_to(out);
        assert(out@ =~= start + self.wire());
    }
}

#[derive(Clone, PartialEq, Eq, Debug)]
pub enum CompressedSlots {
    Flate2(Flate2),
    Uncompressed(Uncompressed),
}

impl CompressedSlots {
    /// The same variant with the same contents.
    pub open spec fn same(&self, o: CompressedSlots) -> bool {
        match (*self, o) {
            (CompressedSlots::Flate2(a), CompressedSlots::Flate2(b)) => a.same(b),
            (CompressedSlots::Uncompressed(a), CompressedSlots::Uncompressed(b)) => a.same(b),
            _ => false,
        }
    }

    pub open spec fn wire(&self) -> Seq<u8> {
        match self {
            CompressedSlots::Flate2(f) => le_u32(0) + f.wire(),
            CompressedSlots::Uncompressed(u) => le_u32(1) + u.wire(),
        }
    }

    pub fn encode_to(&self, out: &mut Vec<u8>)
        ensures
            final(out)@ == old(out)@ + self.wire(),
    {
        let ghost start = out@;
        match self {
            CompressedSlots::Flate2(f) => {
                put_u32(out, 0);
                f.encode_to(out);
            },
            CompressedSlots::Uncompressed(u) => {
                put_u32(out, 1);
                u.encode_to(out);
            },
        }
        assert(out@ =~= start + self.wire());
    }
}

pub open spec fn compressed_slots_wire(s: Seq<CompressedSlots>) -> Seq<u8> {
    enc_seq(s, |c: CompressedSlots| c.wire())
}

fn put_compressed_slots(out: &mut Vec<u8>, s: &Vec<CompressedSlots>)
    ensures
        final(out)@ == old(out)@ + compressed_slots_wire(s@),
{
    let ghost start = out@;
    let ghost f = |c: CompressedSlots| c.wire();
    put_len(out, s.len());
    let mut i: usize = 0;
    assert(s@.subrange(0, 0) =~= Seq::<CompressedSlots>::empty());
    while i < s.len()
        invariant
            i <= s.len(),
            out@ == start + len_prefix(s@.len()) + concat_map(s@.subrange(0, i as int), f),
            f == (|c: CompressedSlots| c.wire()),
        decreases s.len() - i,
    {
        proof {
            lemma_concat_map_step(s@, f, i as int);
        }
        let ghost before = out@;
        s[i].encode_to(out);
        assert(out@ =~= before + f(s@[i as int]));
        i = i + 1;
    }
    assert(s@.subrange(0, s.len() as int) =~= s@);
    assert(out@ =~= start + compressed_slots_wire(s@));
}

#[derive(Clone, PartialEq, Eq, Debug)]
pub struct EpochSlots {
    pub from: Pubkey,
    pub slots: Vec<CompressedSlots>,
    pub wallclock: u64,
}

impl EpochSlots {
    pub open spec fn same(&self, o: EpochSlots) -> bool {
        &&& self.from == o.from
        &&& self.slots@.len() == o.slots@.len()
        &&& forall|j: int| 0 <= j < self.slots@.len() ==> #[trigger] self.slots@[j].same(o.slots@[j])
        &&& self.wallclock == o.wallclock
    }

    pub open spec fn wire(&self) -> Seq<u8> {
        self.from.bytes@ + compressed_slots_wire(self.slots@) + le_u64(self.wallclock)
    }

    pub fn encode_to(&self, out: &mut Vec<u8>)
        ensures
            final(out)@ == old(out)@ + self.wire(),
    {
        let ghost start = out@;
        self.from.encode_to(out);
        put_compressed_slots(out, &self.slots);
        put_u64(out, self.wallclock);
        assert(out@ =~= start + self.wire());
    }
}

#[derive(Clone, Copy, PartialEq, Eq, Debug)]
pub enum DeprecatedCompressionType {
    Uncompressed,
    GZip,
    BZip2,
}

impl DeprecatedCompressionType {
    pub open spec fn tag(&self) -> u32 {
        match self {
            DeprecatedCompressionType::Uncompressed => 0,
            DeprecatedCompressionType::GZip => 1,
            DeprecatedCompressionType::BZip2 => 2,
        }
    }
}

#[derive(Clone, PartialEq, Eq, Debug)]
pub struct DeprecatedEpochIncompleteSlots {
    pub first: Slot,
    pub compression: DeprecatedCompressionType,
    pub compressed_list: Vec<u8>,
}

impl DeprecatedEpochIncompleteSlots {
    pub open spec fn same(&self, o: DeprecatedEpochIncompleteSlots) -> bool {
        self.first == o.first && self.compression == o.compression && self.compressed_list@
            == o.compressed_list@
    }

    pub open spec fn wire(&self) -> Seq<u8> {
        le_u64(self.first) + le_u32(self.compression.tag()) + enc_byte_vec(self.compressed_list@)
    }

    pub fn encode_to(&self, out: &mut Vec<u8>)
        ensures
            final(out)@ == old(out)@ + self.wire(),
    {
        let ghost start = out@;
        put_u64(out, self.first);
        let tag: u32 = match self.compression {
            DeprecatedCompressionType::Uncompressed => 0,
            DeprecatedCompressionType::GZip => 1,
            DeprecatedCompressionType::BZip2 => 2,
        };
        put_u32(out, tag);
        put_byte_vec(out, &self.compressed_list);
        assert(out@ =~= start + self.wire());
    }
}

pub open spec fn stash_wire(s: Seq<DeprecatedEpochIncompleteSlots>) -> Seq<u8> {
    enc_seq(s, |d: DeprecatedEpochIncompleteSlots| d.wire())
}

fn put_stash(out: &mut Vec<u8>, s: &Vec<DeprecatedEpochIncompleteSlots>)
    ensures
        final(out)@ == old(out)@ + stash_wire(s@),
{
    let ghost start = out@;
    let ghost f = |d: DeprecatedEpochIncompleteSlots| d.wire();
    put_len(out, s.len());
    let mut i: usize = 0;
    assert(s@.subrange(0, 0) =~= Seq::<DeprecatedEpochIncompleteSlots>::empty());
    while i < s.len()
        invariant
            i <= s.len(),
            out@ == start + len_prefix(s@.len()) + concat_map(s@.subrange(0, i as int), f),
            f == (|d: DeprecatedEpochIncompleteSlots| d.wire()),
        decreases s.len() - i,
    {
        proof {
            lemma_concat_map_step(s@, f, i as int);
        }
        let ghost before = out@;
        s[i].encode_to(out);
        assert(out@ =~= before + f(s@[i as int]));
        i = i + 1;
    }
    assert(s@.subrange(0, s.len() as int) =~= s@);
    assert(out@ =~= start + stash_wire(s@));
}

/// The lowest slot a node holds. `slots` is a set, kept in ascending order.
#[derive(Clone, PartialEq, Eq, Debug)]
pub struct LowestSlot {
    pub from: Pubkey,
    pub root: Slot,
    pub lowest: Slot,
    pub slots: Vec<Slot>,
    pub stash: Vec<DeprecatedEpochIncompleteSlots>,
    pub wallclock: u64,
}

impl LowestSlot {
    pub open spec fn same(&self, o: LowestSlot) -> bool {
        &&& self.from == o.from
        &&& self.root == o.root
        &&& self.lowest == o.lowest
        &&& self.slots@ == o.slots@
        &&& self.stash@.len() == o.stash@.len()
        &&& forall|j: int| 0 <= j < self.stash@.len() ==> #[trigger] self.stash@[j].same(o.stash@[j])
        &&& self.wallclock == o.wallclock
    }

    /// The slot set is strictly ascending: each slot once, in order.
    pub open spec fn wf(&self) -> bool {
        forall|i: int, j: int| 0 <= i < j < self.slots@.len() ==> self.slots@[i] < self.slots@[j]
    }

    pub open spec fn wire(&self) -> Seq<u8> {
        self.from.bytes@ + le_u64(self.root) + le_u64(self.lowest) + enc_seq(
            self.slots@,
            |x: u64| le_u64(x),
        ) + stash_wire(self.stash@) + le_u64(self.wallclock)
    }

    pub fn encode_to(&self, out: &mut Vec<u8>)
        ensures
            final(out)@ == old(out)@ + self.wire(),
    {
        let ghost start = out@;
        self.from.encode_to(out);
        put_u64(out, self.root);
        put_u64(out, self.lowest);
        put_u64_seq(out, &self.slots);
        put_stash(out, &self.stash);
        put_u64(out, self.wallclock);
        assert(out@ =~= start + self.wire());
    }
}

/// A signed record's payload. `DuplicateShred` and `ContactInfo` are
/// reserved: they carry nothing and travel as their tag alone.
#[derive(Clone, PartialEq, Eq, Debug)]
pub enum CrdsData {
    LegacyContactInfo(LegacyContactInfo),
    Vote(VoteIndex, Vote),
    LowestSlot(u8, LowestSlot),
    SnapshotHashes(SnapshotHashes),
    AccountsHashes(SnapshotHashes),
    EpochSlots(EpochSlotsIndex, EpochSlots),
    LegacyVersion(LegacyVersion),
    Version(Version),
    NodeInstance(NodeInstance),
    DuplicateShred(),
    IncrementalSnapshotHashes(IncrementalSnapshotHashes),
    ContactInfo(),
}

impl CrdsData {
    /// The variant's tag on the wire.
    pub open spec fn tag(&self) -> u32 {
        match self {
            CrdsData::LegacyContactInfo(_) => 0,
            CrdsData::Vote(_, _) => 1,
            CrdsData::LowestSlot(_, _) => 2,
            CrdsData::SnapshotHashes(_) => 3,
            CrdsData::AccountsHashes(_) => 4,
            CrdsData::EpochSlots(_, _) => 5,
            CrdsData::LegacyVersion(_) => 6,
            CrdsData::Version(_) => 7,
            CrdsData::NodeInstance(_) => 8,
            CrdsData::DuplicateShred() => 9,
            CrdsData::IncrementalSnapshotHashes(_) => 10,
            CrdsData::ContactInfo() => 11,
        }
    }

    /// The variants that `deserialize` decodes: those whose payload is made of
    /// fixed-width fields, socket addresses and optional integers.
    pub open spec fn has_compact_layout(&self) -> bool {
        ||| self is LegacyContactInfo
        ||| self is LegacyVersion
        ||| self is Version
        ||| self is NodeInstance
        ||| self is DuplicateShred
        ||| self is ContactInfo
    }

    /// A lowest-slot record holds its slot set in ascending order; every other
    /// record is well formed as it stands.
    pub open spec fn wf(&self) -> bool {
        match self {
            CrdsData::LowestSlot(_, l) => l.wf(),
            _ => true,
        }
    }

    /// The same record: equal fields, with a vector compared by its contents.
    pub open spec fn same_record(&self, other: CrdsData) -> bool {
        match (*self, other) {
            (CrdsData::Vote(i, a), CrdsData::Vote(j, b)) => i == j && a.from == b.from && a.wallclock
                == b.wallclock && a.transaction.encoded@ == b.transaction.encoded@,
            (CrdsData::LowestSlot(i, a), CrdsData::LowestSlot(j, b)) => i == j && a.same(b),
            (CrdsData::EpochSlots(i, a), CrdsData::EpochSlots(j, b)) => i == j && a.same(b),
            (CrdsData::SnapshotHashes(a), CrdsData::SnapshotHashes(b)) => a.from == b.from && a.hashes@
                == b.hashes@ && a.wallclock == b.wallclock,
            (CrdsData::AccountsHashes(a), CrdsData::AccountsHashes(b)) => a.from == b.from && a.hashes@
                == b.hashes@ && a.wallclock == b.wallclock,
            (CrdsData::IncrementalSnapshotHashes(a), CrdsData::IncrementalSnapshotHashes(b)) => a.from == b.from
                && a.base == b.base && a.hashes@ == b.hashes@ && a.wallclock == b.wallclock,
            _ => *self == other,
        }
    }

    pub open spec fn is_reserved(&self) -> bool {
        self is DuplicateShred || self is ContactInfo
    }

    pub open spec fn payload_wire(&self) -> Seq<u8> {
        match self {
            CrdsData::LegacyContactInfo(c) => c.wire(),
            CrdsData::Vote(i, v) => seq![*i] + v.wire(),
            CrdsData::LowestSlot(i, l) => seq![*i] + l.wire(),
            CrdsData::SnapshotHashes(s) => s.wire(),
            CrdsData::AccountsHashes(s) => s.wire(),
            CrdsData::EpochSlots(i, e) => seq![*i] + e.wire(),
            CrdsData::LegacyVersion(v) => v.wire(),
            CrdsData::Version(v) => v.wire(),
            CrdsData::NodeInstance(n) => n.wire(),
            CrdsData::DuplicateShred() => Seq::empty(),
            CrdsData::IncrementalSnapshotHashes(s) => s.wire(),
            CrdsData::ContactInfo() => Seq::empty(),
        }
    }

    /// The canonical encoding: the tag, then the payload.
    pub open spec fn wire(&self) -> Seq<u8> {
        le_u32(self.tag()) + self.payload_wire()
    }

    pub fn encode_to(&self, out: &mut Vec<u8>)
        ensures
            final(out)@ == old(out)@ + self.wire(),
    {
        let ghost start = out@;
        match self {
            CrdsData::LegacyContactInfo(c) => {
                put_u32(out, 0);
                c.encode_to(out);
            },
            CrdsData::Vote(i, v) => {
                put_u32(out, 1);
                put_u8(out, *i);
                v.encode_to(out);
            },
            CrdsData::LowestSlot(i, l) => {
                put_u32(out, 2);
                put_u8(out, *i);
                l.encode_to(out);
            },
            CrdsData::SnapshotHashes(s) => {
                put_u32(out, 3);
                s.encode_to(out);
            },
            CrdsData::AccountsHashes(s) => {
                put_u32(out, 4);
                s.encode_to(out);
            },
            CrdsData::EpochSlots(i, e) => {
                put_u32(out, 5);
                put_u8(out, *i);
                e.encode_to(out);
            },
            CrdsData::LegacyVersion(v) => {
                put_u32(out, 6);
                v.encode_to(out);
            },
            CrdsData::Version(v) => {
                put_u32(out, 7);
                v.encode_to(out);
            },
            CrdsData::NodeInstance(n) => {
                put_u32(out, 8);
                n.encode_to(out);
            },
            CrdsData::DuplicateShred() => {
                put_u32(out, 9);
            },
            CrdsData::IncrementalSnapshotHashes(s) => {
                put_u32(out, 10);
                s.encode_to(out);
            },
            CrdsData::ContactInfo() => {
                put_u32(out, 11);
            },
        }
        assert(out@ =~= start + self.wire());
    }

    /// The canonical encoding, the bytes that a record's signature covers.
    pub fn serialize(&self) -> (r: Vec<u8>)
        ensures
            r@ == self.wire(),
    {
        let mut out: Vec<u8> = Vec::new();
        self.encode_to(&mut out);
        assert(out@ =~= self.wire());
        out
    }
}

} // verus!
