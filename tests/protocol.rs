use gossip_wire::crds::{
    BitVec, CompressedSlots, CrdsData, DeprecatedCompressionType, DeprecatedEpochIncompleteSlots,
    EpochSlots, Flate2, IncrementalSnapshotHashes, LegacyContactInfo, LegacyVersion, LegacyVersion1,
    LegacyVersion2, LowestSlot, NodeInstance, SlotHash, SnapshotHashes, Transaction, Uncompressed,
    Version, Vote,
};
use gossip_wire::filter::{CrdsFilter, DEFAULT_MAX_BITS, DEFAULT_MAX_ITEMS};
use gossip_wire::ping_pong::{Ping, PingGeneric, Pong};
use gossip_wire::protocol::Protocol;
use gossip_wire::shard::{compute_mask, mask_bits};
use gossip_wire::value::{CrdsValue, GossipError};
use gossip_wire::wire::{Digest, Pubkey, Signature, SocketAddr};
use solana_bloom::bloom::Bloom;
use bv::{Bits, BitsMut};
use solana_sdk::signature::{Keypair, Signer};

fn pubkey_of(k: &Keypair) -> Pubkey {
    Pubkey { bytes: k.pubkey().to_bytes() }
}

fn default_filter() -> CrdsFilter {
    let bloom: Bloom<solana_sdk::hash::Hash> =
        Bloom::random(DEFAULT_MAX_ITEMS as usize, 0.1f64, DEFAULT_MAX_BITS);
    CrdsFilter::new_default(bloom.bits.len() as usize, bloom.keys.clone())
}

#[test]
fn test_serialize() {
    let keypair = Keypair::new();
    let crds_data = CrdsData::LegacyContactInfo(LegacyContactInfo::default());
    let crds_value = CrdsValue::new_signed(crds_data.clone(), &keypair.to_bytes()).unwrap();
    println!("crds_value: {:?}", crds_value);
}

#[test]
fn test_crds_filter() {
    let crds_filter = default_filter();
    println!("crds_filter: {:?}", crds_filter);
}

#[test]
fn default_filter_covers_whole_space() {
    let f = default_filter();
    assert_eq!(f.mask_bits, 0);
    assert_eq!(f.mask, u64::MAX);
    let bloom: Bloom<solana_sdk::hash::Hash> =
        Bloom::random(DEFAULT_MAX_ITEMS as usize, 0.1f64, DEFAULT_MAX_BITS);
    assert_eq!(bloom.bits.len(), 6168);
    let g = CrdsFilter::new_default(bloom.bits.len() as usize, bloom.keys.clone());
    let mut expected = bincode::serialize(&bloom).unwrap();
    expected.extend(u64::MAX.to_le_bytes());
    expected.extend(0u32.to_le_bytes());
    assert_eq!(g.serialize(), expected);
}

#[test]
fn mask_bits_values() {
    assert_eq!(mask_bits(512, 1287), 0);
    assert_eq!(mask_bits(3000, 1287), 2);
    assert_eq!(mask_bits(0, 1287), 0);
    assert_eq!(mask_bits(1287, 1287), 0);
    assert_eq!(mask_bits(1288, 1287), 1);
    assert_eq!(mask_bits(2574, 1287), 1);
    assert_eq!(mask_bits(2575, 1287), 2);
    assert_eq!(mask_bits(u64::MAX, 1), 64);
    assert_eq!(mask_bits(u64::MAX, u64::MAX), 0);
}

#[test]
fn mask_bits_never_falls() {
    let mut last = 0u32;
    let mut n: u64 = 0;
    while n < 200_000 {
        let k = mask_bits(n, 1287);
        assert!(k >= last);
        last = k;
        n += 37;
    }
    assert_eq!(last, 8);
}

#[test]
fn compute_mask_values() {
    assert_eq!(compute_mask(0, 0), u64::MAX);
    assert_eq!(compute_mask(1, 0), u64::MAX);
    assert_eq!(compute_mask(0, 1), 0x7fff_ffff_ffff_ffff);
    assert_eq!(compute_mask(1, 1), u64::MAX);
    assert_eq!(compute_mask(2, 2), 0xbfff_ffff_ffff_ffff);
    assert_eq!(compute_mask(4, 2), 0x3fff_ffff_ffff_ffff);
    assert_eq!(compute_mask(5, 64), 5);
    assert_eq!(compute_mask(0, 64), 0);
}

#[test]
fn masks_partition_hash_space() {
    let m = 3u32;
    let masks: Vec<u64> = (0..8u64).map(|s| compute_mask(s, m)).collect();
    for i in 0..8 {
        for j in 0..8 {
            if i != j {
                assert_ne!(masks[i], masks[j]);
            }
        }
    }
    let hashes = [0u64, 1, 0x1fff_ffff_ffff_ffff, 0x2000_0000_0000_0000, 0x9abc_def0_1234_5678, u64::MAX];
    for h in hashes {
        let hits = masks.iter().filter(|mask| (h >> (64 - m)) == (*mask >> (64 - m))).count();
        assert_eq!(hits, 1);
    }
}

#[test]
fn sign_and_verify_legacy_contact_info() {
    let k = Keypair::new();
    let other = Keypair::new();
    let data = CrdsData::LegacyContactInfo(LegacyContactInfo::default());
    let v = CrdsValue::new_signed(data.clone(), &k.to_bytes()).unwrap();
    assert_eq!(v.data, data);
    assert!(v.verify(&pubkey_of(&k)));
    assert!(!v.verify(&pubkey_of(&other)));
}

#[test]
fn tampered_record_fails_verification() {
    let k = Keypair::new();
    let data = CrdsData::NodeInstance(NodeInstance {
        from: pubkey_of(&k),
        wallclock: 7,
        timestamp: 8,
        token: 9,
    });
    let v = CrdsValue::new_signed(data, &k.to_bytes()).unwrap();
    assert!(v.verify(&pubkey_of(&k)));
    let mut bad_sig = v.clone();
    bad_sig.signature.bytes[3] ^= 1;
    assert!(!bad_sig.verify(&pubkey_of(&k)));
    let mut bad_data = v.clone();
    if let CrdsData::NodeInstance(n) = &mut bad_data.data {
        n.token ^= 1;
    }
    assert!(!bad_data.verify(&pubkey_of(&k)));
}

#[test]
fn signature_is_the_keypairs_signature_of_the_encoding() {
    let k = Keypair::new();
    let data = CrdsData::LegacyContactInfo(LegacyContactInfo::default());
    let v = CrdsValue::new_signed(data.clone(), &k.to_bytes()).unwrap();
    let expected = k.sign_message(&data.serialize());
    assert_eq!(v.signature.bytes, <[u8; 64]>::from(expected));
}

#[test]
fn reserved_variants_cannot_be_signed() {
    let k = Keypair::new();
    assert_eq!(
        CrdsValue::new_signed(CrdsData::DuplicateShred(), &k.to_bytes()),
        Err(GossipError::UnimplementedVariant)
    );
    assert_eq!(
        CrdsValue::new_signed(CrdsData::ContactInfo(), &k.to_bytes()),
        Err(GossipError::UnimplementedVariant)
    );
    assert_eq!(CrdsData::DuplicateShred().serialize(), vec![9, 0, 0, 0]);
    assert_eq!(CrdsData::ContactInfo().serialize(), vec![11, 0, 0, 0]);
}

#[test]
fn malformed_keypair_is_refused() {
    let secret = Keypair::new().to_bytes();
    let mut refused = 0;
    for b in 0..=255u8 {
        let mut bytes = secret;
        for i in 32..64 {
            bytes[i] = b;
        }
        let accepted = Keypair::from_bytes(&bytes).is_ok();
        let r = CrdsValue::new_signed(CrdsData::LegacyContactInfo(LegacyContactInfo::default()), &bytes);
        match r {
            Ok(_) => assert!(accepted),
            Err(e) => {
                assert!(!accepted);
                assert_eq!(e, GossipError::InvalidKeypair);
                refused += 1;
            }
        }
    }
    assert!(refused > 0);
}

#[test]
fn legacy_contact_info_encoding_matches_bincode() {
    let mut c = LegacyContactInfo::default();
    c.id = Pubkey { bytes: [7u8; 32] };
    c.gossip = SocketAddr::V4 { ip4: [10, 0, 0, 1], port: 8001 };
    c.rpc = SocketAddr::V6 { ip6: [1u8; 16], port: 8899 };
    c.wallclock = 0x0102_0304_0506_0708;
    c.shred_version = 0xabcd;
    let mut expected = bincode::serialize(&0u32).unwrap();
    expected.extend(bincode::serialize(&solana_sdk::pubkey::Pubkey::new_from_array([7u8; 32])).unwrap());
    let v4 = bincode::serialize(&(0u32, [10u8, 0, 0, 1], 8001u16)).unwrap();
    let v6 = bincode::serialize(&(1u32, [1u8; 16], 8899u16)).unwrap();
    let zero = bincode::serialize(&(0u32, [0u8; 4], 0u16)).unwrap();
    let addrs = [&v4, &zero, &zero, &zero, &zero, &zero, &zero, &v6, &zero, &zero];
    for a in addrs.iter() {
        expected.extend(a.iter());
    }
    expected.extend(bincode::serialize(&0x0102_0304_0506_0708u64).unwrap());
    expected.extend(bincode::serialize(&0xabcdu16).unwrap());
    assert_eq!(CrdsData::LegacyContactInfo(c).serialize(), expected);
}

#[test]
fn default_contact_info_encoding_length() {
    let bytes = CrdsData::LegacyContactInfo(LegacyContactInfo::default()).serialize();
    assert_eq!(bytes.len(), 4 + 32 + 10 * 10 + 8 + 2);
    assert_eq!(&bytes[0..4], &[0, 0, 0, 0]);
}

#[test]
fn version_encoding_matches_bincode() {
    let v = LegacyVersion2 { major: 1, minor: 18, patch: 26, commit: Some(0xdead_beef), feature_set: 42 };
    let data = CrdsData::Version(Version { from: Pubkey { bytes: [3u8; 32] }, wallclock: 99, version: v });
    let mut expected = bincode::serialize(&7u32).unwrap();
    expected.extend([3u8; 32]);
    expected.extend(bincode::serialize(&99u64).unwrap());
    expected.extend(bincode::serialize(&(1u16, 18u16, 26u16, Some(0xdead_beefu32), 42u32)).unwrap());
    assert_eq!(data.serialize(), expected);

    let old = LegacyVersion1 { major: 1, minor: 2, patch: 3, commit: None };
    let data = CrdsData::LegacyVersion(LegacyVersion { from: Pubkey { bytes: [0u8; 32] }, wallclock: 1, version: old });
    let mut expected = bincode::serialize(&6u32).unwrap();
    expected.extend([0u8; 32]);
    expected.extend(bincode::serialize(&(1u64, 1u16, 2u16, 3u16, None::<u32>)).unwrap());
    assert_eq!(data.serialize(), expected);
}

#[test]
fn slot_records_encoding_matches_bincode() {
    let from = Pubkey { bytes: [5u8; 32] };
    let h = Digest { bytes: [9u8; 32] };
    let hashes = vec![SlotHash { slot: 10, hash: h }, SlotHash { slot: 11, hash: h }];
    let data = CrdsData::SnapshotHashes(SnapshotHashes { from, hashes: hashes.clone(), wallclock: 4 });
    let pairs = vec![(10u64, [9u8; 32]), (11u64, [9u8; 32])];
    let mut expected = bincode::serialize(&3u32).unwrap();
    expected.extend([5u8; 32]);
    expected.extend(bincode::serialize(&pairs).unwrap());
    expected.extend(bincode::serialize(&4u64).unwrap());
    assert_eq!(data.serialize(), expected);

    let data = CrdsData::IncrementalSnapshotHashes(IncrementalSnapshotHashes {
        from,
        base: SlotHash { slot: 1, hash: h },
        hashes,
        wallclock: 4,
    });
    let mut expected = bincode::serialize(&10u32).unwrap();
    expected.extend([5u8; 32]);
    expected.extend(bincode::serialize(&(1u64, [9u8; 32])).unwrap());
    expected.extend(bincode::serialize(&pairs).unwrap());
    expected.extend(bincode::serialize(&4u64).unwrap());
    assert_eq!(data.serialize(), expected);

    let stash = DeprecatedEpochIncompleteSlots {
        first: 3,
        compression: DeprecatedCompressionType::GZip,
        compressed_list: vec![1, 2],
    };
    let data = CrdsData::LowestSlot(0, LowestSlot {
        from,
        root: 0,
        lowest: 77,
        slots: vec![1, 5],
        stash: vec![stash],
        wallclock: 2,
    });
    let set: std::collections::BTreeSet<u64> = [5u64, 1].into_iter().collect();
    let mut expected = bincode::serialize(&2u32).unwrap();
    expected.push(0);
    expected.extend([5u8; 32]);
    expected.extend(bincode::serialize(&(0u64, 77u64, set)).unwrap());
    expected.extend(bincode::serialize(&1u64).unwrap());
    expected.extend(bincode::serialize(&(3u64, 1u32, vec![1u8, 2])).unwrap());
    expected.extend(bincode::serialize(&2u64).unwrap());
    assert_eq!(data.serialize(), expected);
}

#[test]
fn epoch_slots_encoding_matches_bincode() {
    let mut bits: bv::BitVec<u8> = bv::BitVec::new_fill(false, 12);
    bits.set(3, true);
    let blocks: Vec<u8> = (0..bits.block_len()).map(|i| bits.get_block(i)).collect();
    let slots = vec![
        CompressedSlots::Flate2(Flate2 { first_slot: 100, num: 3, compressed: vec![4, 5, 6] }),
        CompressedSlots::Uncompressed(Uncompressed {
            first_slot: 200,
            num: 12,
            slots: BitVec { blocks, len: 12 },
        }),
        CompressedSlots::Uncompressed(Uncompressed {
            first_slot: 300,
            num: 0,
            slots: BitVec { blocks: vec![], len: 0 },
        }),
    ];
    let data = CrdsData::EpochSlots(1, EpochSlots { from: Pubkey { bytes: [2u8; 32] }, slots, wallclock: 8 });
    let empty: bv::BitVec<u8> = bv::BitVec::new_fill(false, 0);
    let mut expected = bincode::serialize(&5u32).unwrap();
    expected.push(1);
    expected.extend([2u8; 32]);
    expected.extend(bincode::serialize(&3u64).unwrap());
    expected.extend(bincode::serialize(&(0u32, 100u64, 3u64, vec![4u8, 5, 6])).unwrap());
    expected.extend(bincode::serialize(&(1u32, 200u64, 12u64, bits)).unwrap());
    expected.extend(bincode::serialize(&(1u32, 300u64, 0u64, empty)).unwrap());
    expected.extend(bincode::serialize(&8u64).unwrap());
    assert_eq!(data.serialize(), expected);
}

#[test]
fn vote_carries_transaction_bytes() {
    let tx = solana_sdk::transaction::Transaction::default();
    let tx_bytes = bincode::serialize(&tx).unwrap();
    let vote = Vote { from: Pubkey { bytes: [1u8; 32] }, transaction: Transaction { encoded: tx_bytes.clone() }, wallclock: 5 };
    let mut expected = bincode::serialize(&1u32).unwrap();
    expected.push(4);
    expected.extend([1u8; 32]);
    expected.extend(tx_bytes);
    expected.extend(bincode::serialize(&5u64).unwrap());
    assert_eq!(CrdsData::Vote(4, vote).serialize(), expected);
}

fn ping_with(token: [u8; 32], k: &Keypair) -> Ping {
    Ping::new(token, &k.to_bytes()).unwrap()
}

#[test]
fn ping_is_signed_by_sender() {
    let k = Keypair::new();
    let ping = ping_with([8u8; 32], &k);
    assert_eq!(ping.from, pubkey_of(&k));
    assert!(ping.verify());
    let mut forged: Ping = PingGeneric { from: ping.from, token: [9u8; 32], signature: ping.signature };
    assert!(!forged.verify());
    forged.token = [8u8; 32];
    assert!(forged.verify());
}

#[test]
fn pong_answers_its_ping_only() {
    let prober = Keypair::new();
    let responder = Keypair::new();
    let ping1 = ping_with([1u8; 32], &prober);
    let ping2 = ping_with([2u8; 32], &prober);
    let pong1 = Pong::new(&ping1, &responder.to_bytes()).unwrap();
    let pong2 = Pong::new(&ping2, &responder.to_bytes()).unwrap();
    assert_ne!(pong1.hash, pong2.hash);
    assert!(pong1.verify(&ping1));
    assert!(!pong1.verify(&ping2));
    assert!(pong2.verify(&ping2));
    assert_eq!(pong1.from, pubkey_of(&responder));
    let mut bad = pong1.clone();
    bad.signature = Signature { bytes: [0u8; 64] };
    assert!(!bad.verify(&ping1));
}

#[test]
fn pong_hash_is_domain_separated_digest_of_token() {
    let k = Keypair::new();
    let token = [0x5au8; 32];
    let ping = ping_with(token, &k);
    let pong = Pong::new(&ping, &k.to_bytes()).unwrap();
    let expected = solana_sdk::hash::hashv(&["SOLANA_PING_PONG".as_bytes(), &token]);
    assert_eq!(pong.hash.bytes, expected.to_bytes());
    assert_ne!(pong.hash.bytes, solana_sdk::hash::hash(&token).to_bytes());
    let sig = solana_sdk::signature::Signature::from(pong.signature.bytes);
    assert!(sig.verify(&k.pubkey().to_bytes(), &expected.to_bytes()));
}

#[test]
fn protocol_envelope_holds_messages() {
    let k = Keypair::new();
    let v = CrdsValue::new_signed(CrdsData::LegacyContactInfo(LegacyContactInfo::default()), &k.to_bytes()).unwrap();
    let pull = Protocol::PullRequest(default_filter(), v.clone());
    assert!(matches!(pull, Protocol::PullRequest(_, _)));
    let push = Protocol::PushMessage(pubkey_of(&k), vec![v.clone(), v]);
    match push {
        Protocol::PushMessage(origin, records) => {
            assert_eq!(origin, pubkey_of(&k));
            assert_eq!(records.len(), 2);
        }
        _ => unreachable!(),
    }
}

#[test]
fn compact_records_round_trip() {
    let mut contact = LegacyContactInfo::default();
    contact.id = Pubkey { bytes: [6u8; 32] };
    contact.tvu = SocketAddr::V6 { ip6: [0xfe; 16], port: 1 };
    contact.serve_repair = SocketAddr::V4 { ip4: [127, 0, 0, 1], port: 65535 };
    contact.wallclock = 1234;
    contact.shred_version = 5;
    let records = vec![
        CrdsData::LegacyContactInfo(LegacyContactInfo::default()),
        CrdsData::LegacyContactInfo(contact),
        CrdsData::NodeInstance(NodeInstance { from: Pubkey { bytes: [4u8; 32] }, wallclock: 1, timestamp: 2, token: u64::MAX }),
        CrdsData::LegacyVersion(LegacyVersion {
            from: Pubkey { bytes: [1u8; 32] },
            wallclock: 3,
            version: LegacyVersion1 { major: 1, minor: 2, patch: 3, commit: None },
        }),
        CrdsData::LegacyVersion(LegacyVersion {
            from: Pubkey { bytes: [1u8; 32] },
            wallclock: 3,
            version: LegacyVersion1 { major: 1, minor: 2, patch: 3, commit: Some(17) },
        }),
        CrdsData::Version(Version {
            from: Pubkey { bytes: [2u8; 32] },
            wallclock: 9,
            version: LegacyVersion2 { major: 1, minor: 18, patch: 26, commit: Some(0xdead_beef), feature_set: 7 },
        }),
        CrdsData::DuplicateShred(),
        CrdsData::ContactInfo(),
    ];
    for r in records {
        assert_eq!(CrdsData::deserialize(&r.serialize()), Some(r));
    }
}

#[test]
fn deserialize_rejects_malformed_bytes() {
    let r = CrdsData::NodeInstance(NodeInstance { from: Pubkey { bytes: [4u8; 32] }, wallclock: 1, timestamp: 2, token: 3 });
    let mut bytes = r.serialize();
    bytes.push(0);
    assert_eq!(CrdsData::deserialize(&bytes), None);
    bytes.truncate(bytes.len() - 2);
    assert_eq!(CrdsData::deserialize(&bytes), None);
    assert_eq!(CrdsData::deserialize(&vec![]), None);
    assert_eq!(CrdsData::deserialize(&vec![12, 0, 0, 0]), None);
    assert_eq!(CrdsData::deserialize(&vec![9, 0, 0, 0, 0]), None);
    let mut v = CrdsData::LegacyVersion(LegacyVersion {
        from: Pubkey { bytes: [1u8; 32] },
        wallclock: 3,
        version: LegacyVersion1 { major: 1, minor: 2, patch: 3, commit: None },
    })
    .serialize();
    let last = v.len() - 1;
    v[last] = 2;
    assert_eq!(CrdsData::deserialize(&v), None);
    let mut contact = CrdsData::LegacyContactInfo(LegacyContactInfo::default()).serialize();
    contact[36] = 2;
    assert_eq!(CrdsData::deserialize(&contact), None);
    let hashes = CrdsData::SnapshotHashes(SnapshotHashes { from: Pubkey { bytes: [0u8; 32] }, hashes: vec![], wallclock: 0 });
    assert_eq!(CrdsData::deserialize(&hashes.serialize()), Some(hashes));
}

#[test]
fn filter_for_larger_table_has_four_shards() {
    let keys = vec![11u64, 22, 33];
    let f = CrdsFilter::new(100, keys.clone(), 3000, 1287);
    assert_eq!(f.mask_bits, 2);
    assert_eq!(f.mask, 0x3fff_ffff_ffff_ffff);
    assert_eq!(f.mask, compute_mask(0, 2));
    let bloom: Bloom<solana_sdk::hash::Hash> = Bloom::new(100, keys);
    let mut expected = bincode::serialize(&bloom).unwrap();
    expected.extend(0x3fff_ffff_ffff_ffffu64.to_le_bytes());
    expected.extend(2u32.to_le_bytes());
    assert_eq!(f.serialize(), expected);
    let empty = CrdsFilter::new(0, vec![], 0, 1);
    let mut expected = bincode::serialize(&Bloom::<solana_sdk::hash::Hash>::new(0, vec![])).unwrap();
    expected.extend(u64::MAX.to_le_bytes());
    expected.extend(0u32.to_le_bytes());
    assert_eq!(empty.serialize(), expected);
}

#[test]
fn vote_and_snapshot_records_round_trip() {
    let h = Digest { bytes: [3u8; 32] };
    let hashes = vec![SlotHash { slot: 1, hash: h }, SlotHash { slot: u64::MAX, hash: Digest { bytes: [0xaa; 32] } }];
    let from = Pubkey { bytes: [8u8; 32] };
    let records = vec![
        CrdsData::Vote(3, Vote { from, transaction: Transaction { encoded: vec![1, 2, 3, 4, 5] }, wallclock: 77 }),
        CrdsData::Vote(0, Vote { from, transaction: Transaction { encoded: vec![] }, wallclock: 0 }),
        CrdsData::SnapshotHashes(SnapshotHashes { from, hashes: hashes.clone(), wallclock: 5 }),
        CrdsData::SnapshotHashes(SnapshotHashes { from, hashes: vec![], wallclock: 5 }),
        CrdsData::AccountsHashes(SnapshotHashes { from, hashes: hashes.clone(), wallclock: 6 }),
        CrdsData::IncrementalSnapshotHashes(IncrementalSnapshotHashes {
            from,
            base: SlotHash { slot: 9, hash: h },
            hashes,
            wallclock: 7,
        }),
    ];
    for r in records {
        assert_eq!(CrdsData::deserialize(&r.serialize()), Some(r));
    }
    let mut bytes = CrdsData::SnapshotHashes(SnapshotHashes { from, hashes: vec![], wallclock: 5 }).serialize();
    bytes[36] = 1;
    assert_eq!(CrdsData::deserialize(&bytes), None);
}

#[test]
fn lowest_and_epoch_slots_round_trip() {
    let from = Pubkey { bytes: [8u8; 32] };
    let stash = DeprecatedEpochIncompleteSlots {
        first: 3,
        compression: DeprecatedCompressionType::BZip2,
        compressed_list: vec![9, 8, 7],
    };
    let records = vec![
        CrdsData::LowestSlot(0, LowestSlot { from, root: 1, lowest: 2, slots: vec![3], stash: vec![], wallclock: 4 }),
        CrdsData::LowestSlot(7, LowestSlot { from, root: 1, lowest: 2, slots: vec![1, 5, 9], stash: vec![stash.clone(), stash], wallclock: 4 }),
        CrdsData::EpochSlots(0, EpochSlots { from, slots: vec![], wallclock: 4 }),
        CrdsData::EpochSlots(
            2,
            EpochSlots {
                from,
                slots: vec![
                    CompressedSlots::Flate2(Flate2 { first_slot: 100, num: 3, compressed: vec![4, 5, 6] }),
                    CompressedSlots::Uncompressed(Uncompressed {
                        first_slot: 200,
                        num: 12,
                        slots: BitVec { blocks: vec![8, 0], len: 12 },
                    }),
                    CompressedSlots::Uncompressed(Uncompressed {
                        first_slot: 300,
                        num: 0,
                        slots: BitVec { blocks: vec![], len: 0 },
                    }),
                ],
                wallclock: 9,
            },
        ),
    ];
    for r in records {
        assert_eq!(CrdsData::deserialize(&r.serialize()), Some(r));
    }
    let bad = CrdsData::LowestSlot(0, LowestSlot { from, root: 1, lowest: 2, slots: vec![], stash: vec![], wallclock: 4 });
    let mut bytes = bad.serialize();
    bytes[53] = 1;
    assert_eq!(CrdsData::deserialize(&bytes), None);
}

#[test]
fn signing_succeeds_for_every_generated_keypair() {
    for _ in 0..20 {
        let k = Keypair::new();
        let data = CrdsData::LegacyContactInfo(LegacyContactInfo::default());
        let a = CrdsValue::new_signed(data.clone(), &k.to_bytes()).unwrap();
        let b = CrdsValue::new_signed(data.clone(), &k.to_bytes()).unwrap();
        assert_eq!(a, b);
        let ping = Ping::new([1u8; 32], &k.to_bytes()).unwrap();
        assert!(Pong::new(&ping, &k.to_bytes()).is_ok());
    }
}

#[test]
fn signed_value_and_ping_pong_encodings() {
    let k = Keypair::new();
    let data = CrdsData::NodeInstance(NodeInstance { from: pubkey_of(&k), wallclock: 1, timestamp: 2, token: 3 });
    let v = CrdsValue::new_signed(data.clone(), &k.to_bytes()).unwrap();
    let mut expected = v.signature.bytes.to_vec();
    expected.extend(data.serialize());
    assert_eq!(v.serialize(), expected);

    let ping = Ping::new([4u8; 32], &k.to_bytes()).unwrap();
    let mut expected = k.pubkey().to_bytes().to_vec();
    expected.extend([4u8; 32]);
    expected.extend(ping.signature.bytes);
    assert_eq!(ping.serialize(), expected);

    let pong = Pong::new(&ping, &k.to_bytes()).unwrap();
    let mut expected = k.pubkey().to_bytes().to_vec();
    expected.extend(pong.hash.bytes);
    expected.extend(pong.signature.bytes);
    assert_eq!(pong.serialize(), expected);
    assert_eq!(pong.serialize().len(), 128);
}

#[test]
fn protocol_messages_encode_with_tags() {
    let k = Keypair::new();
    let v = CrdsValue::new_signed(CrdsData::LegacyContactInfo(LegacyContactInfo::default()), &k.to_bytes()).unwrap();
    let f = CrdsFilter::new(64, vec![1, 2], 512, 1287);
    let filter_bytes = f.serialize();
    let pull = Protocol::PullRequest(f, v.clone());
    let mut expected = vec![0u8, 0, 0, 0];
    expected.extend(filter_bytes);
    expected.extend(v.serialize());
    assert_eq!(pull.serialize(), expected);

    let origin = pubkey_of(&k);
    let push = Protocol::PushMessage(origin, vec![v.clone(), v.clone()]);
    let mut expected = vec![2u8, 0, 0, 0];
    expected.extend(origin.bytes);
    expected.extend(2u64.to_le_bytes());
    expected.extend(v.serialize());
    expected.extend(v.serialize());
    assert_eq!(push.serialize(), expected);

    let prune = Protocol::PruneMessage(origin);
    let mut expected = vec![3u8, 0, 0, 0];
    expected.extend(origin.bytes);
    assert_eq!(prune.serialize(), expected);

    let ping = Ping::new([6u8; 32], &k.to_bytes()).unwrap();
    let pong = Pong::new(&ping, &k.to_bytes()).unwrap();
    let mut expected = vec![4u8, 0, 0, 0];
    expected.extend(ping.serialize());
    assert_eq!(Protocol::PingMessage(ping).serialize(), expected);
    let mut expected = vec![5u8, 0, 0, 0];
    expected.extend(pong.serialize());
    assert_eq!(Protocol::PongMessage(pong).serialize(), expected);
}
