//! The canonical wire encoding shared by every peer: fixed-width
//! little-endian integers, `u64` length prefixes, `u32` variant tags and
//! fixed-size byte arrays written as they stand.
use vstd::prelude::*;

verus! {

pub open spec fn le_u16(x: u16) -> Seq<u8> {
    seq![x as u8, (x >> 8u16) as u8]
}

pub open spec fn le_u32(x: u32) -> Seq<u8> {
    seq![x as u8, (x >> 8u32) as u8, (x >> 16u32) as u8, (x >> 24u32) as u8]
}

pub open spec fn le_u64(x: u64) -> Seq<u8> {
    seq![
        x as u8,
        (x >> 8u64) as u8,
        (x >> 16u64) as u8,
        (x >> 24u64) as u8,
        (x >> 32u64) as u8,
        (x >> 40u64) as u8,
        (x >> 48u64) as u8,
        (x >> 56u64) as u8,
    ]
}

/// A sequence's length as the `u64` prefix that precedes its elements.
pub open spec fn len_prefix(n: nat) -> Seq<u8> {
    le_u64(n as u64)
}

/// A byte vector: its length, then its bytes.
pub open spec fn enc_byte_vec(b: Seq<u8>) -> Seq<u8> {
    len_prefix(b.len()) + b
}

/// An optional `u32`: a zero byte, or a one byte and the value.
pub open spec fn enc_opt_u32(o: Option<u32>) -> Seq<u8> {
    match o {
        None => seq![0u8],
        Some(v) => seq![1u8] + le_u32(v),
    }
}

/// The encodings of the elements of `s`, one after another.
pub open spec fn concat_map<A>(s: Seq<A>, f: spec_fn(A) -> Seq<u8>) -> Seq<u8>
    decreases s.len(),
{
    if s.len() == 0 {
        Seq::empty()
    } else {
        concat_map(s.drop_last(), f) + f(s.last())
    }
}

/// A sequence: its length, then each element.
pub open spec fn enc_seq<A>(s: Seq<A>, f: spec_fn(A) -> Seq<u8>) -> Seq<u8> {
    len_prefix(s.len()) + concat_map(s, f)
}

/// One step of `concat_map` over a growing prefix.
pub proof fn lemma_concat_map_step<A>(s: Seq<A>, f: spec_fn(A) -> Seq<u8>, i: int)
    requires
        0 <= i < s.len(),
    ensures
        concat_map(s.subrange(0, i + 1), f) == concat_map(s.subrange(0, i), f) + f(s[i]),
{
    assert(s.subrange(0, i + 1).drop_last() =~= s.subrange(0, i));
}

pub fn put_u8(out: &mut Vec<u8>, x: u8)
    ensures
        final(out)@ == old(out)@ + seq![x],
{
    out.push(x);
}

pub fn put_u16(out: &mut Vec<u8>, x: u16)
    ensures
        final(out)@ == old(out)@ + le_u16(x),
{
    let ghost start = out@;
    out.push(x as u8);
    out.push((x >> 8u16) as u8);
    assert(out@ =~= start + le_u16(x));
}

pub fn put_u32(out: &mut Vec<u8>, x: u32)
    ensures
        final(out)@ == old(out)@ + le_u32(x),
{
    let ghost start = out@;
    out.push(x as u8);
    out.push((x >> 8u32) as u8);
    out.push((x >> 16u32) as u8);
    out.push((x >> 24u32) as u8);
    assert(out@ =~= start + le_u32(x));
}

pub fn put_u64(out: &mut Vec<u8>, x: u64)
    ensures
        final(out)@ == old(out)@ + le_u64(x),
{
    let ghost start = out@;
    out.push(x as u8);
    out.push((x >> 8u64) as u8);
    out.push((x >> 16u64) as u8);
    out.push((x >> 24u64) as u8);
    out.push((x >> 32u64) as u8);
    out.push((x >> 40u64) as u8);
    out.push((x >> 48u64) as u8);
    out.push((x >> 56u64) as u8);
    assert(out@ =~= start + le_u64(x));
}

/// A sequence's length prefix; `usize` is written as `u64`.
pub fn put_len(out: &mut Vec<u8>, n: usize)
    ensures
        final(out)@ == old(out)@ + len_prefix(n as nat),
{
    put_u64(out, n as u64);
}

/// A fixed-size array, byte for byte, with no length prefix.
pub fn put_array<const N: usize>(out: &mut Vec<u8>, a: &[u8; N])
    ensures
        final(out)@ == old(out)@ + a@,
{
    let ghost start = out@;
    let mut i: usize = 0;
    while i < N
        invariant
            i <= N,
            a@.len() == N,
            out@ == start + a@.subrange(0, i as int),
        decreases N - i,
    {
        out.push(a[i]);
        i = i + 1;
        assert(out@ =~= start + a@.subrange(0, i as int));
    }
    assert(a@.subrange(0, N as int) =~= a@);
}

/// Bytes as they stand, with no length prefix.
pub fn put_raw(out: &mut Vec<u8>, b: &Vec<u8>)
    ensures
        final(out)@ == old(out)@ + b@,
{
    let ghost start = out@;
    let mut i: usize = 0;
    while i < b.len()
        invariant
            i <= b.len(),
            out@ == start + b@.subrange(0, i as int),
        decreases b.len() - i,
    {
        out.push(b[i]);
        i = i + 1;
        assert(out@ =~= start + b@.subrange(0, i as int));
    }
    assert(b@.subrange(0, b.len() as int) =~= b@);
}

pub fn put_byte_vec(out: &mut Vec<u8>, b: &Vec<u8>)
    ensures
        final(out)@ == old(out)@ + enc_byte_vec(b@),
{
    let ghost start = out@;
    put_len(out, b.len());
    put_raw(out, b);
    assert(out@ =~= start + enc_byte_vec(b@));
}

pub fn put_opt_u32(out: &mut Vec<u8>, o: Option<u32>)
    ensures
        final(out)@ == old(out)@ + enc_opt_u32(o),
{
    let ghost start = out@;
    match o {
        None => put_u8(out, 0),
        Some(v) => {
            put_u8(out, 1);
            put_u32(out, v);
        },
    }
    assert(out@ =~= start + enc_opt_u32(o));
}

pub fn put_u64_seq(out: &mut Vec<u8>, s: &Vec<u64>)
    ensures
        final(out)@ == old(out)@ + enc_seq(s@, |x: u64| le_u64(x)),
{
    let ghost start = out@;
    let ghost f = |x: u64| le_u64(x);
    put_len(out, s.len());
    let mut i: usize = 0;
    assert(s@.subrange(0, 0) =~= Seq::<u64>::empty());
    while i < s.len()
        invariant
            i <= s.len(),
            out@ == start + len_prefix(s@.len()) + concat_map(s@.subrange(0, i as int), f),
            f == (|x: u64| le_u64(x)),
        decreases s.len() - i,
    {
        proof {
            lemma_concat_map_step(s@, f, i as int);
        }
        let ghost before = out@;
        put_u64(out, s[i]);
        assert(f(s@[i as int]) == le_u64(s@[i as int]));
        assert(out@ =~= before + f(s@[i as int]));
        i = i + 1;
    }
    assert(s@.subrange(0, s.len() as int) =~= s@);
    assert(out@ =~= start + enc_seq(s@, f));
}

/// 32 bytes that name a node: its ed25519 public key.
#[derive(Clone, Copy, PartialEq, Eq, Debug)]
pub struct Pubkey {
    pub bytes: [u8; 32],
}

/// A 32-byte content digest.
#[derive(Clone, Copy, PartialEq, Eq, Debug)]
pub struct Digest {
    pub bytes: [u8; 32],
}

/// A 64-byte ed25519 signature.
#[derive(Clone, Copy, PartialEq, Eq, Debug)]
pub struct Signature {
    pub bytes: [u8; 64],
}

impl Pubkey {
    pub fn new_default() -> (r: Pubkey)
        ensures
            forall|i: int| 0 <= i < 32 ==> r.bytes@[i] == 0,
    {
        Pubkey { bytes: [0u8; 32] }
    }

    pub fn encode_to(&self, out: &mut Vec<u8>)
        ensures
            final(out)@ == old(out)@ + self.bytes@,
    {
        put_array(out, &self.bytes);
    }
}

impl Digest {
    pub fn encode_to(&self, out: &mut Vec<u8>)
        ensures
            final(out)@ == old(out)@ + self.bytes@,
    {
        put_array(out, &self.bytes);
    }
}

impl Signature {
    pub fn encode_to(&self, out: &mut Vec<u8>)
        ensures
            final(out)@ == old(out)@ + self.bytes@,
    {
        put_array(out, &self.bytes);
    }
}

/// A socket address as the wire carries it: the address family's tag, the
/// address octets and the port. An IPv6 address carries no flow label or
/// scope on the wire.
#[derive(Clone, Copy, PartialEq, Eq, Debug)]
pub enum SocketAddr {
    V4 { ip4: [u8; 4], port: u16 },
    V6 { ip6: [u8; 16], port: u16 },
}

impl SocketAddr {
    pub open spec fn wire(&self) -> Seq<u8> {
        match *self {
            SocketAddr::V4 { ip4, port } => le_u32(0) + ip4@ + le_u16(port),
            SocketAddr::V6 { ip6, port } => le_u32(1) + ip6@ + le_u16(port),
        }
    }

    /// `0.0.0.0:0`.
    pub fn unspecified() -> (r: SocketAddr)
        ensures
            r matches SocketAddr::V4 { ip4, port } && port == 0 && ip4@ == seq![0u8, 0u8, 0u8, 0u8],
    {
        let r = SocketAddr::V4 { ip4: [0u8; 4], port: 0 };
        proof {
            if let SocketAddr::V4 { ip4, port } = r {
                assert(ip4@ =~= seq![0u8, 0u8, 0u8, 0u8]);
            }
        }
        r
    }

    pub fn encode_to(&self, out: &mut Vec<u8>)
        ensures
            final(out)@ == old(out)@ + self.wire(),
    {
        let ghost start = out@;
        match self {
            SocketAddr::V4 { ip4, port } => {
                put_u32(out, 0);
                put_array(out, ip4);
                put_u16(out, *port);
            },
            SocketAddr::V6 { ip6, port } => {
                put_u32(out, 1);
                put_array(out, ip6);
                put_u16(out, *port);
            },
        }
        assert(out@ =~= start + self.wire());
    }
}

} // verus!
