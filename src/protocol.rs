//! The messages that nodes exchange.
use crate::filter::CrdsFilter;
use crate::ping_pong::{Ping, Pong};
use crate::value::CrdsValue;
use crate::wire::{concat_map, enc_seq, le_u32, lemma_concat_map_step, len_prefix, put_len, put_u32, Pubkey};
use vstd::prelude::*;

verus! {

/// A gossip message.
#[derive(PartialEq, Eq, Debug)]
pub enum Protocol {
    /// Asks for the records in the filter's shard that are probably not in
    /// the filter, and advertises the sender's own record.
    PullRequest(CrdsFilter, CrdsValue),
    /// Records that answer a pull request.
    PullResponse(Pubkey, Vec<CrdsValue>),
    /// Records pushed unasked.
    PushMessage(Pubkey, Vec<CrdsValue>),
    /// Asks the receiver to stop relaying pushes from this origin this way.
    PruneMessage(Pubkey),
    PingMessage(Ping),
    PongMessage(Pong),
}

pub open spec fn values_wire(s: Seq<CrdsValue>) -> Seq<u8> {
    enc_seq(s, |c: CrdsValue| c.wire())
}

fn put_values(out: &mut Vec<u8>, s: &Vec<CrdsValue>)
    ensures
        final(out)@ == old(out)@ + values_wire(s@),
{
    let ghost start = out@;
    let ghost f = |c: CrdsValue| c.wire();
    put_len(out, s.len());
    let mut i: usize = 0;
    assert(s@.subrange(0, 0) =~= Seq::<CrdsValue>::empty());
    while i < s.len()
        invariant
            i <= s.len(),
            out@ == start + len_prefix(s@.len()) + concat_map(s@.subrange(0, i as int), f),
            f == (|c: CrdsValue| c.wire()),
        decreases s.len() - i,
    {
        proof {
            lemma_concat_map_step(s@, f, i as int);
        }
        let ghost before = out@;
        s[i].encode_to(out);
        assert(out@ =~= before + f(s@[i as int]));
        i = i + 1;
    }
    assert(s@.subrange(0, s.len() as int) =~= s@);
    assert(out@ =~= start + values_wire(s@));
}

impl Protocol {
    /// The canonical encoding: the variant's tag, then its payload.
    pub open spec fn wire(&self) -> Seq<u8> {
        match self {
            Protocol::PullRequest(f, v) => le_u32(0) + f.wire() + v.wire(),
            Protocol::PullResponse(p, vs) => le_u32(1) + p.bytes@ + values_wire(vs@),
            Protocol::PushMessage(p, vs) => le_u32(2) + p.bytes@ + values_wire(vs@),
            Protocol::PruneMessage(p) => le_u32(3) + p.bytes@,
            Protocol::PingMessage(p) => le_u32(4) + p.wire(),
            Protocol::PongMessage(p) => le_u32(5) + p.wire(),
        }
    }

    pub fn serialize(&self) -> (r: Vec<u8>)
        ensures
            r@ == self.wire(),
    {
        let mut out: Vec<u8> = Vec::new();
        match self {
            Protocol::PullRequest(f, v) => {
                put_u32(&mut out, 0);
                f.encode_to(&mut out);
                v.encode_to(&mut out);
            },
            Protocol::PullResponse(p, vs) => {
                put_u32(&mut out, 1);
                p.encode_to(&mut out);
                put_values(&mut out, vs);
            },
            Protocol::PushMessage(p, vs) => {
                put_u32(&mut out, 2);
                p.encode_to(&mut out);
                put_values(&mut out, vs);
            },
            Protocol::PruneMessage(p) => {
                put_u32(&mut out, 3);
                p.encode_to(&mut out);
            },
            Protocol::PingMessage(p) => {
                put_u32(&mut out, 4);
                let b = p.serialize();
                crate::wire::put_raw(&mut out, &b);
            },
            Protocol::PongMessage(p) => {
                put_u32(&mut out, 5);
                let b = p.serialize();
                crate::wire::put_raw(&mut out, &b);
            },
        }
        assert(out@ =~= self.wire());
        out
    }
}

} // verus!
