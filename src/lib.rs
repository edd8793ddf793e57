//! Wire protocol of a gossip network: signed cluster-state records and their
//! canonical encoding, the shard-scoped pull filter, the ping/pong liveness
//! check and the message envelope.

pub mod crds;
pub mod crypto;
pub mod decode;
pub mod filter;
pub mod ping_pong;
pub mod protocol;
pub mod shard;
pub mod value;
pub mod wire;
