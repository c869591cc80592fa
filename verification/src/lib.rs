//! The core of a peer-to-peer file sharing node.
use vstd::prelude::*;

pub mod digest;
pub mod effect;
pub mod maps;
pub mod packet;
pub mod peer;
pub mod radix;
pub mod server;
pub mod store;
pub mod stream;
pub mod table;
pub mod text;

verus! {

/// The number of a chunk within its file.
pub type ChunkId = u64;

/// The identity of a file: a hash of its contents.
pub type FileHash = u128;

/// The identity of a peer: a hash of its socket address.
pub type PeerId = u64;

} // verus!
