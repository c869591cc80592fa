//! What the node asks of its surroundings.
use crate::packet::{Packet, PacketView};
use crate::{ChunkId, FileHash, PeerId};
use vstd::prelude::*;

verus! {

/// Something to be done outside: effects are carried out in the order in
/// which they are given.
#[derive(PartialEq, Eq)]
pub enum Effect {
    /// Send a packet to a peer.
    Send { to: PeerId, packet: Packet },
    /// Create a directory, if it is not there, in the directory of the chunks.
    CreateDir { dir: String },
    /// Write a file, in place of one that may be there.
    WriteFile { dir: String, file: String, data: Vec<u8> },
    /// Add data at the end of a file.
    Append { dir: String, file: String, data: Vec<u8> },
    /// Tell the user how many chunks of how many are done.
    Progress { done: u64, total: u64 },
    /// Log a message.
    Report { message: String },
}

/// What an [`Effect`] says.
pub enum EffectView {
    Send { to: PeerId, packet: PacketView },
    CreateDir { dir: Seq<char> },
    WriteFile { dir: Seq<char>, file: Seq<char>, data: Seq<u8> },
    Append { dir: Seq<char>, file: Seq<char>, data: Seq<u8> },
    Progress { done: u64, total: u64 },
    Report { message: Seq<char> },
}

impl View for Effect {
    type V = EffectView;

    open spec fn view(&self) -> EffectView {
        match *self {
            Effect::Send { to, packet } => EffectView::Send { to, packet: packet@ },
            Effect::CreateDir { dir } => EffectView::CreateDir { dir: dir@ },
            Effect::WriteFile { dir, file, data } => EffectView::WriteFile {
                dir: dir@,
                file: file@,
                data: data@,
            },
            Effect::Append { dir, file, data } => EffectView::Append {
                dir: dir@,
                file: file@,
                data: data@,
            },
            Effect::Progress { done, total } => EffectView::Progress { done, total },
            Effect::Report { message } => EffectView::Report { message: message@ },
        }
    }
}

pub open spec fn effects_view(effects: Seq<Effect>) -> Seq<EffectView> {
    Seq::new(effects.len(), |i: int| effects[i]@)
}

/// A demand that cannot be met, or a peer that breaks the protocol.
#[derive(Clone, Copy, Debug, PartialEq, Eq, Structural)]
pub enum Fault {
    /// Something other than a request came where a request was due.
    ExpectedRequest,
    /// Something other than a chunk came where a chunk was due.
    ExpectedChunk,
    /// A file has chunks here, but no name.
    UnnamedFile(FileHash),
    /// No peer is listed for a chunk.
    UnlistedChunk(FileHash, ChunkId),
    /// A peer is listed for a chunk, but there is no connection to it.
    UnknownPeer(PeerId),
    /// A downloaded file does not have the hash that it was asked for by.
    HashMismatch,
}

} // verus!
