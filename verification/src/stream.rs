//! A leaner protocol, in which the data of chunks is streamed.
//!
//! Chunks have no digests and files no names here: a request says how much
//! data is to come, and the data follows it on the connection as it is.
use crate::digest::peer_id_of;
use crate::maps::{each_once, keys_of};
use crate::packet::{holding_view, holdings_view, Holding};
use crate::peer::Peer;
use crate::server::{addresses, peers_view};
use crate::store::{entries_view, ids_view, index_of, read_index, DirEntry, DirEntryView, Layout};
use crate::table::{with_holder, with_offered, ChunkTable, OfferedChunks};
use crate::text::texts;
use crate::{ChunkId, FileHash, PeerId};
use std::collections::HashMap;
use vstd::prelude::*;

pub mod laws;
pub mod round;

verus! {

#[derive(PartialEq, Eq)]
pub enum Request {
    /// New server that needs a list of all
    /// of this server's peers and chunks.
    ///
    /// It will send over a list of all of the chunks it has.
    Seed { chunks: Vec<(FileHash, Vec<ChunkId>)>, send_peers: bool },
    /// A request for a bunch of chunks. Send them back in the same order.
    Chunks(FileHash, Vec<ChunkId>),
    /// Chunks to be stored, and the size of the last one. Their data follows.
    WriteChunks(FileHash, Vec<ChunkId>, u16),
}

#[derive(PartialEq, Eq)]
pub enum Response {
    Seed { peers: Vec<String>, chunks: Vec<(FileHash, Vec<(ChunkId, Vec<PeerId>)>)> },
    /// The size of the last chunk (which may be less than 512).
    /// Chunk data is streamed right after this response is sent.
    Chunks(u16),
    NoOp,
}

/// A file, with its chunks and the peers that have each of them.
pub type Listing = (FileHash, Seq<Holding>);

/// What a [`Request`] says.
pub enum RequestView {
    Seed { chunks: Seq<OfferedChunks>, send_peers: bool },
    Chunks(FileHash, Seq<ChunkId>),
    WriteChunks(FileHash, Seq<ChunkId>, u16),
}

/// What a [`Response`] says.
pub enum ResponseView {
    Seed { peers: Seq<Seq<char>>, chunks: Seq<Listing> },
    Chunks(u16),
    NoOp,
}

pub open spec fn offers_view(offers: Seq<(FileHash, Vec<ChunkId>)>) -> Seq<OfferedChunks> {
    Seq::new(offers.len(), |i: int| (offers[i].0, offers[i].1@))
}

pub open spec fn listing_view(listing: (FileHash, Vec<(ChunkId, Vec<PeerId>)>)) -> Listing {
    (listing.0, holdings_view(listing.1@))
}

pub open spec fn listings_view(listings: Seq<(FileHash, Vec<(ChunkId, Vec<PeerId>)>)>) -> Seq<
    Listing,
> {
    Seq::new(listings.len(), |i: int| listing_view(listings[i]))
}

impl View for Request {
    type V = RequestView;

    open spec fn view(&self) -> RequestView {
        match *self {
            Request::Seed { chunks, send_peers } => RequestView::Seed {
                chunks: offers_view(chunks@),
                send_peers,
            },
            Request::Chunks(file_hash, ids) => RequestView::Chunks(file_hash, ids@),
            Request::WriteChunks(file_hash, ids, last_size) => RequestView::WriteChunks(
                file_hash,
                ids@,
                last_size,
            ),
        }
    }
}

impl View for Response {
    type V = ResponseView;

    open spec fn view(&self) -> ResponseView {
        match *self {
            Response::Seed { peers, chunks } => ResponseView::Seed {
                peers: texts(peers@),
                chunks: listings_view(chunks@),
            },
            Response::Chunks(size) => ResponseView::Chunks(size),
            Response::NoOp => ResponseView::NoOp,
        }
    }
}

/// A request that cannot be met.
#[derive(Clone, Copy, Debug, PartialEq, Eq, Structural)]
pub enum Fault {
    /// There is no answer to such a request.
    Unimplemented,
    /// No peer is listed for a chunk that is stored here.
    UnlistedChunk(FileHash, ChunkId),
    /// The request names no chunk.
    NoChunks,
    /// The last chunk is said to be larger than a chunk can be.
    OversizedChunk(u16),
}

/// The chunks of all files that have a directory; `None` if a name among the
/// entries cannot be read.
pub open spec fn chunks_of(entries: Seq<DirEntryView>) -> Option<Map<FileHash, Seq<ChunkId>>> {
    match index_of(Layout::Bare, entries) {
        Some(index) => Some(index.chunks),
        None => None,
    }
}

/// The chunks of all files on disk; `None` if a name among the entries cannot
/// be read.
pub fn get_own_chunks(entries: &Vec<DirEntry>) -> (found: Option<HashMap<FileHash, Vec<ChunkId>>>)
    ensures
        match found {
            Some(chunks) => chunks_of(entries_view(entries@)) == Some(ids_view(chunks@)),
            None => chunks_of(entries_view(entries@)) is None,
        },
{
    match read_index(Layout::Bare, entries) {
        Some((chunks, _)) => Some(chunks),
        None => None,
    }
}

pub struct Server {
    own_chunks: HashMap<FileHash, Vec<ChunkId>>,
    peers: HashMap<PeerId, Peer>,
    chunks: ChunkTable,
}

/// What a [`Server`] knows.
pub struct ServerView {
    /// The chunks that are stored here, for each file.
    pub own_chunks: Map<FileHash, Seq<ChunkId>>,
    /// The address of each connected peer.
    pub peers: Map<PeerId, Seq<char>>,
    /// The peers that have a chunk.
    pub chunks: Map<(FileHash, ChunkId), Seq<PeerId>>,
}

impl View for Server {
    type V = ServerView;

    closed spec fn view(&self) -> ServerView {
        ServerView {
            own_chunks: ids_view(self.own_chunks@),
            peers: peers_view(self.peers@),
            chunks: self.chunks@,
        }
    }
}

impl ServerView {
    /// What is known after a peer has offered the chunks that it has.
    pub open spec fn with_offers(self, peer_id: PeerId, offers: Seq<OfferedChunks>) -> ServerView {
        ServerView { chunks: with_offered(self.chunks, offers, peer_id), ..self }
    }

    pub open spec fn with_peer(self, id: PeerId, addr: Seq<char>) -> ServerView {
        ServerView { peers: self.peers.insert(id, addr), ..self }
    }

    /// The chunk is stored here, and no peer is listed for it.
    pub open spec fn is_unlisted(self, hash: FileHash, id: ChunkId) -> bool {
        &&& self.own_chunks.contains_key(hash)
        &&& self.own_chunks[hash].contains(id)
        &&& !self.chunks.contains_key((hash, id))
    }

    /// Peers are listed for all chunks that are stored here.
    pub open spec fn all_listed(self) -> bool {
        forall|hash: FileHash, id: ChunkId| !#[trigger] self.is_unlisted(hash, id)
    }

    /// A file that has chunks here, with the peers that have each of them.
    pub open spec fn listing(self, hash: FileHash) -> Listing {
        (
            hash,
            Seq::new(
                self.own_chunks[hash].len(),
                |i: int|
                    (
                        self.own_chunks[hash][i],
                        self.chunks[(hash, self.own_chunks[hash][i])],
                    ),
            ),
        )
    }

    /// The answer to a new server, with the peers and the files in the given
    /// orders.
    pub open spec fn seed_response(
        self,
        send_peers: bool,
        peer_order: Seq<PeerId>,
        file_order: Seq<FileHash>,
    ) -> ResponseView {
        ResponseView::Seed {
            peers: if send_peers {
                Seq::new(peer_order.len(), |i: int| self.peers[peer_order[i]])
            } else {
                Seq::empty()
            },
            chunks: Seq::new(file_order.len(), |i: int| self.listing(file_order[i])),
        }
    }
}

/// How a server takes in a new peer with the request that it starts with:
/// `after` is what it knows then, `response` is what it answers.
pub open spec fn welcomed(
    before: ServerView,
    id: PeerId,
    addr: Seq<char>,
    request: RequestView,
    after: ServerView,
    response: ResponseView,
) -> bool {
    match request {
        RequestView::Seed { chunks, send_peers } => {
            &&& before.all_listed()
            &&& after == before.with_offers(id, chunks).with_peer(id, addr)
            &&& exists|peer_order: Seq<PeerId>, file_order: Seq<FileHash>|
                {
                    &&& each_once(peer_order, before.peers.dom())
                    &&& each_once(file_order, before.own_chunks.dom())
                    &&& response == #[trigger] before.seed_response(
                        send_peers,
                        peer_order,
                        file_order,
                    )
                }
        },
        _ => false,
    }
}

/// Why a server cannot take in a new peer with the request that it starts
/// with.
pub open spec fn unwelcome(before: ServerView, request: RequestView, fault: Fault) -> bool {
    match request {
        RequestView::Seed { .. } => match fault {
            Fault::UnlistedChunk(hash, id) => before.is_unlisted(hash, id),
            _ => false,
        },
        _ => fault == Fault::Unimplemented,
    }
}

impl Server {
    /// A server with the chunks that are found on disk; `None` if a name among
    /// the entries cannot be read.
    pub fn new(entries: &Vec<DirEntry>) -> (server: Option<Server>)
        ensures
            match server {
                Some(server) => chunks_of(entries_view(entries@)) == Some(server@.own_chunks)
                    && server@.peers == Map::<PeerId, Seq<char>>::empty() && server@.chunks
                    == Map::<(FileHash, ChunkId), Seq<PeerId>>::empty(),
                None => chunks_of(entries_view(entries@)) is None,
            },
    {
        match get_own_chunks(entries) {
            Some(own_chunks) => {
                let server = Server {
                    own_chunks,
                    peers: HashMap::new(),
                    chunks: ChunkTable::new(),
                };
                assert(server@.peers =~= Map::empty());
                Some(server)
            },
            None => None,
        }
    }

    pub fn add_peer(&mut self, peer_id: PeerId, peer: Peer)
        ensures
            final(self)@ == old(self)@.with_peer(peer_id, peer@),
    {
        self.peers.insert(peer_id, peer);
        assert(self@.peers =~= old(self)@.peers.insert(peer_id, peer@));
    }

    pub fn add_chunk(&mut self, file_hash: FileHash, chunk_id: ChunkId, peer_id: PeerId)
        ensures
            final(self)@ == (ServerView {
                chunks: with_holder(old(self)@.chunks, file_hash, chunk_id, peer_id),
                ..old(self)@
            }),
    {
        self.chunks.add_chunk(file_hash, chunk_id, peer_id);
    }

    pub fn get_chunk_peers(&self, file_hash: FileHash, chunk_id: ChunkId) -> (peers: Option<
        &Vec<PeerId>,
    >)
        ensures
            match peers {
                Some(peers) => self@.chunks.contains_key((file_hash, chunk_id)) && peers@
                    == self@.chunks[(file_hash, chunk_id)],
                None => !self@.chunks.contains_key((file_hash, chunk_id)),
            },
    {
        self.chunks.get_chunk_peers(file_hash, chunk_id)
    }

    /// The files that have chunks here, with the peers that have each chunk,
    /// in the given order; or a chunk that no peer is listed for.
    fn listings(&self, order: &Vec<FileHash>) -> (listings: Result<
        Vec<(FileHash, Vec<(ChunkId, Vec<PeerId>)>)>,
        (FileHash, ChunkId),
    >)
        requires
            each_once(order@, self@.own_chunks.dom()),
        ensures
            match listings {
                Ok(listings) => self@.all_listed() && listings_view(listings@) == Seq::new(
                    order@.len(),
                    |i: int| self@.listing(order@[i]),
                ),
                Err((hash, id)) => self@.is_unlisted(hash, id),
            },
    {
        let mut listings: Vec<(FileHash, Vec<(ChunkId, Vec<PeerId>)>)> = Vec::new();
        for i in 0..order.len()
            invariant
                each_once(order@, self@.own_chunks.dom()),
                listings.len() == i,
                forall|j: int|
                    0 <= j < i ==> listing_view(#[trigger] listings[j]) == self@.listing(order[j]),
                forall|j: int, id: ChunkId|
                    0 <= j < i ==> !#[trigger] self@.is_unlisted(order[j], id),
        {
            let hash = order[i];
            assert(order@.to_set().contains(order@[i as int]));
            let mut held: Vec<(ChunkId, Vec<PeerId>)> = Vec::new();
            if let Some(ids) = self.own_chunks.get(&hash) {
                for k in 0..ids.len()
                    invariant
                        self@.own_chunks.contains_key(hash),
                        ids@ == self@.own_chunks[hash],
                        held.len() == k,
                        forall|j: int|
                            0 <= j < k ==> {
                                &&& self@.chunks.contains_key((hash, #[trigger] ids[j]))
                                &&& holding_view(held[j]) == (ids[j], self@.chunks[(hash, ids[j])])
                            },
                {
                    match self.get_chunk_peers(hash, ids[k]) {
                        Some(peers) => {
                            let copy = peers.clone();
                            assert(copy@ =~= self@.chunks[(hash, ids[k as int])]);
                            held.push((ids[k], copy));
                        },
                        None => {
                            assert(self@.own_chunks[hash].contains(ids[k as int]));
                            return Err((hash, ids[k]));
                        },
                    }
                }
            }
            proof {
                let ids = self@.own_chunks[hash];
                assert(holdings_view(held@) =~= self@.listing(hash).1);
                assert forall|id: ChunkId| !#[trigger] self@.is_unlisted(hash, id) by {
                    if ids.contains(id) {
                        let j = ids.index_of(id);
                        assert(self@.chunks.contains_key((hash, ids[j])));
                    }
                }
            }
            listings.push((hash, held));
        }
        assert forall|hash: FileHash, id: ChunkId| !#[trigger] self@.is_unlisted(hash, id) by {
            if self@.own_chunks.contains_key(hash) {
                assert(order@.to_set().contains(hash));
                let j = order@.index_of(hash);
                assert(!self@.is_unlisted(order[j], id));
            }
        }
        assert(listings_view(listings@) =~= Seq::new(
            order@.len(),
            |i: int| self@.listing(order@[i]),
        ));
        Ok(listings)
    }

    fn add_offers(&mut self, peer_id: PeerId, offers: &Vec<(FileHash, Vec<ChunkId>)>)
        ensures
            final(self)@ == old(self)@.with_offers(peer_id, offers_view(offers@)),
    {
        let ghost all = offers_view(offers@);
        assert(all.take(0) =~= Seq::empty());
        for i in 0..offers.len()
            invariant
                all == offers_view(offers@),
                self@ == old(self)@.with_offers(peer_id, all.take(i as int)),
        {
            assert(all.take(i as int + 1).drop_last() =~= all.take(i as int));
            self.chunks.add_chunks(offers[i].0, &offers[i].1, peer_id);
        }
        assert(all.take(all.len() as int) =~= all);
    }

    /// Takes in a new peer, which starts with a request. The answer is a list
    /// of what is here.
    pub fn handle_new_peer(&mut self, peer: Peer, request: Request) -> (response: Result<
        Response,
        Fault,
    >)
        ensures
            match response {
                Ok(response) => welcomed(
                    old(self)@,
                    peer_id_of(peer@),
                    peer@,
                    request@,
                    final(self)@,
                    response@,
                ),
                Err(fault) => unwelcome(old(self)@, request@, fault) && final(self)@ == old(
                    self,
                )@,
            },
    {
        let id = peer.id();
        self.welcome(id, peer, request)
    }

    /// Takes in a new peer under the identity `id`.
    pub fn welcome(&mut self, id: PeerId, peer: Peer, request: Request) -> (response: Result<
        Response,
        Fault,
    >)
        ensures
            match response {
                Ok(response) => welcomed(
                    old(self)@,
                    id,
                    peer@,
                    request@,
                    final(self)@,
                    response@,
                ),
                Err(fault) => unwelcome(old(self)@, request@, fault) && final(self)@ == old(
                    self,
                )@,
            },
    {
        let (chunks, send_peers) = match request {
            Request::Seed { chunks, send_peers } => (chunks, send_peers),
            _ => {
                return Err(Fault::Unimplemented);
            },
        };
        assert(self@.peers.dom() =~= self.peers@.dom());
        assert(self@.own_chunks.dom() =~= self.own_chunks@.dom());
        let peer_order = keys_of(&self.peers);
        let file_order = keys_of(&self.own_chunks);
        let peers = if send_peers {
            addresses(&self.peers, &peer_order)
        } else {
            Vec::new()
        };
        let listings = match self.listings(&file_order) {
            Ok(listings) => listings,
            Err((hash, id)) => {
                return Err(Fault::UnlistedChunk(hash, id));
            },
        };
        let response = Response::Seed { peers, chunks: listings };
        assert(response@ == old(self)@.seed_response(send_peers, peer_order@, file_order@)) by {
            if !send_peers {
                assert(texts(peers@) =~= Seq::empty());
            }
        }
        self.add_offers(id, &chunks);
        self.add_peer(id, peer);
        Ok(response)
    }
}

} // verus!
