//! A node: the chunks it has, the peers it knows, and how it answers them.
use crate::digest::peer_id_of;
use crate::effect::{effects_view, Effect, EffectView, Fault};
use crate::maps::{each_once, keys_of};
use crate::packet::{
    holding_view, holdings_view, listing_view, listings_view, offer_view, offers_view,
    request_text, Listing, Offer, Packet, PacketView, Request, RequestView, Response,
    ResponseView,
};
use crate::peer::Peer;
use crate::store::{
    entries_view, get_own_chunks, ids_view, index_of, law_index_covers_directories, names_view,
    DirEntry, DirEntryView, Index, Layout,
};
use crate::table::{
    are_distinct, holders, is_offered, law_offered_chunks_are_listed, repeated, times_offered,
    with_holder, with_offered, ChunkTable, OfferedChunks,
};
use crate::text::texts;
use crate::{ChunkId, FileHash, PeerId};
use std::collections::HashMap;
use vstd::prelude::*;
use vstd::string::*;

pub mod download;
pub mod exchange;
pub mod laws;
pub mod node;
pub mod pursuit;
pub mod restart;
pub mod round;
pub mod upload;

verus! {

#[derive(Debug, Clone, Copy, PartialEq, Eq, Structural)]
pub struct Stats {
    pub uploaded_chunks: u64,
    pub downloaded_chunks: u64,
    pub downloaded_files: u64,
}

impl Default for Stats {
    fn default() -> (stats: Stats)
        ensures
            stats == (Stats { uploaded_chunks: 0, downloaded_chunks: 0, downloaded_files: 0 }),
    {
        Stats { uploaded_chunks: 0, downloaded_chunks: 0, downloaded_files: 0 }
    }
}

pub struct Server {
    own_chunks: HashMap<FileHash, Vec<ChunkId>>,
    peers: HashMap<PeerId, Peer>,
    file_names: HashMap<FileHash, String>,
    chunks: ChunkTable,
    pub stats: Stats,
}

/// What a [`Server`] knows.
pub struct ServerView {
    /// The chunks that are stored here, for each file.
    pub own_chunks: Map<FileHash, Seq<ChunkId>>,
    /// The address of each connected peer.
    pub peers: Map<PeerId, Seq<char>>,
    /// The names of the known files.
    pub file_names: Map<FileHash, Seq<char>>,
    /// The peers that have a chunk.
    pub chunks: Map<(FileHash, ChunkId), Seq<PeerId>>,
    pub stats: Stats,
}

/// The addresses of some peers.
pub open spec fn peers_view(peers: Map<PeerId, Peer>) -> Map<PeerId, Seq<char>> {
    Map::new(|id: PeerId| peers.contains_key(id), |id: PeerId| peers[id]@)
}

impl View for Server {
    type V = ServerView;

    closed spec fn view(&self) -> ServerView {
        ServerView {
            own_chunks: ids_view(self.own_chunks@),
            peers: peers_view(self.peers@),
            file_names: names_view(self.file_names@),
            chunks: self.chunks@,
            stats: self.stats,
        }
    }
}

impl ServerView {
    /// Every peer is known by the identity that its address gives it.
    pub open spec fn wf(self) -> bool {
        forall|id: PeerId| #[trigger]
            self.peers.contains_key(id) ==> id == peer_id_of(self.peers[id])
    }

    /// The chunks of a file that are stored here.
    pub open spec fn stored(self, file_hash: FileHash) -> Seq<ChunkId> {
        if self.own_chunks.contains_key(file_hash) {
            self.own_chunks[file_hash]
        } else {
            Seq::empty()
        }
    }

    /// The name of a file, if it is known.
    pub open spec fn name_of(self, file_hash: FileHash) -> Option<Seq<char>> {
        if self.file_names.contains_key(file_hash) {
            Some(self.file_names[file_hash])
        } else {
            None
        }
    }

    /// The peers that are listed for a chunk, if it is known.
    pub open spec fn peers_of(self, file_hash: FileHash, chunk_id: ChunkId) -> Option<
        Seq<PeerId>,
    > {
        if self.chunks.contains_key((file_hash, chunk_id)) {
            Some(self.chunks[(file_hash, chunk_id)])
        } else {
            None
        }
    }

    /// The hash is that of a file with the given name, or no file has the name.
    pub open spec fn is_found_by(self, name: Seq<char>, hash: Option<FileHash>) -> bool {
        match hash {
            Some(hash) => self.file_names.contains_key(hash) && self.file_names[hash] == name,
            None => forall|hash: FileHash| #[trigger]
                self.file_names.contains_key(hash) ==> self.file_names[hash] != name,
        }
    }

    pub open spec fn with_file(self, file_hash: FileHash, name: Seq<char>) -> ServerView {
        ServerView { file_names: self.file_names.insert(file_hash, name), ..self }
    }

    pub open spec fn with_peer(self, id: PeerId, addr: Seq<char>) -> ServerView {
        ServerView { peers: self.peers.insert(id, addr), ..self }
    }

    pub open spec fn without_peer(self, id: PeerId) -> ServerView {
        ServerView { peers: self.peers.remove(id), ..self }
    }

    pub open spec fn with_chunk(
        self,
        file_hash: FileHash,
        chunk_id: ChunkId,
        peer_id: PeerId,
    ) -> ServerView {
        ServerView { chunks: with_holder(self.chunks, file_hash, chunk_id, peer_id), ..self }
    }

    pub open spec fn with_own_chunk(self, file_hash: FileHash, chunk_id: ChunkId) -> ServerView {
        ServerView {
            own_chunks: self.own_chunks.insert(file_hash, self.stored(file_hash).push(chunk_id)),
            ..self
        }
    }

    /// What is known after a peer has offered the chunks that it has.
    pub open spec fn with_offers(self, peer_id: PeerId, offers: Seq<Offer>) -> ServerView {
        ServerView {
            file_names: with_names(self.file_names, offers),
            chunks: with_offered(self.chunks, offered_chunks(offers), peer_id),
            ..self
        }
    }

    /// All files that have chunks here have names.
    pub open spec fn all_named(self) -> bool {
        forall|hash: FileHash| #[trigger]
            self.own_chunks.contains_key(hash) ==> self.file_names.contains_key(hash)
    }

    /// A file that has chunks here, with its name and the peers that have
    /// each of the chunks.
    pub open spec fn listing(self, hash: FileHash) -> Listing {
        (
            hash,
            self.file_names[hash],
            Seq::new(
                self.own_chunks[hash].len(),
                |i: int|
                    (
                        self.own_chunks[hash][i],
                        holders(self.chunks, hash, self.own_chunks[hash][i]),
                    ),
            ),
        )
    }

    /// The answer to a new server, with the peers and the files in the given
    /// orders.
    pub open spec fn seed_response(
        self,
        send_peers: bool,
        peer_order: Seq<PeerId>,
        file_order: Seq<FileHash>,
    ) -> ResponseView {
        ResponseView::Seed {
            peers: if send_peers {
                Seq::new(peer_order.len(), |i: int| self.peers[peer_order[i]])
            } else {
                Seq::empty()
            },
            chunks: Seq::new(file_order.len(), |i: int| self.listing(file_order[i])),
        }
    }
}

/// The chunks that are offered, without the names of the files.
pub open spec fn offered_chunks(offers: Seq<Offer>) -> Seq<OfferedChunks> {
    Seq::new(offers.len(), |i: int| (offers[i].0, offers[i].2))
}

/// The name in the last offer of a file.
pub open spec fn last_name(offers: Seq<Offer>, hash: FileHash) -> Option<Seq<char>>
    decreases offers.len(),
{
    if offers.len() == 0 {
        None
    } else if offers.last().0 == hash {
        Some(offers.last().1)
    } else {
        last_name(offers.drop_last(), hash)
    }
}

/// The names of the files after some were offered.
pub open spec fn with_names(names: Map<FileHash, Seq<char>>, offers: Seq<Offer>) -> Map<
    FileHash,
    Seq<char>,
>
    decreases offers.len(),
{
    if offers.len() == 0 {
        names
    } else {
        with_names(names, offers.drop_last()).insert(offers.last().0, offers.last().1)
    }
}

/// The news that a chunk is stored here now, for each peer of `order`.
pub open spec fn notices(
    order: Seq<PeerId>,
    file_hash: FileHash,
    chunk_id: ChunkId,
) -> Seq<EffectView> {
    Seq::new(
        order.len(),
        |i: int|
            EffectView::Send {
                to: order[i],
                packet: PacketView::Request(RequestView::HasChunk(file_hash, chunk_id)),
            },
    )
}

/// The effects are the news that a chunk is stored here now, for all the peers,
/// in some order.
pub open spec fn tells_all(
    effects: Seq<EffectView>,
    peers: Set<PeerId>,
    file_hash: FileHash,
    chunk_id: ChunkId,
) -> bool {
    exists|order: Seq<PeerId>|
        each_once(order, peers) && effects == #[trigger] notices(order, file_hash, chunk_id)
}

/// What a server knows that has just started and has found `index` on disk.
pub open spec fn started(index: Index) -> ServerView {
    ServerView {
        own_chunks: index.chunks,
        peers: Map::empty(),
        file_names: index.names,
        chunks: Map::empty(),
        stats: Stats { uploaded_chunks: 0, downloaded_chunks: 0, downloaded_files: 0 },
    }
}

/// How a server takes in a new peer whose first packet is `first`: `after` is
/// what it knows then, `effects` is what it asks for.
pub open spec fn welcomed(
    before: ServerView,
    id: PeerId,
    addr: Seq<char>,
    first: PacketView,
    after: ServerView,
    effects: Seq<EffectView>,
) -> bool {
    match first {
        PacketView::Request(RequestView::Seed { chunks, send_peers }) => {
            &&& before.all_named()
            &&& after == before.with_offers(id, chunks).with_peer(id, addr)
            &&& exists|peer_order: Seq<PeerId>, file_order: Seq<FileHash>|
                {
                    &&& each_once(peer_order, before.peers.dom())
                    &&& each_once(file_order, before.own_chunks.dom())
                    &&& effects == seq![
                        EffectView::Send {
                            to: id,
                            packet: PacketView::Response(
                                #[trigger] before.seed_response(send_peers, peer_order, file_order),
                            ),
                        },
                    ]
                }
        },
        PacketView::Request(request) => {
            &&& after == before.with_peer(id, addr)
            &&& effects == seq![unhandled(request)]
        },
        PacketView::Response(_) => false,
    }
}

/// Why a server cannot take in a new peer whose first packet is `first`.
pub open spec fn unwelcome(before: ServerView, first: PacketView, fault: Fault) -> bool {
    match first {
        PacketView::Request(RequestView::Seed { .. }) => match fault {
            Fault::UnnamedFile(hash) => before.own_chunks.contains_key(hash)
                && !before.file_names.contains_key(hash),
            _ => false,
        },
        PacketView::Request(_) => false,
        PacketView::Response(_) => fault == Fault::ExpectedRequest,
    }
}

/// The report on a request that there is no answer to.
pub open spec fn unhandled(request: RequestView) -> EffectView {
    EffectView::Report { message: "Unhandled request: "@ + request_text(request) }
}

fn report_unhandled(request: &Request) -> (effect: Effect)
    ensures
        effect@ == unhandled(request@),
{
    let mut message = "Unhandled request: ".to_owned();
    message.append(request.fmt().as_str());
    Effect::Report { message }
}

/// The addresses of the peers, in the given order.
pub(crate) fn addresses(peers: &HashMap<PeerId, Peer>, order: &Vec<PeerId>) -> (addrs: Vec<String>)
    requires
        each_once(order@, peers@.dom()),
    ensures
        texts(addrs@) == Seq::new(order@.len(), |i: int| peers_view(peers@)[order@[i]]),
{
    let mut addrs: Vec<String> = Vec::new();
    for i in 0..order.len()
        invariant
            each_once(order@, peers@.dom()),
            addrs.len() == i,
            forall|j: int| 0 <= j < i ==> #[trigger] addrs[j]@ == peers_view(peers@)[order[j]],
    {
        assert(order@.to_set().contains(order@[i as int]));
        if let Some(peer) = peers.get(&order[i]) {
            addrs.push(peer.addr().to_owned());
        }
    }
    assert(texts(addrs@) =~= Seq::new(order@.len(), |i: int| peers_view(peers@)[order@[i]]));
    addrs
}

impl Server {
    /// A server with the chunks that are found on disk; `None` if a name
    /// among the entries cannot be read.
    pub fn new(entries: &Vec<DirEntry>) -> (server: Option<Server>)
        ensures
            match server {
                Some(server) => {
                    &&& index_of(Layout::Named, entries_view(entries@)) is Some
                    &&& server@ == started(index_of(Layout::Named, entries_view(entries@))->0)
                    &&& server@.wf()
                },
                None => index_of(Layout::Named, entries_view(entries@)) is None,
            },
    {
        match get_own_chunks(entries) {
            Some((own_chunks, file_names)) => {
                let server = Server {
                    own_chunks,
                    peers: HashMap::new(),
                    file_names,
                    chunks: ChunkTable::new(),
                    stats: Stats::default(),
                };
                assert(server@.peers =~= Map::empty());
                Some(server)
            },
            None => None,
        }
    }

    /// What was transferred so far.
    pub fn stats(&self) -> (stats: Stats)
        ensures
            stats == self@.stats,
    {
        self.stats
    }

    pub fn peers(&self) -> (peers: &HashMap<PeerId, Peer>)
        ensures
            peers_view(peers@) == self@.peers,
    {
        &self.peers
    }

    pub fn file_name(&self, file_hash: FileHash) -> (name: Option<&str>)
        ensures
            match name {
                Some(name) => self@.name_of(file_hash) == Some(name@),
                None => self@.name_of(file_hash) is None,
            },
    {
        match self.file_names.get(&file_hash) {
            Some(name) => Some(name.as_str()),
            None => None,
        }
    }

    /// The hash of a file with the given name; which one, if several files
    /// have the same name, is left open.
    pub fn file_hash_by_name(&self, file_name: &str) -> (hash: Option<FileHash>)
        ensures
            self@.is_found_by(file_name@, hash),
    {
        let wanted = file_name.to_owned();
        let hashes = keys_of(&self.file_names);
        for i in 0..hashes.len()
            invariant
                wanted@ == file_name@,
                each_once(hashes@, self.file_names@.dom()),
                forall|j: int|
                    0 <= j < i ==> self@.file_names[#[trigger] hashes[j]] != file_name@,
        {
            assert(hashes@.to_set().contains(hashes@[i as int]));
            if let Some(name) = self.file_names.get(&hashes[i]) {
                if *name == wanted {
                    return Some(hashes[i]);
                }
            }
        }
        assert forall|hash: FileHash| #[trigger]
            self@.file_names.contains_key(hash) implies self@.file_names[hash] != file_name@ by {
            assert(hashes@.to_set().contains(hash));
        }
        None
    }

    pub fn add_file(&mut self, file_hash: FileHash, file_name: String)
        ensures
            final(self)@ == old(self)@.with_file(file_hash, file_name@),
            old(self)@.wf() ==> final(self)@.wf(),
    {
        self.file_names.insert(file_hash, file_name);
        assert(self@.file_names =~= old(self)@.file_names.insert(file_hash, file_name@));
    }

    pub fn add_peer(&mut self, peer: Peer)
        ensures
            final(self)@ == old(self)@.with_peer(peer_id_of(peer@), peer@),
            old(self)@.wf() ==> final(self)@.wf(),
    {
        self.insert_peer(peer.id(), peer);
    }

    fn insert_peer(&mut self, id: PeerId, peer: Peer)
        ensures
            final(self)@ == old(self)@.with_peer(id, peer@),
    {
        self.peers.insert(id, peer);
        assert(self@.peers =~= old(self)@.peers.insert(id, peer@));
    }

    pub fn add_chunk(&mut self, file_hash: FileHash, chunk_id: ChunkId, peer_id: PeerId)
        ensures
            final(self)@ == old(self)@.with_chunk(file_hash, chunk_id, peer_id),
            old(self)@.wf() ==> final(self)@.wf(),
    {
        self.chunks.add_chunk(file_hash, chunk_id, peer_id);
        assert(self@ == old(self)@.with_chunk(file_hash, chunk_id, peer_id));
    }

    pub fn own_chunks(&self) -> (chunks: &HashMap<FileHash, Vec<ChunkId>>)
        ensures
            ids_view(chunks@) == self@.own_chunks,
    {
        &self.own_chunks
    }

    pub fn chunks(&self) -> (chunks: &ChunkTable)
        ensures
            chunks@ == self@.chunks,
    {
        &self.chunks
    }

    pub fn get_chunk_peers(&self, file_hash: FileHash, chunk_id: ChunkId) -> (peers: Option<
        &Vec<PeerId>,
    >)
        ensures
            match peers {
                Some(peers) => self@.peers_of(file_hash, chunk_id) == Some(peers@),
                None => self@.peers_of(file_hash, chunk_id) is None,
            },
    {
        self.chunks.get_chunk_peers(file_hash, chunk_id)
    }

    /// Notes that a chunk is stored here now. All peers are to be told.
    pub fn add_own_chunk(&mut self, file_hash: FileHash, chunk_id: ChunkId) -> (effects: Vec<
        Effect,
    >)
        ensures
            final(self)@ == old(self)@.with_own_chunk(file_hash, chunk_id),
            tells_all(effects_view(effects@), old(self)@.peers.dom(), file_hash, chunk_id),
            old(self)@.wf() ==> final(self)@.wf(),
    {
        let ids = self.own_chunks.entry(file_hash).or_insert(Vec::new());
        ids.push(chunk_id);
        proof {
            assert(self@.own_chunks =~= old(self)@.with_own_chunk(file_hash, chunk_id).own_chunks);
            assert(self@.peers.dom() =~= self.peers@.dom());
        }
        let order = keys_of(&self.peers);
        let mut effects: Vec<Effect> = Vec::new();
        for i in 0..order.len()
            invariant
                effects.len() == i,
                forall|j: int|
                    0 <= j < i ==> #[trigger] effects[j]@ == notices(
                        order@,
                        file_hash,
                        chunk_id,
                    )[j],
        {
            effects.push(
                Effect::Send {
                    to: order[i],
                    packet: Packet::from(Request::HasChunk(file_hash, chunk_id)),
                },
            );
        }
        assert(effects_view(effects@) =~= notices(order@, file_hash, chunk_id));
        effects
    }

    /// The files that have chunks here, with the peers that have each chunk,
    /// in the given order; or a file that has no name.
    fn listings(&self, order: &Vec<FileHash>) -> (listings: Result<
        Vec<(FileHash, String, Vec<(ChunkId, Vec<PeerId>)>)>,
        FileHash,
    >)
        requires
            each_once(order@, self@.own_chunks.dom()),
        ensures
            match listings {
                Ok(listings) => self@.all_named() && listings_view(listings@) == Seq::new(
                    order@.len(),
                    |i: int| self@.listing(order@[i]),
                ),
                Err(hash) => self@.own_chunks.contains_key(hash)
                    && !self@.file_names.contains_key(hash),
            },
    {
        let mut listings: Vec<(FileHash, String, Vec<(ChunkId, Vec<PeerId>)>)> = Vec::new();
        for i in 0..order.len()
            invariant
                each_once(order@, self@.own_chunks.dom()),
                listings.len() == i,
                forall|j: int|
                    0 <= j < i ==> {
                        &&& self@.file_names.contains_key(#[trigger] order[j])
                        &&& listing_view(listings[j]) == self@.listing(order[j])
                    },
        {
            let hash = order[i];
            assert(order@.to_set().contains(order@[i as int]));
            let name = match self.file_name(hash) {
                Some(name) => name.to_owned(),
                None => {
                    return Err(hash);
                },
            };
            let mut held: Vec<(ChunkId, Vec<PeerId>)> = Vec::new();
            if let Some(ids) = self.own_chunks.get(&hash) {
                for k in 0..ids.len()
                    invariant
                        held.len() == k,
                        forall|j: int|
                            0 <= j < k ==> holding_view(#[trigger] held[j]) == (
                                ids[j],
                                holders(self@.chunks, hash, ids[j]),
                            ),
                {
                    let peers = match self.get_chunk_peers(hash, ids[k]) {
                        Some(peers) => peers.clone(),
                        None => Vec::new(),
                    };
                    assert(peers@ =~= holders(self@.chunks, hash, ids[k as int]));
                    held.push((ids[k], peers));
                }
            }
            assert(holdings_view(held@) =~= self@.listing(hash).2);
            listings.push((hash, name, held));
        }
        assert forall|hash: FileHash| #[trigger]
            self@.own_chunks.contains_key(hash) implies self@.file_names.contains_key(hash) by {
            assert(order@.to_set().contains(hash));
            let j = choose|j: int| 0 <= j < order@.len() && order@[j] == hash;
            assert(self@.file_names.contains_key(order[j]));
        }
        assert forall|j: int| 0 <= j < order@.len() implies #[trigger] listing_view(listings@[j])
            == self@.listing(order@[j]) by {
            assert(self@.file_names.contains_key(order[j]));
        }
        assert(listings_view(listings@) =~= Seq::new(
            order@.len(),
            |i: int| self@.listing(order@[i]),
        ));
        Ok(listings)
    }

    /// Learns of the chunks that a peer has.
    fn add_offers(&mut self, peer_id: PeerId, offers: Vec<(FileHash, String, Vec<ChunkId>)>)
        ensures
            final(self)@ == old(self)@.with_offers(peer_id, offers_view(offers@)),
    {
        let ghost all = offers_view(offers@);
        assert(all.take(0) =~= Seq::empty());
        for i in 0..offers.len()
            invariant
                all == offers_view(offers@),
                self@ == old(self)@.with_offers(peer_id, all.take(i as int)),
        {
            proof {
                let more = all.take(i as int + 1);
                assert(more.drop_last() =~= all.take(i as int));
                assert(more.last() == offer_view(offers[i as int]));
                assert(offered_chunks(more).drop_last() =~= offered_chunks(all.take(i as int)));
            }
            let offer = &offers[i];
            self.add_file(offer.0, offer.1.clone());
            self.chunks.add_chunks(offer.0, &offer.2, peer_id);
        }
        assert(all.take(all.len() as int) =~= all);
    }

    /// Takes in a new peer, which has sent its first packet. A peer that asks
    /// for it is sent a list of what is here.
    pub fn handle_new_peer(&mut self, peer: Peer, first: Packet) -> (effects: Result<
        Vec<Effect>,
        Fault,
    >)
        ensures
            match effects {
                Ok(effects) => welcomed(
                    old(self)@,
                    peer_id_of(peer@),
                    peer@,
                    first@,
                    final(self)@,
                    effects_view(effects@),
                ),
                Err(fault) => unwelcome(old(self)@, first@, fault) && final(self)@ == old(self)@,
            },
            old(self)@.wf() ==> final(self)@.wf(),
    {
        let id = peer.id();
        self.welcome(id, peer, first)
    }

    /// Takes in a new peer under the identity `id`.
    pub fn welcome(&mut self, id: PeerId, peer: Peer, first: Packet) -> (effects: Result<
        Vec<Effect>,
        Fault,
    >)
        ensures
            match effects {
                Ok(effects) => welcomed(
                    old(self)@,
                    id,
                    peer@,
                    first@,
                    final(self)@,
                    effects_view(effects@),
                ),
                Err(fault) => unwelcome(old(self)@, first@, fault) && final(self)@ == old(self)@,
            },
            old(self)@.wf() && id == peer_id_of(peer@) ==> final(self)@.wf(),
    {
        let request = match first {
            Packet::Request(request) => request,
            Packet::Response(_) => {
                return Err(Fault::ExpectedRequest);
            },
        };
        let mut effects: Vec<Effect> = Vec::new();
        match request {
            Request::Seed { chunks, send_peers } => {
                assert(self@.peers.dom() =~= self.peers@.dom());
                assert(self@.own_chunks.dom() =~= self.own_chunks@.dom());
                let peer_order = keys_of(&self.peers);
                let file_order = keys_of(&self.own_chunks);
                let peers = if send_peers {
                    addresses(&self.peers, &peer_order)
                } else {
                    Vec::new()
                };
                let listings = match self.listings(&file_order) {
                    Ok(listings) => listings,
                    Err(hash) => {
                        return Err(Fault::UnnamedFile(hash));
                    },
                };
                let response = Response::Seed { peers, chunks: listings };
                assert(response@ == old(self)@.seed_response(
                    send_peers,
                    peer_order@,
                    file_order@,
                )) by {
                    if !send_peers {
                        assert(texts(peers@) =~= Seq::empty());
                    }
                }
                effects.push(Effect::Send { to: id, packet: Packet::from(response) });
                proof {
                    assert(effects_view(effects@) =~= seq![
                        EffectView::Send {
                            to: id,
                            packet: PacketView::Response(
                                old(self)@.seed_response(send_peers, peer_order@, file_order@),
                            ),
                        },
                    ]);
                }
                self.add_offers(id, chunks);
            },
            other => {
                effects.push(report_unhandled(&other));
                assert(effects_view(effects@) =~= seq![unhandled(other@)]);
            },
        }
        self.insert_peer(id, peer);
        Ok(effects)
    }
}

/// A peer that was added to a chunk is the last of the peers of that chunk;
/// the others stay, and so do the peers of the other chunks.
pub proof fn law_added_chunk_is_listed(
    server: ServerView,
    file_hash: FileHash,
    chunk_id: ChunkId,
    peer_id: PeerId,
)
    ensures
        holders(
            server.with_chunk(file_hash, chunk_id, peer_id).chunks,
            file_hash,
            chunk_id,
        ) == holders(server.chunks, file_hash, chunk_id).push(peer_id),
        forall|key: (FileHash, ChunkId)|
            key != (file_hash, chunk_id) ==> #[trigger] holders(
                server.with_chunk(file_hash, chunk_id, peer_id).chunks,
                key.0,
                key.1,
            ) == holders(server.chunks, key.0, key.1),
        ({
            let key = (file_hash, chunk_id);
            let then = server.with_chunk(file_hash, chunk_id, peer_id);
            &&& then.chunks.contains_key(key)
            &&& then.chunks[key].last() == peer_id
            &&& if server.chunks.contains_key(key) {
                then.chunks[key].len() > 0 && then.chunks[key].drop_last() == server.chunks[key]
            } else {
                then.chunks[key].len() == 1
            }
            &&& forall|other: (FileHash, ChunkId)|
                other != key ==> {
                    &&& #[trigger] then.chunks.contains_key(other) == server.chunks.contains_key(
                        other,
                    )
                    &&& then.chunks[other] == server.chunks[other]
                }
            &&& then == (ServerView { chunks: then.chunks, ..server })
        }),
{
    let key = (file_hash, chunk_id);
    let then = server.with_chunk(file_hash, chunk_id, peer_id);
    if server.chunks.contains_key(key) {
        assert(then.chunks[key].drop_last() =~= server.chunks[key]);
    }
}

/// A file that was added goes by its new name, and the other files keep
/// theirs.
pub proof fn law_added_file_is_named(server: ServerView, file_hash: FileHash, name: Seq<char>)
    ensures
        server.with_file(file_hash, name).file_names.contains_key(file_hash),
        server.with_file(file_hash, name).file_names[file_hash] == name,
        forall|other: FileHash|
            other != file_hash ==> {
                &&& #[trigger] server.with_file(file_hash, name).file_names.contains_key(other)
                    == server.file_names.contains_key(other)
                &&& server.with_file(file_hash, name).file_names[other]
                    == server.file_names[other]
            },
        server.with_file(file_hash, name) == (ServerView {
            file_names: server.with_file(file_hash, name).file_names,
            ..server
        }),
{
}

/// What a peer has offered is learned, and nothing else: each offered file goes
/// by the name of its last offer, and the peer is appended to the peers of each
/// chunk as often as it offers the chunk; if it offers none twice, once.
pub proof fn law_offers_are_learned(server: ServerView, peer_id: PeerId, offers: Seq<Offer>)
    ensures
        ({
            let then = server.with_offers(peer_id, offers);
            let chunks = offered_chunks(offers);
            &&& forall|hash: FileHash, id: ChunkId| #[trigger]
                holders(then.chunks, hash, id) == holders(server.chunks, hash, id) + repeated(
                    peer_id,
                    times_offered(chunks, hash, id),
                )
            &&& are_distinct(chunks) ==> forall|hash: FileHash, id: ChunkId| #[trigger]
                holders(then.chunks, hash, id) == if is_offered(chunks, hash, id) {
                    holders(server.chunks, hash, id).push(peer_id)
                } else {
                    holders(server.chunks, hash, id)
                }
            &&& forall|hash: FileHash|
                #![trigger then.file_names.contains_key(hash)]
                match last_name(offers, hash) {
                    Some(name) => then.file_names.contains_key(hash) && then.file_names[hash]
                        == name,
                    None => then.file_names.contains_key(hash) == server.file_names.contains_key(
                        hash,
                    ) && then.file_names[hash] == server.file_names[hash],
                }
            &&& server.all_named() ==> then.all_named()
        }),
{
    let then = server.with_offers(peer_id, offers);
    let chunks = offered_chunks(offers);
    assert forall|hash: FileHash, id: ChunkId| #[trigger]
        holders(then.chunks, hash, id) == holders(server.chunks, hash, id) + repeated(
            peer_id,
            times_offered(chunks, hash, id),
        ) by {
        law_offered_chunks_are_listed(server.chunks, chunks, peer_id, hash, id);
    }
    if are_distinct(chunks) {
        assert forall|hash: FileHash, id: ChunkId| #[trigger]
            holders(then.chunks, hash, id) == if is_offered(chunks, hash, id) {
                holders(server.chunks, hash, id).push(peer_id)
            } else {
                holders(server.chunks, hash, id)
            } by {
            law_offered_chunks_are_listed(server.chunks, chunks, peer_id, hash, id);
        }
    }
    assert forall|hash: FileHash|
        #![trigger then.file_names.contains_key(hash)]
        match last_name(offers, hash) {
            Some(name) => then.file_names.contains_key(hash) && then.file_names[hash] == name,
            None => then.file_names.contains_key(hash) == server.file_names.contains_key(hash)
                && then.file_names[hash] == server.file_names[hash],
        } by {
        lemma_names(server.file_names, offers, hash);
    }
}

proof fn lemma_names(names: Map<FileHash, Seq<char>>, offers: Seq<Offer>, hash: FileHash)
    ensures
        match last_name(offers, hash) {
            Some(name) => with_names(names, offers).contains_key(hash) && with_names(
                names,
                offers,
            )[hash] == name,
            None => with_names(names, offers).contains_key(hash) == names.contains_key(hash)
                && with_names(names, offers)[hash] == names[hash],
        },
    decreases offers.len(),
{
    if offers.len() > 0 {
        lemma_names(names, offers.drop_last(), hash);
    }
}

/// The answer to a new server lists each file that has chunks here, once, with
/// all its chunks and the peers that have them.
pub proof fn law_answer_lists_what_is_here(
    server: ServerView,
    send_peers: bool,
    peer_order: Seq<PeerId>,
    file_order: Seq<FileHash>,
)
    requires
        each_once(peer_order, server.peers.dom()),
        each_once(file_order, server.own_chunks.dom()),
    ensures
        server.seed_response(send_peers, peer_order, file_order) matches ResponseView::Seed {
            peers,
            chunks,
        } && {
            &&& forall|hash: FileHash| #[trigger]
                server.own_chunks.contains_key(hash) ==> chunks.contains(server.listing(hash))
            &&& chunks.len() == file_order.len()
            &&& forall|i: int, j: int|
                0 <= i < j < chunks.len() ==> (#[trigger] chunks[i]).0 != (#[trigger] chunks[j]).0
            &&& send_peers ==> forall|id: PeerId| #[trigger]
                server.peers.contains_key(id) ==> peers.contains(server.peers[id])
            &&& !send_peers ==> peers.len() == 0
        },
{
    if let ResponseView::Seed { peers, chunks } = server.seed_response(
        send_peers,
        peer_order,
        file_order,
    ) {
        assert forall|hash: FileHash| #[trigger]
            server.own_chunks.contains_key(hash) implies chunks.contains(server.listing(hash)) by {
            assert(file_order.to_set().contains(hash));
            assert(chunks[file_order.index_of(hash)] == server.listing(hash));
        }
        if send_peers {
            assert forall|id: PeerId| #[trigger]
                server.peers.contains_key(id) implies peers.contains(server.peers[id]) by {
                assert(peer_order.to_set().contains(id));
                assert(peers[peer_order.index_of(id)] == server.peers[id]);
            }
        }
    }
}

/// A server that has just started can answer a new server: all files that it
/// has found have names.
pub proof fn law_fresh_server_has_names(entries: Seq<DirEntryView>, server: ServerView)
    requires
        index_of(Layout::Named, entries) is Some,
        server.own_chunks == index_of(Layout::Named, entries)->0.chunks,
        server.file_names == index_of(Layout::Named, entries)->0.names,
    ensures
        server.all_named(),
        forall|hash: FileHash| #[trigger]
            server.own_chunks.contains_key(hash) ==> server.file_names.contains_key(hash),
{
    assert forall|hash: FileHash| #[trigger]
        server.own_chunks.contains_key(hash) implies server.file_names.contains_key(hash) by {
        law_index_covers_directories(Layout::Named, entries, hash);
    }
}

/// A server that has just started knows what is on disk, and nothing else.
pub proof fn law_fresh_server_knows_its_disk(index: Index)
    ensures
        started(index).own_chunks == index.chunks,
        started(index).file_names == index.names,
        forall|id: PeerId| !#[trigger] started(index).peers.contains_key(id),
        forall|key: (FileHash, ChunkId)| !#[trigger] started(index).chunks.contains_key(key),
        started(index).stats.uploaded_chunks == 0,
        started(index).stats.downloaded_chunks == 0,
        started(index).stats.downloaded_files == 0,
{
}

} // verus!
