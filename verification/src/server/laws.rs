//! What a server does, seen from outside: what changes, what stays, and what is
//! sent to whom.
use super::exchange::{
    lemma_chunk_is_sent_once, lemma_sent_by_both, lemma_sent_by_one, lemma_sent_once, sends,
    sent_to,
};
use super::round::{
    chunk_data, effects_after, is_start_of_round, is_storing, round_after, server_after, server_after_serving, serving_effects,
    storing_effects, JobView, RoundView, WantView,
};
use super::upload::{
    chunk_packets, is_announcement, name_packets, sending_effects, server_after_sending, upload_start, PhaseView,
    UploadView, UploadWant,
};
use super::{notices, offered_chunks, tells_all, unwelcome, welcomed, with_names, ServerView};
use crate::effect::{EffectView, Fault};
use crate::maps::{each_once, law_order_has_each_element};
use crate::packet::{request_text, Offer, PacketView, RequestView, ResponseView};
use crate::peer::ReceivedView;
use crate::radix::hex;
use crate::table::law_offers_are_added;
use crate::{ChunkId, FileHash, PeerId};
use vstd::prelude::*;

verus! {

/// A peer whose connection is lost is forgotten, and nothing else changes: all
/// other peers stay, each under its address.
pub proof fn law_lost_peer_is_forgotten(server: ServerView, id: PeerId, received: ReceivedView)
    requires
        received is Disconnected || received is ReadFailed,
    ensures
        ({
            let then = server_after(server, id, received);
            &&& !then.peers.contains_key(id)
            &&& forall|other: PeerId|
                other != id ==> {
                    &&& #[trigger] then.peers.contains_key(other) == server.peers.contains_key(
                        other,
                    )
                    &&& then.peers[other] == server.peers[other]
                }
            &&& then.own_chunks == server.own_chunks
            &&& then.file_names == server.file_names
            &&& then.chunks == server.chunks
            &&& then.stats == server.stats
        }),
{
}

/// A peer that is added is known under its address; all other peers stay, and
/// nothing else changes.
pub proof fn law_added_peer_is_known(server: ServerView, id: PeerId, addr: Seq<char>)
    ensures
        ({
            let then = server.with_peer(id, addr);
            &&& then.peers.contains_key(id)
            &&& then.peers[id] == addr
            &&& forall|other: PeerId|
                other != id ==> {
                    &&& #[trigger] then.peers.contains_key(other) == server.peers.contains_key(
                        other,
                    )
                    &&& then.peers[other] == server.peers[other]
                }
            &&& then.own_chunks == server.own_chunks
            &&& then.file_names == server.file_names
            &&& then.chunks == server.chunks
            &&& then.stats == server.stats
        }),
{
}

/// A chunk that is stored comes after those of its file that were stored
/// before; the chunks of other files stay, and nothing else changes.
pub proof fn law_stored_chunk_is_noted(server: ServerView, hash: FileHash, id: ChunkId)
    ensures
        ({
            let then = server.with_own_chunk(hash, id);
            &&& then.own_chunks.contains_key(hash)
            &&& then.own_chunks[hash].len() > 0
            &&& then.own_chunks[hash].last() == id
            &&& if server.own_chunks.contains_key(hash) {
                then.own_chunks[hash].drop_last() == server.own_chunks[hash]
            } else {
                then.own_chunks[hash].len() == 1
            }
            &&& forall|other: FileHash|
                other != hash ==> {
                    &&& #[trigger] then.own_chunks.contains_key(other)
                        == server.own_chunks.contains_key(other)
                    &&& then.own_chunks[other] == server.own_chunks[other]
                }
            &&& then.peers == server.peers
            &&& then.file_names == server.file_names
            &&& then.chunks == server.chunks
            &&& then.stats == server.stats
        }),
{
    let then = server.with_own_chunk(hash, id);
    if server.own_chunks.contains_key(hash) {
        assert(then.own_chunks[hash].drop_last() =~= server.own_chunks[hash]);
    }
}

/// A poll that finds nothing, or something that is no packet, or a request that
/// tells no news, changes nothing that the server knows.
pub proof fn law_poll_without_news_changes_nothing(
    server: ServerView,
    id: PeerId,
    received: ReceivedView,
)
    requires
        match received {
            ReceivedView::Nothing => true,
            ReceivedView::Malformed(_) => true,
            ReceivedView::Packet(PacketView::Request(request)) => !(request is HasChunk)
                && !(request is SetFileName),
            _ => false,
        },
    ensures
        server_after(server, id, received) == server,
{
}

/// A peer that tells that it has a chunk is listed last for that chunk; nothing
/// else changes.
pub proof fn law_news_of_a_chunk_are_noted(
    server: ServerView,
    id: PeerId,
    hash: FileHash,
    chunk_id: ChunkId,
)
    ensures
        ({
            let news = PacketView::Request(RequestView::HasChunk(hash, chunk_id));
            let then = server_after(server, id, ReceivedView::Packet(news));
            let key = (hash, chunk_id);
            &&& then.chunks.contains_key(key)
            &&& then.chunks[key].len() > 0
            &&& then.chunks[key].last() == id
            &&& if server.chunks.contains_key(key) {
                then.chunks[key].drop_last() == server.chunks[key]
            } else {
                then.chunks[key].len() == 1
            }
            &&& forall|other: (FileHash, ChunkId)|
                other != key ==> {
                    &&& #[trigger] then.chunks.contains_key(other) == server.chunks.contains_key(
                        other,
                    )
                    &&& then.chunks[other] == server.chunks[other]
                }
            &&& then.peers == server.peers
            &&& then.own_chunks == server.own_chunks
            &&& then.file_names == server.file_names
            &&& then.stats == server.stats
        }),
{
    let news = PacketView::Request(RequestView::HasChunk(hash, chunk_id));
    let then = server_after(server, id, ReceivedView::Packet(news));
    let key = (hash, chunk_id);
    if server.chunks.contains_key(key) {
        assert(then.chunks[key].drop_last() =~= server.chunks[key]);
    }
}

/// A file that a peer gives a name goes by that name; nothing else changes.
pub proof fn law_told_name_is_noted(
    server: ServerView,
    id: PeerId,
    hash: FileHash,
    name: Seq<char>,
)
    ensures
        ({
            let told = PacketView::Request(RequestView::SetFileName(hash, name));
            let then = server_after(server, id, ReceivedView::Packet(told));
            &&& then.file_names.contains_key(hash)
            &&& then.file_names[hash] == name
            &&& forall|other: FileHash|
                other != hash ==> {
                    &&& #[trigger] then.file_names.contains_key(other)
                        == server.file_names.contains_key(other)
                    &&& then.file_names[other] == server.file_names[other]
                }
            &&& then.peers == server.peers
            &&& then.own_chunks == server.own_chunks
            &&& then.chunks == server.chunks
            &&& then.stats == server.stats
        }),
{
}

/// When nothing that a peer has asked for is left to be done, the next peer in
/// the queue is polled, or the iteration is over.
pub proof fn law_idle_round_polls_the_next(round: RoundView)
    requires
        match round.job {
            JobView::Idle => true,
            JobView::Serving { left, .. } => left.len() == 0,
            JobView::Storing { left, .. } => left.len() == 0,
        },
    ensures
        round.queue.len() == 0 ==> round.wants() is Nothing,
        round.queue.len() > 0 ==> round.wants() == WantView::Poll(round.queue[0]),
{
}

/// A peer that was polled leaves the queue, and the others keep their places.
/// Only requests for chunks and to store chunks lead to more steps before the
/// next peer is polled.
pub proof fn law_poll_goes_on_with_the_next(round: RoundView, received: ReceivedView)
    requires
        round.wants() is Poll,
    ensures
        ({
            let then = round_after(round, received);
            &&& then.queue.len() == round.queue.len() - 1
            &&& forall|i: int|
                0 <= i < then.queue.len() ==> #[trigger] then.queue[i] == round.queue[i + 1]
            &&& match received {
                ReceivedView::Packet(PacketView::Request(RequestView::Chunks(hash, ids))) => {
                    ids.len() > 0 ==> then.wants() == (WantView::ReadChunk {
                        dir: hex(hash as nat),
                        file: hex(ids[0] as nat),
                    })
                },
                ReceivedView::Packet(PacketView::Request(RequestView::WriteChunks(_, ids))) => {
                    ids.len() > 0 ==> then.wants() == WantView::Receive(round.queue[0])
                },
                _ => then.wants() == if round.queue.len() > 1 {
                    WantView::Poll(round.queue[1])
                } else {
                    WantView::Nothing
                },
            }
        }),
{
}

/// What a poll makes the server do at once. A speed test is answered with its
/// own data; a name is written; a directory is made for chunks that will come;
/// what cannot be handled is reported; and nothing else is done, and nothing is
/// sent to anyone else.
pub proof fn law_polls_are_answered(id: PeerId, received: ReceivedView)
    ensures
        ({
            let effects = effects_after(id, received);
            &&& forall|i: int|
                0 <= i < effects.len() ==> (#[trigger] effects[i] matches EffectView::Send {
                    to,
                    ..
                } ==> to == id)
            &&& match received {
                ReceivedView::Malformed(error) => {
                    &&& effects.len() == 1
                    &&& effects[0] is Report
                    &&& error.is_suffix_of(effects[0]->message)
                },
                ReceivedView::Packet(PacketView::Request(request)) => match request {
                    RequestView::Speedtest(data) => sent_to(effects, id) == seq![
                        PacketView::Response(ResponseView::Speedtest(data)),
                    ] && effects.len() == 1,
                    RequestView::SetFileName(hash, name) => {
                        &&& effects.len() == 2
                        &&& effects[0] == (EffectView::CreateDir { dir: hex(hash as nat) })
                        &&& effects[1] == (EffectView::WriteFile {
                            dir: hex(hash as nat),
                            file: "name"@,
                            data: vstd::utf8::encode_utf8(name),
                        })
                    },
                    RequestView::WriteChunks(hash, _) => {
                        &&& effects.len() == 1
                        &&& effects[0] == (EffectView::CreateDir { dir: hex(hash as nat) })
                    },
                    RequestView::Chunks(..) => effects.len() == 0,
                    RequestView::HasChunk(..) => effects.len() == 0,
                    other => {
                        &&& effects.len() == 1
                        &&& effects[0] is Report
                        &&& request_text(other).is_suffix_of(effects[0]->message)
                    },
                },
                _ => effects.len() == 0,
            }
        }),
{
    let effects = effects_after(id, received);
    match received {
        ReceivedView::Malformed(error) => {
            let message = "Error decoding packet: "@ + error;
            assert(message.subrange(message.len() - error.len(), message.len() as int) =~= error);
        },
        ReceivedView::Packet(PacketView::Request(request)) => {
            let text = request_text(request);
            let message = "Unhandled request: "@ + text;
            assert(message.subrange(message.len() - text.len(), message.len() as int) =~= text);
            if request is Speedtest {
                assert(effects =~= seq![effects[0]]);
                lemma_sent_by_one(effects[0], id);
            }
        },
        _ => {},
    }
}

/// A chunk that was read goes, with its digest, to the peer that has asked for
/// it and to no other; it is counted, and the next chunk of the request is due.
pub proof fn law_chunk_goes_to_who_asked(
    server: ServerView,
    round: RoundView,
    peer: PeerId,
    hash: FileHash,
    ids: Seq<ChunkId>,
    sha: Seq<u8>,
    data: Seq<u8>,
    other: PeerId,
)
    requires
        round.job == (JobView::Serving { peer, file_hash: hash, left: ids }),
        ids.len() > 0,
        server.stats.uploaded_chunks < u64::MAX,
        other != peer,
    ensures
        serving_effects(round, sha, data).len() == 1,
        sent_to(serving_effects(round, sha, data), peer) == seq![
            PacketView::Response(ResponseView::Chunk(sha, data)),
        ],
        sent_to(serving_effects(round, sha, data), other) == Seq::<PacketView>::empty(),
        ({
            let then = server_after_serving(server);
            &&& then.stats.uploaded_chunks == server.stats.uploaded_chunks + 1
            &&& then.stats.downloaded_chunks == server.stats.downloaded_chunks
            &&& then.stats.downloaded_files == server.stats.downloaded_files
            &&& then.peers == server.peers
            &&& then.own_chunks == server.own_chunks
            &&& then.file_names == server.file_names
            &&& then.chunks == server.chunks
        }),
        round.advanced().queue == round.queue,
        round.advanced().job == (JobView::Serving { peer, file_hash: hash, left: ids.skip(1) }),
{
    let effects = serving_effects(round, sha, data);
    assert(effects =~= seq![effects[0]]);
    lemma_sent_by_one(effects[0], peer);
    lemma_sent_by_one(effects[0], other);
    assert(ids.drop_first() =~= ids.skip(1));
}

/// A chunk that has come is written to its file, and each peer is told of it
/// once; nobody else is told, and nothing else is done.
pub proof fn law_stored_chunk_is_told_to_all(
    hash: FileHash,
    id: ChunkId,
    data: Seq<u8>,
    order: Seq<PeerId>,
    peer: PeerId,
)
    requires
        order.no_duplicates(),
    ensures
        ({
            let effects = storing_effects(hash, id, data, order);
            &&& effects.len() == order.len() + 1
            &&& effects[0] == (EffectView::WriteFile {
                dir: hex(hash as nat),
                file: hex(id as nat),
                data,
            })
            &&& sent_to(effects, peer) == if order.contains(peer) {
                seq![PacketView::Request(RequestView::HasChunk(hash, id))]
            } else {
                Seq::empty()
            }
        }),
        notices(order, hash, id).len() == order.len(),
        sent_to(notices(order, hash, id), peer) == if order.contains(peer) {
            seq![PacketView::Request(RequestView::HasChunk(hash, id))]
        } else {
            Seq::empty()
        },
{
    let packet = PacketView::Request(RequestView::HasChunk(hash, id));
    let effects = storing_effects(hash, id, data, order);
    assert(notices(order, hash, id) =~= sends(order, packet));
    lemma_sent_once(order, packet, peer);
    lemma_sent_by_both(seq![effects[0]], notices(order, hash, id), peer);
    lemma_sent_by_one(effects[0], peer);
    assert(effects =~= seq![effects[0]] + notices(order, hash, id));
    assert(Seq::<PacketView>::empty() + sent_to(notices(order, hash, id), peer) =~= sent_to(
        notices(order, hash, id),
        peer,
    ));
}

/// Whenever a chunk is stored, every peer is told of it once, and nobody else is
/// sent anything; its data is in its file before that.
pub proof fn law_every_peer_hears_of_a_stored_chunk(
    peers: Set<PeerId>,
    hash: FileHash,
    id: ChunkId,
    data: Seq<u8>,
    effects: Seq<EffectView>,
    peer: PeerId,
)
    ensures
        is_storing(hash, id, data, peers, effects) ==> {
            &&& effects.len() == peers.len() + 1
            &&& effects[0] == (EffectView::WriteFile {
                dir: hex(hash as nat),
                file: hex(id as nat),
                data,
            })
            &&& sent_to(effects, peer) == if peers.contains(peer) {
                seq![PacketView::Request(RequestView::HasChunk(hash, id))]
            } else {
                Seq::empty()
            }
        },
        tells_all(effects, peers, hash, id) ==> {
            &&& effects.len() == peers.len()
            &&& sent_to(effects, peer) == if peers.contains(peer) {
                seq![PacketView::Request(RequestView::HasChunk(hash, id))]
            } else {
                Seq::empty()
            }
        },
{
    if is_storing(hash, id, data, peers, effects) {
        let order = choose|order: Seq<PeerId>|
            each_once(order, peers) && effects == #[trigger] storing_effects(
                hash,
                id,
                data,
                order,
            );
        law_order_has_each_element(order, peers);
        law_stored_chunk_is_told_to_all(hash, id, data, order, peer);
    }
    if tells_all(effects, peers, hash, id) {
        let order = choose|order: Seq<PeerId>|
            each_once(order, peers) && effects == #[trigger] notices(order, hash, id);
        law_order_has_each_element(order, peers);
        law_stored_chunk_is_told_to_all(hash, id, Seq::empty(), order, peer);
    }
}

/// The data that is stored is that of the packet, whichever of the two kinds of
/// packets brings it; no other packet brings any.
pub proof fn law_chunk_data_is_that_of_the_packet(packet: PacketView)
    ensures
        match packet {
            PacketView::Response(ResponseView::Chunk(_, data)) => chunk_data(packet) == Some(data),
            PacketView::Request(RequestView::WriteChunk(data)) => chunk_data(packet) == Some(data),
            _ => chunk_data(packet) is None,
        },
{
}

/// What is learned from offers: the peer is listed for the chunks that it
/// offers, after all who were listed before, and for no others; an offered file
/// goes by the name in its last offer, and the others keep theirs. Nothing else
/// changes.
pub proof fn law_offers_teach_chunks_and_names(
    server: ServerView,
    peer_id: PeerId,
    offers: Seq<Offer>,
    hash: FileHash,
    id: ChunkId,
)
    ensures
        ({
            let then = server.with_offers(peer_id, offers);
            let key = (hash, id);
            let before = if server.chunks.contains_key(key) {
                server.chunks[key]
            } else {
                Seq::empty()
            };
            let offered = exists|i: int|
                0 <= i < offers.len() && (#[trigger] offers[i]).0 == hash && offers[i].2.contains(
                    id,
                );
            &&& then.chunks.contains_key(key) <==> server.chunks.contains_key(key) || offered
            &&& then.chunks.contains_key(key) ==> {
                &&& before.is_prefix_of(then.chunks[key])
                &&& forall|k: int|
                    before.len() <= k < then.chunks[key].len() ==> #[trigger] then.chunks[key][k]
                        == peer_id
                &&& offered <==> then.chunks[key].len() > before.len()
                &&& (forall|i: int, j: int|
                    0 <= i < j < offers.len() ==> (#[trigger] offers[i]).0 != (
                    #[trigger] offers[j]).0) && (forall|i: int|
                    0 <= i < offers.len() ==> (#[trigger] offers[i]).2.no_duplicates())
                    ==> then.chunks[key].len() <= before.len() + 1
            }
            &&& forall|i: int|
                0 <= i < offers.len() && (#[trigger] offers[i]).0 == hash && (forall|j: int|
                    i < j < offers.len() ==> (#[trigger] offers[j]).0 != hash) ==> {
                    &&& then.file_names.contains_key(hash)
                    &&& then.file_names[hash] == offers[i].1
                }
            &&& (forall|i: int| 0 <= i < offers.len() ==> (#[trigger] offers[i]).0 != hash) ==> {
                &&& then.file_names.contains_key(hash) == server.file_names.contains_key(hash)
                &&& then.file_names[hash] == server.file_names[hash]
            }
            &&& then.peers == server.peers
            &&& then.own_chunks == server.own_chunks
            &&& then.stats == server.stats
        }),
{
    let then = server.with_offers(peer_id, offers);
    let chunks = offered_chunks(offers);
    law_offers_are_added(server.chunks, chunks, peer_id, hash, id);
    assert(forall|i: int|
        0 <= i < offers.len() ==> #[trigger] chunks[i] == (offers[i].0, offers[i].2));
    if exists|i: int|
        0 <= i < offers.len() && (#[trigger] offers[i]).0 == hash && offers[i].2.contains(id) {
        let i = choose|i: int|
            0 <= i < offers.len() && (#[trigger] offers[i]).0 == hash && offers[i].2.contains(id);
        assert(chunks[i].0 == hash && chunks[i].1.contains(id));
    }
    if exists|i: int|
        0 <= i < chunks.len() && (#[trigger] chunks[i]).0 == hash && chunks[i].1.contains(id) {
        let i = choose|i: int|
            0 <= i < chunks.len() && (#[trigger] chunks[i]).0 == hash && chunks[i].1.contains(id);
        assert(offers[i].0 == hash && offers[i].2.contains(id));
    }
    assert forall|i: int|
        0 <= i < offers.len() && (#[trigger] offers[i]).0 == hash && (forall|j: int|
            i < j < offers.len() ==> (#[trigger] offers[j]).0 != hash) implies {
        &&& then.file_names.contains_key(hash)
        &&& then.file_names[hash] == offers[i].1
    } by {
        lemma_name_of_last_offer(server.file_names, offers, i);
    }
    if forall|i: int| 0 <= i < offers.len() ==> (#[trigger] offers[i]).0 != hash {
        lemma_name_without_offer(server.file_names, offers, hash);
    }
}

proof fn lemma_name_of_last_offer(names: Map<FileHash, Seq<char>>, offers: Seq<Offer>, i: int)
    requires
        0 <= i < offers.len(),
        forall|j: int| i < j < offers.len() ==> (#[trigger] offers[j]).0 != offers[i].0,
    ensures
        with_names(names, offers).contains_key(offers[i].0),
        with_names(names, offers)[offers[i].0] == offers[i].1,
    decreases offers.len(),
{
    if i < offers.len() - 1 {
        let fewer = offers.drop_last();
        assert(forall|j: int| 0 <= j < fewer.len() ==> #[trigger] fewer[j] == offers[j]);
        assert(offers[offers.len() - 1].0 != offers[i].0);
        lemma_name_of_last_offer(names, fewer, i);
    }
}

proof fn lemma_name_without_offer(
    names: Map<FileHash, Seq<char>>,
    offers: Seq<Offer>,
    hash: FileHash,
)
    requires
        forall|i: int| 0 <= i < offers.len() ==> (#[trigger] offers[i]).0 != hash,
    ensures
        with_names(names, offers).contains_key(hash) == names.contains_key(hash),
        with_names(names, offers)[hash] == names[hash],
    decreases offers.len(),
{
    if offers.len() > 0 {
        let fewer = offers.drop_last();
        assert(forall|j: int| 0 <= j < fewer.len() ==> #[trigger] fewer[j] == offers[j]);
        assert(offers[offers.len() - 1].0 != hash);
        lemma_name_without_offer(names, fewer, hash);
    }
}

/// A new server that asks for it is answered, and nobody else is sent anything.
/// The answer has the addresses of all peers, as many as there are, if they were
/// asked for, and none if not. It has each file that has chunks here, once, with
/// its name, and with all its chunks in order, each with all the peers that are
/// listed for it. The new server is among the peers from then on.
pub proof fn law_new_server_gets_the_whole_list(
    before: ServerView,
    id: PeerId,
    addr: Seq<char>,
    offers: Seq<Offer>,
    send_peers: bool,
    after: ServerView,
    effects: Seq<EffectView>,
)
    requires
        welcomed(
            before,
            id,
            addr,
            PacketView::Request(RequestView::Seed { chunks: offers, send_peers }),
            after,
            effects,
        ),
    ensures
        effects.len() == 1,
        effects[0] matches EffectView::Send {
            to,
            packet: PacketView::Response(ResponseView::Seed { peers, chunks }),
        } && {
            &&& to == id
            &&& !send_peers ==> peers.len() == 0
            &&& send_peers ==> {
                &&& peers.len() == before.peers.dom().len()
                &&& forall|peer: PeerId| #[trigger]
                    before.peers.contains_key(peer) ==> peers.contains(before.peers[peer])
                &&& forall|i: int|
                    0 <= i < peers.len() ==> before.peers.values().contains(#[trigger] peers[i])
            }
            &&& chunks.len() == before.own_chunks.dom().len()
            &&& forall|hash: FileHash| #[trigger]
                before.own_chunks.contains_key(hash) ==> exists|i: int|
                    0 <= i < chunks.len() && (#[trigger] chunks[i]).0 == hash
            &&& forall|i: int|
                0 <= i < chunks.len() ==> {
                    let hash = (#[trigger] chunks[i]).0;
                    &&& before.own_chunks.contains_key(hash)
                    &&& before.file_names.contains_key(hash)
                    &&& chunks[i].1 == before.file_names[hash]
                    &&& chunks[i].2.len() == before.own_chunks[hash].len()
                    &&& forall|j: int|
                        0 <= j < chunks[i].2.len() ==> {
                            let key = (hash, before.own_chunks[hash][j]);
                            &&& (#[trigger] chunks[i].2[j]).0 == before.own_chunks[hash][j]
                            &&& chunks[i].2[j].1 == if before.chunks.contains_key(key) {
                                before.chunks[key]
                            } else {
                                Seq::empty()
                            }
                        }
                }
        },
        after.peers.contains_key(id),
        after.peers[id] == addr,
        forall|other: PeerId|
            other != id ==> {
                &&& #[trigger] after.peers.contains_key(other) == before.peers.contains_key(other)
                &&& after.peers[other] == before.peers[other]
            },
        after.own_chunks == before.own_chunks,
        after.stats == before.stats,
        after.chunks == before.with_offers(id, offers).chunks,
        after.file_names == before.with_offers(id, offers).file_names,
{
    let (peer_order, file_order) = choose|
        peer_order: Seq<PeerId>,
        file_order: Seq<FileHash>,
    |
        {
            &&& each_once(peer_order, before.peers.dom())
            &&& each_once(file_order, before.own_chunks.dom())
            &&& effects == seq![
                EffectView::Send {
                    to: id,
                    packet: PacketView::Response(
                        #[trigger] before.seed_response(send_peers, peer_order, file_order),
                    ),
                },
            ]
        };
    peer_order.unique_seq_to_set();
    file_order.unique_seq_to_set();
    if let ResponseView::Seed { peers, chunks } = before.seed_response(
        send_peers,
        peer_order,
        file_order,
    ) {
        assert forall|peer: PeerId| #[trigger]
            before.peers.contains_key(peer) && send_peers implies peers.contains(
            before.peers[peer],
        ) by {
            assert(peer_order.to_set().contains(peer));
            assert(peers[peer_order.index_of(peer)] == before.peers[peer]);
        }
        assert forall|i: int| 0 <= i < peers.len() implies before.peers.values().contains(
            #[trigger] peers[i],
        ) by {
            assert(peer_order.to_set().contains(peer_order[i]));
            assert(before.peers.contains_key(peer_order[i]));
        }
        assert forall|hash: FileHash| #[trigger]
            before.own_chunks.contains_key(hash) implies exists|i: int|
            0 <= i < chunks.len() && (#[trigger] chunks[i]).0 == hash by {
            assert(file_order.to_set().contains(hash));
            assert(chunks[file_order.index_of(hash)].0 == hash);
        }
        assert forall|i: int| 0 <= i < chunks.len() implies before.own_chunks.contains_key(
            (#[trigger] chunks[i]).0,
        ) by {
            assert(file_order.to_set().contains(file_order[i]));
        }
    }
}

/// A new peer that starts with another request is taken in, and what it has
/// sent is reported; nothing is sent, and nothing else is learned.
pub proof fn law_other_new_peers_are_taken_in(
    before: ServerView,
    id: PeerId,
    addr: Seq<char>,
    first: PacketView,
    after: ServerView,
    effects: Seq<EffectView>,
)
    requires
        welcomed(before, id, addr, first, after, effects),
        !(first matches PacketView::Request(RequestView::Seed { .. })),
    ensures
        first is Request,
        effects.len() == 1,
        effects[0] matches EffectView::Report { message } && request_text(
            first->Request_0,
        ).is_suffix_of(message),
        after.peers.contains_key(id),
        after.peers[id] == addr,
        forall|other: PeerId|
            other != id ==> {
                &&& #[trigger] after.peers.contains_key(other) == before.peers.contains_key(other)
                &&& after.peers[other] == before.peers[other]
            },
        after.own_chunks == before.own_chunks,
        after.file_names == before.file_names,
        after.chunks == before.chunks,
        after.stats == before.stats,
{
    let text = request_text(first->Request_0);
    let message = "Unhandled request: "@ + text;
    assert(message.subrange(message.len() - text.len(), message.len() as int) =~= text);
}

/// A new peer is turned away only if it does not start with a request, or if it
/// asks for a list while a file here has no name; and then no list is owed.
pub proof fn law_who_is_turned_away(
    before: ServerView,
    id: PeerId,
    addr: Seq<char>,
    first: PacketView,
    fault: Fault,
    after: ServerView,
    effects: Seq<EffectView>,
)
    ensures
        unwelcome(before, first, fault) ==> match first {
            PacketView::Response(_) => fault == Fault::ExpectedRequest,
            PacketView::Request(request) => request is Seed && (fault matches Fault::UnnamedFile(
                hash,
            ) && before.own_chunks.contains_key(hash) && !before.file_names.contains_key(hash)),
        },
        unwelcome(before, first, fault) ==> !welcomed(before, id, addr, first, after, effects),
{
}

/// The name of an uploaded file is told to each peer once, and to nobody else.
pub proof fn law_name_is_told_to_all(
    peers: Seq<PeerId>,
    hash: FileHash,
    name: Seq<char>,
    peer: PeerId,
)
    requires
        peers.no_duplicates(),
    ensures
        name_packets(peers, hash, name).len() == peers.len(),
        sent_to(name_packets(peers, hash, name), peer) == if peers.contains(peer) {
            seq![PacketView::Request(RequestView::SetFileName(hash, name))]
        } else {
            Seq::empty()
        },
{
    let packet = PacketView::Request(RequestView::SetFileName(hash, name));
    assert(name_packets(peers, hash, name) =~= sends(peers, packet));
    lemma_sent_once(peers, packet, peer);
}

/// A chunk of an upload is sent to each peer once, after the request to store it
/// under its number, and to nobody else; how far the upload has come is told
/// after that.
pub proof fn law_chunk_is_sent_to_all(
    upload: UploadView,
    hash: FileHash,
    peers: Seq<PeerId>,
    sha: Seq<u8>,
    data: Seq<u8>,
    peer: PeerId,
)
    requires
        upload.phase == (PhaseView::Sending { file_hash: hash, peers }),
        peers.no_duplicates(),
        upload.next < upload.chunks,
    ensures
        ({
            let effects = sending_effects(upload, sha, data);
            &&& effects.len() == 2 * peers.len() + 1
            &&& sent_to(effects, peer) == if peers.contains(peer) {
                seq![
                    PacketView::Request(RequestView::WriteChunks(hash, seq![upload.next])),
                    PacketView::Response(ResponseView::Chunk(sha, data)),
                ]
            } else {
                Seq::empty()
            }
            &&& effects.last() matches EffectView::Progress { done, total } && done == upload.next
                + 1 && total == upload.chunks
        }),
{
    let packets = chunk_packets(peers, hash, upload.next, sha, data);
    let effects = sending_effects(upload, sha, data);
    assert(effects =~= packets + seq![effects.last()]);
    lemma_sent_by_both(packets, seq![effects.last()], peer);
    lemma_sent_by_one(effects.last(), peer);
    lemma_chunk_is_sent_once(peers, hash, upload.next, sha, data, peer);
    assert(sent_to(packets, peer) + Seq::<PacketView>::empty() =~= sent_to(packets, peer));
}

/// Sending a chunk counts it once for each peer, and changes nothing else.
pub proof fn law_sent_chunks_are_counted(server: ServerView, count: nat)
    requires
        server.stats.uploaded_chunks + count <= u64::MAX,
    ensures
        ({
            let then = server_after_sending(server, count);
            &&& then.stats.uploaded_chunks == server.stats.uploaded_chunks + count
            &&& then.stats.downloaded_chunks == server.stats.downloaded_chunks
            &&& then.stats.downloaded_files == server.stats.downloaded_files
            &&& then.peers == server.peers
            &&& then.own_chunks == server.own_chunks
            &&& then.file_names == server.file_names
            &&& then.chunks == server.chunks
        }),
{
}

/// An upload starts with nothing read, and with as many chunks as it takes to
/// hold the file: all but the last are full, and the last one is not empty.
pub proof fn law_upload_has_room_for_the_file(name: Seq<char>, size: nat)
    requires
        size + 511 <= u64::MAX,
    ensures
        ({
            let upload = upload_start(name, size);
            &&& upload.name == name
            &&& upload.next == 0
            &&& upload.phase == (PhaseView::Hashing { read: Seq::empty() })
            &&& upload.chunks == 0 <==> size == 0
            &&& size > 0 ==> {
                &&& 512 * (upload.chunks - 1) + upload.size_of_last == size
                &&& 0 < upload.size_of_last <= 512
            }
        }),
{
}

/// The steps of an upload. As long as there are chunks, one is to be read: a
/// full one, or the last one. What is read for the hash is added to what was
/// read before; then the file is read again from its first chunk; and each chunk
/// that is sent brings the upload to the next one. The name of the file and the
/// sizes of the chunks stay the same all along.
pub proof fn law_upload_goes_through_the_file_twice(
    upload: UploadView,
    data: Seq<u8>,
    hash: FileHash,
    peers: Seq<PeerId>,
)
    ensures
        upload.next < upload.chunks ==> upload.wants() == UploadWant::Read(
            if upload.next == upload.chunks - 1 {
                upload.size_of_last
            } else {
                512
            },
        ),
        upload.next >= upload.chunks ==> upload.wants() == match upload.phase {
            PhaseView::Hashing { .. } => UploadWant::Rewind,
            PhaseView::Sending { .. } => UploadWant::Nothing,
        },
        ({
            let announced = upload.announced(hash, peers);
            &&& announced.next == 0
            &&& announced.phase == (PhaseView::Sending { file_hash: hash, peers })
            &&& announced.name == upload.name
            &&& announced.chunks == upload.chunks
            &&& announced.size_of_last == upload.size_of_last
        }),
        upload.next < upload.chunks ==> {
            let sent = upload.sent();
            &&& sent.next == upload.next + 1
            &&& sent.phase == upload.phase
            &&& sent.name == upload.name
            &&& sent.chunks == upload.chunks
            &&& sent.size_of_last == upload.size_of_last
        },
        upload.next < upload.chunks ==> (upload.phase matches PhaseView::Hashing { read } ==> {
            let hashed = upload.hashed(data);
            &&& hashed.next == upload.next + 1
            &&& hashed.phase == (PhaseView::Hashing { read: read + data })
            &&& hashed.name == upload.name
            &&& hashed.chunks == upload.chunks
            &&& hashed.size_of_last == upload.size_of_last
        }),
{
}

/// A file that was named is found by its name, under its hash, and asking for its
/// name gives it back; what is known of other files stays. A name that no file
/// has is not found.
pub proof fn law_names_are_found_again(
    server: ServerView,
    hash: FileHash,
    name: Seq<char>,
    other: FileHash,
    found: Option<FileHash>,
    searched: Seq<char>,
)
    requires
        other != hash,
    ensures
        server.with_file(hash, name).name_of(hash) == Some(name),
        server.with_file(hash, name).name_of(other) == server.name_of(other),
        server.with_file(hash, name).is_found_by(name, found) ==> found is Some,
        server.is_found_by(searched, found) ==> match found {
            Some(hash) => server.name_of(hash) == Some(searched),
            None => forall|any: FileHash| #[trigger] server.name_of(any) != Some(searched),
        },
{
    let then = server.with_file(hash, name);
    if then.is_found_by(name, None) {
        assert(then.file_names.contains_key(hash));
    }
    if server.is_found_by(searched, None) {
        assert forall|any: FileHash| #[trigger] server.name_of(any) != Some(searched) by {
            if server.file_names.contains_key(any) {
                assert(server.file_names[any] != searched);
            }
        }
    }
}

/// Asking for the peers of a chunk gives back those that were added to it, in
/// the order in which they were added, and no others.
pub proof fn law_peers_of_a_chunk_are_found_again(
    server: ServerView,
    hash: FileHash,
    id: ChunkId,
    peer: PeerId,
    other: (FileHash, ChunkId),
)
    requires
        other != (hash, id),
    ensures
        server.with_chunk(hash, id, peer).peers_of(hash, id) matches Some(peers) && peers
            == match server.peers_of(hash, id) {
            Some(before) => before.push(peer),
            None => seq![peer],
        },
        server.with_chunk(hash, id, peer).peers_of(other.0, other.1) == server.peers_of(
            other.0,
            other.1,
        ),
{
    assert(Seq::<PeerId>::empty().push(peer) =~= seq![peer]);
}

/// In each iteration every peer is to be polled, and nobody else; the first thing
/// that is due is to poll one of them.
pub proof fn law_every_peer_is_in_the_queue(server: ServerView, round: RoundView)
    requires
        is_start_of_round(server, round),
    ensures
        forall|id: PeerId| #[trigger]
            server.peers.contains_key(id) <==> round.queue.contains(id),
        round.queue.no_duplicates(),
        round.queue.len() > 0 ==> round.wants() == WantView::Poll(round.queue[0]),
        round.queue.len() == 0 ==> round.wants() is Nothing,
{
    assert forall|id: PeerId| #[trigger]
        server.peers.contains_key(id) <==> round.queue.contains(id) by {
        law_order_has_each_element(round.queue, server.peers.dom());
        assert(server.peers.dom().contains(id) <==> round.queue.contains(id));
    }
}

/// When a file is announced, it goes by its name under the hash, all peers are
/// told once, and nobody else; and the chunks will go to all peers.
pub proof fn law_announcement_reaches_all_peers(
    before: ServerView,
    upload: UploadView,
    hash: FileHash,
    after: ServerView,
    then: UploadView,
    effects: Seq<EffectView>,
    peer: PeerId,
)
    requires
        is_announcement(before, upload, hash, after, then, effects),
    ensures
        after.file_names.contains_key(hash),
        after.file_names[hash] == upload.name,
        forall|other: FileHash|
            other != hash ==> {
                &&& #[trigger] after.file_names.contains_key(other)
                    == before.file_names.contains_key(other)
                &&& after.file_names[other] == before.file_names[other]
            },
        after.peers == before.peers,
        after.own_chunks == before.own_chunks,
        after.chunks == before.chunks,
        after.stats == before.stats,
        effects.len() == before.peers.dom().len(),
        sent_to(effects, peer) == if before.peers.contains_key(peer) {
            seq![PacketView::Request(RequestView::SetFileName(hash, upload.name))]
        } else {
            Seq::empty()
        },
        then.next == 0,
        then.name == upload.name,
        then.chunks == upload.chunks,
        then.size_of_last == upload.size_of_last,
        then.phase matches PhaseView::Sending { file_hash, peers } && file_hash == hash
            && peers.no_duplicates() && (peers.contains(peer) <==> before.peers.contains_key(
            peer,
        )),
{
    let peers = then.phase->peers;
    law_order_has_each_element(peers, before.peers.dom());
    law_name_is_told_to_all(peers, hash, upload.name, peer);
    assert(before.peers.dom().contains(peer) <==> peers.contains(peer));
}

} // verus!
