//! Two nodes that are connected to each other.
use super::download::{
    count_up, download_after_answer, effects_after_answer, is_start, is_wanted,
    lemma_ascending_is_counted_up, server_after_answer, start_effects, weighed, DownloadView,
    DownloadWantView,
};
use super::node::{
    lemma_after_both, lemma_disk_after_answer, lemma_disk_after_event, lemma_disk_after_start,
    lemma_one_more, lemma_quiet_effects, Disk, Event, NodeView,
};
use super::round::{
    chunk_data, chunk_packet, effects_after, server_after_serving, storing_effects, JobView,
    WantView,
};
use super::upload::{
    chunk_packets, hash_all, law_chunks_are_hashed, law_chunks_are_sent,
    law_chunks_make_up_the_file, law_uploads_are_counted, name_packets, part, parts, send_all,
    sending_effects, server_after_upload, together, upload_start, UploadView, UploadWant,
};
use super::{notices, ServerView, Stats};
use crate::digest::{file_hash_of, sha256_digest};
use crate::effect::EffectView;
use crate::maps::each_once;
use crate::packet::{PacketView, RequestView};
use crate::peer::ReceivedView;
use crate::radix::{hex, law_hex_names_are_distinct};
use crate::store::lemma_words_are_no_numbers;
use crate::{ChunkId, FileHash, PeerId};
use vstd::prelude::*;

verus! {

/// The packets that the effects send to a peer, in order.
pub open spec fn sent_to(effects: Seq<EffectView>, to: PeerId) -> Seq<PacketView>
    decreases effects.len(),
{
    if effects.len() == 0 {
        Seq::empty()
    } else {
        let before = sent_to(effects.drop_last(), to);
        match effects.last() {
            EffectView::Send { to: other, packet } => if other == to {
                before.push(packet)
            } else {
                before
            },
            _ => before,
        }
    }
}

pub(super) proof fn lemma_sent_by_both(first: Seq<EffectView>, second: Seq<EffectView>, to: PeerId)
    ensures
        sent_to(first + second, to) == sent_to(first, to) + sent_to(second, to),
    decreases second.len(),
{
    if second.len() == 0 {
        assert(first + second =~= first);
        assert(sent_to(first, to) + Seq::<PacketView>::empty() =~= sent_to(first, to));
    } else {
        lemma_sent_by_both(first, second.drop_last(), to);
        assert((first + second).drop_last() =~= first + second.drop_last());
        assert((first + second).last() == second.last());
        assert(sent_to(first + second, to) =~= sent_to(first, to) + sent_to(second, to));
    }
}

pub(super) proof fn lemma_sent_by_one(effect: EffectView, to: PeerId)
    ensures
        sent_to(seq![effect], to) == match effect {
            EffectView::Send { to: other, packet } => if other == to {
                seq![packet]
            } else {
                Seq::empty()
            },
            _ => Seq::empty(),
        },
{
    assert(seq![effect].drop_last() =~= Seq::empty());
    assert(sent_to(seq![effect].drop_last(), to) == Seq::<PacketView>::empty());
    if let EffectView::Send { packet, .. } = effect {
        assert(Seq::<PacketView>::empty().push(packet) =~= seq![packet]);
    }
}

/// The same packet for each peer of `order`.
pub open spec fn sends(order: Seq<PeerId>, packet: PacketView) -> Seq<EffectView> {
    Seq::new(order.len(), |i: int| EffectView::Send { to: order[i], packet })
}

/// A packet for each of some peers reaches each of them once.
pub(super) proof fn lemma_sent_once(order: Seq<PeerId>, packet: PacketView, to: PeerId)
    requires
        order.no_duplicates(),
    ensures
        sent_to(sends(order, packet), to) == if order.contains(to) {
            seq![packet]
        } else {
            Seq::empty()
        },
    decreases order.len(),
{
    if order.len() > 0 {
        let fewer = order.drop_last();
        lemma_sent_once(fewer, packet, to);
        lemma_contains_before_last(order, to);
        assert(sends(order, packet).drop_last() =~= sends(fewer, packet));
        assert(sent_to(sends(order, packet), to) =~= if order.contains(to) {
            seq![packet]
        } else {
            Seq::empty()
        });
    }
}

proof fn lemma_contains_before_last(order: Seq<PeerId>, peer: PeerId)
    requires
        order.len() > 0,
        order.no_duplicates(),
    ensures
        order.drop_last().no_duplicates(),
        order.contains(peer) <==> order.drop_last().contains(peer) || order.last() == peer,
        order.last() == peer ==> !order.drop_last().contains(peer),
{
    let fewer = order.drop_last();
    if fewer.contains(peer) {
        assert(order[fewer.index_of(peer)] == peer);
    }
    if order.contains(peer) && order.last() != peer {
        assert(fewer[order.index_of(peer)] == peer);
    }
}

/// A chunk that is sent to each of some peers reaches each of them once.
pub(super) proof fn lemma_chunk_is_sent_once(
    peers: Seq<PeerId>,
    hash: FileHash,
    id: ChunkId,
    sha: Seq<u8>,
    data: Seq<u8>,
    to: PeerId,
)
    requires
        peers.no_duplicates(),
    ensures
        sent_to(chunk_packets(peers, hash, id, sha, data), to) == if peers.contains(to) {
            seq![
                PacketView::Request(RequestView::WriteChunks(hash, seq![id])),
                chunk_packet(sha, data),
            ]
        } else {
            Seq::empty()
        },
    decreases peers.len(),
{
    let all = chunk_packets(peers, hash, id, sha, data);
    let expected = seq![
        PacketView::Request(RequestView::WriteChunks(hash, seq![id])),
        chunk_packet(sha, data),
    ];
    if peers.len() > 0 {
        let fewer = peers.drop_last();
        let last = peers.last();
        lemma_chunk_is_sent_once(fewer, hash, id, sha, data, to);
        lemma_contains_before_last(peers, to);
        let before = chunk_packets(fewer, hash, id, sha, data);
        let request = EffectView::Send { to: last, packet: expected[0] };
        let response = EffectView::Send { to: last, packet: expected[1] };
        assert(all =~= before + seq![request] + seq![response]);
        lemma_sent_by_both(before + seq![request], seq![response], to);
        lemma_sent_by_both(before, seq![request], to);
        lemma_sent_by_one(request, to);
        lemma_sent_by_one(response, to);
        assert(sent_to(all, to) =~= if peers.contains(to) {
            expected
        } else {
            Seq::empty()
        });
    }
}

/// The event is one that can come while the packets `left` are still to come
/// from the peer `from`, and nothing comes from anyone else: polls may find
/// nothing, and the peers may have their turns in any order.
pub open spec fn fits(
    node: NodeView,
    event: Event,
    from: PeerId,
    left: Seq<PacketView>,
) -> bool {
    match node.round.wants() {
        WantView::Nothing => event matches Event::Start { queue } && each_once(
            queue,
            node.server.peers.dom(),
        ),
        WantView::Poll(id) => event matches Event::Poll { received } && (received is Nothing || (id
            == from && left.len() > 0 && received == ReceivedView::Packet(left[0]))),
        WantView::ReadChunk { .. } => event is Serve,
        WantView::Receive(id) => event matches Event::Store { packet, order } && id == from
            && left.len() > 0 && packet == left[0] && each_once(order, node.server.peers.dom()),
    }
}

/// How many packets an event takes.
pub open spec fn takes(event: Event) -> nat {
    match event {
        Event::Poll { received: ReceivedView::Packet(_) } => 1,
        Event::Store { .. } => 1,
        _ => 0,
    }
}

/// How many packets some events take.
pub open spec fn taken(events: Seq<Event>) -> nat
    decreases events.len(),
{
    if events.len() == 0 {
        0
    } else {
        taken(events.drop_last()) + takes(events.last())
    }
}

/// In these events the node hears nothing but the packets, or some first ones
/// of them, from the peer `from`.
pub open spec fn hears(
    node: NodeView,
    events: Seq<Event>,
    from: PeerId,
    packets: Seq<PacketView>,
) -> bool {
    forall|k: int|
        0 <= k < events.len() ==> fits(
            node.run(#[trigger] events.take(k)),
            events[k],
            from,
            packets.skip(taken(events.take(k)) as int),
        )
}

/// In these events the node hears all the packets from the peer `from`, and
/// nothing else, and it has done all that they ask for.
pub open spec fn works_off(
    node: NodeView,
    events: Seq<Event>,
    from: PeerId,
    packets: Seq<PacketView>,
) -> bool {
    &&& hears(node, events, from, packets)
    &&& taken(events) == packets.len()
    &&& node.run(events).round.wants() is Nothing
}

proof fn lemma_heard_before(
    node: NodeView,
    events: Seq<Event>,
    from: PeerId,
    packets: Seq<PacketView>,
)
    requires
        events.len() > 0,
        hears(node, events, from, packets),
    ensures
        hears(node, events.drop_last(), from, packets),
        fits(
            node.run(events.drop_last()),
            events.last(),
            from,
            packets.skip(taken(events.drop_last()) as int),
        ),
{
    let fewer = events.drop_last();
    assert forall|k: int| 0 <= k < fewer.len() implies fits(
        node.run(#[trigger] fewer.take(k)),
        fewer[k],
        from,
        packets.skip(taken(fewer.take(k)) as int),
    ) by {
        assert(fewer.take(k) =~= events.take(k));
    }
    assert(events.take(events.len() - 1) =~= fewer);
}

/// The node is between iterations, and the peer is among its peers.
pub open spec fn is_connected_to(node: NodeView, peer: PeerId) -> bool {
    &&& node.round.wants() is Nothing
    &&& node.server.peers.contains_key(peer)
}

/// What an upload sends to a peer, up to the given number of chunks.
pub open spec fn upload_packets(
    name: Seq<char>,
    data: Seq<u8>,
    hash: FileHash,
    count: nat,
) -> Seq<PacketView> {
    Seq::new(
        2 * count + 1,
        |k: int|
            if k == 0 {
                PacketView::Request(RequestView::SetFileName(hash, name))
            } else if k % 2 == 1 {
                PacketView::Request(RequestView::WriteChunks(hash, seq![(k / 2) as ChunkId]))
            } else {
                chunk_packet(sha256_digest(part(data, k / 2 - 1)), part(data, k / 2 - 1))
            },
    )
}

/// All that is to be done in an upload from when the hash is known, up to the
/// given number of chunks.
pub open spec fn upload_effects(
    announced: UploadView,
    data: Seq<u8>,
    hash: FileHash,
    peers: Seq<PeerId>,
    count: nat,
) -> Seq<EffectView>
    decreases count,
{
    if count == 0 {
        name_packets(peers, hash, announced.name)
    } else {
        let i = (count - 1) as nat;
        let chunk = part(data, i as int);
        upload_effects(announced, data, hash, peers, i) + sending_effects(
            send_all(announced, i),
            sha256_digest(chunk),
            chunk,
        )
    }
}

/// The news that the first chunks of a file are stored.
pub open spec fn news(hash: FileHash, count: nat) -> Seq<PacketView> {
    Seq::new(count, |i: int| PacketView::Request(RequestView::HasChunk(hash, i as ChunkId)))
}

proof fn lemma_upload_packets(
    name: Seq<char>,
    data: Seq<u8>,
    hash: FileHash,
    peers: Seq<PeerId>,
    peer: PeerId,
    count: nat,
)
    requires
        data.len() + 511 <= u64::MAX,
        count <= parts(data).len(),
        peers.no_duplicates(),
        peers.contains(peer),
    ensures
        sent_to(
            upload_effects(
                upload_start(name, data.len()).announced(hash, peers),
                data,
                hash,
                peers,
                count,
            ),
            peer,
        ) == upload_packets(name, data, hash, count),
    decreases count,
{
    let announced = upload_start(name, data.len()).announced(hash, peers);
    let all = upload_packets(name, data, hash, count);
    if count == 0 {
        let packet = PacketView::Request(RequestView::SetFileName(hash, name));
        assert(name_packets(peers, hash, name) =~= sends(peers, packet));
        lemma_sent_once(peers, packet, peer);
        assert(all =~= seq![packet]);
    } else {
        let i = (count - 1) as nat;
        let chunk = part(data, i as int);
        let sha = sha256_digest(chunk);
        lemma_upload_packets(name, data, hash, peers, peer, i);
        law_chunks_are_sent(name, data, hash, peers, i);
        let before = upload_effects(announced, data, hash, peers, i);
        let packets = chunk_packets(peers, hash, i as ChunkId, sha, chunk);
        let progress = EffectView::Progress {
            done: (i + 1) as u64,
            total: parts(data).len() as u64,
        };
        let more = sending_effects(send_all(announced, i), sha, chunk);
        assert(more =~= packets + seq![progress]);
        lemma_sent_by_both(before, more, peer);
        lemma_sent_by_both(packets, seq![progress], peer);
        lemma_chunk_is_sent_once(peers, hash, i as ChunkId, sha, chunk, peer);
        lemma_sent_by_one(progress, peer);
        assert(all =~= upload_packets(name, data, hash, i) + seq![
            PacketView::Request(RequestView::WriteChunks(hash, seq![i as ChunkId])),
            chunk_packet(sha, chunk),
        ]);
        assert(sent_to(before + more, peer) =~= all);
    }
}

/// Storing a chunk tells a peer of it once.
proof fn lemma_storing_is_told(
    hash: FileHash,
    id: ChunkId,
    data: Seq<u8>,
    order: Seq<PeerId>,
    to: PeerId,
)
    requires
        order.no_duplicates(),
        order.contains(to),
    ensures
        sent_to(storing_effects(hash, id, data, order), to) == seq![
            PacketView::Request(RequestView::HasChunk(hash, id)),
        ],
{
    let packet = PacketView::Request(RequestView::HasChunk(hash, id));
    let effects = storing_effects(hash, id, data, order);
    assert(notices(order, hash, id) =~= sends(order, packet));
    lemma_sent_by_both(seq![effects[0]], notices(order, hash, id), to);
    lemma_sent_by_one(effects[0], to);
    lemma_sent_once(order, packet, to);
    assert(effects =~= seq![effects[0]] + notices(order, hash, id));
    assert(sent_to(effects, to) =~= seq![packet]);
}

/// A request to store chunks, and the name of a file, are not answered.
proof fn lemma_no_answer(id: PeerId, received: ReceivedView, to: PeerId)
    requires
        received matches ReceivedView::Packet(PacketView::Request(request)) ==> {
            ||| request is WriteChunks
            ||| request is SetFileName
            ||| request is HasChunk
            ||| request is Chunks
        },
        received is Nothing || received matches ReceivedView::Packet(PacketView::Request(_)),
    ensures
        sent_to(effects_after(id, received), to) == Seq::<PacketView>::empty(),
{
    let effects = effects_after(id, received);
    if effects.len() == 1 {
        assert(effects =~= seq![effects[0]]);
        lemma_sent_by_one(effects[0], to);
    } else if effects.len() == 2 {
        assert(effects =~= seq![effects[0]] + seq![effects[1]]);
        lemma_sent_by_both(seq![effects[0]], seq![effects[1]], to);
        lemma_sent_by_one(effects[0], to);
        lemma_sent_by_one(effects[1], to);
        assert(sent_to(effects, to) =~= Seq::empty());
    }
}

/// How many chunks of an upload are stored when so many of its packets were
/// taken.
spec fn stored_of(taken: nat) -> nat {
    if taken == 0 {
        0
    } else {
        ((taken - 1) / 2) as nat
    }
}

/// What has become of a node that has taken so many packets of an upload, and
/// has `sent` meanwhile.
spec fn has_stored(
    start: NodeView,
    now: NodeView,
    sent: Seq<EffectView>,
    from: PeerId,
    name: Seq<char>,
    data: Seq<u8>,
    hash: FileHash,
    taken: nat,
) -> bool {
    let count = stored_of(taken);
    &&& taken <= 2 * parts(data).len() + 1
    &&& now.server.peers == start.server.peers
    &&& now.server.stats == start.server.stats
    &&& now.server.file_names == if taken == 0 {
        start.server.file_names
    } else {
        start.server.file_names.insert(hash, name)
    }
    &&& now.server.stored(hash) == start.server.stored(hash) + count_up(count)
    &&& if taken > 0 && taken % 2 == 0 {
        now.round.job == (JobView::Storing {
            peer: from,
            file_hash: hash,
            left: seq![count as ChunkId],
        })
    } else {
        now.round.is_idle()
    }
    &&& forall|id: ChunkId|
        id < count ==> #[trigger] now.disk.holds(hash, id, part(data, id as int))
    &&& sent_to(sent, from) == news(hash, count)
}

proof fn lemma_upload_step(
    start: NodeView,
    now: NodeView,
    sent: Seq<EffectView>,
    event: Event,
    from: PeerId,
    name: Seq<char>,
    data: Seq<u8>,
    hash: FileHash,
    taken: nat,
)
    requires
        start.server.peers.contains_key(from),
        parts(data).len() <= u64::MAX,
        has_stored(start, now, sent, from, name, data, hash, taken),
        fits(
            now,
            event,
            from,
            upload_packets(name, data, hash, parts(data).len()).skip(taken as int),
        ),
    ensures
        now.allows(event),
        has_stored(
            start,
            now.next(event),
            sent + now.effects(event),
            from,
            name,
            data,
            hash,
            taken + takes(event),
        ),
{
    let packets = upload_packets(name, data, hash, parts(data).len());
    let left = packets.skip(taken as int);
    let count = stored_of(taken);
    let then = now.next(event);
    lemma_sent_by_both(sent, now.effects(event), from);
    assert(left.len() > 0 ==> left[0] == packets[taken as int]);
    match now.round.wants() {
        WantView::Nothing => {
            lemma_disk_after_event(now, event);
            assert(sent_to(sent, from) + Seq::<PacketView>::empty() =~= sent_to(sent, from));
        },
        WantView::Poll(id) => {
            let received = event->received;
            assert(now.allows(event));
            lemma_disk_after_event(now, event);
            lemma_no_answer(id, received, from);
            assert(sent_to(sent, from) + Seq::<PacketView>::empty() =~= sent_to(sent, from));
            if takes(event) == 1 {
                assert(stored_of(taken + 1) == count);
                assert forall|id: ChunkId| id < count implies #[trigger] then.disk.holds(
                    hash,
                    id,
                    part(data, id as int),
                ) by {
                    assert(now.disk.holds(hash, id, part(data, id as int)));
                    lemma_words_are_no_numbers(id as nat);
                }
            } else {
                assert forall|id: ChunkId| id < count implies #[trigger] then.disk.holds(
                    hash,
                    id,
                    part(data, id as int),
                ) by {
                    assert(now.disk.holds(hash, id, part(data, id as int)));
                }
            }
        },
        WantView::ReadChunk { .. } => {},
        WantView::Receive(_) => {
            let order = event->order;
            let id = count as ChunkId;
            let chunk = part(data, count as int);
            assert(event->packet == chunk_packet(sha256_digest(chunk), chunk));
            assert(now.allows(event));
            lemma_disk_after_event(now, event);
            assert(order.contains(from)) by {
                assert(order.to_set().contains(from));
            }
            lemma_storing_is_told(hash, id, chunk, order, from);
            assert(stored_of(taken + 1) == count + 1);
            assert(sent_to(sent, from) + sent_to(now.effects(event), from) =~= news(
                hash,
                count + 1,
            ));
            assert(then.server.stored(hash) =~= start.server.stored(hash) + count_up(count + 1));
            assert forall|other: ChunkId| other < count + 1 implies #[trigger] then.disk.holds(
                hash,
                other,
                part(data, other as int),
            ) by {
                law_hex_names_are_distinct(other as nat, id as nat);
                if other < count {
                    assert(now.disk.holds(hash, other, part(data, other as int)));
                }
            }
            assert(seq![id].drop_first() =~= Seq::empty());
        },
    }
}

/// A node that hears the packets of an upload stores the chunks, and tells of
/// each.
proof fn lemma_upload_is_stored(
    node: NodeView,
    events: Seq<Event>,
    from: PeerId,
    name: Seq<char>,
    data: Seq<u8>,
    hash: FileHash,
)
    requires
        is_connected_to(node, from),
        parts(data).len() <= u64::MAX,
        hears(node, events, from, upload_packets(name, data, hash, parts(data).len())),
    ensures
        node.runs(events),
        has_stored(
            node,
            node.run(events),
            node.sent(events),
            from,
            name,
            data,
            hash,
            taken(events),
        ),
    decreases events.len(),
{
    let packets = upload_packets(name, data, hash, parts(data).len());
    if events.len() == 0 {
        assert(node.server.stored(hash) + count_up(0) =~= node.server.stored(hash));
        assert(sent_to(node.sent(events), from) =~= news(hash, 0));
    } else {
        let fewer = events.drop_last();
        lemma_heard_before(node, events, from, packets);
        lemma_upload_is_stored(node, fewer, from, name, data, hash);
        lemma_one_more(node, events);
        lemma_upload_step(
            node,
            node.run(fewer),
            node.sent(fewer),
            events.last(),
            from,
            name,
            data,
            hash,
            taken(fewer),
        );
    }
}

/// Of the file, only the first chunks are listed, and each of them only with
/// the peer.
pub open spec fn lists_only(
    server: ServerView,
    hash: FileHash,
    count: nat,
    peer: PeerId,
) -> bool {
    forall|id: ChunkId| #[trigger]
        server.chunks.contains_key((hash, id)) ==> {
            &&& id < count
            &&& server.chunks[(hash, id)].len() > 0
            &&& forall|k: int|
                0 <= k < server.chunks[(hash, id)].len() ==> #[trigger] server.chunks[(
                    hash,
                    id,
                )][k] == peer
        }
}

/// What has become of a node that has taken the news of so many chunks.
spec fn has_heard(
    start: NodeView,
    now: NodeView,
    from: PeerId,
    hash: FileHash,
    total: nat,
    taken: nat,
) -> bool {
    &&& taken <= total
    &&& now.round.is_idle()
    &&& now.disk == start.disk
    &&& now.server == (ServerView { chunks: now.server.chunks, ..start.server })
    &&& lists_only(now.server, hash, total, from)
    &&& forall|id: ChunkId| id < taken ==> #[trigger] now.server.chunks.contains_key((hash, id))
}

proof fn lemma_news_step(
    start: NodeView,
    now: NodeView,
    event: Event,
    from: PeerId,
    hash: FileHash,
    total: nat,
    taken: nat,
)
    requires
        total <= u64::MAX,
        has_heard(start, now, from, hash, total, taken),
        fits(now, event, from, news(hash, total).skip(taken as int)),
    ensures
        now.allows(event),
        has_heard(start, now.next(event), from, hash, total, taken + takes(event)),
{
    let left = news(hash, total).skip(taken as int);
    let then = now.next(event);
    assert(now.allows(event));
    lemma_disk_after_event(now, event);
    if takes(event) == 1 {
        let id = taken as ChunkId;
        assert(left[0] == news(hash, total)[taken as int]);
        assert(then.server == now.server.with_chunk(hash, id, from));
        assert(lists_only(then.server, hash, total, from)) by {
            assert forall|other: ChunkId| #[trigger]
                then.server.chunks.contains_key((hash, other)) implies {
                &&& other < total
                &&& then.server.chunks[(hash, other)].len() > 0
                &&& forall|k: int|
                    0 <= k < then.server.chunks[(hash, other)].len()
                        ==> #[trigger] then.server.chunks[(hash, other)][k] == from
            } by {
                if other != id || now.server.chunks.contains_key((hash, other)) {
                    assert(now.server.chunks.contains_key((hash, other)));
                }
            }
        }
        assert forall|other: ChunkId|
            other < taken + 1 implies #[trigger] then.server.chunks.contains_key((hash, other)) by {
            if other != id {
                assert(now.server.chunks.contains_key((hash, other)));
            }
        }
    }
}

/// A node that hears of stored chunks lists the peer for them.
proof fn lemma_news_are_heard(
    node: NodeView,
    events: Seq<Event>,
    from: PeerId,
    hash: FileHash,
    total: nat,
)
    requires
        is_connected_to(node, from),
        total <= u64::MAX,
        lists_only(node.server, hash, total, from),
        hears(node, events, from, news(hash, total)),
    ensures
        node.runs(events),
        has_heard(node, node.run(events), from, hash, total, taken(events)),
    decreases events.len(),
{
    if events.len() > 0 {
        let fewer = events.drop_last();
        lemma_heard_before(node, events, from, news(hash, total));
        lemma_news_are_heard(node, fewer, from, hash, total);
        lemma_one_more(node, events);
        lemma_news_step(
            node,
            node.run(fewer),
            events.last(),
            from,
            hash,
            total,
            taken(fewer),
        );
    }
}

/// The request for one chunk.
pub open spec fn chunk_request(hash: FileHash, id: ChunkId) -> PacketView {
    PacketView::Request(RequestView::Chunks(hash, seq![id]))
}

/// What has become of a node that is asked for a chunk, and has `sent`
/// meanwhile.
spec fn has_served(
    start: NodeView,
    now: NodeView,
    sent: Seq<EffectView>,
    from: PeerId,
    hash: FileHash,
    id: ChunkId,
    data: Seq<u8>,
    taken: nat,
) -> bool {
    &&& taken <= 1
    &&& now.disk == start.disk
    &&& if taken == 1 && now.round.is_idle() {
        &&& now.server == server_after_serving(start.server)
        &&& sent_to(sent, from) == seq![chunk_packet(sha256_digest(data), data)]
    } else {
        &&& now.server == start.server
        &&& sent_to(sent, from) == Seq::<PacketView>::empty()
        &&& if taken == 0 {
            now.round.is_idle()
        } else {
            now.round.job == (JobView::Serving { peer: from, file_hash: hash, left: seq![id] })
        }
    }
}

proof fn lemma_serving_step(
    start: NodeView,
    now: NodeView,
    sent: Seq<EffectView>,
    event: Event,
    from: PeerId,
    hash: FileHash,
    id: ChunkId,
    data: Seq<u8>,
    taken: nat,
)
    requires
        start.disk.holds(hash, id, data),
        start.server.stats.uploaded_chunks < u64::MAX,
        has_served(start, now, sent, from, hash, id, data, taken),
        fits(now, event, from, seq![chunk_request(hash, id)].skip(taken as int)),
    ensures
        now.allows(event),
        has_served(
            start,
            now.next(event),
            sent + now.effects(event),
            from,
            hash,
            id,
            data,
            taken + takes(event),
        ),
{
    let left = seq![chunk_request(hash, id)].skip(taken as int);
    lemma_sent_by_both(sent, now.effects(event), from);
    assert(left.len() > 0 ==> left[0] == chunk_request(hash, id));
    assert(now.allows(event));
    lemma_disk_after_event(now, event);
    match now.round.wants() {
        WantView::ReadChunk { .. } => {
            let effects = now.effects(event);
            assert(effects =~= seq![effects[0]]);
            lemma_sent_by_one(effects[0], from);
            assert(seq![id].drop_first() =~= Seq::empty());
            assert(Seq::<PacketView>::empty() + sent_to(effects, from) =~= sent_to(effects, from));
        },
        WantView::Poll(peer) => {
            lemma_no_answer(peer, event->received, from);
            assert(sent_to(sent, from) + Seq::<PacketView>::empty() =~= sent_to(sent, from));
        },
        _ => {
            assert(sent_to(sent, from) + Seq::<PacketView>::empty() =~= sent_to(sent, from));
        },
    }
}

/// A node that has a chunk on disk sends it to the peer that asks for it.
proof fn lemma_chunk_is_served(
    node: NodeView,
    events: Seq<Event>,
    from: PeerId,
    hash: FileHash,
    id: ChunkId,
    data: Seq<u8>,
)
    requires
        is_connected_to(node, from),
        node.disk.holds(hash, id, data),
        node.server.stats.uploaded_chunks < u64::MAX,
        hears(node, events, from, seq![chunk_request(hash, id)]),
    ensures
        node.runs(events),
        has_served(
            node,
            node.run(events),
            node.sent(events),
            from,
            hash,
            id,
            data,
            taken(events),
        ),
    decreases events.len(),
{
    let packets = seq![chunk_request(hash, id)];
    if events.len() > 0 {
        let fewer = events.drop_last();
        lemma_heard_before(node, events, from, packets);
        lemma_chunk_is_served(node, fewer, from, hash, id, data);
        lemma_one_more(node, events);
        lemma_serving_step(
            node,
            node.run(fewer),
            node.sent(fewer),
            events.last(),
            from,
            hash,
            id,
            data,
            taken(fewer),
        );
    }
}

/// What has become of a node that is sent one chunk.
spec fn has_written(
    start: NodeView,
    now: NodeView,
    from: PeerId,
    hash: FileHash,
    id: ChunkId,
    data: Seq<u8>,
    taken: nat,
) -> bool {
    &&& taken <= 2
    &&& now.server.peers == start.server.peers
    &&& now.server.stats == start.server.stats
    &&& if taken == 1 {
        now.round.job == (JobView::Storing { peer: from, file_hash: hash, left: seq![id] })
    } else {
        now.round.is_idle()
    }
    &&& if taken == 2 {
        &&& now.server.stored(hash) == start.server.stored(hash).push(id)
        &&& now.disk.holds(hash, id, data)
    } else {
        now.server.stored(hash) == start.server.stored(hash)
    }
}

proof fn lemma_chunk_is_written(
    node: NodeView,
    events: Seq<Event>,
    from: PeerId,
    hash: FileHash,
    id: ChunkId,
    packet: PacketView,
)
    requires
        is_connected_to(node, from),
        chunk_data(packet) is Some,
        hears(
            node,
            events,
            from,
            seq![PacketView::Request(RequestView::WriteChunks(hash, seq![id])), packet],
        ),
    ensures
        node.runs(events),
        has_written(
            node,
            node.run(events),
            from,
            hash,
            id,
            chunk_data(packet)->0,
            taken(events),
        ),
    decreases events.len(),
{
    let packets = seq![PacketView::Request(RequestView::WriteChunks(hash, seq![id])), packet];
    if events.len() > 0 {
        let fewer = events.drop_last();
        let event = events.last();
        lemma_heard_before(node, events, from, packets);
        lemma_chunk_is_written(node, fewer, from, hash, id, packet);
        lemma_one_more(node, events);
        let now = node.run(fewer);
        let left = packets.skip(taken(fewer) as int);
        assert(left.len() > 0 ==> left[0] == packets[taken(fewer) as int]);
        assert(now.allows(event));
        lemma_disk_after_event(now, event);
        assert(seq![id].drop_first() =~= Seq::empty());
    }
}

/// A chunk that a peer has written is read back by it later: its data is
/// unchanged, and its digest is that of the data, whatever digest has come with
/// it. The node may have other peers, which stay silent.
pub proof fn law_written_chunk_is_read_back(
    node: NodeView,
    written: Seq<Event>,
    read: Seq<Event>,
    from: PeerId,
    hash: FileHash,
    id: ChunkId,
    packet: PacketView,
)
    requires
        is_connected_to(node, from),
        chunk_data(packet) is Some,
        node.server.stats.uploaded_chunks < u64::MAX,
        works_off(
            node,
            written,
            from,
            seq![PacketView::Request(RequestView::WriteChunks(hash, seq![id])), packet],
        ),
        works_off(node.run(written), read, from, seq![chunk_request(hash, id)]),
    ensures
        node.runs(written),
        node.run(written).server.stored(hash) == node.server.stored(hash).push(id),
        node.run(written).runs(read),
        sent_to(node.run(written).sent(read), from) == seq![
            chunk_packet(sha256_digest(chunk_data(packet)->0), chunk_data(packet)->0),
        ],
{
    lemma_chunk_is_written(node, written, from, hash, id, packet);
    lemma_chunk_is_served(node.run(written), read, from, hash, id, chunk_data(packet)->0);
}

/// A download between two nodes: who downloads, the state of the download, and
/// who is asked.
pub struct Fetch {
    pub asker: NodeView,
    pub download: DownloadView,
    pub holder: NodeView,
    /// Only the holder was asked, its steps have succeeded, and it has sent one
    /// packet in answer to each request.
    pub sound: bool,
}

/// The download after one more request; `events` are those in which the holder
/// deals with it.
pub open spec fn fetch_one(
    before: Fetch,
    asker_id: PeerId,
    holder_id: PeerId,
    events: Seq<Event>,
) -> Fetch {
    match before.download.wants(before.asker.server) {
        DownloadWantView::Ask { to, packet } => {
            let answers = sent_to(before.holder.sent(events), asker_id);
            let download = before.download.settled(before.asker.server);
            let answer = weighed(Some(answers[0]));
            Fetch {
                asker: NodeView {
                    server: server_after_answer(before.asker.server, answer),
                    disk: before.asker.disk.after(effects_after_answer(download, answer)),
                    round: before.asker.round,
                },
                download: download_after_answer(download, answer),
                holder: before.holder.run(events),
                sound: {
                    &&& before.sound
                    &&& to == holder_id
                    &&& before.holder.runs(events)
                    &&& answers.len() == 1
                },
            }
        },
        _ => Fetch { sound: false, ..before },
    }
}

/// The download after a request for each of `turns`, which are the events in
/// which the holder deals with the requests.
pub open spec fn fetch(
    start: Fetch,
    asker_id: PeerId,
    holder_id: PeerId,
    turns: Seq<Seq<Event>>,
) -> Fetch
    decreases turns.len(),
{
    if turns.len() == 0 {
        start
    } else {
        fetch_one(
            fetch(start, asker_id, holder_id, turns.drop_last()),
            asker_id,
            holder_id,
            turns.last(),
        )
    }
}

/// A download that starts: its file is written anew.
pub open spec fn fetch_start(
    asker: NodeView,
    download: DownloadView,
    holder: NodeView,
) -> Fetch {
    Fetch {
        asker: NodeView { disk: asker.disk.after(start_effects(download.file_hash)), ..asker },
        download,
        holder,
        sound: true,
    }
}

/// If a peer is asked next, these are events in which the holder deals with the
/// request, and hears nothing else.
pub open spec fn is_dealt_with(before: Fetch, asker_id: PeerId, events: Seq<Event>) -> bool {
    before.download.wants(before.asker.server) matches DownloadWantView::Ask { packet, .. }
        ==> works_off(before.holder, events, asker_id, seq![packet])
}

/// The holder has all chunks of the file, and the asker is to ask it for each.
spec fn can_fetch(start: Fetch, asker_id: PeerId, holder_id: PeerId, data: Seq<u8>) -> bool {
    let hash = start.download.file_hash;
    let path = ("downloads"@, hex(hash as nat));
    &&& start.sound
    &&& is_connected_to(start.holder, asker_id)
    &&& start.asker.server.peers.contains_key(holder_id)
    &&& parts(data).len() <= u64::MAX
    &&& start.holder.server.stats.uploaded_chunks + parts(data).len() <= u64::MAX
    &&& start.asker.server.stats.downloaded_chunks + parts(data).len() <= u64::MAX
    &&& start.download.left == count_up(parts(data).len())
    &&& start.download.tried == 0
    &&& start.download.done == 0
    &&& start.download.written == Seq::<u8>::empty()
    &&& start.asker.disk.files.contains_key(path)
    &&& start.asker.disk.files[path] == Seq::<u8>::empty()
    &&& forall|id: ChunkId|
        id < parts(data).len() ==> {
            &&& #[trigger] start.holder.disk.holds(hash, id, part(data, id as int))
            &&& start.asker.server.chunks.contains_key((hash, id))
            &&& start.asker.server.chunks[(hash, id)].len() > 0
            &&& start.asker.server.chunks[(hash, id)][0] == holder_id
        }
}

/// What has become of a download after so many requests.
spec fn has_fetched(
    start: Fetch,
    now: Fetch,
    asker_id: PeerId,
    data: Seq<u8>,
    count: nat,
) -> bool {
    let path = ("downloads"@, hex(start.download.file_hash as nat));
    &&& now.sound
    &&& is_connected_to(now.holder, asker_id)
    &&& now.holder.disk == start.holder.disk
    &&& now.holder.server.stats.uploaded_chunks == start.holder.server.stats.uploaded_chunks
        + count
    &&& now.asker.server == (ServerView {
        stats: Stats {
            downloaded_chunks: (start.asker.server.stats.downloaded_chunks + count) as u64,
            ..start.asker.server.stats
        },
        ..start.asker.server
    })
    &&& now.asker.disk.files.contains_key(path)
    &&& now.asker.disk.files[path] == now.download.written
    &&& now.download == (DownloadView {
        left: start.download.left.skip(count as int),
        done: count,
        written: together(parts(data).take(count as int)),
        ..start.download
    })
}

proof fn lemma_fetch_step(
    start: Fetch,
    now: Fetch,
    asker_id: PeerId,
    holder_id: PeerId,
    events: Seq<Event>,
    data: Seq<u8>,
    count: nat,
)
    requires
        can_fetch(start, asker_id, holder_id, data),
        count < parts(data).len(),
        has_fetched(start, now, asker_id, data, count),
        is_dealt_with(now, asker_id, events),
    ensures
        has_fetched(
            start,
            fetch_one(now, asker_id, holder_id, events),
            asker_id,
            data,
            count + 1,
        ),
{
    let id = count as ChunkId;
    let hash = start.download.file_hash;
    let chunk = part(data, count as int);
    assert(start.holder.disk.holds(hash, id, part(data, id as int)));
    assert(now.download.left[0] == id);
    assert(now.download.settled(now.asker.server) == now.download);
    assert(now.download.wants(now.asker.server) == (DownloadWantView::Ask {
        to: holder_id,
        packet: chunk_request(hash, id),
    }));
    lemma_chunk_is_served(now.holder, events, asker_id, hash, id, chunk);
    lemma_disk_after_answer(now.asker.disk, now.download, chunk);
    assert(now.download.left.drop_first() =~= start.download.left.skip(count as int + 1));
    assert(parts(data).take(count as int + 1).drop_last() =~= parts(data).take(count as int));
}

proof fn lemma_fetch(
    start: Fetch,
    asker_id: PeerId,
    holder_id: PeerId,
    turns: Seq<Seq<Event>>,
    data: Seq<u8>,
)
    requires
        can_fetch(start, asker_id, holder_id, data),
        turns.len() <= parts(data).len(),
        forall|i: int|
            0 <= i < turns.len() ==> is_dealt_with(
                fetch(start, asker_id, holder_id, #[trigger] turns.take(i)),
                asker_id,
                turns[i],
            ),
    ensures
        has_fetched(
            start,
            fetch(start, asker_id, holder_id, turns),
            asker_id,
            data,
            turns.len(),
        ),
    decreases turns.len(),
{
    if turns.len() == 0 {
        assert(start.download.left.skip(0) =~= start.download.left);
    } else {
        let fewer = turns.drop_last();
        let last = turns.len() - 1;
        assert forall|i: int| 0 <= i < fewer.len() implies is_dealt_with(
            fetch(start, asker_id, holder_id, #[trigger] fewer.take(i)),
            asker_id,
            fewer[i],
        ) by {
            assert(fewer.take(i) =~= turns.take(i));
        }
        assert(turns.take(last) =~= fewer);
        lemma_fetch(start, asker_id, holder_id, fewer, data);
        lemma_fetch_step(
            start,
            fetch(start, asker_id, holder_id, fewer),
            asker_id,
            holder_id,
            turns[last],
            data,
            fewer.len(),
        );
    }
}

/// An upload of a file to some peers, from when it was read for its hash.
pub open spec fn announced_upload(
    name: Seq<char>,
    data: Seq<u8>,
    peers: Seq<PeerId>,
) -> UploadView {
    let hashed = hash_all(upload_start(name, data.len()), parts(data));
    hashed.announced(file_hash_of(hashed.phase->read), peers)
}

/// All that is to be done in that upload.
pub open spec fn whole_upload(name: Seq<char>, data: Seq<u8>, peers: Seq<PeerId>) -> Seq<
    EffectView,
> {
    let upload = announced_upload(name, data, peers);
    upload_effects(upload, data, upload.phase->file_hash, peers, parts(data).len())
}

/// The uploading node after the upload.
pub open spec fn uploaded(
    node: NodeView,
    name: Seq<char>,
    data: Seq<u8>,
    peers: Seq<PeerId>,
) -> NodeView {
    NodeView {
        server: server_after_upload(
            node.server.with_file(announced_upload(name, data, peers).phase->file_hash, name),
            peers.len(),
            parts(data).len(),
        ),
        disk: node.disk.after(whole_upload(name, data, peers)),
        round: node.round,
    }
}

proof fn lemma_upload_is_quiet(
    upload: UploadView,
    data: Seq<u8>,
    hash: FileHash,
    peers: Seq<PeerId>,
    count: nat,
    disk: Disk,
)
    ensures
        disk.after(upload_effects(upload, data, hash, peers, count)) == disk,
    decreases count,
{
    if count == 0 {
        lemma_quiet_effects(disk, name_packets(peers, hash, upload.name));
    } else {
        let i = (count - 1) as nat;
        let chunk = part(data, i as int);
        let more = sending_effects(send_all(upload, i), sha256_digest(chunk), chunk);
        lemma_upload_is_quiet(upload, data, hash, peers, i, disk);
        lemma_after_both(disk, upload_effects(upload, data, hash, peers, i), more);
        lemma_quiet_effects(disk, more);
    }
}

/// A file that was uploaded to a peer can be downloaded from it. The uploader
/// sends the file to all its peers, which have their turns in some order; one
/// of them is the storer. In `keeping` the storer deals with what was sent to
/// it, in `hearing` the uploader deals with what the storer has sent back, and
/// in each of `turns` the storer deals with a request of the download. Both may
/// have other peers, which stay silent; there may be iterations that bring
/// nothing; and the turns are taken in any order.
///
/// All steps succeed; the download asks the storer for each chunk once; and at
/// its end the file in the directory of downloads is the one that was uploaded,
/// whatever its size.
///
/// Of older chunks under the same hash, the uploader may know only such as the
/// file has, and only from the same peer.
pub proof fn law_uploaded_file_can_be_downloaded(
    uploader: NodeView,
    storer: NodeView,
    uploader_id: PeerId,
    storer_id: PeerId,
    name: Seq<char>,
    data: Seq<u8>,
    peers: Seq<PeerId>,
    keeping: Seq<Event>,
    hearing: Seq<Event>,
    download: DownloadView,
    turns: Seq<Seq<Event>>,
)
    requires
        data.len() + 511 <= u64::MAX,
        is_connected_to(uploader, storer_id),
        is_connected_to(storer, uploader_id),
        each_once(peers, uploader.server.peers.dom()),
        uploader.server.stats.uploaded_chunks + parts(data).len() * peers.len() <= u64::MAX,
        uploader.server.stats.downloaded_chunks + parts(data).len() <= u64::MAX,
        storer.server.stats.uploaded_chunks + parts(data).len() <= u64::MAX,
        lists_only(uploader.server, file_hash_of(data), parts(data).len(), storer_id),
        forall|id: ChunkId| #[trigger]
            uploader.server.stored(file_hash_of(data)).contains(id) ==> id < parts(data).len(),
        works_off(
            storer,
            keeping,
            uploader_id,
            sent_to(whole_upload(name, data, peers), storer_id),
        ),
        works_off(
            uploaded(uploader, name, data, peers),
            hearing,
            storer_id,
            sent_to(storer.sent(keeping), uploader_id),
        ),
        is_start(
            uploaded(uploader, name, data, peers).run(hearing).server,
            file_hash_of(data),
            download,
        ),
        turns.len() == parts(data).len(),
        forall|i: int|
            0 <= i < turns.len() ==> is_dealt_with(
                fetch(
                    fetch_start(
                        uploaded(uploader, name, data, peers).run(hearing),
                        download,
                        storer.run(keeping),
                    ),
                    uploader_id,
                    storer_id,
                    #[trigger] turns.take(i),
                ),
                uploader_id,
                turns[i],
            ),
    ensures
        hash_all(upload_start(name, data.len()), parts(data)).wants() == UploadWant::Rewind,
        announced_upload(name, data, peers).phase->file_hash == file_hash_of(data),
        send_all(announced_upload(name, data, peers), parts(data).len()).wants()
            == UploadWant::Nothing,
        storer.runs(keeping),
        uploaded(uploader, name, data, peers).runs(hearing),
        ({
            let hash = file_hash_of(data);
            let start = fetch_start(
                uploaded(uploader, name, data, peers).run(hearing),
                download,
                storer.run(keeping),
            );
            let then = fetch(start, uploader_id, storer_id, turns);
            let path = ("downloads"@, hex(hash as nat));
            &&& then.sound
            &&& then.download.wants(then.asker.server) is Finish
            &&& file_hash_of(then.download.written) == hash
            &&& then.asker.disk.files.contains_key(path)
            &&& then.asker.disk.files[path] == data
            &&& then.asker.server.file_names.contains_key(hash)
            &&& then.asker.server.file_names[hash] == name
            &&& then.asker.server.stats.downloaded_chunks
                == uploader.server.stats.downloaded_chunks + parts(data).len()
            &&& then.download.done == parts(data).len() == then.download.total
        }),
{
    let n = parts(data).len();
    let hash = file_hash_of(data);
    law_chunks_are_hashed(name, data, n);
    law_chunks_make_up_the_file(data);
    assert(parts(data).take(n as int) =~= parts(data));
    let upload = announced_upload(name, data, peers);
    assert(upload == upload_start(name, data.len()).announced(hash, peers));
    law_chunks_are_sent(name, data, hash, peers, n);
    assert(peers.contains(storer_id)) by {
        assert(peers.to_set().contains(storer_id));
    }
    lemma_upload_packets(name, data, hash, peers, storer_id, n);
    lemma_upload_is_stored(storer, keeping, uploader_id, name, data, hash);
    let holder = storer.run(keeping);
    assert(stored_of(taken(keeping)) == n);

    lemma_upload_is_quiet(upload, data, hash, peers, n, uploader.disk);
    law_uploads_are_counted(uploader.server.with_file(hash, name), peers.len(), n);
    let sender = uploaded(uploader, name, data, peers);
    assert(sender.server.chunks == uploader.server.chunks);
    lemma_news_are_heard(sender, hearing, storer_id, hash, n);
    let asker = sender.run(hearing);

    assert forall|id: ChunkId| #[trigger] download.left.contains(id) <==> id < n by {
        assert(download.left.contains(id) <==> is_wanted(asker.server, hash, id));
        assert(asker.server.stored(hash) == uploader.server.stored(hash));
        if id < n {
            assert(asker.server.chunks.contains_key((hash, id)));
        }
        if uploader.server.stored(hash).contains(id) {
            assert(id < n);
        }
    }
    lemma_ascending_is_counted_up(download.left, n);

    let start = fetch_start(asker, download, holder);
    lemma_disk_after_start(asker.disk, hash);
    assert forall|id: ChunkId| id < n implies {
        &&& #[trigger] start.holder.disk.holds(hash, id, part(data, id as int))
        &&& start.asker.server.chunks.contains_key((hash, id))
        &&& start.asker.server.chunks[(hash, id)].len() > 0
        &&& start.asker.server.chunks[(hash, id)][0] == storer_id
    } by {
        assert(asker.server.chunks.contains_key((hash, id)));
    }
    lemma_fetch(start, uploader_id, storer_id, turns, data);
}

} // verus!
