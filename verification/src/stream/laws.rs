//! What the streaming server does, seen from outside: what changes, what stays,
//! and what is sent to whom.
use super::round::{
    announcement, effect_after, is_start_of_round, job_after, round_after, sending, size_response, writing,
    EffectView, JobView, ReceivedView, RoundView, WantView,
};
use super::{
    chunks_of, unwelcome, welcomed, Fault, Listing, RequestView, ResponseView, ServerView,
};
use crate::maps::{each_once, law_order_has_each_element};
use crate::radix::{hex, parse_hex_up_to};
use crate::store::{
    is_dir_of, is_shared_file, law_index_covers_directories, law_index_exists, DirEntryView, Layout,
};
use crate::table::{law_offers_are_added, OfferedChunks};
use crate::{ChunkId, FileHash, PeerId};
use vstd::prelude::*;

verus! {

/// The number that precedes the data of chunks is the size of the last chunk's
/// file itself, for every size that a chunk can have and beyond; a size that
/// does not fit is given up to a multiple of what does not fit.
pub proof fn law_size_is_that_of_the_file(size: u64)
    ensures
        size_response(size) matches ResponseView::Chunks(told) && {
            &&& size <= u16::MAX ==> told == size
            &&& (size - told) % 0x10000 == 0
            &&& told <= size
        },
{
}

/// Chunks are announced to the peer that has asked for them, and then they are
/// served to it, all of them and in the same order.
pub proof fn law_announcement_goes_to_who_asked(
    round: RoundView,
    peer: PeerId,
    hash: FileHash,
    ids: Seq<ChunkId>,
    size: u64,
)
    requires
        round.job == (JobView::Sizing { peer, file_hash: hash, left: ids }),
    ensures
        announcement(round, size) matches EffectView::Respond {
            to,
            response: ResponseView::Chunks(told),
        } && to == peer && (size <= u16::MAX ==> told == size),
        round.measured().queue == round.queue,
        round.measured().job == (JobView::Serving { peer, file_hash: hash, left: ids }),
        ids.len() > 0 ==> round.wants() == (WantView::Measure {
            dir: hex(hash as nat),
            file: hex(ids[ids.len() - 1] as nat),
        }),
{
}

/// The data of a chunk goes to the peer that has asked for it, and the next
/// chunk of the request is due.
pub proof fn law_data_goes_to_who_asked(
    round: RoundView,
    peer: PeerId,
    hash: FileHash,
    ids: Seq<ChunkId>,
    data: Seq<u8>,
)
    requires
        round.job == (JobView::Serving { peer, file_hash: hash, left: ids }),
        ids.len() > 0,
    ensures
        round.wants() == (WantView::ReadChunk { dir: hex(hash as nat), file: hex(ids[0] as nat) }),
        sending(round, data) == (EffectView::SendData { to: peer, data }),
        round.advanced().queue == round.queue,
        round.advanced().job == (JobView::Serving { peer, file_hash: hash, left: ids.skip(1) }),
{
    assert(ids.drop_first() =~= ids.skip(1));
}

/// The data of a chunk is awaited from the peer that has announced it, a full
/// chunk or, for the last one, as much as was announced; it is written to the
/// file of the chunk, and the next chunk of the request is due.
pub proof fn law_data_is_written_to_its_file(
    round: RoundView,
    peer: PeerId,
    hash: FileHash,
    ids: Seq<ChunkId>,
    last_size: u16,
    data: Seq<u8>,
)
    requires
        round.job == (JobView::Storing { peer, file_hash: hash, left: ids, last_size }),
        ids.len() > 0,
    ensures
        ids.len() > 1 ==> round.wants() == (WantView::Receive { from: peer, count: 512 }),
        ids.len() == 1 && last_size <= 512 ==> round.wants() == (WantView::Receive {
            from: peer,
            count: last_size,
        }),
        ids.len() == 1 && last_size > 512 ==> round.wants() is Fail,
        writing(round, data) == (EffectView::WriteFile {
            dir: hex(hash as nat),
            file: hex(ids[0] as nat),
            data,
        }),
        round.advanced().queue == round.queue,
        round.advanced().job == (JobView::Storing {
            peer,
            file_hash: hash,
            left: ids.skip(1),
            last_size,
        }),
{
    assert(ids.drop_first() =~= ids.skip(1));
}

/// When nothing that a peer has asked for is left to be done, the next peer in
/// the queue is polled, or the iteration is over.
pub proof fn law_idle_round_polls_the_next(round: RoundView)
    requires
        match round.job {
            JobView::Idle => true,
            JobView::Sizing { left, .. } => left.len() == 0,
            JobView::Serving { left, .. } => left.len() == 0,
            JobView::Storing { left, .. } => left.len() == 0,
        },
    ensures
        round.queue.len() == 0 ==> round.wants() is Nothing,
        round.queue.len() > 0 ==> round.wants() == WantView::Poll(round.queue[0]),
{
}

/// What a poll leads to. Only requests that name chunks can be met; the others,
/// and a new request for a list, are faults. A peer that was polled leaves the
/// queue, the others keep their places, and where nothing was asked for the next
/// one is polled.
pub proof fn law_polls_are_acted_upon(round: RoundView, received: ReceivedView)
    requires
        round.wants() is Poll,
    ensures
        match received {
            ReceivedView::Request(RequestView::Seed { .. }) => job_after(
                round.queue[0],
                received,
            ) == Err::<JobView, Fault>(Fault::Unimplemented),
            ReceivedView::Request(RequestView::Chunks(hash, ids)) => if ids.len() == 0 {
                job_after(round.queue[0], received) == Err::<JobView, Fault>(Fault::NoChunks)
            } else {
                job_after(round.queue[0], received) == Ok::<JobView, Fault>(
                    JobView::Sizing { peer: round.queue[0], file_hash: hash, left: ids },
                )
            },
            ReceivedView::Request(RequestView::WriteChunks(hash, ids, last_size)) => {
                if ids.len() == 0 {
                    job_after(round.queue[0], received) == Err::<JobView, Fault>(Fault::NoChunks)
                } else {
                    job_after(round.queue[0], received) == Ok::<JobView, Fault>(
                        JobView::Storing {
                            peer: round.queue[0],
                            file_hash: hash,
                            left: ids,
                            last_size,
                        },
                    )
                }
            },
            _ => {
                &&& job_after(round.queue[0], received) is Ok
                &&& round_after(round, received).wants() == if round.queue.len() > 1 {
                    WantView::Poll(round.queue[1])
                } else {
                    WantView::Nothing
                }
            },
        },
        round_after(round, received).queue == round.queue.skip(1),
        match received {
            ReceivedView::Request(_) => effect_after(received) is None,
            ReceivedView::ReadFailed => effect_after(received) is None,
            _ => effect_after(received) matches Some(EffectView::Report { .. }),
        },
        effect_after(ReceivedView::WouldBlock) != effect_after(ReceivedView::Malformed),
{
    assert(round.queue.drop_first() =~= round.queue.skip(1));
    reveal_strlit("uh oh");
    reveal_strlit("uh oh2");
    assert("uh oh"@.len() != "uh oh2"@.len());
}

/// The entry is that of a file that has chunks here: it has all of them in
/// order, each with all the peers that are listed for it.
pub open spec fn lists_a_file(server: ServerView, entry: Listing) -> bool {
    &&& server.own_chunks.contains_key(entry.0)
    &&& entry.1.len() == server.own_chunks[entry.0].len()
    &&& forall|j: int|
        0 <= j < server.own_chunks[entry.0].len() ==> {
            &&& (#[trigger] entry.1[j]).0 == server.own_chunks[entry.0][j]
            &&& server.chunks.contains_key((entry.0, server.own_chunks[entry.0][j]))
            &&& entry.1[j].1 == server.chunks[(entry.0, server.own_chunks[entry.0][j])]
        }
}

/// A new server that asks for it is answered. The answer has the addresses of
/// all peers, as many as there are, if they were asked for, and none if not. It
/// has each file that has chunks here, once, with all its chunks in order, each
/// with all the peers that are listed for it. The new server is among the peers
/// from then on, the others stay, and what it offers is learned.
pub proof fn law_new_server_gets_the_whole_list(
    before: ServerView,
    id: PeerId,
    addr: Seq<char>,
    offers: Seq<OfferedChunks>,
    send_peers: bool,
    after: ServerView,
    response: ResponseView,
)
    requires
        welcomed(
            before,
            id,
            addr,
            RequestView::Seed { chunks: offers, send_peers },
            after,
            response,
        ),
    ensures
        response matches ResponseView::Seed { peers, chunks } && {
            &&& !send_peers ==> peers.len() == 0
            &&& send_peers ==> {
                &&& peers.len() == before.peers.dom().len()
                &&& forall|peer: PeerId| #[trigger]
                    before.peers.contains_key(peer) ==> peers.contains(before.peers[peer])
                &&& forall|i: int|
                    0 <= i < peers.len() ==> before.peers.values().contains(#[trigger] peers[i])
            }
            &&& chunks.len() == before.own_chunks.dom().len()
            &&& forall|hash: FileHash| #[trigger]
                before.own_chunks.contains_key(hash) ==> exists|i: int|
                    0 <= i < chunks.len() && (#[trigger] chunks[i]).0 == hash
            &&& forall|i: int|
                0 <= i < chunks.len() ==> lists_a_file(before, #[trigger] chunks[i])
        },
        after.peers.contains_key(id),
        after.peers[id] == addr,
        forall|other: PeerId|
            other != id ==> {
                &&& #[trigger] after.peers.contains_key(other) == before.peers.contains_key(other)
                &&& after.peers[other] == before.peers[other]
            },
        after.own_chunks == before.own_chunks,
        after.chunks == before.with_offers(id, offers).chunks,
{
    let (peer_order, file_order) = choose|
        peer_order: Seq<PeerId>,
        file_order: Seq<FileHash>,
    |
        {
            &&& each_once(peer_order, before.peers.dom())
            &&& each_once(file_order, before.own_chunks.dom())
            &&& response == #[trigger] before.seed_response(send_peers, peer_order, file_order)
        };
    peer_order.unique_seq_to_set();
    file_order.unique_seq_to_set();
    if let ResponseView::Seed { peers, chunks } = response {
        assert forall|peer: PeerId| #[trigger]
            before.peers.contains_key(peer) && send_peers implies peers.contains(
            before.peers[peer],
        ) by {
            assert(peer_order.to_set().contains(peer));
            assert(peers[peer_order.index_of(peer)] == before.peers[peer]);
        }
        assert forall|i: int| 0 <= i < peers.len() implies before.peers.values().contains(
            #[trigger] peers[i],
        ) by {
            assert(peer_order.to_set().contains(peer_order[i]));
            assert(before.peers.contains_key(peer_order[i]));
        }
        assert forall|hash: FileHash| #[trigger]
            before.own_chunks.contains_key(hash) implies exists|i: int|
            0 <= i < chunks.len() && (#[trigger] chunks[i]).0 == hash by {
            assert(file_order.to_set().contains(hash));
            assert(chunks[file_order.index_of(hash)].0 == hash);
        }
        assert forall|i: int| 0 <= i < chunks.len() implies lists_a_file(
            before,
            #[trigger] chunks[i],
        ) by {
            assert(file_order.to_set().contains(file_order[i]));
            assert(chunks[i] == before.listing(file_order[i]));
            let hash = file_order[i];
            assert forall|j: int| 0 <= j < before.own_chunks[hash].len() implies {
                &&& (#[trigger] chunks[i].1[j]).0 == before.own_chunks[hash][j]
                &&& before.chunks.contains_key((hash, before.own_chunks[hash][j]))
                &&& chunks[i].1[j].1 == before.chunks[(hash, before.own_chunks[hash][j])]
            } by {
                assert(before.own_chunks[hash].contains(before.own_chunks[hash][j]));
                assert(!before.is_unlisted(hash, before.own_chunks[hash][j]));
            }
        }
    }
}

/// Who is not taken in: a peer that starts with something other than a request
/// for a list, and one that asks for a list while no peer is listed for a chunk
/// that is stored here.
pub proof fn law_who_is_turned_away(
    before: ServerView,
    id: PeerId,
    addr: Seq<char>,
    request: RequestView,
    fault: Fault,
    after: ServerView,
    response: ResponseView,
)
    ensures
        unwelcome(before, request, fault) ==> if request is Seed {
            fault matches Fault::UnlistedChunk(hash, chunk) && before.own_chunks.contains_key(hash)
                && before.own_chunks[hash].contains(chunk) && !before.chunks.contains_key(
                (hash, chunk),
            )
        } else {
            fault == Fault::Unimplemented
        },
        unwelcome(before, request, fault) ==> !welcomed(
            before,
            id,
            addr,
            request,
            after,
            response,
        ),
{
    if let Fault::UnlistedChunk(hash, chunk) = fault {
        if unwelcome(before, request, fault) && request is Seed {
            assert(before.is_unlisted(hash, chunk));
        }
    }
}

/// What is learned from offers: the peer is listed for the chunks that it
/// offers, after all who were listed before, and for no others. Nothing else
/// changes.
pub proof fn law_offers_teach_chunks(
    server: ServerView,
    peer_id: PeerId,
    offers: Seq<OfferedChunks>,
    hash: FileHash,
    id: ChunkId,
)
    ensures
        ({
            let then = server.with_offers(peer_id, offers);
            let key = (hash, id);
            let before = if server.chunks.contains_key(key) {
                server.chunks[key]
            } else {
                Seq::empty()
            };
            let offered = exists|i: int|
                0 <= i < offers.len() && (#[trigger] offers[i]).0 == hash && offers[i].1.contains(
                    id,
                );
            &&& then.chunks.contains_key(key) <==> server.chunks.contains_key(key) || offered
            &&& then.chunks.contains_key(key) ==> {
                &&& before.is_prefix_of(then.chunks[key])
                &&& forall|k: int|
                    before.len() <= k < then.chunks[key].len() ==> #[trigger] then.chunks[key][k]
                        == peer_id
                &&& offered <==> then.chunks[key].len() > before.len()
                &&& (forall|i: int, j: int|
                    0 <= i < j < offers.len() ==> (#[trigger] offers[i]).0 != (
                    #[trigger] offers[j]).0) && (forall|i: int|
                    0 <= i < offers.len() ==> (#[trigger] offers[i]).1.no_duplicates())
                    ==> then.chunks[key].len() <= before.len() + 1
            }
            &&& then.peers == server.peers
            &&& then.own_chunks == server.own_chunks
        }),
{
    law_offers_are_added(server.chunks, offers, peer_id, hash, id);
}

/// A peer that is added is known under its address; all other peers stay, and
/// nothing else changes.
pub proof fn law_added_peer_is_known(server: ServerView, id: PeerId, addr: Seq<char>)
    ensures
        ({
            let then = server.with_peer(id, addr);
            &&& then.peers.contains_key(id)
            &&& then.peers[id] == addr
            &&& forall|other: PeerId|
                other != id ==> {
                    &&& #[trigger] then.peers.contains_key(other) == server.peers.contains_key(
                        other,
                    )
                    &&& then.peers[other] == server.peers[other]
                }
            &&& then.own_chunks == server.own_chunks
            &&& then.chunks == server.chunks
        }),
{
}

/// The chunks on disk are found: every directory is that of a file, whose hash
/// is its name, and all that is in it is chunks.
pub proof fn law_every_directory_is_a_file(entries: Seq<DirEntryView>, hash: FileHash)
    ensures
        chunks_of(entries) matches Some(chunks) ==> {
            &&& chunks.contains_key(hash) <==> exists|i: int|
                0 <= i < entries.len() && (#[trigger] entries[i]).is_dir && parse_hex_up_to(
                    entries[i].name,
                    u128::MAX as nat,
                ) == Some(hash as nat)
            &&& forall|i: int|
                0 <= i < entries.len() && (#[trigger] entries[i]).is_dir ==> parse_hex_up_to(
                    entries[i].name,
                    u128::MAX as nat,
                ) is Some
        },
{
    if chunks_of(entries) is Some {
        law_index_covers_directories(Layout::Bare, entries, hash);
        law_index_exists(Layout::Bare, entries);
        if exists|i: int|
            0 <= i < entries.len() && (#[trigger] entries[i]).is_dir && parse_hex_up_to(
                entries[i].name,
                u128::MAX as nat,
            ) == Some(hash as nat) {
            let i = choose|i: int|
                0 <= i < entries.len() && (#[trigger] entries[i]).is_dir && parse_hex_up_to(
                    entries[i].name,
                    u128::MAX as nat,
                ) == Some(hash as nat);
            assert(is_dir_of(Layout::Bare, entries[i], hash));
        }
        assert forall|i: int|
            0 <= i < entries.len() && (#[trigger] entries[i]).is_dir implies parse_hex_up_to(
            entries[i].name,
            u128::MAX as nat,
        ) is Some by {
            assert(is_shared_file(Layout::Bare, entries[i]));
        }
    }
}

/// In each iteration every peer is to be polled, and nobody else; the first thing
/// that is due is to poll one of them.
pub proof fn law_every_peer_is_in_the_queue(server: ServerView, round: RoundView)
    requires
        is_start_of_round(server, round),
    ensures
        forall|id: PeerId| #[trigger]
            server.peers.contains_key(id) <==> round.queue.contains(id),
        round.queue.no_duplicates(),
        round.queue.len() > 0 ==> round.wants() == WantView::Poll(round.queue[0]),
        round.queue.len() == 0 ==> round.wants() is Nothing,
{
    assert forall|id: PeerId| #[trigger]
        server.peers.contains_key(id) <==> round.queue.contains(id) by {
        law_order_has_each_element(round.queue, server.peers.dom());
        assert(server.peers.dom().contains(id) <==> round.queue.contains(id));
    }
}

} // verus!
