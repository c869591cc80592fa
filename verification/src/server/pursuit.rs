//! Downloads from peers that may fail: whom a download asks next, and what comes
//! of it.
use super::download::{
    added_to, count_up, download_after_answer, effects_after_answer, is_end, is_start, judged,
    lemma_added_by_both, lemma_ascending_is_counted_up, lemma_settled_frame, server_after_answer,
    server_after_download, start_effects, weighed, Answer, DownloadView, DownloadWantView,
};
use super::upload::{law_chunks_make_up_the_file, part, parts, together};
use super::{ServerView, Stats};
use crate::digest::{file_hash_of, sha256_digest};
use crate::effect::{EffectView, Fault};
use crate::packet::{PacketView, RequestView, ResponseView};
use crate::radix::hex;
use crate::{ChunkId, FileHash, PeerId};
use vstd::prelude::*;

verus! {

/// A download starts with all chunks that are stored here or that a peer is
/// listed for, each once and in ascending order; none has come yet, and the file
/// is written anew.
pub proof fn law_download_starts_with_all_chunks(
    server: ServerView,
    hash: FileHash,
    download: DownloadView,
)
    requires
        is_start(server, hash, download),
    ensures
        forall|id: ChunkId| #[trigger]
            download.left.contains(id) <==> server.chunks.contains_key((hash, id)) || (
            server.own_chunks.contains_key(hash) && server.own_chunks[hash].contains(id)),
        forall|i: int, j: int|
            0 <= i < j < download.left.len() ==> download.left[i] < download.left[j],
        download.file_hash == hash,
        download.tried == 0,
        download.done == 0,
        download.total == download.left.len(),
        download.written.len() == 0,
        start_effects(hash).len() == 1,
        start_effects(hash)[0] matches EffectView::WriteFile { dir, file, data } && dir
            == "downloads"@ && file == hex(hash as nat) && data.len() == 0,
{
}

/// Whom a download asks. The first chunk that is left is asked for from the peer
/// that comes after those that were asked for it in vain. It fails only if no
/// peer is listed for the chunk, or if the peer is not connected; it is finished
/// only if no chunk is left.
pub proof fn law_download_asks_the_next_peer(server: ServerView, download: DownloadView)
    ensures
        download.left.len() == 0 ==> download.wants(server) is Finish,
        download.left.len() > 0 ==> {
            let id = download.left[0];
            let key = (download.file_hash, id);
            if !server.chunks.contains_key(key) {
                download.wants(server) == DownloadWantView::Fail(
                    Fault::UnlistedChunk(download.file_hash, id),
                )
            } else {
                download.tried < server.chunks[key].len() ==> {
                    let peer = server.chunks[key][download.tried as int];
                    download.wants(server) == if server.peers.contains_key(peer) {
                        DownloadWantView::Ask {
                            to: peer,
                            packet: PacketView::Request(
                                RequestView::Chunks(download.file_hash, seq![id]),
                            ),
                        }
                    } else {
                        DownloadWantView::Fail(Fault::UnknownPeer(peer))
                    }
                }
            }
        },
{
}

/// A chunk whose peers were all asked in vain is passed over: the download goes
/// on as if the chunk had never been left.
pub proof fn law_exhausted_chunk_is_passed_over(server: ServerView, download: DownloadView)
    requires
        download.left.len() > 0,
        server.chunks.contains_key((download.file_hash, download.left[0])),
        download.tried >= server.chunks[(download.file_hash, download.left[0])].len(),
    ensures
        download.wants(server) == (DownloadView {
            left: download.left.skip(1),
            tried: 0,
            ..download
        }).wants(server),
        download.settled(server) == (DownloadView {
            left: download.left.skip(1),
            tried: 0,
            ..download
        }).settled(server),
{
    assert(download.left.drop_first() =~= download.left.skip(1));
}

/// Each chunk starts anew with the first of its peers: once a chunk has come, no
/// matter how many peers were asked for it in vain, or once all its peers were
/// asked in vain, the first peer that is listed for the next chunk is asked for
/// that chunk.
pub proof fn law_next_chunk_starts_with_its_first_peer(
    server: ServerView,
    download: DownloadView,
    answer: Option<PacketView>,
)
    requires
        download.left.len() >= 2,
        weighed(answer) is Chunk || (server.chunks.contains_key(
            (download.file_hash, download.left[0]),
        ) && download.tried + 1 >= server.chunks[(download.file_hash, download.left[0])].len()),
        server.chunks.contains_key((download.file_hash, download.left[1])),
        server.chunks[(download.file_hash, download.left[1])].len() > 0,
        server.peers.contains_key(server.chunks[(download.file_hash, download.left[1])][0]),
    ensures
        download_after_answer(download, weighed(answer)).wants(
            server_after_answer(server, weighed(answer)),
        ) == (DownloadWantView::Ask {
            to: server.chunks[(download.file_hash, download.left[1])][0],
            packet: PacketView::Request(
                RequestView::Chunks(download.file_hash, seq![download.left[1]]),
            ),
        }),
{
    let answer = weighed(answer);
    let then = download_after_answer(download, answer);
    let after = server_after_answer(server, answer);
    assert(download.left.drop_first()[0] == download.left[1]);
    if !(answer is Chunk) {
        let next = DownloadView { left: download.left.drop_first(), tried: 0, ..then };
        assert(then.settled(after) == next.settled(after));
        assert(next.settled(after) == next);
    }
}

/// What comes of an answer. A chunk that is whole is added to the file and to
/// what the hash is made of, it is left no longer, and it is counted; how many
/// have come of how many is told. Any other answer is reported, and costs one
/// more peer; nothing is written, and the server learns nothing from it.
pub proof fn law_answers_are_acted_upon(
    server: ServerView,
    download: DownloadView,
    answer: Option<PacketView>,
    actual: Seq<u8>,
)
    requires
        download.left.len() > 0,
        download.done < download.total <= u64::MAX,
        server.stats.downloaded_chunks < u64::MAX,
    ensures
        ({
            let answer_worth = judged(answer, actual);
            let then = download_after_answer(download, answer_worth);
            let after = server_after_answer(server, answer_worth);
            let effects = effects_after_answer(download, answer_worth);
            &&& then.file_hash == download.file_hash
            &&& then.total == download.total
            &&& after.peers == server.peers
            &&& after.own_chunks == server.own_chunks
            &&& after.file_names == server.file_names
            &&& after.chunks == server.chunks
            &&& after.stats.uploaded_chunks == server.stats.uploaded_chunks
            &&& after.stats.downloaded_files == server.stats.downloaded_files
            &&& match answer {
                Some(PacketView::Response(ResponseView::Chunk(sha, data))) if sha == actual => {
                    &&& then.left == download.left.skip(1)
                    &&& then.tried == 0
                    &&& then.done == download.done + 1
                    &&& then.written == download.written + data
                    &&& after.stats.downloaded_chunks == server.stats.downloaded_chunks + 1
                    &&& effects.len() == 2
                    &&& effects[0] == (EffectView::Append {
                        dir: "downloads"@,
                        file: hex(download.file_hash as nat),
                        data,
                    })
                    &&& effects[1] matches EffectView::Progress { done, total } && done
                        == download.done + 1 && total == download.total
                },
                _ => {
                    &&& then.left == download.left
                    &&& then.tried == download.tried + 1
                    &&& then.done == download.done
                    &&& then.written == download.written
                    &&& after.stats.downloaded_chunks == server.stats.downloaded_chunks
                    &&& effects.len() == 1
                    &&& effects[0] is Report
                },
            }
        }),
{
    assert(download.left.drop_first() =~= download.left.skip(1));
}

/// A download that is complete is counted, and nothing else changes.
pub proof fn law_complete_download_is_counted(server: ServerView)
    requires
        server.stats.downloaded_files < u64::MAX,
    ensures
        ({
            let then = server_after_download(server);
            &&& then.stats.downloaded_files == server.stats.downloaded_files + 1
            &&& then.stats.downloaded_chunks == server.stats.downloaded_chunks
            &&& then.stats.uploaded_chunks == server.stats.uploaded_chunks
            &&& then.peers == server.peers
            &&& then.own_chunks == server.own_chunks
            &&& then.file_names == server.file_names
            &&& then.chunks == server.chunks
        }),
{
}

/// A download ends well exactly if what was written has the hash that it was
/// asked for by; then it is counted, and otherwise nothing changes.
pub proof fn law_download_ends_well_with_the_right_hash(
    before: ServerView,
    download: DownloadView,
    done: Result<(), Fault>,
    after: ServerView,
)
    requires
        is_end(before, download.file_hash, file_hash_of(download.written), done, after),
        before.stats.downloaded_files < u64::MAX,
    ensures
        done is Ok <==> file_hash_of(download.written) == download.file_hash,
        done is Ok ==> after.stats.downloaded_files == before.stats.downloaded_files + 1,
        done matches Err(fault) ==> fault == Fault::HashMismatch && after == before,
        after.peers == before.peers,
        after.own_chunks == before.own_chunks,
        after.file_names == before.file_names,
        after.chunks == before.chunks,
        after.stats.uploaded_chunks == before.stats.uploaded_chunks,
        after.stats.downloaded_chunks == before.stats.downloaded_chunks,
{
}

/// What comes of a download in which so many requests were made, where `answers`
/// says what each peer answers to a request.
pub open spec fn pursue(
    server: ServerView,
    download: DownloadView,
    answers: spec_fn(PeerId, PacketView) -> Option<PacketView>,
    count: nat,
) -> (ServerView, DownloadView, Seq<EffectView>)
    decreases count,
{
    if count == 0 {
        (server, download, Seq::empty())
    } else {
        let (server, download, effects) = pursue(server, download, answers, (count - 1) as nat);
        match download.wants(server) {
            DownloadWantView::Ask { to, packet } => {
                let settled = download.settled(server);
                let answer = weighed(answers(to, packet));
                (
                    server_after_answer(server, answer),
                    download_after_answer(settled, answer),
                    effects + effects_after_answer(settled, answer),
                )
            },
            _ => (server, download, effects),
        }
    }
}

/// The request for one chunk.
pub open spec fn request_for(hash: FileHash, id: ChunkId) -> PacketView {
    PacketView::Request(RequestView::Chunks(hash, seq![id]))
}

/// The answer brings a chunk with the digest of the chunk.
pub open spec fn is_whole(answer: Option<PacketView>) -> bool {
    answer matches Some(PacketView::Response(ResponseView::Chunk(sha, data))) && sha
        == sha256_digest(data)
}

/// Among the peers that are listed for the chunk, which are all connected, the
/// one at the place `good` sends it as it was uploaded; those before it send
/// something else, or nothing, that is not whole.
pub open spec fn can_be_had(
    server: ServerView,
    hash: FileHash,
    id: ChunkId,
    data: Seq<u8>,
    answers: spec_fn(PeerId, PacketView) -> Option<PacketView>,
    good: nat,
) -> bool {
    &&& server.chunks.contains_key((hash, id))
    &&& good < server.chunks[(hash, id)].len()
    &&& forall|k: int|
        0 <= k < server.chunks[(hash, id)].len() ==> server.peers.contains_key(
            #[trigger] server.chunks[(hash, id)][k],
        )
    &&& forall|k: int|
        0 <= k < good ==> !is_whole(
            answers(#[trigger] server.chunks[(hash, id)][k], request_for(hash, id)),
        )
    &&& answers(server.chunks[(hash, id)][good as int], request_for(hash, id)) == Some(
        PacketView::Response(ResponseView::Chunk(sha256_digest(data), data)),
    )
}

/// How many requests it takes to get the first `count` chunks.
pub open spec fn requests_for(good: spec_fn(ChunkId) -> nat, count: nat) -> nat
    decreases count,
{
    if count == 0 {
        0
    } else {
        requests_for(good, (count - 1) as nat) + good((count - 1) as ChunkId) + 1
    }
}

proof fn lemma_pursuit(
    server: ServerView,
    start: DownloadView,
    data: Seq<u8>,
    answers: spec_fn(PeerId, PacketView) -> Option<PacketView>,
    good: spec_fn(ChunkId) -> nat,
    count: nat,
    tried: nat,
)
    requires
        count <= parts(data).len() <= u64::MAX,
        tried <= if count < parts(data).len() {
            good(count as ChunkId)
        } else {
            0
        },
        server.stats.downloaded_chunks + parts(data).len() <= u64::MAX,
        start.left == count_up(parts(data).len()),
        start.tried == 0,
        start.done == 0,
        start.written == Seq::<u8>::empty(),
        forall|id: ChunkId|
            id < parts(data).len() ==> #[trigger] can_be_had(
                server,
                start.file_hash,
                id,
                part(data, id as int),
                answers,
                good(id),
            ),
    ensures
        ({
            let (after, then, _) = pursue(
                server,
                start,
                answers,
                requests_for(good, count) + tried,
            );
            &&& after == (ServerView {
                stats: Stats {
                    downloaded_chunks: (server.stats.downloaded_chunks + count) as u64,
                    ..server.stats
                },
                ..server
            })
            &&& then == (DownloadView {
                left: start.left.skip(count as int),
                tried,
                done: count,
                written: together(parts(data).take(count as int)),
                ..start
            })
        }),
    decreases count, tried,
{
    let hash = start.file_hash;
    if tried > 0 {
        let fewer = (tried - 1) as nat;
        let id = count as ChunkId;
        lemma_pursuit(server, start, data, answers, good, count, fewer);
        assert(can_be_had(server, hash, id, part(data, id as int), answers, good(id)));
        let (after, then, _) = pursue(server, start, answers, requests_for(good, count) + fewer);
        let peer = server.chunks[(hash, id)][fewer as int];
        assert(then.left[0] == id);
        assert(then.settled(after) == then);
        assert(then.wants(after) == (DownloadWantView::Ask {
            to: peer,
            packet: request_for(hash, id),
        }));
        assert(!is_whole(answers(peer, request_for(hash, id))));
    } else if count > 0 {
        let last = (count - 1) as nat;
        let id = last as ChunkId;
        lemma_pursuit(server, start, data, answers, good, last, good(id));
        assert(can_be_had(server, hash, id, part(data, id as int), answers, good(id)));
        let (after, then, _) = pursue(server, start, answers, requests_for(good, last) + good(id));
        let peer = server.chunks[(hash, id)][good(id) as int];
        assert(then.left[0] == id);
        assert(then.settled(after) == then);
        assert(then.wants(after) == (DownloadWantView::Ask {
            to: peer,
            packet: request_for(hash, id),
        }));
        assert(then.left.drop_first() =~= start.left.skip(count as int));
        assert(parts(data).take(count as int).drop_last() =~= parts(data).take(last as int));
    } else {
        assert(start.left.skip(0) =~= start.left);
    }
}

proof fn lemma_added_by_answer(download: DownloadView, answer: Answer)
    ensures
        added_to(
            effects_after_answer(download, answer),
            "downloads"@,
            hex(download.file_hash as nat),
        ) == match answer {
            Answer::Chunk(data) => data,
            _ => Seq::empty(),
        },
{
    let dir = "downloads"@;
    let file = hex(download.file_hash as nat);
    let effects = effects_after_answer(download, answer);
    match answer {
        Answer::Chunk(data) => {
            assert(effects.drop_last() =~= seq![EffectView::Append { dir, file, data }]);
            assert(effects.drop_last().drop_last() =~= Seq::empty());
            reveal_with_fuel(added_to, 3);
            assert(added_to(effects, dir, file) =~= data);
        },
        _ => {
            assert(effects.drop_last() =~= Seq::empty());
            reveal_with_fuel(added_to, 2);
        },
    }
}

proof fn lemma_pursuit_is_written(
    server: ServerView,
    start: DownloadView,
    answers: spec_fn(PeerId, PacketView) -> Option<PacketView>,
    count: nat,
)
    ensures
        ({
            let (_, then, effects) = pursue(server, start, answers, count);
            &&& then.file_hash == start.file_hash
            &&& then.written == start.written + added_to(
                effects,
                "downloads"@,
                hex(start.file_hash as nat),
            )
        }),
    decreases count,
{
    let dir = "downloads"@;
    let file = hex(start.file_hash as nat);
    if count == 0 {
        assert(start.written + Seq::<u8>::empty() =~= start.written);
    } else {
        lemma_pursuit_is_written(server, start, answers, (count - 1) as nat);
        let (after, then, effects) = pursue(server, start, answers, (count - 1) as nat);
        if let DownloadWantView::Ask { to, packet } = then.wants(after) {
            let settled = then.settled(after);
            let answer = weighed(answers(to, packet));
            let more = effects_after_answer(settled, answer);
            lemma_settled_frame(then, after);
            lemma_added_by_answer(settled, answer);
            lemma_added_by_both(effects, more, dir, file);
            assert(start.written + added_to(effects, dir, file) + added_to(more, dir, file)
                =~= start.written + (added_to(effects, dir, file) + added_to(more, dir, file)));
            assert(then.written + Seq::<u8>::empty() =~= then.written);
        }
    }
}

/// A file comes back from peers that may fail: if for each chunk some listed
/// peer sends it as it was uploaded, and all listed peers are connected, then it
/// does not matter that those asked before have sent nothing, something else or
/// a damaged chunk. The download finishes, it has written the file, and the file
/// has the hash that it was asked for by.
pub proof fn law_file_comes_back_from_failing_peers(
    server: ServerView,
    start: DownloadView,
    data: Seq<u8>,
    answers: spec_fn(PeerId, PacketView) -> Option<PacketView>,
    good: spec_fn(ChunkId) -> nat,
)
    requires
        data.len() + 511 <= u64::MAX,
        server.stats.downloaded_chunks + parts(data).len() <= u64::MAX,
        is_start(server, file_hash_of(data), start),
        forall|id: ChunkId| #[trigger] start.left.contains(id) <==> id < parts(data).len(),
        forall|id: ChunkId|
            id < parts(data).len() ==> #[trigger] can_be_had(
                server,
                file_hash_of(data),
                id,
                part(data, id as int),
                answers,
                good(id),
            ),
    ensures
        ({
            let (after, then, effects) = pursue(
                server,
                start,
                answers,
                requests_for(good, parts(data).len()),
            );
            &&& then.wants(after) is Finish
            &&& then.left.len() == 0
            &&& then.written == data
            &&& file_hash_of(then.written) == then.file_hash
            &&& added_to(effects, "downloads"@, hex(file_hash_of(data) as nat)) == data
            &&& after.stats.downloaded_chunks == server.stats.downloaded_chunks + parts(data).len()
            &&& then.done == then.total
        }),
{
    let n = parts(data).len();
    let hash = file_hash_of(data);
    lemma_ascending_is_counted_up(start.left, n);
    lemma_pursuit(server, start, data, answers, good, n, 0);
    lemma_pursuit_is_written(server, start, answers, requests_for(good, n));
    law_chunks_make_up_the_file(data);
    assert(parts(data).take(n as int) =~= parts(data));
    let (_, _, effects) = pursue(server, start, answers, requests_for(good, n));
    assert(start.written + added_to(effects, "downloads"@, hex(hash as nat)) =~= added_to(
        effects,
        "downloads"@,
        hex(hash as nat),
    ));
}

} // verus!
