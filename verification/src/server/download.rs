//! Getting a file back from the peers.
//!
//! Each chunk is asked for from one peer that has it after the other, until
//! one sends it whole.
use super::round::{
    chunk_packet, round_after, server_after, storing_effects, RoundView, WantView,
};
use super::upload::{law_chunks_make_up_the_file, part, parts, together};
use super::{Server, ServerView, Stats};
use crate::digest::{file_hash_of, sha256_digest, sha256_of_vec, FileHasher};
use crate::effect::{effects_view, Effect, EffectView, Fault};
use crate::maps::{lemma_contains_after_push, queue_of};
use crate::packet::{Packet, PacketView, Request, RequestView, Response, ResponseView};
use crate::peer::ReceivedView;
use crate::radix::hex;
use crate::store::file_dir;
use crate::table::holders;
use crate::{ChunkId, FileHash, PeerId};
use std::collections::{HashSet, VecDeque};
use vstd::prelude::*;
use vstd::string::*;

verus! {

/// The numbers stand in ascending order, none of them twice.
pub open spec fn is_ascending(ids: Seq<ChunkId>) -> bool {
    forall|i: int, j: int| 0 <= i < j < ids.len() ==> ids[i] < ids[j]
}

/// The chunk is one that a download of the file asks for: it is stored here,
/// or a peer is known to have it.
pub open spec fn is_wanted(server: ServerView, file_hash: FileHash, id: ChunkId) -> bool {
    server.stored(file_hash).contains(id) || server.chunks.contains_key((file_hash, id))
}

/// A download of the file before anything has come: all chunks that are wanted
/// are to come, in ascending order.
pub open spec fn is_start(
    server: ServerView,
    file_hash: FileHash,
    download: DownloadView,
) -> bool {
    &&& is_ascending(download.left)
    &&& forall|id: ChunkId| #[trigger]
        download.left.contains(id) <==> is_wanted(server, file_hash, id)
    &&& download == (DownloadView {
        file_hash,
        left: download.left,
        tried: 0,
        done: 0,
        total: download.left.len(),
        written: Seq::empty(),
    })
}

/// A download that is under way.
pub struct Download {
    file_hash: FileHash,
    left: VecDeque<ChunkId>,
    tried: usize,
    done: u64,
    total: u64,
    hasher: FileHasher,
}

/// The state of a [`Download`].
pub struct DownloadView {
    pub file_hash: FileHash,
    /// The chunks that are still to come.
    pub left: Seq<ChunkId>,
    /// How many peers were asked for the first of them in vain.
    pub tried: nat,
    /// How many chunks have come.
    pub done: nat,
    /// How many chunks were asked for at the start.
    pub total: nat,
    /// The contents of the chunks that have come.
    pub written: Seq<u8>,
}

impl View for Download {
    type V = DownloadView;

    closed spec fn view(&self) -> DownloadView {
        DownloadView {
            file_hash: self.file_hash,
            left: self.left@,
            tried: self.tried as nat,
            done: self.done as nat,
            total: self.total as nat,
            written: self.hasher@,
        }
    }
}

/// What a download waits for.
#[derive(PartialEq, Eq)]
pub enum DownloadWant {
    /// That the packet is sent to the peer, and the peer's answer to it.
    Ask { to: PeerId, packet: Packet },
    /// Nothing: all chunks were asked for.
    Finish,
    /// Nothing: the download cannot go on.
    Fail(Fault),
}

/// What a [`DownloadWant`] says.
pub enum DownloadWantView {
    Ask { to: PeerId, packet: PacketView },
    Finish,
    Fail(Fault),
}

impl View for DownloadWant {
    type V = DownloadWantView;

    open spec fn view(&self) -> DownloadWantView {
        match *self {
            DownloadWant::Ask { to, packet } => DownloadWantView::Ask { to, packet: packet@ },
            DownloadWant::Finish => DownloadWantView::Finish,
            DownloadWant::Fail(fault) => DownloadWantView::Fail(fault),
        }
    }
}

impl DownloadView {
    /// No more chunks come than were asked for.
    pub open spec fn wf(self) -> bool {
        self.done + self.left.len() <= self.total
    }

    /// The chunk that is due next.
    pub open spec fn due(self) -> (FileHash, ChunkId) {
        (self.file_hash, self.left[0])
    }

    /// The state after the chunks were passed over whose peers were all asked
    /// in vain.
    pub open spec fn settled(self, server: ServerView) -> DownloadView
        decreases self.left.len(),
    {
        if self.left.len() > 0 && server.chunks.contains_key(self.due())
            && server.chunks[self.due()].len() <= self.tried {
            (DownloadView { left: self.left.drop_first(), tried: 0, ..self }).settled(server)
        } else {
            self
        }
    }

    /// There is a peer, connected to this node, that is to be asked for the
    /// chunk that is due next.
    pub open spec fn awaits(self, server: ServerView) -> bool {
        &&& self.left.len() > 0
        &&& server.chunks.contains_key(self.due())
        &&& self.tried < server.chunks[self.due()].len()
        &&& server.peers.contains_key(server.chunks[self.due()][self.tried as int])
    }

    /// What is due next.
    pub open spec fn wants(self, server: ServerView) -> DownloadWantView {
        let then = self.settled(server);
        if then.left.len() == 0 {
            DownloadWantView::Finish
        } else if !server.chunks.contains_key(then.due()) {
            DownloadWantView::Fail(Fault::UnlistedChunk(then.file_hash, then.left[0]))
        } else {
            let to = server.chunks[then.due()][then.tried as int];
            if server.peers.contains_key(to) {
                DownloadWantView::Ask {
                    to,
                    packet: PacketView::Request(
                        RequestView::Chunks(then.file_hash, seq![then.left[0]]),
                    ),
                }
            } else {
                DownloadWantView::Fail(Fault::UnknownPeer(to))
            }
        }
    }

    /// The state after a peer was asked in vain.
    pub open spec fn failed(self) -> DownloadView {
        DownloadView { tried: self.tried + 1, ..self }
    }

    /// The state after the chunk has come.
    pub open spec fn received(self, data: Seq<u8>) -> DownloadView {
        DownloadView {
            left: self.left.drop_first(),
            tried: 0,
            done: self.done + 1,
            written: self.written + data,
            ..self
        }
    }
}

/// What an answer to the request for a chunk is worth.
pub enum Answer {
    /// It is not a chunk.
    NoChunk,
    /// The chunk is not the one that the digest was made of.
    Damaged,
    Chunk(Seq<u8>),
}

/// Judges an answer; `actual` is the digest of the chunk that it brings. There
/// is no answer if what has come could not be read.
pub open spec fn judged(answer: Option<PacketView>, actual: Seq<u8>) -> Answer {
    match answer {
        Some(PacketView::Response(ResponseView::Chunk(sha, data))) => if actual == sha {
            Answer::Chunk(data)
        } else {
            Answer::Damaged
        },
        _ => Answer::NoChunk,
    }
}

pub open spec fn answer_view(answer: Option<Packet>) -> Option<PacketView> {
    match answer {
        Some(packet) => Some(packet@),
        None => None,
    }
}

/// The chunk that an answer brings; no bytes, if it is not a chunk.
pub open spec fn chunk_in(answer: Option<PacketView>) -> Seq<u8> {
    match answer {
        Some(PacketView::Response(ResponseView::Chunk(_, data))) => data,
        _ => Seq::empty(),
    }
}

/// What a server knows after an answer to the request for a chunk.
pub open spec fn server_after_answer(before: ServerView, answer: Answer) -> ServerView {
    match answer {
        Answer::Chunk(_) => ServerView {
            stats: Stats {
                downloaded_chunks: (before.stats.downloaded_chunks + 1) as u64,
                ..before.stats
            },
            ..before
        },
        _ => before,
    }
}

/// The state of a download after an answer.
pub open spec fn download_after_answer(before: DownloadView, answer: Answer) -> DownloadView {
    match answer {
        Answer::Chunk(data) => before.received(data),
        _ => before.failed(),
    }
}

/// What is to be done after an answer.
pub open spec fn effects_after_answer(before: DownloadView, answer: Answer) -> Seq<EffectView> {
    match answer {
        Answer::NoChunk => seq![EffectView::Report { message: "Expected Response::Chunk"@ }],
        Answer::Damaged => seq![
            EffectView::Report { message: "Chunk hash mismatch, trying next peer"@ },
        ],
        Answer::Chunk(data) => seq![
            EffectView::Append {
                dir: "downloads"@,
                file: hex(before.file_hash as nat),
                data,
            },
            EffectView::Progress { done: (before.done + 1) as u64, total: before.total as u64 },
        ],
    }
}

/// What is to be done when a download starts: its file is written anew.
pub open spec fn start_effects(file_hash: FileHash) -> Seq<EffectView> {
    seq![
        EffectView::WriteFile {
            dir: "downloads"@,
            file: hex(file_hash as nat),
            data: Seq::empty(),
        },
    ]
}

/// What a server knows after it has completed a download.
pub open spec fn server_after_download(before: ServerView) -> ServerView {
    ServerView {
        stats: Stats {
            downloaded_files: (before.stats.downloaded_files + 1) as u64,
            ..before.stats
        },
        ..before
    }
}

/// How the download of the file `file_hash` ends, when `actual` is the hash of
/// what was downloaded.
pub open spec fn is_end(
    before: ServerView,
    file_hash: FileHash,
    actual: FileHash,
    done: Result<(), Fault>,
    after: ServerView,
) -> bool {
    match done {
        Ok(_) => actual == file_hash && after == server_after_download(before),
        Err(fault) => actual != file_hash && fault == Fault::HashMismatch && after == before,
    }
}

/// Calls the method `sort_unstable` of slices. It brings the numbers into
/// ascending order; none gets lost and none is added.
#[verifier::external_body]
fn sort_unstable(ids: &mut Vec<u64>)
    ensures
        forall|i: int, j: int| 0 <= i < j < final(ids)@.len() ==> final(ids)@[i] <= final(ids)@[j],
        final(ids)@.to_multiset() == old(ids)@.to_multiset(),
{
    ids.sort_unstable();
}

fn same_digest(a: &[u8; 32], b: &[u8; 32]) -> (same: bool)
    ensures
        same == (a@ == b@),
{
    for i in 0..32usize
        invariant
            forall|j: int| 0 <= j < i ==> a[j] == b[j],
    {
        if a[i] != b[i] {
            return false;
        }
    }
    assert(a@ =~= b@);
    true
}

/// Sorting numbers that are all different gives an ascending sequence of the
/// same numbers.
proof fn lemma_sorted_distinct(before: Seq<u64>, after: Seq<u64>)
    requires
        before.no_duplicates(),
        forall|i: int, j: int| 0 <= i < j < after.len() ==> after[i] <= after[j],
        after.to_multiset() == before.to_multiset(),
    ensures
        is_ascending(after),
        forall|id: u64| #[trigger] after.contains(id) <==> before.contains(id),
        after.len() == before.len(),
{
    before.to_multiset_ensures();
    after.to_multiset_ensures();
    before.lemma_multiset_has_no_duplicates();
    after.lemma_multiset_has_no_duplicates_conv();
    assert forall|id: u64| #[trigger] after.contains(id) <==> before.contains(id) by {
        assert(after.contains(id) <==> after.to_multiset().count(id) > 0);
        assert(before.contains(id) <==> before.to_multiset().count(id) > 0);
    }
}

impl Server {
    /// The chunks of a file that are stored here or that peers are known to
    /// have, in ascending order.
    fn wanted_chunks(&self, file_hash: FileHash) -> (ids: Vec<ChunkId>)
        ensures
            is_ascending(ids@),
            forall|id: ChunkId| #[trigger] ids@.contains(id) <==> is_wanted(self@, file_hash, id),
    {
        let mut ids = self.chunks.known_chunks(file_hash);
        let mut seen: HashSet<ChunkId> = HashSet::new();
        for i in 0..ids.len()
            invariant
                forall|id: ChunkId| #[trigger]
                    seen@.contains(id) <==> ids@.take(i as int).contains(id),
        {
            seen.insert(ids[i]);
            assert(ids@.take(i as int + 1) =~= ids@.take(i as int).push(ids[i as int]));
            proof {
                lemma_contains_after_push(ids@.take(i as int), ids[i as int]);
            }
        }
        assert(ids@.take(ids.len() as int) =~= ids@);
        if let Some(own) = self.own_chunks.get(&file_hash) {
            for i in 0..own.len()
                invariant
                    ids@.no_duplicates(),
                    forall|id: ChunkId| #[trigger] seen@.contains(id) <==> ids@.contains(id),
                    forall|id: ChunkId| #[trigger]
                        ids@.contains(id) <==> own@.take(i as int).contains(id)
                            || self@.chunks.contains_key((file_hash, id)),
            {
                let id = own[i];
                proof {
                    assert(own@.take(i as int + 1) =~= own@.take(i as int).push(id));
                    lemma_contains_after_push(own@.take(i as int), id);
                    lemma_contains_after_push(ids@, id);
                }
                if !seen.contains(&id) {
                    seen.insert(id);
                    ids.push(id);
                }
            }
            assert(own@.take(own.len() as int) =~= own@);
        }
        let ghost unsorted = ids@;
        sort_unstable(&mut ids);
        proof {
            lemma_sorted_distinct(unsorted, ids@);
        }
        ids
    }
    /// Starts the download of a file. It is written anew.
    pub fn download(&self, file_hash: FileHash) -> (started: (Download, Vec<Effect>))
        ensures
            is_start(self@, file_hash, started.0@),
            started.0@.wf(),
            effects_view(started.1@) == start_effects(file_hash),
    {
        let ids = self.wanted_chunks(file_hash);
        let download = Download {
            file_hash,
            left: queue_of(&ids),
            tried: 0,
            done: 0,
            total: ids.len() as u64,
            hasher: FileHasher::new(),
        };
        let mut effects: Vec<Effect> = Vec::new();
        effects.push(
            Effect::WriteFile {
                dir: "downloads".to_owned(),
                file: file_dir(file_hash),
                data: Vec::new(),
            },
        );
        assert(effects_view(effects@) =~= start_effects(file_hash));
        (download, effects)
    }

    /// Passes over the chunks that no peer has sent, and says what is due
    /// then.
    pub fn download_next(&self, download: &mut Download) -> (want: DownloadWant)
        ensures
            final(download)@ == old(download)@.settled(self@),
            want@ == old(download)@.wants(self@),
            want@ is Ask ==> final(download)@.awaits(self@),
            old(download)@.wf() ==> final(download)@.wf(),
    {
        while download.left.len() > 0
            invariant
                download@.settled(self@) == old(download)@.settled(self@),
                old(download)@.wf() ==> download@.wf(),
            decreases download@.left.len(),
        {
            let file_hash = download.file_hash;
            let id = download.left[0];
            match self.get_chunk_peers(file_hash, id) {
                None => {
                    return DownloadWant::Fail(Fault::UnlistedChunk(file_hash, id));
                },
                Some(peers) => {
                    if download.tried < peers.len() {
                        let to = peers[download.tried];
                        if self.peers.contains_key(&to) {
                            let ids: Vec<ChunkId> = vec![id];
                            assert(ids@ =~= seq![id]);
                            return DownloadWant::Ask {
                                to,
                                packet: Packet::from(Request::Chunks(file_hash, ids)),
                            };
                        }
                        return DownloadWant::Fail(Fault::UnknownPeer(to));
                    }
                    let _ = download.left.pop_front();
                    download.tried = 0;
                },
            }
        }
        DownloadWant::Finish
    }

    /// Takes in the answer of the peer that was asked; `None` if what the peer
    /// has sent could not be read.
    pub fn download_answer(&mut self, download: &mut Download, answer: Option<Packet>) -> (effects:
        Vec<Effect>)
        requires
            old(download)@.wf(),
            old(download)@.awaits(old(self)@),
            old(self)@.stats.downloaded_chunks < u64::MAX,
        ensures
            ({
                let answer = weighed(answer_view(answer));
                &&& final(self)@ == server_after_answer(old(self)@, answer)
                &&& final(download)@ == download_after_answer(old(download)@, answer)
                &&& effects_view(effects@) == effects_after_answer(old(download)@, answer)
            }),
            final(download)@.wf(),
            old(self)@.wf() ==> final(self)@.wf(),
    {
        let actual = match &answer {
            Some(Packet::Response(Response::Chunk(_, data))) => sha256_of_vec(data.as_slice()),
            _ => sha256_of_vec(&[]),
        };
        self.download_answer_with(download, answer, actual)
    }

    /// Takes in an answer; `actual` is the digest of the chunk that it brings.
    pub fn download_answer_with(
        &mut self,
        download: &mut Download,
        answer: Option<Packet>,
        actual: [u8; 32],
    ) -> (effects: Vec<Effect>)
        requires
            old(download)@.wf(),
            old(download)@.awaits(old(self)@),
            old(self)@.stats.downloaded_chunks < u64::MAX,
        ensures
            ({
                let answer = judged(answer_view(answer), actual@);
                &&& final(self)@ == server_after_answer(old(self)@, answer)
                &&& final(download)@ == download_after_answer(old(download)@, answer)
                &&& effects_view(effects@) == effects_after_answer(old(download)@, answer)
            }),
            final(download)@.wf(),
            old(self)@.wf() ==> final(self)@.wf(),
    {
        proof {
            self.chunks.lemma_holders_fit(download.file_hash, download.left@[0]);
        }
        let ghost judgement = judged(answer_view(answer), actual@);
        let mut effects: Vec<Effect> = Vec::new();
        match answer {
            Some(Packet::Response(Response::Chunk(sha, data))) => {
                if same_digest(&actual, &sha) {
                    self.stats.downloaded_chunks = self.stats.downloaded_chunks + 1;
                    download.hasher.update(data.as_slice());
                    let _ = download.left.pop_front();
                    download.tried = 0;
                    download.done = download.done + 1;
                    effects.push(
                        Effect::Append {
                            dir: "downloads".to_owned(),
                            file: file_dir(download.file_hash),
                            data,
                        },
                    );
                    effects.push(Effect::Progress { done: download.done, total: download.total });
                    assert(download@ == old(download)@.received(data@));
                } else {
                    download.tried = download.tried + 1;
                    effects.push(
                        Effect::Report { message: "Chunk hash mismatch, trying next peer".to_owned() },
                    );
                }
            },
            _ => {
                download.tried = download.tried + 1;
                effects.push(Effect::Report { message: "Expected Response::Chunk".to_owned() });
            },
        }
        assert(self@ == server_after_answer(old(self)@, judgement));
        assert(effects_view(effects@) =~= effects_after_answer(old(download)@, judgement));
        effects
    }

    /// Ends a download for which there is no chunk left to ask for. The file
    /// must have the hash that it was asked for by.
    pub fn finish_download(&mut self, download: Download) -> (done: Result<(), Fault>)
        requires
            download@.left.len() == 0,
            old(self)@.stats.downloaded_files < u64::MAX,
        ensures
            is_end(
                old(self)@,
                download@.file_hash,
                file_hash_of(download@.written),
                done,
                final(self)@,
            ),
            old(self)@.wf() ==> final(self)@.wf(),
    {
        let Download { file_hash, hasher, .. } = download;
        let actual = hasher.finish();
        self.finish_download_with(file_hash, actual)
    }

    /// Ends the download of the file `file_hash`; `actual` is the hash of what
    /// was downloaded.
    pub fn finish_download_with(&mut self, file_hash: FileHash, actual: FileHash) -> (done: Result<
        (),
        Fault,
    >)
        requires
            old(self)@.stats.downloaded_files < u64::MAX,
        ensures
            is_end(old(self)@, file_hash, actual, done, final(self)@),
            old(self)@.wf() ==> final(self)@.wf(),
    {
        if actual != file_hash {
            return Err(Fault::HashMismatch);
        }
        self.stats.downloaded_files = self.stats.downloaded_files + 1;
        assert(self@ == server_after_download(old(self)@));
        Ok(())
    }
}

/// What an answer is worth, by the digest of the chunk that it brings.
pub open spec fn weighed(answer: Option<PacketView>) -> Answer {
    judged(answer, sha256_digest(chunk_in(answer)))
}

/// What comes of these answers, one after the other.
pub open spec fn answer_all(
    server: ServerView,
    download: DownloadView,
    answers: Seq<Option<PacketView>>,
) -> (ServerView, DownloadView, Seq<EffectView>)
    decreases answers.len(),
{
    if answers.len() == 0 {
        (server, download, Seq::empty())
    } else {
        let (server, download, effects) = answer_all(server, download, answers.drop_last());
        let download = download.settled(server);
        let answer = weighed(answers.last());
        (
            server_after_answer(server, answer),
            download_after_answer(download, answer),
            effects + effects_after_answer(download, answer),
        )
    }
}

/// What the effects add at the end of a file.
pub open spec fn added_to(effects: Seq<EffectView>, dir: Seq<char>, file: Seq<char>) -> Seq<u8>
    decreases effects.len(),
{
    if effects.len() == 0 {
        Seq::empty()
    } else {
        let before = added_to(effects.drop_last(), dir, file);
        match effects.last() {
            EffectView::Append { dir: d, file: f, data } => if d == dir && f == file {
                before + data
            } else {
                before
            },
            _ => before,
        }
    }
}

pub(super) proof fn lemma_added_by_both(
    first: Seq<EffectView>,
    second: Seq<EffectView>,
    dir: Seq<char>,
    file: Seq<char>,
)
    ensures
        added_to(first + second, dir, file) == added_to(first, dir, file) + added_to(
            second,
            dir,
            file,
        ),
    decreases second.len(),
{
    if second.len() == 0 {
        assert(first + second =~= first);
        assert(added_to(first, dir, file) + Seq::<u8>::empty() =~= added_to(first, dir, file));
    } else {
        lemma_added_by_both(first, second.drop_last(), dir, file);
        assert((first + second).drop_last() =~= first + second.drop_last());
        assert((first + second).last() == second.last());
        assert(added_to(first + second, dir, file) =~= added_to(first, dir, file) + added_to(
            second,
            dir,
            file,
        ));
    }
}

pub(super) proof fn lemma_settled_frame(download: DownloadView, server: ServerView)
    ensures
        download.settled(server) == (DownloadView {
            left: download.settled(server).left,
            tried: download.settled(server).tried,
            ..download
        }),
    decreases download.left.len(),
{
    if download.left.len() > 0 && server.chunks.contains_key(download.due())
        && server.chunks[download.due()].len() <= download.tried {
        lemma_settled_frame(
            DownloadView { left: download.left.drop_first(), tried: 0, ..download },
            server,
        );
    }
}

/// Whatever the peers answer, the bytes that the hash of a download is made of
/// are those that were added to its file, in the same order.
pub proof fn law_hash_is_that_of_the_file(
    server: ServerView,
    download: DownloadView,
    answers: Seq<Option<PacketView>>,
)
    ensures
        ({
            let (_, then, effects) = answer_all(server, download, answers);
            &&& then.file_hash == download.file_hash
            &&& then.written == download.written + added_to(
                effects,
                "downloads"@,
                hex(download.file_hash as nat),
            )
        }),
    decreases answers.len(),
{
    let dir = "downloads"@;
    let file = hex(download.file_hash as nat);
    if answers.len() == 0 {
        assert(download.written + Seq::<u8>::empty() =~= download.written);
    } else {
        law_hash_is_that_of_the_file(server, download, answers.drop_last());
        let (server_before, before, effects) = answer_all(server, download, answers.drop_last());
        lemma_settled_frame(before, server_before);
        let settled = before.settled(server_before);
        let answer = weighed(answers.last());
        let more = effects_after_answer(settled, answer);
        lemma_added_by_both(effects, more, dir, file);
        match answer {
            Answer::Chunk(data) => {
                assert(more.drop_last() =~= seq![EffectView::Append { dir, file, data }]);
                assert(more.drop_last().drop_last() =~= Seq::empty());
                reveal_with_fuel(added_to, 3);
                assert(added_to(more, dir, file) =~= data);
                assert(download.written + added_to(effects, dir, file) + data
                    =~= download.written + (added_to(effects, dir, file) + data));
            },
            _ => {
                assert(more.drop_last() =~= Seq::empty());
                reveal_with_fuel(added_to, 2);
                assert(added_to(more, dir, file) =~= Seq::empty());
                assert(added_to(effects, dir, file) + Seq::<u8>::empty() =~= added_to(
                    effects,
                    dir,
                    file,
                ));
            },
        }
    }
}

/// A peer that does not send the chunk, or sends it damaged, costs nothing but
/// the attempt: the next peer that has the chunk is asked for the same chunk.
pub proof fn law_next_peer_is_tried(
    server: ServerView,
    download: DownloadView,
    answer: Option<PacketView>,
)
    requires
        download.awaits(server),
        !(weighed(answer) is Chunk),
        download.tried + 1 < server.chunks[download.due()].len(),
        server.peers.contains_key(server.chunks[download.due()][download.tried as int + 1]),
    ensures
        server_after_answer(server, weighed(answer)) == server,
        download_after_answer(download, weighed(answer)).written == download.written,
        download_after_answer(download, weighed(answer)).wants(server) == (DownloadWantView::Ask {
            to: server.chunks[download.due()][download.tried as int + 1],
            packet: PacketView::Request(
                RequestView::Chunks(download.file_hash, seq![download.left[0]]),
            ),
        }),
{
}

/// Every chunk that comes from a peer and is accepted has the digest that came
/// with it.
pub proof fn law_accepted_chunks_have_their_digest(answer: Option<PacketView>)
    ensures
        weighed(answer) matches Answer::Chunk(data) ==> answer == Some(
            chunk_packet(sha256_digest(data), data),
        ),
        forall|data: Seq<u8>|
            answer == Some(#[trigger] chunk_packet(sha256_digest(data), data)) ==> weighed(answer)
                == Answer::Chunk(data),
        match answer {
            Some(PacketView::Response(ResponseView::Chunk(sha, data))) => {
                &&& weighed(answer) == Answer::Chunk(data) <==> sha == sha256_digest(data)
                &&& weighed(answer) == Answer::Damaged <==> sha != sha256_digest(data)
            },
            _ => weighed(answer) == Answer::NoChunk,
        },
{
}

/// The numbers from 0 on.
pub open spec fn count_up(count: nat) -> Seq<ChunkId> {
    Seq::new(count, |i: int| i as ChunkId)
}

/// The only ascending sequence of all numbers below `count` is that in which
/// they are counted up.
pub(super) proof fn lemma_ascending_is_counted_up(ids: Seq<ChunkId>, count: nat)
    requires
        count <= u64::MAX,
        is_ascending(ids),
        forall|id: ChunkId| #[trigger] ids.contains(id) <==> id < count,
    ensures
        ids == count_up(count),
    decreases count,
{
    if count == 0 {
        if ids.len() > 0 {
            assert(ids.contains(ids[0]));
        }
    } else {
        let top = (count - 1) as ChunkId;
        assert(ids.contains(top));
        let at = ids.index_of(top);
        if at < ids.len() - 1 {
            assert(ids.contains(ids[at + 1]));
        }
        let fewer = ids.drop_last();
        assert forall|id: ChunkId| #[trigger] fewer.contains(id) <==> id < count - 1 by {
            if fewer.contains(id) {
                let i = fewer.index_of(id);
                assert(ids[i] == id);
                assert(ids.contains(id));
            }
            if id < count - 1 {
                assert(ids.contains(id));
                let i = ids.index_of(id);
                assert(fewer[i] == id);
            }
        }
        lemma_ascending_is_counted_up(fewer, (count - 1) as nat);
        assert(ids =~= fewer.push(top));
        assert(count_up(count) =~= count_up((count - 1) as nat).push(top));
    }
}

/// The chunks of a file as peers send them that have stored what was uploaded.
pub open spec fn uploaded_answers(data: Seq<u8>) -> Seq<Option<PacketView>> {
    Seq::new(
        parts(data).len(),
        |i: int| Some(chunk_packet(sha256_digest(part(data, i)), part(data, i))),
    )
}

/// The first peer that is listed for a chunk is connected to this node.
pub open spec fn is_within_reach(server: ServerView, file_hash: FileHash, id: ChunkId) -> bool {
    &&& server.chunks.contains_key((file_hash, id))
    &&& server.chunks[(file_hash, id)].len() > 0
    &&& server.peers.contains_key(server.chunks[(file_hash, id)][0])
}

proof fn lemma_parts_come_back(
    server: ServerView,
    start: DownloadView,
    data: Seq<u8>,
    count: nat,
)
    requires
        count <= parts(data).len() <= u64::MAX,
        server.stats.downloaded_chunks + count <= u64::MAX,
        start.left == count_up(parts(data).len()),
        start.tried == 0,
        start.done == 0,
        start.written == Seq::<u8>::empty(),
        forall|i: ChunkId|
            i < parts(data).len() ==> #[trigger] is_within_reach(server, start.file_hash, i),
    ensures
        ({
            let (server_then, then, _) = answer_all(
                server,
                start,
                uploaded_answers(data).take(count as int),
            );
            &&& server_then == (ServerView {
                stats: Stats {
                    downloaded_chunks: (server.stats.downloaded_chunks + count) as u64,
                    ..server.stats
                },
                ..server
            })
            &&& then == (DownloadView {
                left: start.left.skip(count as int),
                done: count,
                written: together(parts(data).take(count as int)),
                ..start
            })
        }),
    decreases count,
{
    let answers = uploaded_answers(data).take(count as int);
    if count == 0 {
        assert(start.left.skip(0) =~= start.left);
    } else {
        let fewer = (count - 1) as nat;
        lemma_parts_come_back(server, start, data, fewer);
        assert(answers.drop_last() =~= uploaded_answers(data).take(fewer as int));
        assert(parts(data).take(count as int).drop_last() =~= parts(data).take(fewer as int));
        let (server_before, before, _) = answer_all(server, start, answers.drop_last());
        assert(is_within_reach(server, start.file_hash, fewer as ChunkId));
        assert(before.left[0] == fewer as ChunkId);
        assert(before.settled(server_before) == before);
        assert(before.left.drop_first() =~= start.left.skip(count as int));
    }
}

/// A file that was uploaded comes back when it is downloaded under its hash:
/// its chunks are asked for in order, and when each has come as it was sent,
/// the download ends, what was written is the whole file, and it has the
/// hash.
pub proof fn law_uploaded_file_comes_back(
    server: ServerView,
    start: DownloadView,
    data: Seq<u8>,
)
    requires
        data.len() + 511 <= u64::MAX,
        server.stats.downloaded_chunks + parts(data).len() <= u64::MAX,
        start.file_hash == file_hash_of(data),
        is_ascending(start.left),
        forall|id: ChunkId| #[trigger] start.left.contains(id) <==> id < parts(data).len(),
        start.tried == 0,
        start.done == 0,
        start.written == Seq::<u8>::empty(),
        forall|id: ChunkId|
            id < parts(data).len() ==> #[trigger] is_within_reach(server, start.file_hash, id),
    ensures
        forall|count: nat|
            count < parts(data).len() ==> (#[trigger] answer_all(
                server,
                start,
                uploaded_answers(data).take(count as int),
            )).1.wants(server) == (DownloadWantView::Ask {
                to: server.chunks[(start.file_hash, count as ChunkId)][0],
                packet: PacketView::Request(
                    RequestView::Chunks(start.file_hash, seq![count as ChunkId]),
                ),
            }),
        ({
            let (server_then, then, effects) = answer_all(server, start, uploaded_answers(data));
            &&& then.wants(server_then) is Finish
            &&& then.written == data
            &&& then.written == added_to(
                effects,
                "downloads"@,
                hex(start.file_hash as nat),
            )
            &&& file_hash_of(then.written) == then.file_hash
        }),
{
    lemma_ascending_is_counted_up(start.left, parts(data).len());
    let all = parts(data).len();
    assert forall|count: nat| count < parts(data).len() implies (#[trigger] answer_all(
        server,
        start,
        uploaded_answers(data).take(count as int),
    )).1.wants(server) == (DownloadWantView::Ask {
        to: server.chunks[(start.file_hash, count as ChunkId)][0],
        packet: PacketView::Request(
            RequestView::Chunks(start.file_hash, seq![count as ChunkId]),
        ),
    }) by {
        lemma_parts_come_back(server, start, data, count);
        assert(is_within_reach(server, start.file_hash, count as ChunkId));
    }
    lemma_parts_come_back(server, start, data, all);
    law_hash_is_that_of_the_file(server, start, uploaded_answers(data));
    assert(uploaded_answers(data).take(all as int) =~= uploaded_answers(data));
    assert(parts(data).take(all as int) =~= parts(data));
    let (_, then, effects) = answer_all(server, start, uploaded_answers(data));
    assert(start.written + added_to(effects, "downloads"@, hex(start.file_hash as nat))
        =~= added_to(effects, "downloads"@, hex(start.file_hash as nat)));
    law_chunks_make_up_the_file(data);
}

/// A chunk that was sent to a peer can be had back from it. The peer stores it
/// and tells all its peers; who hears of that lists the peer for the chunk,
/// which then belongs to a download of the file; and a peer that is asked for
/// the chunk reads it from where it was stored, and its answer is accepted.
pub proof fn law_sent_chunk_can_be_had_back(
    storer_round: RoundView,
    storer_id: PeerId,
    asker: ServerView,
    file_hash: FileHash,
    chunk_id: ChunkId,
    data: Seq<u8>,
    order: Seq<PeerId>,
)
    requires
        storer_round.wants() is Poll,
    ensures
        ({
            let told = ReceivedView::Packet(
                PacketView::Request(RequestView::WriteChunks(file_hash, seq![chunk_id])),
            );
            round_after(storer_round, told).wants() == WantView::Receive(storer_round.queue[0])
        }),
        forall|i: int|
            0 <= i < order.len() ==> storing_effects(
                file_hash,
                chunk_id,
                data,
                order,
            ).contains(
                EffectView::Send {
                    to: #[trigger] order[i],
                    packet: PacketView::Request(RequestView::HasChunk(file_hash, chunk_id)),
                },
            ),
        ({
            let news = ReceivedView::Packet(
                PacketView::Request(RequestView::HasChunk(file_hash, chunk_id)),
            );
            let then = server_after(asker, storer_id, news);
            &&& holders(then.chunks, file_hash, chunk_id).contains(storer_id)
            &&& is_wanted(then, file_hash, chunk_id)
        }),
        ({
            let asked = ReceivedView::Packet(
                PacketView::Request(RequestView::Chunks(file_hash, seq![chunk_id])),
            );
            storing_effects(file_hash, chunk_id, data, order)[0] matches EffectView::WriteFile {
                dir,
                file,
                data: written,
            } && written == data && round_after(storer_round, asked).wants()
                == (WantView::ReadChunk { dir, file })
        }),
        weighed(Some(chunk_packet(sha256_digest(data), data))) == Answer::Chunk(data),
{
    let effects = storing_effects(file_hash, chunk_id, data, order);
    assert forall|i: int| 0 <= i < order.len() implies effects.contains(
        EffectView::Send {
            to: #[trigger] order[i],
            packet: PacketView::Request(RequestView::HasChunk(file_hash, chunk_id)),
        },
    ) by {
        assert(effects[i + 1] == (EffectView::Send {
            to: order[i],
            packet: PacketView::Request(RequestView::HasChunk(file_hash, chunk_id)),
        }));
    }
    let before = holders(asker.chunks, file_hash, chunk_id);
    assert(before.push(storer_id)[before.len() as int] == storer_id);
}

} // verus!
