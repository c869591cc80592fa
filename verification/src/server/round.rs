//! One iteration of the server, in which each peer has its turn.
use super::{notices, report_unhandled, unhandled, Server, ServerView, Stats};
use crate::digest::{sha256_digest, sha256_of_vec};
use crate::effect::{effects_view, Effect, EffectView, Fault};
use crate::maps::{each_once, keys_of, lemma_heads, queue_of};
use crate::packet::{Packet, PacketView, Request, RequestView, Response, ResponseView};
use crate::peer::{Received, ReceivedView};
use crate::radix::hex;
use crate::store::{chunk_file, file_dir};
use crate::{ChunkId, FileHash, PeerId};
use std::collections::VecDeque;
use vstd::prelude::*;
use vstd::string::*;

verus! {

/// What a peer has asked for that takes more than one step.
pub enum Job {
    Idle,
    /// Chunks are sent to a peer.
    Serving { peer: PeerId, file_hash: FileHash, left: VecDeque<ChunkId> },
    /// Chunks that a peer sends are stored.
    Storing { peer: PeerId, file_hash: FileHash, left: VecDeque<ChunkId> },
}

/// The state of a [`Job`], with the chunks that are still to come.
pub enum JobView {
    Idle,
    Serving { peer: PeerId, file_hash: FileHash, left: Seq<ChunkId> },
    Storing { peer: PeerId, file_hash: FileHash, left: Seq<ChunkId> },
}

impl View for Job {
    type V = JobView;

    open spec fn view(&self) -> JobView {
        match *self {
            Job::Idle => JobView::Idle,
            Job::Serving { peer, file_hash, left } => JobView::Serving {
                peer,
                file_hash,
                left: left@,
            },
            Job::Storing { peer, file_hash, left } => JobView::Storing {
                peer,
                file_hash,
                left: left@,
            },
        }
    }
}

/// An iteration that is under way.
pub struct Round {
    queue: VecDeque<PeerId>,
    job: Job,
}

/// The state of a [`Round`]: the peers that have not had their turn, and what
/// the peer whose turn it is has asked for.
pub struct RoundView {
    pub queue: Seq<PeerId>,
    pub job: JobView,
}

impl View for Round {
    type V = RoundView;

    closed spec fn view(&self) -> RoundView {
        RoundView { queue: self.queue@, job: self.job@ }
    }
}

/// What an iteration waits for.
#[derive(PartialEq, Eq)]
pub enum Want {
    /// A packet from the peer, if there is one.
    Poll(PeerId),
    /// The contents of a chunk's file.
    ReadChunk { dir: String, file: String },
    /// The next packet from the peer.
    Receive(PeerId),
    /// Nothing: the iteration is over.
    Nothing,
}

/// What a [`Want`] says.
pub enum WantView {
    Poll(PeerId),
    ReadChunk { dir: Seq<char>, file: Seq<char> },
    Receive(PeerId),
    Nothing,
}

impl View for Want {
    type V = WantView;

    open spec fn view(&self) -> WantView {
        match *self {
            Want::Poll(peer) => WantView::Poll(peer),
            Want::ReadChunk { dir, file } => WantView::ReadChunk { dir: dir@, file: file@ },
            Want::Receive(peer) => WantView::Receive(peer),
            Want::Nothing => WantView::Nothing,
        }
    }
}

impl RoundView {
    /// Nothing that a peer has asked for is left to be done.
    pub open spec fn is_idle(self) -> bool {
        match self.job {
            JobView::Idle => true,
            JobView::Serving { left, .. } => left.len() == 0,
            JobView::Storing { left, .. } => left.len() == 0,
        }
    }

    /// What is due next.
    pub open spec fn wants(self) -> WantView {
        if self.is_idle() {
            if self.queue.len() == 0 {
                WantView::Nothing
            } else {
                WantView::Poll(self.queue[0])
            }
        } else {
            match self.job {
                JobView::Serving { file_hash, left, .. } => WantView::ReadChunk {
                    dir: hex(file_hash as nat),
                    file: hex(left[0] as nat),
                },
                JobView::Storing { peer, .. } => WantView::Receive(peer),
                JobView::Idle => WantView::Nothing,
            }
        }
    }

    /// The chunk that is due next is done.
    pub open spec fn advanced(self) -> RoundView {
        RoundView {
            job: match self.job {
                JobView::Serving { peer, file_hash, left } => JobView::Serving {
                    peer,
                    file_hash,
                    left: left.drop_first(),
                },
                JobView::Storing { peer, file_hash, left } => JobView::Storing {
                    peer,
                    file_hash,
                    left: left.drop_first(),
                },
                JobView::Idle => JobView::Idle,
            },
            ..self
        }
    }
}

/// An iteration that starts: all peers are to have their turns.
pub open spec fn is_start_of_round(server: ServerView, round: RoundView) -> bool {
    &&& each_once(round.queue, server.peers.dom())
    &&& round.job is Idle
}

/// What a server knows after it got `received` from the peer `id`.
pub open spec fn server_after(
    before: ServerView,
    id: PeerId,
    received: ReceivedView,
) -> ServerView {
    match received {
        ReceivedView::Disconnected => before.without_peer(id),
        ReceivedView::ReadFailed => before.without_peer(id),
        ReceivedView::Packet(PacketView::Request(request)) => match request {
            RequestView::HasChunk(file_hash, chunk_id) => before.with_chunk(
                file_hash,
                chunk_id,
                id,
            ),
            RequestView::SetFileName(file_hash, name) => before.with_file(file_hash, name),
            _ => before,
        },
        _ => before,
    }
}

/// What the peer `id` has asked for with `received`.
pub open spec fn job_after(id: PeerId, received: ReceivedView) -> JobView {
    match received {
        ReceivedView::Packet(PacketView::Request(request)) => match request {
            RequestView::Chunks(file_hash, chunk_ids) => JobView::Serving {
                peer: id,
                file_hash,
                left: chunk_ids,
            },
            RequestView::WriteChunks(file_hash, chunk_ids) => JobView::Storing {
                peer: id,
                file_hash,
                left: chunk_ids,
            },
            _ => JobView::Idle,
        },
        _ => JobView::Idle,
    }
}

/// The state of an iteration after the peer at the head of the queue was
/// polled and has sent `received`.
pub open spec fn round_after(round: RoundView, received: ReceivedView) -> RoundView {
    RoundView {
        queue: round.queue.drop_first(),
        job: job_after(round.queue[0], received),
    }
}

/// What is to be done at once when `received` has come from the peer `id`.
pub open spec fn effects_after(id: PeerId, received: ReceivedView) -> Seq<EffectView> {
    match received {
        ReceivedView::Malformed(error) => seq![
            EffectView::Report { message: "Error decoding packet: "@ + error },
        ],
        ReceivedView::Packet(PacketView::Request(request)) => match request {
            RequestView::Chunks(..) => Seq::empty(),
            RequestView::WriteChunks(file_hash, _) => seq![
                EffectView::CreateDir { dir: hex(file_hash as nat) },
            ],
            RequestView::HasChunk(..) => Seq::empty(),
            RequestView::SetFileName(file_hash, name) => seq![
                EffectView::CreateDir { dir: hex(file_hash as nat) },
                EffectView::WriteFile {
                    dir: hex(file_hash as nat),
                    file: "name"@,
                    data: vstd::utf8::encode_utf8(name),
                },
            ],
            RequestView::Speedtest(data) => seq![
                EffectView::Send {
                    to: id,
                    packet: PacketView::Response(ResponseView::Speedtest(data)),
                },
            ],
            other => seq![unhandled(other)],
        },
        _ => Seq::empty(),
    }
}

/// What a server knows after it has served a chunk.
pub open spec fn server_after_serving(before: ServerView) -> ServerView {
    ServerView {
        stats: Stats {
            uploaded_chunks: (before.stats.uploaded_chunks + 1) as u64,
            ..before.stats
        },
        ..before
    }
}

/// The packet that brings a chunk to a peer.
pub open spec fn chunk_packet(sha: Seq<u8>, data: Seq<u8>) -> PacketView {
    PacketView::Response(ResponseView::Chunk(sha, data))
}

/// What is to be done when the chunk that is due was read.
pub open spec fn serving_effects(round: RoundView, sha: Seq<u8>, data: Seq<u8>) -> Seq<
    EffectView,
> {
    seq![
        EffectView::Send {
            to: round.job->Serving_peer,
            packet: chunk_packet(sha, data),
        },
    ]
}

/// The data of a chunk that is to be stored, if the packet brings one. A digest
/// that comes with it is not looked at.
pub open spec fn chunk_data(packet: PacketView) -> Option<Seq<u8>> {
    match packet {
        PacketView::Response(ResponseView::Chunk(_, data)) => Some(data),
        PacketView::Request(RequestView::WriteChunk(data)) => Some(data),
        _ => None,
    }
}

/// What is to be done when a chunk has come that is to be stored; the peers
/// are told of it in the given order.
pub open spec fn storing_effects(
    file_hash: FileHash,
    chunk_id: ChunkId,
    data: Seq<u8>,
    order: Seq<PeerId>,
) -> Seq<EffectView> {
    seq![
        EffectView::WriteFile {
            dir: hex(file_hash as nat),
            file: hex(chunk_id as nat),
            data,
        },
    ] + notices(order, file_hash, chunk_id)
}

/// The effects are those of storing a chunk, with the peers in some order.
pub open spec fn is_storing(
    file_hash: FileHash,
    chunk_id: ChunkId,
    data: Seq<u8>,
    peers: Set<PeerId>,
    effects: Seq<EffectView>,
) -> bool {
    exists|order: Seq<PeerId>|
        each_once(order, peers) && effects == #[trigger] storing_effects(
            file_hash,
            chunk_id,
            data,
            order,
        )
}

impl Round {
    /// What is due next.
    pub fn wants(&self) -> (want: Want)
        ensures
            want@ == self@.wants(),
    {
        match &self.job {
            Job::Serving { file_hash, left, .. } => {
                if left.len() > 0 {
                    return Want::ReadChunk {
                        dir: file_dir(*file_hash),
                        file: chunk_file(left[0]),
                    };
                }
            },
            Job::Storing { peer, left, .. } => {
                if left.len() > 0 {
                    return Want::Receive(*peer);
                }
            },
            Job::Idle => {},
        }
        if self.queue.len() == 0 {
            Want::Nothing
        } else {
            Want::Poll(self.queue[0])
        }
    }
}

impl Server {
    /// Starts one iteration of the server.
    pub fn run_once(&self) -> (round: Round)
        ensures
            is_start_of_round(self@, round@),
    {
        assert(self@.peers.dom() =~= self.peers@.dom());
        Round { queue: queue_of(&keys_of(&self.peers)), job: Job::Idle }
    }

    /// Acts on what the peer whose turn it is has sent, if anything.
    pub fn poll(&mut self, round: &mut Round, received: Received) -> (effects: Result<
        Vec<Effect>,
        Fault,
    >)
        requires
            old(round)@.wants() is Poll,
        ensures
            match effects {
                Ok(effects) => {
                    let id = old(round)@.queue[0];
                    &&& !(received@ matches ReceivedView::Packet(PacketView::Response(_)))
                    &&& final(self)@ == server_after(old(self)@, id, received@)
                    &&& final(round)@ == round_after(old(round)@, received@)
                    &&& effects_view(effects@) == effects_after(id, received@)
                },
                Err(fault) => {
                    &&& received@ matches ReceivedView::Packet(PacketView::Response(_))
                    &&& fault == Fault::ExpectedRequest
                    &&& final(self)@ == old(self)@
                    &&& final(round)@ == old(round)@
                },
            },
            old(self)@.wf() ==> final(self)@.wf(),
    {
        let mut effects: Vec<Effect> = Vec::new();
        if let Received::Packet(Packet::Response(_)) = &received {
            return Err(Fault::ExpectedRequest);
        }
        let id = round.queue[0];
        let _ = round.queue.pop_front();
        round.job = Job::Idle;
        match received {
            Received::Nothing => {},
            Received::Disconnected | Received::ReadFailed => {
                self.peers.remove(&id);
                assert(self@.peers =~= old(self)@.peers.remove(id));
            },
            Received::Malformed(error) => {
                let mut message = "Error decoding packet: ".to_owned();
                message.append(error.as_str());
                effects.push(Effect::Report { message });
            },
            Received::Packet(Packet::Response(_)) => {},
            Received::Packet(Packet::Request(request)) => {
                match request {
                    Request::Chunks(file_hash, chunk_ids) => {
                        round.job = Job::Serving { peer: id, file_hash, left: queue_of(&chunk_ids) };
                    },
                    Request::WriteChunks(file_hash, chunk_ids) => {
                        effects.push(Effect::CreateDir { dir: file_dir(file_hash) });
                        round.job = Job::Storing { peer: id, file_hash, left: queue_of(&chunk_ids) };
                    },
                    Request::HasChunk(file_hash, chunk_id) => {
                        self.add_chunk(file_hash, chunk_id, id);
                    },
                    Request::SetFileName(file_hash, name) => {
                        effects.push(Effect::CreateDir { dir: file_dir(file_hash) });
                        effects.push(
                            Effect::WriteFile {
                                dir: file_dir(file_hash),
                                file: "name".to_owned(),
                                data: name.as_str().as_bytes_vec(),
                            },
                        );
                        self.add_file(file_hash, name);
                    },
                    Request::Speedtest(data) => {
                        effects.push(
                            Effect::Send {
                                to: id,
                                packet: Packet::from(Response::Speedtest(data)),
                            },
                        );
                    },
                    other => {
                        effects.push(report_unhandled(&other));
                    },
                }
            },
        }
        assert(effects_view(effects@) =~= effects_after(id, received@));
        assert(round@.queue =~= old(round)@.queue.drop_first());
        Ok(effects)
    }

    /// Sends the chunk that was read to the peer that has asked for it.
    pub fn serve_chunk(&mut self, round: &mut Round, chunk: Vec<u8>) -> (effects: Vec<Effect>)
        requires
            old(round)@.wants() is ReadChunk,
            old(self)@.stats.uploaded_chunks < u64::MAX,
        ensures
            final(self)@ == server_after_serving(old(self)@),
            final(round)@ == old(round)@.advanced(),
            effects_view(effects@) == serving_effects(
                old(round)@,
                sha256_digest(chunk@),
                chunk@,
            ),
            old(self)@.wf() ==> final(self)@.wf(),
    {
        let sha = sha256_of_vec(chunk.as_slice());
        self.serve_chunk_with(round, sha, chunk)
    }

    /// Sends a chunk, whose digest is `sha`, to the peer that has asked for
    /// it.
    pub fn serve_chunk_with(
        &mut self,
        round: &mut Round,
        sha: [u8; 32],
        chunk: Vec<u8>,
    ) -> (effects: Vec<Effect>)
        requires
            old(round)@.wants() is ReadChunk,
            old(self)@.stats.uploaded_chunks < u64::MAX,
        ensures
            final(self)@ == server_after_serving(old(self)@),
            final(round)@ == old(round)@.advanced(),
            effects_view(effects@) == serving_effects(old(round)@, sha@, chunk@),
            old(self)@.wf() ==> final(self)@.wf(),
    {
        let mut effects: Vec<Effect> = Vec::new();
        if let Job::Serving { peer, file_hash, left } = &mut round.job {
            let _ = left.pop_front();
            self.stats.uploaded_chunks = self.stats.uploaded_chunks + 1;
            effects.push(
                Effect::Send { to: *peer, packet: Packet::from(Response::Chunk(sha, chunk)) },
            );
        }
        assert(self@ == server_after_serving(old(self)@));
        assert(effects_view(effects@) =~= serving_effects(old(round)@, sha@, chunk@));
        effects
    }

    /// Stores the chunk that a peer has sent.
    pub fn store_chunk(&mut self, round: &mut Round, packet: Packet) -> (effects: Result<
        Vec<Effect>,
        Fault,
    >)
        requires
            old(round)@.wants() is Receive,
        ensures
            match effects {
                Ok(effects) => {
                    let file_hash = old(round)@.job->Storing_file_hash;
                    let chunk_id = old(round)@.job->Storing_left[0];
                    &&& chunk_data(packet@) matches Some(data)
                    &&& final(self)@ == old(self)@.with_own_chunk(file_hash, chunk_id)
                    &&& final(round)@ == old(round)@.advanced()
                    &&& is_storing(
                        file_hash,
                        chunk_id,
                        data,
                        old(self)@.peers.dom(),
                        effects_view(effects@),
                    )
                },
                Err(fault) => {
                    &&& chunk_data(packet@) is None
                    &&& fault == Fault::ExpectedChunk
                    &&& final(self)@ == old(self)@
                    &&& final(round)@ == old(round)@
                },
            },
            old(self)@.wf() ==> final(self)@.wf(),
    {
        let data = match packet {
            Packet::Response(Response::Chunk(_, data)) => data,
            Packet::Request(Request::WriteChunk(data)) => data,
            _ => {
                return Err(Fault::ExpectedChunk);
            },
        };
        let mut effects: Vec<Effect> = Vec::new();
        if let Job::Storing { file_hash, left, .. } = &mut round.job {
            let file_hash = *file_hash;
            let chunk_id = left[0];
            let _ = left.pop_front();
            effects.push(
                Effect::WriteFile { dir: file_dir(file_hash), file: chunk_file(chunk_id), data },
            );
            let mut news = self.add_own_chunk(file_hash, chunk_id);
            let ghost told = news@;
            effects.append(&mut news);
            proof {
                let order = choose|order: Seq<PeerId>|
                    each_once(order, old(self)@.peers.dom()) && effects_view(told)
                        == #[trigger] notices(order, file_hash, chunk_id);
                assert(effects_view(told).len() == order.len());
                assert forall|i: int| 0 <= i < order.len() implies #[trigger] told[i]@ == notices(
                    order,
                    file_hash,
                    chunk_id,
                )[i] by {
                    assert(effects_view(told)[i] == told[i]@);
                }
                assert(effects_view(effects@) =~= storing_effects(
                    file_hash,
                    chunk_id,
                    data@,
                    order,
                ));
                assert(is_storing(
                    file_hash,
                    chunk_id,
                    data@,
                    old(self)@.peers.dom(),
                    effects_view(effects@),
                ));
            }
        }
        assert(round@ == old(round)@.advanced());
        Ok(effects)
    }
}

/// What comes of serving chunks with these contents one after the other.
pub open spec fn serve_all(
    server: ServerView,
    round: RoundView,
    contents: Seq<Seq<u8>>,
) -> (ServerView, RoundView, Seq<EffectView>)
    decreases contents.len(),
{
    if contents.len() == 0 {
        (server, round, Seq::empty())
    } else {
        let (server, round, effects) = serve_all(server, round, contents.drop_last());
        let data = contents.last();
        (
            server_after_serving(server),
            round.advanced(),
            effects + serving_effects(round, sha256_digest(data), data),
        )
    }
}

/// A request for a bunch of chunks is answered in the order of the request:
/// the files of the chunks are read one after the other, and what is read is
/// sent to the peer, each chunk with its digest. Each chunk is counted.
pub proof fn law_chunks_are_served_in_order(
    server: ServerView,
    round: RoundView,
    file_hash: FileHash,
    chunk_ids: Seq<ChunkId>,
    contents: Seq<Seq<u8>>,
)
    requires
        round.wants() is Poll,
        contents.len() <= chunk_ids.len(),
        server.stats.uploaded_chunks + contents.len() <= u64::MAX,
    ensures
        ({
            let peer = round.queue[0];
            let start = round_after(
                round,
                ReceivedView::Packet(
                    PacketView::Request(RequestView::Chunks(file_hash, chunk_ids)),
                ),
            );
            let (server_then, round_then, effects) = serve_all(server, start, contents);
            &&& effects == Seq::new(
                contents.len(),
                |i: int|
                    EffectView::Send {
                        to: peer,
                        packet: chunk_packet(sha256_digest(contents[i]), contents[i]),
                    },
            )
            &&& server_then == (ServerView {
                stats: Stats {
                    uploaded_chunks: (server.stats.uploaded_chunks + contents.len()) as u64,
                    ..server.stats
                },
                ..server
            })
            &&& round_then == (RoundView {
                queue: round.queue.drop_first(),
                job: JobView::Serving {
                    peer,
                    file_hash,
                    left: chunk_ids.skip(contents.len() as int),
                },
            })
            &&& if contents.len() < chunk_ids.len() {
                round_then.wants() == (WantView::ReadChunk {
                    dir: hex(file_hash as nat),
                    file: hex(chunk_ids[contents.len() as int] as nat),
                })
            } else {
                round_then.is_idle()
            }
        }),
    decreases contents.len(),
{
    if contents.len() == 0 {
        assert(chunk_ids.skip(0) =~= chunk_ids);
    } else {
        let fewer = contents.drop_last();
        law_chunks_are_served_in_order(server, round, file_hash, chunk_ids, fewer);
        assert(chunk_ids.skip(fewer.len() as int).drop_first() =~= chunk_ids.skip(
            contents.len() as int,
        ));
        let start = round_after(
            round,
            ReceivedView::Packet(PacketView::Request(RequestView::Chunks(file_hash, chunk_ids))),
        );
        let effects = serve_all(server, start, contents).2;
        assert(effects =~= Seq::new(
            contents.len(),
            |i: int|
                EffectView::Send {
                    to: round.queue[0],
                    packet: chunk_packet(sha256_digest(contents[i]), contents[i]),
                },
        ));
    }
}

/// What comes of storing the first `count` chunks that a peer sends.
pub open spec fn store_all(server: ServerView, round: RoundView, count: nat) -> (
    ServerView,
    RoundView,
)
    decreases count,
{
    if count == 0 {
        (server, round)
    } else {
        let (server, round) = store_all(server, round, (count - 1) as nat);
        (
            server.with_own_chunk(round.job->Storing_file_hash, round.job->Storing_left[0]),
            round.advanced(),
        )
    }
}

/// The chunks of a request to store them are waited for one after the other,
/// and those that have come are stored here, in the order of the request.
pub proof fn law_chunks_are_stored_in_order(
    server: ServerView,
    round: RoundView,
    file_hash: FileHash,
    chunk_ids: Seq<ChunkId>,
    count: nat,
)
    requires
        round.wants() is Poll,
        count <= chunk_ids.len(),
    ensures
        ({
            let peer = round.queue[0];
            let start = round_after(
                round,
                ReceivedView::Packet(
                    PacketView::Request(RequestView::WriteChunks(file_hash, chunk_ids)),
                ),
            );
            let (server_then, round_then) = store_all(server, start, count);
            &&& server_then.stored(file_hash) == server.stored(file_hash) + chunk_ids.take(
                count as int,
            )
            &&& forall|other: FileHash|
                other != file_hash ==> #[trigger] server_then.stored(other) == server.stored(other)
            &&& server_then == (ServerView { own_chunks: server_then.own_chunks, ..server })
            &&& round_then == (RoundView {
                queue: round.queue.drop_first(),
                job: JobView::Storing {
                    peer,
                    file_hash,
                    left: chunk_ids.skip(count as int),
                },
            })
            &&& if count < chunk_ids.len() {
                round_then.wants() == WantView::Receive(peer)
            } else {
                round_then.is_idle()
            }
        }),
    decreases count,
{
    if count == 0 {
        assert(chunk_ids.skip(0) =~= chunk_ids);
        assert(server.stored(file_hash) + chunk_ids.take(0) =~= server.stored(file_hash));
    } else {
        let fewer = (count - 1) as nat;
        law_chunks_are_stored_in_order(server, round, file_hash, chunk_ids, fewer);
        assert(chunk_ids.skip(fewer as int).drop_first() =~= chunk_ids.skip(count as int));
        assert((server.stored(file_hash) + chunk_ids.take(fewer as int)).push(
            chunk_ids[fewer as int],
        ) =~= server.stored(file_hash) + chunk_ids.take(count as int));
        let start = round_after(
            round,
            ReceivedView::Packet(
                PacketView::Request(RequestView::WriteChunks(file_hash, chunk_ids)),
            ),
        );
        let before = store_all(server, start, fewer).0;
        let then = store_all(server, start, count).0;
        assert(then == before.with_own_chunk(file_hash, chunk_ids[fewer as int]));
        assert forall|other: FileHash| other != file_hash implies #[trigger] then.stored(other)
            == server.stored(other) by {
            assert(before.stored(other) == server.stored(other));
        }
    }
}

/// In one iteration each peer has its turn, and none has it twice. `rounds` are
/// the states of the iteration in which a peer is polled, and `received` is what
/// comes from each.
pub proof fn law_each_peer_has_one_turn(
    rounds: Seq<RoundView>,
    received: Seq<ReceivedView>,
    peers: Set<PeerId>,
)
    requires
        0 < rounds.len() == received.len(),
        each_once(rounds[0].queue, peers),
        rounds.len() == rounds[0].queue.len(),
        forall|i: int| 0 <= i < rounds.len() ==> (#[trigger] rounds[i]).wants() is Poll,
        forall|i: int|
            0 < i < rounds.len() ==> (#[trigger] rounds[i]).queue == round_after(
                rounds[i - 1],
                received[i - 1],
            ).queue,
    ensures
        each_once(Seq::new(rounds.len(), |i: int| rounds[i].wants()->Poll_0), peers),
        round_after(rounds.last(), received.last()).queue.len() == 0,
{
    let queues = Seq::new(rounds.len(), |i: int| rounds[i].queue);
    assert forall|i: int| 0 < i < queues.len() implies #[trigger] queues[i] == queues[i
        - 1].drop_first() by {
        assert(rounds[i].queue == round_after(rounds[i - 1], received[i - 1]).queue);
    }
    lemma_heads(queues, peers);
    assert(Seq::new(rounds.len(), |i: int| rounds[i].wants()->Poll_0) =~= Seq::new(
        queues.len(),
        |i: int| queues[i][0],
    ));
}

} // verus!
