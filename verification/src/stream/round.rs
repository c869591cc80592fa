//! One iteration of the streaming server, in which each peer has its turn.
use super::{Fault, Request, RequestView, Response, ResponseView, Server, ServerView};
use crate::maps::{each_once, keys_of, lemma_heads, queue_of};
use crate::radix::hex;
use crate::store::{chunk_file, file_dir};
use crate::{ChunkId, FileHash, PeerId};
use std::collections::VecDeque;
use vstd::prelude::*;
use vstd::string::*;

verus! {

/// The most data that a chunk can have.
pub const MAX_CHUNK_SIZE: u16 = 512;

/// What was found on the connection to a peer.
pub enum Received {
    Request(Request),
    /// No request has come.
    WouldBlock,
    /// Reading from the connection failed.
    ReadFailed,
    /// What came is no request.
    Malformed,
}

/// What a [`Received`] says.
pub enum ReceivedView {
    Request(RequestView),
    WouldBlock,
    ReadFailed,
    Malformed,
}

impl View for Received {
    type V = ReceivedView;

    open spec fn view(&self) -> ReceivedView {
        match *self {
            Received::Request(request) => ReceivedView::Request(request@),
            Received::WouldBlock => ReceivedView::WouldBlock,
            Received::ReadFailed => ReceivedView::ReadFailed,
            Received::Malformed => ReceivedView::Malformed,
        }
    }
}

/// Something to be done outside, in the order in which it is given.
#[derive(PartialEq, Eq)]
pub enum Effect {
    /// Send a response to a peer.
    Respond { to: PeerId, response: Response },
    /// Send the data of a chunk to a peer.
    SendData { to: PeerId, data: Vec<u8> },
    /// Write a file, in place of one that may be there.
    WriteFile { dir: String, file: String, data: Vec<u8> },
    /// Log a message.
    Report { message: String },
}

/// What an [`Effect`] says.
pub enum EffectView {
    Respond { to: PeerId, response: ResponseView },
    SendData { to: PeerId, data: Seq<u8> },
    WriteFile { dir: Seq<char>, file: Seq<char>, data: Seq<u8> },
    Report { message: Seq<char> },
}

impl View for Effect {
    type V = EffectView;

    open spec fn view(&self) -> EffectView {
        match *self {
            Effect::Respond { to, response } => EffectView::Respond { to, response: response@ },
            Effect::SendData { to, data } => EffectView::SendData { to, data: data@ },
            Effect::WriteFile { dir, file, data } => EffectView::WriteFile {
                dir: dir@,
                file: file@,
                data: data@,
            },
            Effect::Report { message } => EffectView::Report { message: message@ },
        }
    }
}

pub open spec fn effect_view(effect: Option<Effect>) -> Option<EffectView> {
    match effect {
        Some(effect) => Some(effect@),
        None => None,
    }
}

/// What a peer has asked for.
pub enum Job {
    Idle,
    /// Chunks are to be sent; the size of the last one comes first.
    Sizing { peer: PeerId, file_hash: FileHash, left: VecDeque<ChunkId> },
    /// The data of chunks is sent.
    Serving { peer: PeerId, file_hash: FileHash, left: VecDeque<ChunkId> },
    /// The data of chunks is received.
    Storing { peer: PeerId, file_hash: FileHash, left: VecDeque<ChunkId>, last_size: u16 },
}

/// The state of a [`Job`], with the chunks that are still to come.
pub enum JobView {
    Idle,
    Sizing { peer: PeerId, file_hash: FileHash, left: Seq<ChunkId> },
    Serving { peer: PeerId, file_hash: FileHash, left: Seq<ChunkId> },
    Storing { peer: PeerId, file_hash: FileHash, left: Seq<ChunkId>, last_size: u16 },
}

impl View for Job {
    type V = JobView;

    open spec fn view(&self) -> JobView {
        match *self {
            Job::Idle => JobView::Idle,
            Job::Sizing { peer, file_hash, left } => JobView::Sizing {
                peer,
                file_hash,
                left: left@,
            },
            Job::Serving { peer, file_hash, left } => JobView::Serving {
                peer,
                file_hash,
                left: left@,
            },
            Job::Storing { peer, file_hash, left, last_size } => JobView::Storing {
                peer,
                file_hash,
                left: left@,
                last_size,
            },
        }
    }
}

/// An iteration that is under way.
pub struct Round {
    queue: VecDeque<PeerId>,
    job: Job,
}

/// The state of a [`Round`]: the peers that have not had their turn, and what
/// the peer whose turn it is has asked for.
pub struct RoundView {
    pub queue: Seq<PeerId>,
    pub job: JobView,
}

impl View for Round {
    type V = RoundView;

    closed spec fn view(&self) -> RoundView {
        RoundView { queue: self.queue@, job: self.job@ }
    }
}

/// What an iteration waits for.
#[derive(PartialEq, Eq)]
pub enum Want {
    /// A request from the peer, if there is one.
    Poll(PeerId),
    /// The size of a chunk's file.
    Measure { dir: String, file: String },
    /// The contents of a chunk's file.
    ReadChunk { dir: String, file: String },
    /// So many bytes from the peer.
    Receive { from: PeerId, count: u16 },
    /// Nothing: what the peer has asked for cannot be done.
    Fail(Fault),
    /// Nothing: the iteration is over.
    Nothing,
}

/// What a [`Want`] says.
pub enum WantView {
    Poll(PeerId),
    Measure { dir: Seq<char>, file: Seq<char> },
    ReadChunk { dir: Seq<char>, file: Seq<char> },
    Receive { from: PeerId, count: u16 },
    Fail(Fault),
    Nothing,
}

impl View for Want {
    type V = WantView;

    open spec fn view(&self) -> WantView {
        match *self {
            Want::Poll(peer) => WantView::Poll(peer),
            Want::Measure { dir, file } => WantView::Measure { dir: dir@, file: file@ },
            Want::ReadChunk { dir, file } => WantView::ReadChunk { dir: dir@, file: file@ },
            Want::Receive { from, count } => WantView::Receive { from, count },
            Want::Fail(fault) => WantView::Fail(fault),
            Want::Nothing => WantView::Nothing,
        }
    }
}

impl JobView {
    /// The chunks that are still to come.
    pub open spec fn left(self) -> Seq<ChunkId> {
        match self {
            JobView::Idle => Seq::empty(),
            JobView::Sizing { left, .. } => left,
            JobView::Serving { left, .. } => left,
            JobView::Storing { left, .. } => left,
        }
    }
}

impl RoundView {
    /// What is due next.
    pub open spec fn wants(self) -> WantView {
        if self.job.left().len() == 0 {
            if self.queue.len() == 0 {
                WantView::Nothing
            } else {
                WantView::Poll(self.queue[0])
            }
        } else {
            match self.job {
                JobView::Sizing { file_hash, left, .. } => WantView::Measure {
                    dir: hex(file_hash as nat),
                    file: hex(left.last() as nat),
                },
                JobView::Serving { file_hash, left, .. } => WantView::ReadChunk {
                    dir: hex(file_hash as nat),
                    file: hex(left[0] as nat),
                },
                JobView::Storing { peer, left, last_size, .. } => if left.len() > 1 {
                    WantView::Receive { from: peer, count: MAX_CHUNK_SIZE }
                } else if last_size <= MAX_CHUNK_SIZE {
                    WantView::Receive { from: peer, count: last_size }
                } else {
                    WantView::Fail(Fault::OversizedChunk(last_size))
                },
                JobView::Idle => WantView::Nothing,
            }
        }
    }

    /// The state when the size of the last chunk was sent.
    pub open spec fn measured(self) -> RoundView {
        RoundView {
            job: match self.job {
                JobView::Sizing { peer, file_hash, left } => JobView::Serving {
                    peer,
                    file_hash,
                    left,
                },
                other => other,
            },
            ..self
        }
    }

    /// The state when the chunk that is due next is done.
    pub open spec fn advanced(self) -> RoundView {
        RoundView {
            job: match self.job {
                JobView::Serving { peer, file_hash, left } => JobView::Serving {
                    peer,
                    file_hash,
                    left: left.drop_first(),
                },
                JobView::Storing { peer, file_hash, left, last_size } => JobView::Storing {
                    peer,
                    file_hash,
                    left: left.drop_first(),
                    last_size,
                },
                other => other,
            },
            ..self
        }
    }
}

/// An iteration that starts: all peers are to have their turns.
pub open spec fn is_start_of_round(server: ServerView, round: RoundView) -> bool {
    &&& each_once(round.queue, server.peers.dom())
    &&& round.job is Idle
}

/// What is asked for with `received`, or why it cannot be done.
pub open spec fn job_after(id: PeerId, received: ReceivedView) -> Result<JobView, Fault> {
    match received {
        ReceivedView::Request(RequestView::Chunks(file_hash, ids)) => if ids.len() == 0 {
            Err(Fault::NoChunks)
        } else {
            Ok(JobView::Sizing { peer: id, file_hash, left: ids })
        },
        ReceivedView::Request(RequestView::WriteChunks(file_hash, ids, last_size)) => if ids.len()
            == 0 {
            Err(Fault::NoChunks)
        } else {
            Ok(JobView::Storing { peer: id, file_hash, left: ids, last_size })
        },
        ReceivedView::Request(RequestView::Seed { .. }) => Err(Fault::Unimplemented),
        _ => Ok(JobView::Idle),
    }
}

/// What is to be done at once when `received` has come.
pub open spec fn effect_after(received: ReceivedView) -> Option<EffectView> {
    match received {
        ReceivedView::WouldBlock => Some(EffectView::Report { message: "uh oh"@ }),
        ReceivedView::Malformed => Some(EffectView::Report { message: "uh oh2"@ }),
        _ => None,
    }
}

/// The response that comes before the data of chunks: the size of the last
/// one, as far as it fits into the response.
pub open spec fn size_response(size: u64) -> ResponseView {
    ResponseView::Chunks((size % 0x10000) as u16)
}

/// What is to be done when the size of the last chunk is known.
pub open spec fn announcement(round: RoundView, size: u64) -> EffectView {
    EffectView::Respond { to: round.job->Sizing_peer, response: size_response(size) }
}

/// What is to be done when the chunk that is due was read.
pub open spec fn sending(round: RoundView, data: Seq<u8>) -> EffectView {
    EffectView::SendData { to: round.job->Serving_peer, data }
}

/// What is to be done when the data of the chunk that is due has come.
pub open spec fn writing(round: RoundView, data: Seq<u8>) -> EffectView {
    EffectView::WriteFile {
        dir: hex(round.job->Storing_file_hash as nat),
        file: hex(round.job->Storing_left[0] as nat),
        data,
    }
}

impl Server {
    /// Starts one iteration of the server.
    pub fn run_once(&self) -> (round: Round)
        ensures
            is_start_of_round(self@, round@),
    {
        assert(self@.peers.dom() =~= self.peers@.dom());
        Round { queue: queue_of(&keys_of(&self.peers)), job: Job::Idle }
    }
}

impl Round {
    /// What is due next.
    pub fn wants(&self) -> (want: Want)
        ensures
            want@ == self@.wants(),
    {
        match &self.job {
            Job::Sizing { file_hash, left, .. } => {
                if left.len() > 0 {
                    return Want::Measure {
                        dir: file_dir(*file_hash),
                        file: chunk_file(left[left.len() - 1]),
                    };
                }
            },
            Job::Serving { file_hash, left, .. } => {
                if left.len() > 0 {
                    return Want::ReadChunk {
                        dir: file_dir(*file_hash),
                        file: chunk_file(left[0]),
                    };
                }
            },
            Job::Storing { peer, left, last_size, .. } => {
                if left.len() > 1 {
                    return Want::Receive { from: *peer, count: MAX_CHUNK_SIZE };
                }
                if left.len() == 1 {
                    if *last_size <= MAX_CHUNK_SIZE {
                        return Want::Receive { from: *peer, count: *last_size };
                    }
                    return Want::Fail(Fault::OversizedChunk(*last_size));
                }
            },
            Job::Idle => {},
        }
        if self.queue.len() == 0 {
            Want::Nothing
        } else {
            Want::Poll(self.queue[0])
        }
    }

    /// Acts on what the peer whose turn it is has sent, if anything.
    pub fn poll(&mut self, received: Received) -> (effect: Result<Option<Effect>, Fault>)
        requires
            old(self)@.wants() is Poll,
        ensures
            match effect {
                Ok(effect) => {
                    let id = old(self)@.queue[0];
                    &&& job_after(id, received@) is Ok
                    &&& final(self)@ == (RoundView {
                        queue: old(self)@.queue.drop_first(),
                        job: job_after(id, received@)->Ok_0,
                    })
                    &&& effect_view(effect) == effect_after(received@)
                },
                Err(fault) => {
                    &&& job_after(old(self)@.queue[0], received@) == Err::<JobView, Fault>(fault)
                    &&& final(self)@ == old(self)@
                },
            },
    {
        let id = self.queue[0];
        let mut effect: Option<Effect> = None;
        let job = match received {
            Received::Request(request) => match request {
                Request::Chunks(file_hash, ids) => {
                    if ids.len() == 0 {
                        return Err(Fault::NoChunks);
                    }
                    Job::Sizing { peer: id, file_hash, left: queue_of(&ids) }
                },
                Request::WriteChunks(file_hash, ids, last_size) => {
                    if ids.len() == 0 {
                        return Err(Fault::NoChunks);
                    }
                    Job::Storing { peer: id, file_hash, left: queue_of(&ids), last_size }
                },
                Request::Seed { .. } => {
                    return Err(Fault::Unimplemented);
                },
            },
            Received::WouldBlock => {
                effect = Some(Effect::Report { message: "uh oh".to_owned() });
                Job::Idle
            },
            Received::Malformed => {
                effect = Some(Effect::Report { message: "uh oh2".to_owned() });
                Job::Idle
            },
            Received::ReadFailed => Job::Idle,
        };
        let _ = self.queue.pop_front();
        self.job = job;
        assert(self@.queue =~= old(self)@.queue.drop_first());
        Ok(effect)
    }

    /// Announces chunks to the peer that has asked for them, when the size of
    /// the last one is known.
    pub fn announce(&mut self, size: u64) -> (effect: Effect)
        requires
            old(self)@.wants() is Measure,
        ensures
            final(self)@ == old(self)@.measured(),
            effect@ == announcement(old(self)@, size),
    {
        let mut job = Job::Idle;
        std::mem::swap(&mut self.job, &mut job);
        let response = Response::Chunks((size % 0x10000) as u16);
        match job {
            Job::Sizing { peer, file_hash, left } => {
                self.job = Job::Serving { peer, file_hash, left };
                Effect::Respond { to: peer, response }
            },
            _ => Effect::Respond { to: 0, response },
        }
    }

    /// Sends the data of the chunk that was read to the peer that has asked
    /// for it.
    pub fn serve_chunk(&mut self, chunk: Vec<u8>) -> (effect: Effect)
        requires
            old(self)@.wants() is ReadChunk,
        ensures
            final(self)@ == old(self)@.advanced(),
            effect@ == sending(old(self)@, chunk@),
    {
        let mut to: PeerId = 0;
        if let Job::Serving { peer, left, .. } = &mut self.job {
            to = *peer;
            let _ = left.pop_front();
        }
        assert(self@ == old(self)@.advanced());
        Effect::SendData { to, data: chunk }
    }

    /// Stores the chunk whose data has come.
    pub fn store_chunk(&mut self, data: Vec<u8>) -> (effect: Effect)
        requires
            old(self)@.wants() matches WantView::Receive { count, .. } && data@.len() == count,
        ensures
            final(self)@ == old(self)@.advanced(),
            effect@ == writing(old(self)@, data@),
    {
        let mut hash: FileHash = 0;
        let mut id: ChunkId = 0;
        if let Job::Storing { file_hash, left, .. } = &mut self.job {
            hash = *file_hash;
            id = left[0];
            let _ = left.pop_front();
        }
        assert(self@ == old(self)@.advanced());
        Effect::WriteFile { dir: file_dir(hash), file: chunk_file(id), data }
    }
}

/// The state of an iteration in which the peer at the head of the queue has
/// sent `received`, which can be done.
pub open spec fn round_after(round: RoundView, received: ReceivedView) -> RoundView {
    RoundView {
        queue: round.queue.drop_first(),
        job: job_after(round.queue[0], received)->Ok_0,
    }
}

/// The state after `count` more chunks were sent or stored.
pub open spec fn advance_all(round: RoundView, count: nat) -> RoundView
    decreases count,
{
    if count == 0 {
        round
    } else {
        advance_all(round, (count - 1) as nat).advanced()
    }
}

/// A request for a bunch of chunks is answered with the size of the file of
/// the last one, and then with the chunks, which are read and sent in the
/// order of the request.
pub proof fn law_chunks_are_streamed_in_order(
    round: RoundView,
    file_hash: FileHash,
    ids: Seq<ChunkId>,
    count: nat,
)
    requires
        round.wants() is Poll,
        ids.len() > 0,
        count <= ids.len(),
    ensures
        ({
            let peer = round.queue[0];
            let asked = ReceivedView::Request(RequestView::Chunks(file_hash, ids));
            let start = round_after(round, asked);
            let then = advance_all(start.measured(), count);
            &&& job_after(peer, asked) is Ok
            &&& start.wants() == (WantView::Measure {
                dir: hex(file_hash as nat),
                file: hex(ids.last() as nat),
            })
            &&& start.job->Sizing_peer == peer
            &&& then == (RoundView {
                queue: round.queue.drop_first(),
                job: JobView::Serving { peer, file_hash, left: ids.skip(count as int) },
            })
            &&& count < ids.len() ==> then.wants() == (WantView::ReadChunk {
                dir: hex(file_hash as nat),
                file: hex(ids[count as int] as nat),
            })
            &&& count == ids.len() ==> then.job.left().len() == 0
        }),
    decreases count,
{
    if count == 0 {
        assert(ids.skip(0) =~= ids);
    } else {
        let fewer = (count - 1) as nat;
        law_chunks_are_streamed_in_order(round, file_hash, ids, fewer);
        assert(ids.skip(fewer as int).drop_first() =~= ids.skip(count as int));
    }
}

/// The chunks of a request to store them are received and stored in the order
/// of the request. All of them but the last are full; the last has the size
/// that the request says, unless that is more than a chunk can have.
pub proof fn law_chunks_are_stored_in_order(
    round: RoundView,
    file_hash: FileHash,
    ids: Seq<ChunkId>,
    last_size: u16,
    count: nat,
)
    requires
        round.wants() is Poll,
        ids.len() > 0,
        count <= ids.len(),
    ensures
        ({
            let peer = round.queue[0];
            let asked = ReceivedView::Request(
                RequestView::WriteChunks(file_hash, ids, last_size),
            );
            let then = advance_all(round_after(round, asked), count);
            &&& job_after(peer, asked) is Ok
            &&& then == (RoundView {
                queue: round.queue.drop_first(),
                job: JobView::Storing {
                    peer,
                    file_hash,
                    left: ids.skip(count as int),
                    last_size,
                },
            })
            &&& count < ids.len() ==> then.job->Storing_left[0] == ids[count as int]
            &&& count + 1 < ids.len() ==> then.wants() == (WantView::Receive {
                from: peer,
                count: MAX_CHUNK_SIZE,
            })
            &&& count + 1 == ids.len() && last_size <= MAX_CHUNK_SIZE ==> then.wants() == (
            WantView::Receive { from: peer, count: last_size })
            &&& count + 1 == ids.len() && last_size > MAX_CHUNK_SIZE ==> then.wants()
                == WantView::Fail(Fault::OversizedChunk(last_size))
            &&& count == ids.len() ==> then.job.left().len() == 0
        }),
    decreases count,
{
    if count == 0 {
        assert(ids.skip(0) =~= ids);
    } else {
        let fewer = (count - 1) as nat;
        law_chunks_are_stored_in_order(round, file_hash, ids, last_size, fewer);
        assert(ids.skip(fewer as int).drop_first() =~= ids.skip(count as int));
    }
}

/// In one iteration each peer has its turn, and none has it twice. `rounds` are
/// the states of the iteration in which a peer is polled, and `received` is what
/// comes from each.
pub proof fn law_each_peer_has_one_turn(
    rounds: Seq<RoundView>,
    received: Seq<ReceivedView>,
    peers: Set<PeerId>,
)
    requires
        0 < rounds.len() == received.len(),
        each_once(rounds[0].queue, peers),
        rounds.len() == rounds[0].queue.len(),
        forall|i: int| 0 <= i < rounds.len() ==> (#[trigger] rounds[i]).wants() is Poll,
        forall|i: int|
            0 < i < rounds.len() ==> (#[trigger] rounds[i]).queue == round_after(
                rounds[i - 1],
                received[i - 1],
            ).queue,
    ensures
        each_once(Seq::new(rounds.len(), |i: int| rounds[i].wants()->Poll_0), peers),
        round_after(rounds.last(), received.last()).queue.len() == 0,
{
    let queues = Seq::new(rounds.len(), |i: int| rounds[i].queue);
    assert forall|i: int| 0 < i < queues.len() implies #[trigger] queues[i] == queues[i
        - 1].drop_first() by {
        assert(rounds[i].queue == round_after(rounds[i - 1], received[i - 1]).queue);
    }
    lemma_heads(queues, peers);
    assert(Seq::new(rounds.len(), |i: int| rounds[i].wants()->Poll_0) =~= Seq::new(
        queues.len(),
        |i: int| queues[i][0],
    ));
}

} // verus!
