//! Handing a file out to the peers.
//!
//! The file is read twice: once for its hash, and once to send its chunks.
use super::round::chunk_packet;
use super::{Server, ServerView, Stats};
use crate::digest::{file_hash_of, sha256_digest, sha256_of_vec, FileHasher};
use crate::effect::{effects_view, Effect, EffectView};
use crate::maps::{each_once, keys_of};
use crate::packet::{Packet, PacketView, Request, RequestView, Response};
use crate::{ChunkId, FileHash, PeerId};
use vstd::prelude::*;

verus! {

/// The size of each chunk of a file but the last.
pub const CHUNK_SIZE: u64 = 512;

/// The number of chunks of a file with `size` bytes.
pub open spec fn chunk_count(size: nat) -> nat {
    (size + 511) / 512
}

/// The number of bytes that the chunk `i` of a file with `size` bytes gets:
/// all chunks but the last are full, and the last one gets the rest.
pub open spec fn chunk_len(size: nat, i: nat) -> nat {
    if i + 1 == chunk_count(size) {
        (size - 512 * i) as nat
    } else {
        512
    }
}

/// The number of bytes in the last chunk of a file with `size` bytes.
pub open spec fn last_chunk_len(size: nat) -> nat {
    if size > 0 && size % 512 == 0 {
        512
    } else {
        size % 512
    }
}

/// How far an upload has come.
pub enum Phase {
    /// The file is read for its hash.
    Hashing { hasher: FileHasher },
    /// The chunks are sent to the peers.
    Sending { file_hash: FileHash, peers: Vec<PeerId> },
}

/// The state of a [`Phase`]; while the file is being hashed, the bytes that
/// were read so far.
pub enum PhaseView {
    Hashing { read: Seq<u8> },
    Sending { file_hash: FileHash, peers: Seq<PeerId> },
}

impl View for Phase {
    type V = PhaseView;

    open spec fn view(&self) -> PhaseView {
        match *self {
            Phase::Hashing { hasher } => PhaseView::Hashing { read: hasher@ },
            Phase::Sending { file_hash, peers } => PhaseView::Sending { file_hash, peers: peers@ },
        }
    }
}

/// An upload that is under way.
pub struct Upload {
    name: String,
    chunks: u64,
    size_of_last: u64,
    next: u64,
    phase: Phase,
}

/// The state of an [`Upload`].
pub struct UploadView {
    pub name: Seq<char>,
    /// The number of chunks of the file.
    pub chunks: u64,
    pub size_of_last: u64,
    /// The chunk that is to be read next.
    pub next: u64,
    pub phase: PhaseView,
}

impl View for Upload {
    type V = UploadView;

    closed spec fn view(&self) -> UploadView {
        UploadView {
            name: self.name@,
            chunks: self.chunks,
            size_of_last: self.size_of_last,
            next: self.next,
            phase: self.phase@,
        }
    }
}

/// What an upload waits for.
#[derive(Clone, Copy, Debug, PartialEq, Eq, Structural)]
pub enum UploadWant {
    /// So many bytes of the file, from where the last read has ended.
    Read(u64),
    /// That the file is read from its beginning again.
    Rewind,
    /// Nothing: the upload is over.
    Nothing,
}

impl UploadView {
    /// What is due next.
    pub open spec fn wants(self) -> UploadWant {
        if self.next < self.chunks {
            UploadWant::Read(
                if self.next + 1 == self.chunks {
                    self.size_of_last
                } else {
                    CHUNK_SIZE
                },
            )
        } else if self.phase is Hashing {
            UploadWant::Rewind
        } else {
            UploadWant::Nothing
        }
    }

    /// The state after `data` was read for the hash.
    pub open spec fn hashed(self, data: Seq<u8>) -> UploadView {
        UploadView {
            next: (self.next + 1) as u64,
            phase: PhaseView::Hashing { read: self.phase->read + data },
            ..self
        }
    }

    /// The state when the hash is known and the chunks can be sent.
    pub open spec fn announced(self, file_hash: FileHash, peers: Seq<PeerId>) -> UploadView {
        UploadView { next: 0, phase: PhaseView::Sending { file_hash, peers }, ..self }
    }

    /// The state after a chunk was sent.
    pub open spec fn sent(self) -> UploadView {
        UploadView { next: (self.next + 1) as u64, ..self }
    }
}

/// The state of an upload of a file before anything of it was read.
pub open spec fn upload_start(name: Seq<char>, size: nat) -> UploadView {
    UploadView {
        name,
        chunks: chunk_count(size) as u64,
        size_of_last: last_chunk_len(size) as u64,
        next: 0,
        phase: PhaseView::Hashing { read: Seq::empty() },
    }
}

/// The packets that tell the peers the name of a file.
pub open spec fn name_packets(
    peers: Seq<PeerId>,
    file_hash: FileHash,
    name: Seq<char>,
) -> Seq<EffectView> {
    Seq::new(
        peers.len(),
        |i: int|
            EffectView::Send {
                to: peers[i],
                packet: PacketView::Request(RequestView::SetFileName(file_hash, name)),
            },
    )
}

/// The packets that bring a chunk to the peers: to each first the request to
/// store it, and then its data.
pub open spec fn chunk_packets(
    peers: Seq<PeerId>,
    file_hash: FileHash,
    chunk_id: ChunkId,
    sha: Seq<u8>,
    data: Seq<u8>,
) -> Seq<EffectView> {
    Seq::new(
        2 * peers.len(),
        |i: int|
            EffectView::Send {
                to: peers[i / 2],
                packet: if i % 2 == 0 {
                    PacketView::Request(RequestView::WriteChunks(file_hash, seq![chunk_id]))
                } else {
                    chunk_packet(sha, data)
                },
            },
    )
}

/// How the upload of a file is announced under the hash `hash`.
pub open spec fn is_announcement(
    before: ServerView,
    upload: UploadView,
    hash: FileHash,
    after: ServerView,
    then: UploadView,
    effects: Seq<EffectView>,
) -> bool {
    let peers = then.phase->peers;
    &&& after == before.with_file(hash, upload.name)
    &&& each_once(peers, before.peers.dom())
    &&& then == upload.announced(hash, peers)
    &&& effects == name_packets(peers, hash, upload.name)
}

/// What a server knows after it has sent a chunk to `count` peers.
pub open spec fn server_after_sending(before: ServerView, count: nat) -> ServerView {
    ServerView {
        stats: Stats {
            uploaded_chunks: (before.stats.uploaded_chunks + count) as u64,
            ..before.stats
        },
        ..before
    }
}

/// What is to be done when the chunk that is due was read.
pub open spec fn sending_effects(upload: UploadView, sha: Seq<u8>, data: Seq<u8>) -> Seq<
    EffectView,
> {
    chunk_packets(
        upload.phase->peers,
        upload.phase->file_hash,
        upload.next,
        sha,
        data,
    ).push(EffectView::Progress { done: (upload.next + 1) as u64, total: upload.chunks })
}

impl Upload {
    /// What is due next.
    pub fn wants(&self) -> (want: UploadWant)
        ensures
            want == self@.wants(),
    {
        if self.next < self.chunks {
            if self.next + 1 == self.chunks {
                UploadWant::Read(self.size_of_last)
            } else {
                UploadWant::Read(CHUNK_SIZE)
            }
        } else {
            match &self.phase {
                Phase::Hashing { .. } => UploadWant::Rewind,
                Phase::Sending { .. } => UploadWant::Nothing,
            }
        }
    }

    /// Whether the file is still being read for its hash.
    pub fn is_hashing(&self) -> (hashing: bool)
        ensures
            hashing == (self@.phase is Hashing),
    {
        match &self.phase {
            Phase::Hashing { .. } => true,
            Phase::Sending { .. } => false,
        }
    }

    /// Takes in the part of the file that was read for the hash.
    pub fn hash_chunk(&mut self, data: &[u8])
        requires
            old(self)@.phase is Hashing,
            old(self)@.wants() == UploadWant::Read(data@.len() as u64),
        ensures
            final(self)@ == old(self)@.hashed(data@),
    {
        if let Phase::Hashing { hasher } = &mut self.phase {
            hasher.update(data);
        }
        self.next = self.next + 1;
    }
}

impl Server {
    /// Starts the upload of a file with the given name and size.
    pub fn upload(&self, name: String, size: u64) -> (upload: Upload)
        requires
            size + 511 <= u64::MAX,
        ensures
            upload@ == upload_start(name@, size as nat),
    {
        let remainder = size % CHUNK_SIZE;
        let size_of_last = if size > 0 && remainder == 0 {
            CHUNK_SIZE
        } else {
            remainder
        };
        Upload {
            name,
            chunks: (size + 511) / CHUNK_SIZE,
            size_of_last,
            next: 0,
            phase: Phase::Hashing { hasher: FileHasher::new() },
        }
    }

    /// Makes the file known once it was read for its hash. All peers are to
    /// be told its name.
    pub fn announce(&mut self, upload: Upload) -> (announced: (Upload, Vec<Effect>))
        requires
            upload@.wants() == UploadWant::Rewind,
        ensures
            is_announcement(
                old(self)@,
                upload@,
                file_hash_of(upload@.phase->read),
                final(self)@,
                announced.0@,
                effects_view(announced.1@),
            ),
            old(self)@.wf() ==> final(self)@.wf(),
    {
        let Upload { name, chunks, size_of_last, next, phase } = upload;
        let hash = match phase {
            Phase::Hashing { hasher } => hasher.finish(),
            Phase::Sending { file_hash, .. } => file_hash,
        };
        let phase = Phase::Sending { file_hash: hash, peers: Vec::new() };
        self.announce_as(Upload { name, chunks, size_of_last, next, phase }, hash)
    }

    /// Makes the file known under the hash `file_hash`.
    pub fn announce_as(&mut self, upload: Upload, file_hash: FileHash) -> (announced: (
        Upload,
        Vec<Effect>,
    ))
        ensures
            is_announcement(
                old(self)@,
                upload@,
                file_hash,
                final(self)@,
                announced.0@,
                effects_view(announced.1@),
            ),
            old(self)@.wf() ==> final(self)@.wf(),
    {
        let Upload { name, chunks, size_of_last, .. } = upload;
        self.add_file(file_hash, name.clone());
        assert(self@.peers.dom() =~= self.peers@.dom());
        let peers = keys_of(&self.peers);
        let mut effects: Vec<Effect> = Vec::new();
        for i in 0..peers.len()
            invariant
                effects.len() == i,
                forall|j: int|
                    0 <= j < i ==> #[trigger] effects[j]@ == name_packets(
                        peers@,
                        file_hash,
                        name@,
                    )[j],
        {
            effects.push(
                Effect::Send {
                    to: peers[i],
                    packet: Packet::from(Request::SetFileName(file_hash, name.clone())),
                },
            );
        }
        assert(effects_view(effects@) =~= name_packets(peers@, file_hash, name@));
        (
            Upload {
                name,
                chunks,
                size_of_last,
                next: 0,
                phase: Phase::Sending { file_hash, peers },
            },
            effects,
        )
    }

    /// Sends the chunk that was read to all peers.
    pub fn send_chunk(&mut self, upload: &mut Upload, data: &Vec<u8>) -> (effects: Vec<Effect>)
        requires
            old(upload)@.phase is Sending,
            old(upload)@.wants() == UploadWant::Read(data@.len() as u64),
            old(self)@.stats.uploaded_chunks + old(upload)@.phase->peers.len() <= u64::MAX,
        ensures
            final(self)@ == server_after_sending(old(self)@, old(upload)@.phase->peers.len()),
            final(upload)@ == old(upload)@.sent(),
            effects_view(effects@) == sending_effects(
                old(upload)@,
                sha256_digest(data@),
                data@,
            ),
            old(self)@.wf() ==> final(self)@.wf(),
    {
        let sha = sha256_of_vec(data.as_slice());
        self.send_chunk_with(upload, sha, data)
    }

    /// Sends a chunk, whose digest is `sha`, to all peers.
    pub fn send_chunk_with(&mut self, upload: &mut Upload, sha: [u8; 32], data: &Vec<u8>) -> (effects:
        Vec<Effect>)
        requires
            old(upload)@.phase is Sending,
            old(upload)@.wants() == UploadWant::Read(data@.len() as u64),
            old(self)@.stats.uploaded_chunks + old(upload)@.phase->peers.len() <= u64::MAX,
        ensures
            final(self)@ == server_after_sending(old(self)@, old(upload)@.phase->peers.len()),
            final(upload)@ == old(upload)@.sent(),
            effects_view(effects@) == sending_effects(old(upload)@, sha@, data@),
            old(self)@.wf() ==> final(self)@.wf(),
    {
        let chunk_id = upload.next;
        let mut effects: Vec<Effect> = Vec::new();
        if let Phase::Sending { file_hash, peers } = &upload.phase {
            let ghost packets = chunk_packets(peers@, *file_hash, chunk_id, sha@, data@);
            for i in 0..peers.len()
                invariant
                    packets == chunk_packets(peers@, *file_hash, chunk_id, sha@, data@),
                    effects.len() == 2 * i,
                    forall|j: int| 0 <= j < 2 * i ==> #[trigger] effects[j]@ == packets[j],
                    old(self)@.stats.uploaded_chunks + peers.len() <= u64::MAX,
                    self@ == server_after_sending(old(self)@, i as nat),
            {
                let to = peers[i];
                let ids: Vec<ChunkId> = vec![chunk_id];
                assert(ids@ =~= seq![chunk_id]);
                effects.push(
                    Effect::Send { to, packet: Packet::from(Request::WriteChunks(*file_hash, ids)) },
                );
                let copy = data.clone();
                assert(copy@ =~= data@);
                effects.push(
                    Effect::Send { to, packet: Packet::from(Response::Chunk(sha, copy)) },
                );
                assert(effects[2 * i as int]@ == packets[2 * i as int]);
                assert(effects[2 * i as int + 1]@ == packets[2 * i as int + 1]);
                self.stats.uploaded_chunks = self.stats.uploaded_chunks + 1;
                assert(self@ == server_after_sending(old(self)@, i as nat + 1));
            }
        }
        effects.push(Effect::Progress { done: chunk_id + 1, total: upload.chunks });
        upload.next = chunk_id + 1;
        assert(effects_view(effects@) =~= sending_effects(old(upload)@, sha@, data@));
        effects
    }
}

/// The part of a file that is uploaded as its chunk `i`.
pub open spec fn part(data: Seq<u8>, i: int) -> Seq<u8> {
    data.subrange(512 * i, 512 * i + chunk_len(data.len(), i as nat))
}

/// The parts of a file that are uploaded, in order.
pub open spec fn parts(data: Seq<u8>) -> Seq<Seq<u8>> {
    Seq::new(chunk_count(data.len()), |i: int| part(data, i))
}

/// The contents of some chunks, one after the other.
pub open spec fn together(chunks: Seq<Seq<u8>>) -> Seq<u8>
    decreases chunks.len(),
{
    if chunks.len() == 0 {
        Seq::empty()
    } else {
        together(chunks.drop_last()) + chunks.last()
    }
}

/// How many bytes the first `count` chunks of a file have together.
pub open spec fn parts_len(size: nat, count: nat) -> nat {
    if count == chunk_count(size) {
        size
    } else {
        512 * count
    }
}

proof fn lemma_first_parts(data: Seq<u8>, count: nat)
    requires
        count <= chunk_count(data.len()),
    ensures
        parts_len(data.len(), count) <= data.len(),
        together(parts(data).take(count as int)) == data.take(
            parts_len(data.len(), count) as int,
        ),
    decreases count,
{
    if count == 0 {
        assert(together(parts(data).take(0)) =~= data.take(0));
    } else {
        let fewer = (count - 1) as nat;
        lemma_first_parts(data, fewer);
        assert(parts(data).take(count as int).drop_last() =~= parts(data).take(fewer as int));
        assert(data.take(parts_len(data.len(), fewer) as int) + part(data, fewer as int)
            =~= data.take(parts_len(data.len(), count) as int));
    }
}

/// The chunks of a file are, together, the whole file. All of them but the
/// last are full, and none is empty.
pub proof fn law_chunks_make_up_the_file(data: Seq<u8>)
    ensures
        together(parts(data)) == data,
        forall|i: int|
            0 <= i < parts(data).len() - 1 ==> (#[trigger] parts(data)[i]).len() == 512,
        parts(data).len() > 0 ==> 0 < parts(data).last().len() <= 512,
{
    lemma_first_parts(data, chunk_count(data.len()));
    assert(parts(data).take(parts(data).len() as int) =~= parts(data));
    assert(data.take(data.len() as int) =~= data);
}

/// The state of an upload after these chunks were read for the hash.
pub open spec fn hash_all(upload: UploadView, chunks: Seq<Seq<u8>>) -> UploadView
    decreases chunks.len(),
{
    if chunks.len() == 0 {
        upload
    } else {
        hash_all(upload, chunks.drop_last()).hashed(chunks.last())
    }
}

/// A file is read for its hash part by part, each with the length of the
/// chunk that it will be, and what is hashed is what the chunks will be
/// together.
pub proof fn law_chunks_are_hashed(name: Seq<char>, data: Seq<u8>, count: nat)
    requires
        data.len() + 511 <= u64::MAX,
        count <= chunk_count(data.len()),
    ensures
        ({
            let then = hash_all(
                upload_start(name, data.len()),
                parts(data).take(count as int),
            );
            &&& then == (UploadView {
                next: count as u64,
                phase: PhaseView::Hashing { read: together(parts(data).take(count as int)) },
                ..upload_start(name, data.len())
            })
            &&& then.wants() == if count < chunk_count(data.len()) {
                UploadWant::Read(part(data, count as int).len() as u64)
            } else {
                UploadWant::Rewind
            }
        }),
    decreases count,
{
    if count < chunk_count(data.len()) {
        lemma_first_parts(data, count + 1);
    }
    if count == 0 {
        assert(parts(data).take(0) =~= Seq::empty());
    } else {
        let fewer = (count - 1) as nat;
        law_chunks_are_hashed(name, data, fewer);
        assert(parts(data).take(count as int).drop_last() =~= parts(data).take(fewer as int));
    }
}

/// The state of an upload after `count` more chunks were sent.
pub open spec fn send_all(upload: UploadView, count: nat) -> UploadView
    decreases count,
{
    if count == 0 {
        upload
    } else {
        send_all(upload, (count - 1) as nat).sent()
    }
}

/// Once a file is announced, its parts are read again, and each is sent to all
/// peers under its number; the upload ends with the last one.
pub proof fn law_chunks_are_sent(
    name: Seq<char>,
    data: Seq<u8>,
    file_hash: FileHash,
    peers: Seq<PeerId>,
    count: nat,
)
    requires
        data.len() + 511 <= u64::MAX,
        count <= chunk_count(data.len()),
    ensures
        ({
            let start = upload_start(name, data.len()).announced(file_hash, peers);
            let then = send_all(start, count);
            &&& then == (UploadView { next: count as u64, ..start })
            &&& if count < chunk_count(data.len()) {
                let chunk = part(data, count as int);
                let sha = sha256_digest(chunk);
                &&& then.wants() == UploadWant::Read(chunk.len() as u64)
                &&& sending_effects(then, sha, chunk) == chunk_packets(
                    peers,
                    file_hash,
                    count as u64,
                    sha,
                    chunk,
                ).push(
                    EffectView::Progress {
                        done: (count + 1) as u64,
                        total: chunk_count(data.len()) as u64,
                    },
                )
            } else {
                then.wants() == UploadWant::Nothing
            }
        }),
    decreases count,
{
    if count < chunk_count(data.len()) {
        lemma_first_parts(data, count + 1);
    }
    if count > 0 {
        law_chunks_are_sent(name, data, file_hash, peers, (count - 1) as nat);
    }
}

/// What a server knows after it has sent `count` chunks to `peers` peers each.
pub open spec fn server_after_upload(before: ServerView, peers: nat, count: nat) -> ServerView
    decreases count,
{
    if count == 0 {
        before
    } else {
        server_after_sending(server_after_upload(before, peers, (count - 1) as nat), peers)
    }
}

/// An upload counts each chunk once for each peer that it was sent to, and
/// changes nothing else that the server knows.
pub proof fn law_uploads_are_counted(before: ServerView, peers: nat, count: nat)
    requires
        before.stats.uploaded_chunks + count * peers <= u64::MAX,
    ensures
        server_after_upload(before, peers, count) == server_after_sending(before, count * peers),
    decreases count,
{
    if count == 0 {
        assert(0 * peers == 0);
    } else {
        let fewer = (count - 1) as nat;
        assert(count * peers == fewer * peers + peers) by (nonlinear_arith)
            requires
                count == fewer + 1,
        ;
        law_uploads_are_counted(before, peers, fewer);
    }
}

} // verus!
