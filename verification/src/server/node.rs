//! A node together with its disk, over any number of iterations.
//!
//! A run is a sequence of events, each of which is one step of
//! [`Server`](super::Server) with what came of it on disk.
use super::download::{
    effects_after_answer, server_after_answer, server_after_download, start_effects, weighed,
    Answer, DownloadView, DownloadWantView,
};
use super::round::{
    chunk_data, chunk_packet, effects_after, is_storing, round_after, server_after,
    server_after_serving, serving_effects, storing_effects, JobView, RoundView,
};
use super::upload::{
    name_packets, sending_effects, server_after_sending, UploadView, UploadWant,
};
use super::{notices, unhandled, welcomed, ServerView};
use crate::digest::{file_hash_of, sha256_digest};
use crate::effect::EffectView;
use crate::maps::each_once;
use crate::packet::{PacketView, RequestView};
use crate::peer::ReceivedView;
use crate::radix::{hex, law_hex_names_are_distinct};
use crate::store::lemma_words_are_no_numbers;
use crate::{ChunkId, FileHash, PeerId};
use vstd::prelude::*;

verus! {

/// The directory of the chunks: the directories in it, and the contents of the
/// files in these.
#[verifier::ext_equal]
pub struct Disk {
    pub dirs: Set<Seq<char>>,
    pub files: Map<(Seq<char>, Seq<char>), Seq<u8>>,
}

impl Disk {
    /// The disk after one effect was carried out.
    pub open spec fn after_one(self, effect: EffectView) -> Disk {
        match effect {
            EffectView::CreateDir { dir } => Disk { dirs: self.dirs.insert(dir), ..self },
            EffectView::WriteFile { dir, file, data } => Disk {
                files: self.files.insert((dir, file), data),
                ..self
            },
            EffectView::Append { dir, file, data } => Disk {
                files: self.files.insert((dir, file), self.files[(dir, file)] + data),
                ..self
            },
            _ => self,
        }
    }

    /// The disk after some effects were carried out.
    pub open spec fn after(self, effects: Seq<EffectView>) -> Disk
        decreases effects.len(),
    {
        if effects.len() == 0 {
            self
        } else {
            self.after(effects.drop_last()).after_one(effects.last())
        }
    }

    /// The chunk is on disk with the contents `data`.
    pub open spec fn holds(self, file_hash: FileHash, chunk_id: ChunkId, data: Seq<u8>) -> bool {
        let path = (hex(file_hash as nat), hex(chunk_id as nat));
        self.files.contains_key(path) && self.files[path] == data
    }
}

/// A server, its disk, and the iteration that it is in.
pub struct NodeView {
    pub server: ServerView,
    pub disk: Disk,
    pub round: RoundView,
}

/// A step of a node.
pub enum Event {
    /// A new client has connected and has sent its first packet. In the answer
    /// to it, peers and files are listed in the given orders.
    Join {
        id: PeerId,
        addr: Seq<char>,
        first: PacketView,
        peer_order: Seq<PeerId>,
        file_order: Seq<FileHash>,
    },
    /// An iteration starts, in which the peers have their turns in this order.
    Start { queue: Seq<PeerId> },
    /// The peer whose turn it is was polled.
    Poll { received: ReceivedView },
    /// The chunk that is due was read from disk.
    Serve,
    /// A packet with a chunk has come; the peers are told in the given order.
    Store { packet: PacketView, order: Seq<PeerId> },
    /// A file that the node uploads was read for its hash; the peers are told of
    /// it in the given order.
    Announce { upload: UploadView, peers: Seq<PeerId> },
    /// A chunk of an upload was read.
    SendChunk { upload: UploadView, data: Seq<u8> },
    /// The node starts to download a file.
    Download { file_hash: FileHash },
    /// A peer is asked for a chunk of a download.
    Ask { download: DownloadView },
    /// A peer that was asked for a chunk has answered.
    Answer { download: DownloadView, answer: Option<PacketView> },
    /// All chunks of a download were asked for, and the file has its hash.
    Finish { download: DownloadView },
}

impl NodeView {
    /// The file of the chunk that is to be served next.
    pub open spec fn due_file(self) -> (Seq<char>, Seq<char>) {
        (
            hex(self.round.job->Serving_file_hash as nat),
            hex(self.round.job->Serving_left[0] as nat),
        )
    }

    /// The event can come, and the step for it succeeds.
    pub open spec fn allows(self, event: Event) -> bool {
        match event {
            Event::Join { first, peer_order, file_order, .. } => {
                &&& self.round.wants() is Nothing
                &&& first is Request
                &&& first matches PacketView::Request(RequestView::Seed { .. }) ==> {
                    &&& self.server.all_named()
                    &&& each_once(peer_order, self.server.peers.dom())
                    &&& each_once(file_order, self.server.own_chunks.dom())
                }
            },
            Event::Start { queue } => {
                &&& self.round.wants() is Nothing
                &&& each_once(queue, self.server.peers.dom())
            },
            Event::Poll { received } => {
                &&& self.round.wants() is Poll
                &&& !(received matches ReceivedView::Packet(PacketView::Response(_)))
            },
            Event::Serve => {
                &&& self.round.wants() is ReadChunk
                &&& self.disk.files.contains_key(self.due_file())
                &&& self.server.stats.uploaded_chunks < u64::MAX
            },
            Event::Store { packet, order } => {
                &&& self.round.wants() is Receive
                &&& chunk_data(packet) is Some
                &&& each_once(order, self.server.peers.dom())
            },
            Event::Announce { upload, peers } => {
                &&& self.round.wants() is Nothing
                &&& upload.wants() == UploadWant::Rewind
                &&& each_once(peers, self.server.peers.dom())
            },
            Event::SendChunk { upload, data } => {
                &&& self.round.wants() is Nothing
                &&& upload.phase is Sending
                &&& upload.wants() == UploadWant::Read(data.len() as u64)
                &&& self.server.stats.uploaded_chunks + upload.phase->peers.len() <= u64::MAX
            },
            Event::Download { .. } => self.round.wants() is Nothing,
            Event::Ask { download } => {
                &&& self.round.wants() is Nothing
                &&& download.wants(self.server) is Ask
            },
            Event::Answer { download, .. } => {
                &&& self.round.wants() is Nothing
                &&& download.wf()
                &&& download.awaits(self.server)
                &&& self.server.stats.downloaded_chunks < u64::MAX
            },
            Event::Finish { download } => {
                &&& self.round.wants() is Nothing
                &&& download.left.len() == 0
                &&& file_hash_of(download.written) == download.file_hash
                &&& self.server.stats.downloaded_files < u64::MAX
            },
        }
    }

    /// What is to be done on the event.
    pub open spec fn effects(self, event: Event) -> Seq<EffectView> {
        match event {
            Event::Join { id, first, peer_order, file_order, .. } => match first {
                PacketView::Request(RequestView::Seed { send_peers, .. }) => seq![
                    EffectView::Send {
                        to: id,
                        packet: PacketView::Response(
                            self.server.seed_response(send_peers, peer_order, file_order),
                        ),
                    },
                ],
                PacketView::Request(request) => seq![unhandled(request)],
                PacketView::Response(_) => Seq::empty(),
            },
            Event::Start { .. } => Seq::empty(),
            Event::Poll { received } => effects_after(self.round.queue[0], received),
            Event::Serve => {
                let data = self.disk.files[self.due_file()];
                serving_effects(self.round, sha256_digest(data), data)
            },
            Event::Store { packet, order } => storing_effects(
                self.round.job->Storing_file_hash,
                self.round.job->Storing_left[0],
                chunk_data(packet)->0,
                order,
            ),
            Event::Announce { upload, peers } => name_packets(
                peers,
                file_hash_of(upload.phase->read),
                upload.name,
            ),
            Event::SendChunk { upload, data } => sending_effects(
                upload,
                sha256_digest(data),
                data,
            ),
            Event::Download { file_hash } => start_effects(file_hash),
            Event::Ask { download } => match download.wants(self.server) {
                DownloadWantView::Ask { to, packet } => seq![EffectView::Send { to, packet }],
                _ => Seq::empty(),
            },
            Event::Answer { download, answer } => effects_after_answer(download, weighed(answer)),
            Event::Finish { .. } => Seq::empty(),
        }
    }

    /// The node after the event.
    pub open spec fn next(self, event: Event) -> NodeView {
        NodeView {
            server: match event {
                Event::Join { id, addr, first, .. } => match first {
                    PacketView::Request(RequestView::Seed { chunks, .. }) => {
                        self.server.with_offers(id, chunks).with_peer(id, addr)
                    },
                    _ => self.server.with_peer(id, addr),
                },
                Event::Start { .. } => self.server,
                Event::Poll { received } => server_after(
                    self.server,
                    self.round.queue[0],
                    received,
                ),
                Event::Serve => server_after_serving(self.server),
                Event::Store { .. } => self.server.with_own_chunk(
                    self.round.job->Storing_file_hash,
                    self.round.job->Storing_left[0],
                ),
                Event::Announce { upload, .. } => self.server.with_file(
                    file_hash_of(upload.phase->read),
                    upload.name,
                ),
                Event::SendChunk { upload, .. } => server_after_sending(
                    self.server,
                    upload.phase->peers.len(),
                ),
                Event::Download { .. } => self.server,
                Event::Ask { .. } => self.server,
                Event::Answer { answer, .. } => server_after_answer(self.server, weighed(answer)),
                Event::Finish { .. } => server_after_download(self.server),
            },
            disk: self.disk.after(self.effects(event)),
            round: match event {
                Event::Start { queue } => RoundView { queue, job: JobView::Idle },
                Event::Poll { received } => round_after(self.round, received),
                Event::Serve => self.round.advanced(),
                Event::Store { .. } => self.round.advanced(),
                _ => self.round,
            },
        }
    }

    /// The node after some events.
    pub open spec fn run(self, events: Seq<Event>) -> NodeView
        decreases events.len(),
    {
        if events.len() == 0 {
            self
        } else {
            self.run(events.drop_last()).next(events.last())
        }
    }

    /// What is to be done on some events.
    pub open spec fn sent(self, events: Seq<Event>) -> Seq<EffectView>
        decreases events.len(),
    {
        if events.len() == 0 {
            Seq::empty()
        } else {
            self.sent(events.drop_last()) + self.run(events.drop_last()).effects(events.last())
        }
    }

    /// The events can come one after the other.
    pub open spec fn runs(self, events: Seq<Event>) -> bool {
        forall|k: int|
            0 <= k < events.len() ==> self.run(#[trigger] events.take(k)).allows(events[k])
    }

    /// The event stores the chunk.
    pub open spec fn stores(self, event: Event, file_hash: FileHash, chunk_id: ChunkId) -> bool {
        &&& event is Store
        &&& self.round.job->Storing_file_hash == file_hash
        &&& self.round.job->Storing_left[0] == chunk_id
    }

    /// The event makes the node send the chunk to a peer.
    pub open spec fn serves(self, event: Event, file_hash: FileHash, chunk_id: ChunkId) -> bool {
        &&& event is Serve
        &&& self.round.job->Serving_file_hash == file_hash
        &&& self.round.job->Serving_left[0] == chunk_id
    }
}

/// Some events, and one more.
pub(crate) proof fn lemma_one_more(node: NodeView, events: Seq<Event>)
    requires
        events.len() > 0,
    ensures
        node.run(events) == node.run(events.drop_last()).next(events.last()),
        node.sent(events) == node.sent(events.drop_last()) + node.run(events.drop_last()).effects(
            events.last(),
        ),
        node.runs(events.drop_last()) && node.run(events.drop_last()).allows(events.last())
            ==> node.runs(events),
{
    let fewer = events.drop_last();
    if node.runs(fewer) && node.run(fewer).allows(events.last()) {
        assert forall|k: int| 0 <= k < events.len() implies node.run(
            #[trigger] events.take(k),
        ).allows(events[k]) by {
            if k < fewer.len() {
                assert(events.take(k) =~= fewer.take(k));
            } else {
                assert(events.take(k) =~= fewer);
            }
        }
    }
}

/// The effect leaves the disk as it is.
pub open spec fn is_quiet(effect: EffectView) -> bool {
    effect is Send || effect is Progress || effect is Report
}

pub(crate) proof fn lemma_quiet_effects(disk: Disk, effects: Seq<EffectView>)
    requires
        forall|i: int| 0 <= i < effects.len() ==> is_quiet(#[trigger] effects[i]),
    ensures
        disk.after(effects) == disk,
    decreases effects.len(),
{
    if effects.len() > 0 {
        let fewer = effects.drop_last();
        assert(forall|i: int| 0 <= i < fewer.len() ==> fewer[i] == #[trigger] effects[i]);
        lemma_quiet_effects(disk, fewer);
        assert(is_quiet(effects[effects.len() - 1]));
    }
}

pub(crate) proof fn lemma_after_both(disk: Disk, first: Seq<EffectView>, second: Seq<EffectView>)
    ensures
        disk.after(first + second) == disk.after(first).after(second),
    decreases second.len(),
{
    if second.len() == 0 {
        assert(first + second =~= first);
    } else {
        lemma_after_both(disk, first, second.drop_last());
        assert((first + second).drop_last() =~= first + second.drop_last());
        assert((first + second).last() == second.last());
    }
}

/// Storing a chunk writes its file, and nothing else.
pub(crate) proof fn lemma_disk_after_storing(
    disk: Disk,
    file_hash: FileHash,
    chunk_id: ChunkId,
    data: Seq<u8>,
    order: Seq<PeerId>,
)
    ensures
        disk.after(storing_effects(file_hash, chunk_id, data, order)) == (Disk {
            files: disk.files.insert((hex(file_hash as nat), hex(chunk_id as nat)), data),
            ..disk
        }),
{
    let write = seq![
        EffectView::WriteFile {
            dir: hex(file_hash as nat),
            file: hex(chunk_id as nat),
            data,
        },
    ];
    lemma_after_both(disk, write, notices(order, file_hash, chunk_id));
    assert(write.drop_last() =~= Seq::empty());
    assert(disk.after(write.drop_last()) == disk);
    lemma_quiet_effects(disk.after(write), notices(order, file_hash, chunk_id));
}

/// What polling a peer writes: a directory for chunks that are to be stored,
/// and the name of a file.
pub(crate) proof fn lemma_disk_after_poll(disk: Disk, id: PeerId, received: ReceivedView)
    ensures
        disk.after(effects_after(id, received)) == match received {
            ReceivedView::Packet(PacketView::Request(RequestView::WriteChunks(hash, _))) => Disk {
                dirs: disk.dirs.insert(hex(hash as nat)),
                ..disk
            },
            ReceivedView::Packet(PacketView::Request(RequestView::SetFileName(hash, name))) => {
                Disk {
                    dirs: disk.dirs.insert(hex(hash as nat)),
                    files: disk.files.insert(
                        (hex(hash as nat), "name"@),
                        vstd::utf8::encode_utf8(name),
                    ),
                }
            },
            _ => disk,
        },
{
    let effects = effects_after(id, received);
    match received {
        ReceivedView::Packet(PacketView::Request(RequestView::WriteChunks(..))) => {
            assert(effects.drop_last() =~= Seq::empty());
            assert(disk.after(effects.drop_last()) == disk);
        },
        ReceivedView::Packet(PacketView::Request(RequestView::SetFileName(..))) => {
            let first = effects.drop_last();
            assert(first.drop_last() =~= Seq::empty());
            assert(disk.after(first.drop_last()) == disk);
            assert(disk.after(first) == disk.after_one(effects[0]));
        },
        _ => {
            lemma_quiet_effects(disk, effects);
        },
    }
}

/// What an event writes.
pub open spec fn disk_after(node: NodeView, event: Event) -> Disk {
    match event {
        Event::Poll { received } => match received {
            ReceivedView::Packet(PacketView::Request(RequestView::WriteChunks(hash, _))) => Disk {
                dirs: node.disk.dirs.insert(hex(hash as nat)),
                ..node.disk
            },
            ReceivedView::Packet(PacketView::Request(RequestView::SetFileName(hash, name))) => {
                Disk {
                    dirs: node.disk.dirs.insert(hex(hash as nat)),
                    files: node.disk.files.insert(
                        (hex(hash as nat), "name"@),
                        vstd::utf8::encode_utf8(name),
                    ),
                }
            },
            _ => node.disk,
        },
        Event::Store { packet, .. } => Disk {
            files: node.disk.files.insert(
                (
                    hex(node.round.job->Storing_file_hash as nat),
                    hex(node.round.job->Storing_left[0] as nat),
                ),
                chunk_data(packet)->0,
            ),
            ..node.disk
        },
        Event::Download { file_hash } => Disk {
            files: node.disk.files.insert(
                ("downloads"@, hex(file_hash as nat)),
                Seq::empty(),
            ),
            ..node.disk
        },
        Event::Answer { download, answer } => match weighed(answer) {
            Answer::Chunk(data) => {
                let path = ("downloads"@, hex(download.file_hash as nat));
                Disk {
                    files: node.disk.files.insert(path, node.disk.files[path] + data),
                    ..node.disk
                }
            },
            _ => node.disk,
        },
        _ => node.disk,
    }
}

pub(crate) proof fn lemma_disk_after_start(disk: Disk, file_hash: FileHash)
    ensures
        disk.after(start_effects(file_hash)) == (Disk {
            files: disk.files.insert(("downloads"@, hex(file_hash as nat)), Seq::empty()),
            ..disk
        }),
{
    let effects = start_effects(file_hash);
    assert(effects.drop_last() =~= Seq::empty());
    assert(disk.after(effects.drop_last()) == disk);
}

/// A downloaded chunk is added at the end of the file.
pub(crate) proof fn lemma_disk_after_answer(disk: Disk, download: DownloadView, data: Seq<u8>)
    ensures
        ({
            let path = ("downloads"@, hex(download.file_hash as nat));
            disk.after(effects_after_answer(download, Answer::Chunk(data))) == (Disk {
                files: disk.files.insert(path, disk.files[path] + data),
                ..disk
            })
        }),
{
    let effects = effects_after_answer(download, Answer::Chunk(data));
    let first = effects.drop_last();
    assert(first.drop_last() =~= Seq::empty());
    assert(disk.after(first.drop_last()) == disk);
    assert(disk.after(first) == disk.after_one(effects[0]));
}

pub(crate) proof fn lemma_disk_after_event(node: NodeView, event: Event)
    requires
        node.allows(event),
    ensures
        node.next(event).disk == disk_after(node, event),
{
    match event {
        Event::Poll { received } => {
            lemma_disk_after_poll(node.disk, node.round.queue[0], received);
        },
        Event::Store { packet, order } => {
            lemma_disk_after_storing(
                node.disk,
                node.round.job->Storing_file_hash,
                node.round.job->Storing_left[0],
                chunk_data(packet)->0,
                order,
            );
        },
        Event::Download { file_hash } => {
            lemma_disk_after_start(node.disk, file_hash);
        },
        Event::Answer { download, answer } => match weighed(answer) {
            Answer::Chunk(data) => {
                lemma_disk_after_answer(node.disk, download, data);
            },
            _ => {
                lemma_quiet_effects(node.disk, node.effects(event));
            },
        },
        _ => {
            lemma_quiet_effects(node.disk, node.effects(event));
        },
    }
}

/// No event but the storing of a chunk changes the chunk's file.
proof fn lemma_chunk_is_kept(
    node: NodeView,
    event: Event,
    file_hash: FileHash,
    chunk_id: ChunkId,
    data: Seq<u8>,
)
    requires
        node.allows(event),
        node.disk.holds(file_hash, chunk_id, data),
        !node.stores(event, file_hash, chunk_id),
    ensures
        node.next(event).disk.holds(file_hash, chunk_id, data),
{
    lemma_disk_after_event(node, event);
    lemma_words_are_no_numbers(chunk_id as nat);
    lemma_words_are_no_numbers(file_hash as nat);
    if event is Store {
        law_hex_names_are_distinct(
            node.round.job->Storing_file_hash as nat,
            file_hash as nat,
        );
        law_hex_names_are_distinct(node.round.job->Storing_left[0] as nat, chunk_id as nat);
    }
}

proof fn lemma_chunk_stays(
    start: NodeView,
    events: Seq<Event>,
    i: int,
    j: int,
    file_hash: FileHash,
    chunk_id: ChunkId,
    data: Seq<u8>,
)
    requires
        start.runs(events),
        0 <= i <= j <= events.len(),
        start.run(events.take(i)).disk.holds(file_hash, chunk_id, data),
        forall|k: int|
            i <= k < j ==> !start.run(#[trigger] events.take(k)).stores(
                events[k],
                file_hash,
                chunk_id,
            ),
    ensures
        start.run(events.take(j)).disk.holds(file_hash, chunk_id, data),
    decreases j - i,
{
    if i < j {
        lemma_chunk_stays(start, events, i, j - 1, file_hash, chunk_id, data);
        assert(events.take(j).drop_last() =~= events.take(j - 1));
        lemma_chunk_is_kept(
            start.run(events.take(j - 1)),
            events[j - 1],
            file_hash,
            chunk_id,
            data,
        );
    }
}

/// What is written is read back: a chunk that was stored, and was not stored
/// again since, is served with the very data that it was stored with and with
/// the digest of that data, whatever digest came with it and however many
/// iterations, uploads and downloads lie in between.
pub proof fn law_what_was_stored_is_served(
    start: NodeView,
    events: Seq<Event>,
    i: int,
    j: int,
    file_hash: FileHash,
    chunk_id: ChunkId,
)
    requires
        start.runs(events),
        0 <= i < j < events.len(),
        start.run(events.take(i)).stores(events[i], file_hash, chunk_id),
        start.run(events.take(j)).serves(events[j], file_hash, chunk_id),
        forall|k: int|
            i < k < j ==> !start.run(#[trigger] events.take(k)).stores(
                events[k],
                file_hash,
                chunk_id,
            ),
    ensures
        ({
            let data = chunk_data(events[i]->packet)->0;
            let then = start.run(events.take(j));
            then.effects(events[j]) == seq![
                EffectView::Send {
                    to: then.round.job->Serving_peer,
                    packet: chunk_packet(sha256_digest(data), data),
                },
            ]
        }),
{
    let data = chunk_data(events[i]->packet)->0;
    let before = start.run(events.take(i));
    assert(before.allows(events[i]));
    assert(events.take(i + 1).drop_last() =~= events.take(i));
    lemma_disk_after_storing(before.disk, file_hash, chunk_id, data, events[i]->order);
    lemma_chunk_stays(start, events, i + 1, j, file_hash, chunk_id, data);
}

/// Taking in a new peer is an event.
pub proof fn law_welcome_is_an_event(
    node: NodeView,
    id: PeerId,
    addr: Seq<char>,
    first: PacketView,
    after: ServerView,
    effects: Seq<EffectView>,
)
    requires
        node.round.wants() is Nothing,
        welcomed(node.server, id, addr, first, after, effects),
    ensures
        exists|event: Event|
            {
                &&& event is Join
                &&& #[trigger] node.allows(event)
                &&& node.next(event).server == after
                &&& node.effects(event) == effects
            },
{
    match first {
        PacketView::Request(RequestView::Seed { send_peers, .. }) => {
            let (peer_order, file_order) = choose|
                peer_order: Seq<PeerId>,
                file_order: Seq<FileHash>,
            |
                {
                    &&& each_once(peer_order, node.server.peers.dom())
                    &&& each_once(file_order, node.server.own_chunks.dom())
                    &&& effects == seq![
                        EffectView::Send {
                            to: id,
                            packet: PacketView::Response(
                                #[trigger] node.server.seed_response(
                                    send_peers,
                                    peer_order,
                                    file_order,
                                ),
                            ),
                        },
                    ]
                };
            assert(node.allows(Event::Join { id, addr, first, peer_order, file_order }));
        },
        _ => {
            let event = Event::Join {
                id,
                addr,
                first,
                peer_order: Seq::empty(),
                file_order: Seq::empty(),
            };
            assert(node.allows(event));
        },
    }
}

/// Storing a chunk is an event.
pub proof fn law_storing_is_an_event(node: NodeView, packet: PacketView, effects: Seq<EffectView>)
    requires
        node.round.wants() is Receive,
        chunk_data(packet) is Some,
        is_storing(
            node.round.job->Storing_file_hash,
            node.round.job->Storing_left[0],
            chunk_data(packet)->0,
            node.server.peers.dom(),
            effects,
        ),
    ensures
        exists|event: Event|
            event is Store && #[trigger] node.allows(event) && node.effects(event) == effects,
{
    let order = choose|order: Seq<PeerId>|
        each_once(order, node.server.peers.dom()) && effects == #[trigger] storing_effects(
            node.round.job->Storing_file_hash,
            node.round.job->Storing_left[0],
            chunk_data(packet)->0,
            order,
        );
    assert(node.allows(Event::Store { packet, order }));
}

} // verus!
