//! What a node finds on disk when it starts again.
use super::node::{lemma_disk_after_event, Disk, Event, NodeView};
use super::round::JobView;
use crate::maps::lemma_contains_after_push;
use crate::packet::{PacketView, RequestView};
use crate::peer::ReceivedView;
use crate::radix::{hex, law_hex_names_are_distinct, law_hex_round_trip, parse_hex_up_to};
use crate::store::{
    chunk_ids_in, index_of, is_dir_of, is_readable, is_shared_file, law_index_covers_directories,
    law_index_exists, law_index_holds_chunks, law_index_holds_name, lemma_words_are_no_numbers,
    name_in, DirEntryView, FileEntryView, Layout,
};
use crate::{ChunkId, FileHash};
use vstd::prelude::*;
use vstd::utf8::{decode_utf8, valid_utf8};

verus! {

/// The name is that of a number up to `max`.
pub open spec fn is_number(name: Seq<char>, max: nat) -> bool {
    parse_hex_up_to(name, max) matches Some(n) && name == hex(n)
}

/// The name is among those of the files.
pub open spec fn has_file(files: Seq<FileEntryView>, name: Seq<char>) -> bool {
    exists|k: int| 0 <= k < files.len() && (#[trigger] files[k]).name == name
}

/// The files are those in the directory `dir`, each once, in whatever order,
/// and the one that holds the name of the shared file was read.
pub open spec fn lists_files(files: Seq<FileEntryView>, disk: Disk, dir: Seq<char>) -> bool {
    &&& forall|k: int|
        0 <= k < files.len() ==> disk.files.contains_key((dir, (#[trigger] files[k]).name))
    &&& forall|name: Seq<char>| #[trigger]
        disk.files.contains_key((dir, name)) ==> has_file(files, name)
    &&& forall|k: int, l: int|
        0 <= k < l < files.len() ==> (#[trigger] files[k]).name != (#[trigger] files[l]).name
    &&& forall|k: int|
        0 <= k < files.len() && (#[trigger] files[k]).name == "name"@ ==> files[k].contents
            == decode_utf8(disk.files[(dir, "name"@)])
}

/// The entries are those of the disk, each once, in whatever order.
pub open spec fn lists_disk(entries: Seq<DirEntryView>, disk: Disk) -> bool {
    &&& forall|i: int|
        0 <= i < entries.len() ==> {
            &&& (#[trigger] entries[i]).is_dir
            &&& disk.dirs.contains(entries[i].name)
            &&& lists_files(entries[i].files, disk, entries[i].name)
        }
    &&& forall|dir: Seq<char>| #[trigger]
        disk.dirs.contains(dir) ==> exists|i: int|
            0 <= i < entries.len() && (#[trigger] entries[i]).name == dir
    &&& forall|i: int, j: int|
        0 <= i < j < entries.len() ==> (#[trigger] entries[i]).name != (
        #[trigger] entries[j]).name
}

/// The last name that a peer has given to a file.
pub open spec fn told_name(events: Seq<Event>, hash: FileHash) -> Option<Seq<char>>
    decreases events.len(),
{
    if events.len() == 0 {
        None
    } else {
        match events.last() {
            Event::Poll {
                received: ReceivedView::Packet(
                    PacketView::Request(RequestView::SetFileName(named, name)),
                ),
            } if named == hash => Some(name),
            _ => told_name(events.drop_last(), hash),
        }
    }
}

/// The disk has nothing but what a node puts there.
pub open spec fn is_tidy(node: NodeView) -> bool {
    &&& node.disk.dirs.contains("downloads"@)
    &&& forall|dir: Seq<char>| #[trigger]
        node.disk.dirs.contains(dir) ==> dir == "downloads"@ || is_number(dir, u128::MAX as nat)
    &&& forall|dir: Seq<char>, name: Seq<char>| #[trigger]
        node.disk.files.contains_key((dir, name)) ==> {
            &&& node.disk.dirs.contains(dir)
            &&& dir == "downloads"@ || is_number(name, u64::MAX as nat) || (name == "name"@
                && valid_utf8(node.disk.files[(dir, name)]))
        }
    &&& node.round.job matches JobView::Storing { file_hash, left, .. } ==> left.len() > 0
        ==> node.disk.dirs.contains(hex(file_hash as nat))
}

/// The server has the chunk exactly if it is on disk.
pub open spec fn agrees_on(node: NodeView, hash: FileHash, id: ChunkId) -> bool {
    node.server.stored(hash).contains(id) <==> node.disk.files.contains_key(
        (hex(hash as nat), hex(id as nat)),
    )
}

/// The disk is tidy, and the server has the chunks that are on it.
pub open spec fn is_in_order(node: NodeView) -> bool {
    &&& is_tidy(node)
    &&& forall|hash: FileHash, id: ChunkId| #[trigger] agrees_on(node, hash, id)
}

/// The name that is kept on disk for a file.
pub open spec fn name_on(disk: Disk, hash: FileHash) -> Option<Seq<char>> {
    let path = (hex(hash as nat), "name"@);
    if disk.files.contains_key(path) {
        Some(decode_utf8(disk.files[path]))
    } else {
        None
    }
}

/// The name that a file goes by after some events: the last one that a peer has
/// given to it, or else the one that was on disk before.
pub open spec fn kept_name(disk: Disk, events: Seq<Event>, hash: FileHash) -> Option<Seq<char>> {
    match told_name(events, hash) {
        Some(name) => Some(name),
        None => name_on(disk, hash),
    }
}

/// A node that is started on a disk on which there is nothing is in order.
pub proof fn law_new_node_is_in_order(node: NodeView)
    requires
        node.server.own_chunks == Map::<FileHash, Seq<ChunkId>>::empty(),
        node.disk == (Disk { dirs: set!["downloads"@], files: Map::empty() }),
        node.round.wants() is Nothing,
    ensures
        is_in_order(node),
{
}

proof fn lemma_stays_tidy(node: NodeView, event: Event)
    requires
        node.allows(event),
        is_tidy(node),
    ensures
        is_tidy(node.next(event)),
{
    lemma_disk_after_event(node, event);
    match event {
        Event::Poll { received } => match received {
            ReceivedView::Packet(PacketView::Request(RequestView::WriteChunks(hash, _))) => {
                law_hex_round_trip(hash as nat);
            },
            ReceivedView::Packet(PacketView::Request(RequestView::SetFileName(hash, name))) => {
                law_hex_round_trip(hash as nat);
                vstd::utf8::encode_utf8_valid_utf8(name);
            },
            _ => {},
        },
        Event::Store { .. } => {
            law_hex_round_trip(node.round.job->Storing_left[0] as nat);
            lemma_words_are_no_numbers(node.round.job->Storing_left[0] as nat);
        },
        _ => {},
    }
}

proof fn lemma_stays_in_agreement(node: NodeView, event: Event, hash: FileHash, id: ChunkId)
    requires
        node.allows(event),
        agrees_on(node, hash, id),
    ensures
        agrees_on(node.next(event), hash, id),
{
    lemma_disk_after_event(node, event);
    lemma_words_are_no_numbers(id as nat);
    lemma_words_are_no_numbers(hash as nat);
    if event is Store {
        let file_hash = node.round.job->Storing_file_hash;
        let chunk_id = node.round.job->Storing_left[0];
        law_hex_names_are_distinct(file_hash as nat, hash as nat);
        law_hex_names_are_distinct(chunk_id as nat, id as nat);
        lemma_contains_after_push(node.server.stored(file_hash), chunk_id);
    }
}

proof fn lemma_name_after_event(node: NodeView, event: Event, hash: FileHash)
    requires
        node.allows(event),
    ensures
        name_on(node.next(event).disk, hash) == match event {
            Event::Poll {
                received: ReceivedView::Packet(
                    PacketView::Request(RequestView::SetFileName(named, told)),
                ),
            } if named == hash => Some(told),
            _ => name_on(node.disk, hash),
        },
{
    lemma_disk_after_event(node, event);
    lemma_words_are_no_numbers(hash as nat);
    match event {
        Event::Poll { received } => {
            if let ReceivedView::Packet(
                PacketView::Request(RequestView::SetFileName(named, told)),
            ) = received {
                law_hex_names_are_distinct(named as nat, hash as nat);
                vstd::utf8::encode_utf8_decode_utf8(told);
            }
        },
        Event::Store { .. } => {
            lemma_words_are_no_numbers(node.round.job->Storing_left[0] as nat);
        },
        _ => {},
    }
}

/// Over any number of iterations, uploads and downloads, a node stays in order:
/// the chunks on disk are those that the server has. The names on disk are the
/// last ones that peers have given.
pub proof fn law_node_stays_in_order(start: NodeView, events: Seq<Event>)
    requires
        is_in_order(start),
        start.runs(events),
    ensures
        is_in_order(start.run(events)),
        forall|hash: FileHash| #[trigger]
            name_on(start.run(events).disk, hash) == kept_name(start.disk, events, hash),
    decreases events.len(),
{
    if events.len() > 0 {
        let fewer = events.drop_last();
        let last = events.len() - 1;
        assert forall|k: int| 0 <= k < fewer.len() implies start.run(
            #[trigger] fewer.take(k),
        ).allows(fewer[k]) by {
            assert(fewer.take(k) =~= events.take(k));
        }
        law_node_stays_in_order(start, fewer);
        assert(events.take(last) =~= fewer);
        let before = start.run(fewer);
        assert(before.allows(events[last]));
        lemma_stays_tidy(before, events.last());
        assert forall|hash: FileHash, id: ChunkId| #[trigger]
            agrees_on(start.run(events), hash, id) by {
            assert(agrees_on(before, hash, id));
            lemma_stays_in_agreement(before, events.last(), hash, id);
        }
        assert forall|hash: FileHash| #[trigger]
            name_on(start.run(events).disk, hash) == kept_name(start.disk, events, hash) by {
            assert(name_on(before.disk, hash) == kept_name(start.disk, fewer, hash));
            lemma_name_after_event(before, events.last(), hash);
        }
    }
}

/// The chunk numbers among files with different names, each of which is a
/// number or `name`.
proof fn lemma_listed_chunks(files: Seq<FileEntryView>)
    requires
        forall|k: int|
            0 <= k < files.len() ==> (#[trigger] files[k]).name == "name"@ || is_number(
                files[k].name,
                u64::MAX as nat,
            ),
        forall|k: int, l: int|
            0 <= k < l < files.len() ==> (#[trigger] files[k]).name != (#[trigger] files[l]).name,
    ensures
        chunk_ids_in(Layout::Named, files) is Some,
        chunk_ids_in(Layout::Named, files)->0.no_duplicates(),
        forall|id: ChunkId| #[trigger]
            chunk_ids_in(Layout::Named, files)->0.contains(id) <==> has_file(
                files,
                hex(id as nat),
            ),
    decreases files.len(),
{
    if files.len() > 0 {
        let fewer = files.drop_last();
        let last = files.last();
        assert(forall|k: int| 0 <= k < fewer.len() ==> fewer[k] == #[trigger] files[k]);
        assert(files[files.len() - 1] == last);
        lemma_listed_chunks(fewer);
        let ids = chunk_ids_in(Layout::Named, fewer)->0;
        assert forall|name: Seq<char>| #[trigger]
            has_file(files, name) <==> has_file(fewer, name) || last.name == name by {
            if has_file(fewer, name) {
                let k = choose|k: int| 0 <= k < fewer.len() && (#[trigger] fewer[k]).name == name;
                assert(files[k].name == name);
            }
            if has_file(files, name) && last.name != name {
                let k = choose|k: int| 0 <= k < files.len() && (#[trigger] files[k]).name == name;
                assert(fewer[k].name == name);
            }
        }
        if last.name == "name"@ {
            assert forall|id: ChunkId| #[trigger] ids.contains(id) <==> has_file(
                files,
                hex(id as nat),
            ) by {
                lemma_words_are_no_numbers(id as nat);
            }
        } else {
            let n = parse_hex_up_to(last.name, u64::MAX as nat)->0 as ChunkId;
            lemma_contains_after_push(ids, n);
            assert(!ids.contains(n)) by {
                if has_file(fewer, last.name) {
                    let k = choose|k: int|
                        0 <= k < fewer.len() && (#[trigger] fewer[k]).name == last.name;
                    assert(files[k].name != files[files.len() - 1].name);
                }
            }
            assert forall|id: ChunkId| #[trigger] ids.push(n).contains(id) <==> has_file(
                files,
                hex(id as nat),
            ) by {
                law_hex_names_are_distinct(id as nat, n as nat);
                assert(ids.contains(id) <==> has_file(fewer, hex(id as nat)));
            }
            assert(chunk_ids_in(Layout::Named, files) == Some(ids.push(n)));
        }
    }
}

proof fn lemma_listed_name(files: Seq<FileEntryView>)
    ensures
        match name_in(Layout::Named, files) {
            Some(name) => exists|k: int|
                0 <= k < files.len() && (#[trigger] files[k]).name == "name"@ && files[k].contents
                    == name,
            None => !has_file(files, "name"@),
        },
    decreases files.len(),
{
    if files.len() > 0 {
        let fewer = files.drop_last();
        assert(forall|k: int| 0 <= k < fewer.len() ==> fewer[k] == #[trigger] files[k]);
        assert(files[files.len() - 1] == files.last());
        lemma_listed_name(fewer);
        match name_in(Layout::Named, fewer) {
            Some(name) => {
                let k = choose|k: int|
                    0 <= k < fewer.len() && (#[trigger] fewer[k]).name == "name"@
                        && fewer[k].contents == name;
                assert(files[k].name == "name"@);
            },
            None => {
                if files.last().name != "name"@ && has_file(files, "name"@) {
                    let k = choose|k: int|
                        0 <= k < files.len() && (#[trigger] files[k]).name == "name"@;
                    assert(fewer[k].name == "name"@);
                }
            },
        }
    }
}

/// The files in a listed directory are named by numbers, but for `name`.
proof fn lemma_listed_in(node: NodeView, entry: DirEntryView)
    requires
        is_tidy(node),
        entry.name != "downloads"@,
        lists_files(entry.files, node.disk, entry.name),
    ensures
        forall|k: int|
            0 <= k < entry.files.len() ==> (#[trigger] entry.files[k]).name == "name"@
                || is_number(entry.files[k].name, u64::MAX as nat),
{
    assert forall|k: int| 0 <= k < entry.files.len() implies (#[trigger] entry.files[k]).name
        == "name"@ || is_number(entry.files[k].name, u64::MAX as nat) by {
        assert(node.disk.files.contains_key((entry.name, entry.files[k].name)));
    }
}

/// The directory of a node that is in order can be indexed, in whatever order
/// it is listed: the index has the chunks that the server has, each once, and no
/// others, and for each file in it the name on disk, or none.
proof fn lemma_index_of_listing(node: NodeView, entries: Seq<DirEntryView>, hash: FileHash)
    requires
        is_in_order(node),
        lists_disk(entries, node.disk),
    ensures
        index_of(Layout::Named, entries) is Some,
        ({
            let index = index_of(Layout::Named, entries)->0;
            let stored = node.server.stored(hash);
            &&& index.chunks.contains_key(hash) == index.names.contains_key(hash)
            &&& if index.chunks.contains_key(hash) {
                &&& index.chunks[hash].no_duplicates()
                &&& forall|id: ChunkId| #[trigger]
                    index.chunks[hash].contains(id) <==> stored.contains(id)
                &&& index.names[hash] == match name_on(node.disk, hash) {
                    Some(name) => name,
                    None => "unnamed"@,
                }
            } else {
                &&& forall|id: ChunkId| !#[trigger] stored.contains(id)
                &&& name_on(node.disk, hash) is None
            }
        }),
{
    let disk = node.disk;
    assert forall|i: int|
        0 <= i < entries.len() && is_shared_file(
            Layout::Named,
            #[trigger] entries[i],
        ) implies is_readable(Layout::Named, entries[i]) by {
        assert(disk.dirs.contains(entries[i].name));
        lemma_listed_in(node, entries[i]);
        lemma_listed_chunks(entries[i].files);
    }
    law_index_exists(Layout::Named, entries);
    law_index_covers_directories(Layout::Named, entries, hash);
    law_hex_round_trip(hash as nat);
    lemma_words_are_no_numbers(hash as nat);
    let dir = hex(hash as nat);
    let index = index_of(Layout::Named, entries)->0;
    let stored = node.server.stored(hash);
    if disk.dirs.contains(dir) {
        let i = choose|i: int| 0 <= i < entries.len() && (#[trigger] entries[i]).name == dir;
        assert(is_dir_of(Layout::Named, entries[i], hash));
        assert forall|j: int| 0 <= j < entries.len() && j != i implies !is_dir_of(
            Layout::Named,
            #[trigger] entries[j],
            hash,
        ) by {
            assert(disk.dirs.contains(entries[j].name));
            assert(entries[i].name != entries[j].name);
        }
        law_index_holds_chunks(Layout::Named, entries, i, hash);
        law_index_holds_name(Layout::Named, entries, i, hash);
        let files = entries[i].files;
        lemma_listed_in(node, entries[i]);
        lemma_listed_chunks(files);
        lemma_listed_name(files);
        assert forall|id: ChunkId| #[trigger] index.chunks[hash].contains(id) <==> stored.contains(
            id,
        ) by {
            assert(agrees_on(node, hash, id));
            let name = hex(id as nat);
            assert(chunk_ids_in(Layout::Named, files)->0.contains(id) <==> has_file(files, name));
            if has_file(files, name) {
                let k = choose|k: int| 0 <= k < files.len() && (#[trigger] files[k]).name == name;
                assert(disk.files.contains_key((dir, files[k].name)));
            }
        }
        if has_file(files, "name"@) {
            let k = choose|k: int| 0 <= k < files.len() && (#[trigger] files[k]).name == "name"@;
            assert(disk.files.contains_key((dir, files[k].name)));
        }
    } else {
        assert forall|i: int| 0 <= i < entries.len() implies !is_dir_of(
            Layout::Named,
            #[trigger] entries[i],
            hash,
        ) by {
            assert(disk.dirs.contains(entries[i].name));
        }
        assert forall|id: ChunkId| !#[trigger] stored.contains(id) by {
            assert(agrees_on(node, hash, id));
        }
    }
}

/// A node that starts again knows exactly what it has stored. After any number
/// of iterations, uploads and downloads of a node that was in order at first,
/// the directory of the chunks, in whatever order it is listed, can be indexed;
/// the index has those chunks that the server had, each once, and no others;
/// and every file in it has a name, which is the last one that a peer has given
/// to it or else the one that it had on disk at first.
///
/// A server that starts with this index is in order again, so that the same
/// holds of every later start.
pub proof fn law_restarted_server_knows_what_it_stored(
    start: NodeView,
    events: Seq<Event>,
    entries: Seq<DirEntryView>,
    restarted: NodeView,
)
    requires
        is_in_order(start),
        start.runs(events),
        lists_disk(entries, start.run(events).disk),
        restarted.disk == start.run(events).disk,
        restarted.round.wants() is Nothing,
        index_of(Layout::Named, entries) matches Some(index) ==> restarted.server.own_chunks
            == index.chunks && restarted.server.file_names == index.names,
    ensures
        index_of(Layout::Named, entries) is Some,
        forall|hash: FileHash, id: ChunkId| #[trigger]
            restarted.server.stored(hash).contains(id) <==> start.run(events).server.stored(
                hash,
            ).contains(id),
        forall|hash: FileHash| #[trigger]
            restarted.server.own_chunks.contains_key(hash) ==> {
                &&& restarted.server.own_chunks[hash].no_duplicates()
                &&& restarted.server.file_names.contains_key(hash)
                &&& restarted.server.file_names[hash] == match kept_name(
                    start.disk,
                    events,
                    hash,
                ) {
                    Some(name) => name,
                    None => "unnamed"@,
                }
            },
        forall|hash: FileHash| #[trigger]
            kept_name(start.disk, events, hash) is Some
                ==> restarted.server.own_chunks.contains_key(hash),
        is_in_order(restarted),
{
    let node = start.run(events);
    law_node_stays_in_order(start, events);
    lemma_index_of_listing(node, entries, 0);
    assert forall|hash: FileHash, id: ChunkId| #[trigger]
        restarted.server.stored(hash).contains(id) <==> node.server.stored(hash).contains(id) by {
        lemma_index_of_listing(node, entries, hash);
    }
    assert forall|hash: FileHash| #[trigger]
        restarted.server.own_chunks.contains_key(hash) implies {
        &&& restarted.server.own_chunks[hash].no_duplicates()
        &&& restarted.server.file_names.contains_key(hash)
        &&& restarted.server.file_names[hash] == match kept_name(start.disk, events, hash) {
            Some(name) => name,
            None => "unnamed"@,
        }
    } by {
        lemma_index_of_listing(node, entries, hash);
        assert(name_on(node.disk, hash) == kept_name(start.disk, events, hash));
    }
    assert forall|hash: FileHash| #[trigger]
        kept_name(start.disk, events, hash) is Some implies
        restarted.server.own_chunks.contains_key(hash) by {
        lemma_index_of_listing(node, entries, hash);
        assert(name_on(node.disk, hash) == kept_name(start.disk, events, hash));
    }
    assert forall|hash: FileHash, id: ChunkId| #[trigger] agrees_on(restarted, hash, id) by {
        assert(agrees_on(node, hash, id));
        assert(restarted.server.stored(hash).contains(id) <==> node.server.stored(hash).contains(
            id,
        ));
    }
}

} // verus!
