//! The directory in which a node keeps its chunks.
//!
//! Each file has a directory of its own, named by its hash in hexadecimal. In
//! it each chunk is a file named by its number in hexadecimal, and the file
//! `name` holds the name of the whole file. Downloaded files are put together
//! in the directory `downloads`.
use crate::radix::{
    hex, hex_value, law_hex_round_trip, lemma_hex_value_is_none, parse_chunk_id, parse_file_hash,
    parse_hex_up_to, to_hex,
};
use crate::{ChunkId, FileHash};
use std::collections::HashMap;
use vstd::prelude::*;

verus! {

/// A file in the directory of a shared file.
pub struct FileEntry {
    pub name: String,
    /// The contents of the file, if it is the one that holds the name of the
    /// shared file. Of other files nothing is read.
    pub contents: String,
}

/// An entry of the directory that the chunks are kept in.
pub struct DirEntry {
    pub name: String,
    pub is_dir: bool,
    /// What is in the directory.
    pub files: Vec<FileEntry>,
}

/// What a [`FileEntry`] holds.
pub struct FileEntryView {
    pub name: Seq<char>,
    pub contents: Seq<char>,
}

/// What a [`DirEntry`] holds.
pub struct DirEntryView {
    pub name: Seq<char>,
    pub is_dir: bool,
    pub files: Seq<FileEntryView>,
}

impl View for FileEntry {
    type V = FileEntryView;

    open spec fn view(&self) -> FileEntryView {
        FileEntryView { name: self.name@, contents: self.contents@ }
    }
}

impl View for DirEntry {
    type V = DirEntryView;

    open spec fn view(&self) -> DirEntryView {
        DirEntryView {
            name: self.name@,
            is_dir: self.is_dir,
            files: Seq::new(self.files@.len(), |i: int| self.files@[i]@),
        }
    }
}

pub open spec fn entries_view(entries: Seq<DirEntry>) -> Seq<DirEntryView> {
    Seq::new(entries.len(), |i: int| entries[i]@)
}

/// How the directory of the chunks is laid out.
#[derive(Clone, Copy, Debug, PartialEq, Eq, Structural)]
pub enum Layout {
    /// Shared files have names, and there are downloads.
    Named,
    /// There is nothing but chunks.
    Bare,
}

/// What is known of the shared files on disk.
pub struct Index {
    /// The chunks that are there, for each file.
    pub chunks: Map<FileHash, Seq<ChunkId>>,
    /// The name of each file.
    pub names: Map<FileHash, Seq<char>>,
}

/// The numbers of the chunks among some files, in order; `None` if a file is
/// named neither by a chunk number nor, where files have names, `name`.
pub open spec fn chunk_ids_in(layout: Layout, files: Seq<FileEntryView>) -> Option<Seq<ChunkId>>
    decreases files.len(),
{
    if files.len() == 0 {
        Some(Seq::empty())
    } else {
        match chunk_ids_in(layout, files.drop_last()) {
            None => None,
            Some(ids) => if layout == Layout::Named && files.last().name == "name"@ {
                Some(ids)
            } else {
                match parse_hex_up_to(files.last().name, u64::MAX as nat) {
                    Some(id) => Some(ids.push(id as u64)),
                    None => None,
                }
            },
        }
    }
}

/// The name of the shared file, where one is given.
pub open spec fn name_in(layout: Layout, files: Seq<FileEntryView>) -> Option<Seq<char>>
    decreases files.len(),
{
    if files.len() == 0 {
        None
    } else if layout == Layout::Named && files.last().name == "name"@ {
        Some(files.last().contents)
    } else {
        name_in(layout, files.drop_last())
    }
}

/// The entry is the directory of a shared file.
pub open spec fn is_shared_file(layout: Layout, entry: DirEntryView) -> bool {
    entry.is_dir && !(layout == Layout::Named && entry.name == "downloads"@)
}

/// The index after `entry` was added; `None` if a name in it cannot be read.
pub open spec fn index_with(layout: Layout, index: Index, entry: DirEntryView) -> Option<Index> {
    if !is_shared_file(layout, entry) {
        Some(index)
    } else {
        match (parse_hex_up_to(entry.name, u128::MAX as nat), chunk_ids_in(layout, entry.files)) {
            (Some(hash), Some(ids)) => Some(
                Index {
                    chunks: index.chunks.insert(hash as u128, ids),
                    names: match name_in(layout, entry.files) {
                        Some(name) => index.names.insert(hash as u128, name),
                        None => if index.names.contains_key(hash as u128) {
                            index.names
                        } else {
                            index.names.insert(hash as u128, "unnamed"@)
                        },
                    },
                },
            ),
            _ => None,
        }
    }
}

/// The index of all entries; `None` if a name among them cannot be read.
pub open spec fn index_of(layout: Layout, entries: Seq<DirEntryView>) -> Option<Index>
    decreases entries.len(),
{
    if entries.len() == 0 {
        Some(Index { chunks: Map::empty(), names: Map::empty() })
    } else {
        match index_of(layout, entries.drop_last()) {
            None => None,
            Some(index) => index_with(layout, index, entries.last()),
        }
    }
}

fn same_text(a: &str, b: &str) -> (same: bool)
    ensures
        same == (a@ == b@),
{
    a.to_owned() == b.to_owned()
}

/// Whether a file in a shared file's directory holds the name of that file.
pub fn is_name_file(name: &str) -> (holds: bool)
    ensures
        holds == (name@ == "name"@),
{
    same_text(name, "name")
}

/// Whether an entry is the directory of a shared file.
pub fn is_file_dir(name: &str, is_dir: bool) -> (shared: bool)
    ensures
        shared == (is_dir && name@ != "downloads"@),
{
    is_dir && !same_text(name, "downloads")
}

/// The directory that holds the chunks of a file.
pub fn file_dir(file_hash: FileHash) -> (dir: String)
    ensures
        dir@ == hex(file_hash as nat),
{
    to_hex(file_hash)
}

/// The name of the file that holds a chunk.
pub fn chunk_file(chunk_id: ChunkId) -> (name: String)
    ensures
        name@ == hex(chunk_id as nat),
{
    to_hex(chunk_id as u128)
}

proof fn lemma_unreadable_prefix(layout: Layout, files: Seq<FileEntryView>, k: int)
    requires
        0 <= k <= files.len(),
        chunk_ids_in(layout, files.take(k)) is None,
    ensures
        chunk_ids_in(layout, files) is None,
    decreases files.len() - k,
{
    if k == files.len() {
        assert(files.take(k) =~= files);
    } else {
        assert(files.take(k + 1).drop_last() =~= files.take(k));
        lemma_unreadable_prefix(layout, files, k + 1);
    }
}

proof fn lemma_unreadable_entries(layout: Layout, entries: Seq<DirEntryView>, k: int)
    requires
        0 <= k <= entries.len(),
        index_of(layout, entries.take(k)) is None,
    ensures
        index_of(layout, entries) is None,
    decreases entries.len() - k,
{
    if k == entries.len() {
        assert(entries.take(k) =~= entries);
    } else {
        assert(entries.take(k + 1).drop_last() =~= entries.take(k));
        lemma_unreadable_entries(layout, entries, k + 1);
    }
}

/// Reads the chunk numbers and the name out of a shared file's directory.
fn read_dir(layout: Layout, entry: &DirEntry) -> (found: Option<(Vec<ChunkId>, Option<String>)>)
    ensures
        match found {
            Some((ids, name)) => {
                &&& chunk_ids_in(layout, entry@.files) == Some(ids@)
                &&& match name {
                    Some(name) => name_in(layout, entry@.files) == Some(name@),
                    None => name_in(layout, entry@.files) is None,
                }
            },
            None => chunk_ids_in(layout, entry@.files) is None,
        },
{
    let ghost files = entry@.files;
    let mut ids: Vec<ChunkId> = Vec::new();
    let mut name: Option<String> = None;
    for i in 0..entry.files.len()
        invariant
            files == entry@.files,
            chunk_ids_in(layout, files.take(i as int)) == Some(ids@),
            match name {
                Some(name) => name_in(layout, files.take(i as int)) == Some(name@),
                None => name_in(layout, files.take(i as int)) is None,
            },
    {
        let file = &entry.files[i];
        proof {
            assert(files.take(i as int + 1).drop_last() =~= files.take(i as int));
            assert(files.take(i as int + 1).last() == file@);
        }
        if layout == Layout::Named && is_name_file(file.name.as_str()) {
            name = Some(file.contents.clone());
        } else {
            match parse_chunk_id(file.name.as_str()) {
                Some(id) => {
                    ids.push(id);
                },
                None => {
                    proof {
                        lemma_unreadable_prefix(layout, files, i as int + 1);
                    }
                    return None;
                },
            }
        }
    }
    assert(files.take(files.len() as int) =~= files);
    Some((ids, name))
}

/// The views of the values of a map.
pub open spec fn ids_view(map: Map<FileHash, Vec<ChunkId>>) -> Map<FileHash, Seq<ChunkId>> {
    Map::new(|hash: FileHash| map.contains_key(hash), |hash: FileHash| map[hash]@)
}

/// The views of the values of a map.
pub open spec fn names_view(map: Map<FileHash, String>) -> Map<FileHash, Seq<char>> {
    Map::new(|hash: FileHash| map.contains_key(hash), |hash: FileHash| map[hash]@)
}

/// The chunks of all shared files on disk, and the names of the files; `None`
/// if a name among the entries cannot be read.
pub fn get_own_chunks(entries: &Vec<DirEntry>) -> (found: Option<
    (HashMap<FileHash, Vec<ChunkId>>, HashMap<FileHash, String>),
>)
    ensures
        match found {
            Some((chunks, names)) => index_of(Layout::Named, entries_view(entries@)) == Some(
                Index { chunks: ids_view(chunks@), names: names_view(names@) },
            ),
            None => index_of(Layout::Named, entries_view(entries@)) is None,
        },
{
    read_index(Layout::Named, entries)
}

/// Reads the index out of the directory of the chunks.
pub(crate) fn read_index(layout: Layout, entries: &Vec<DirEntry>) -> (found: Option<
    (HashMap<FileHash, Vec<ChunkId>>, HashMap<FileHash, String>),
>)
    ensures
        match found {
            Some((chunks, names)) => index_of(layout, entries_view(entries@)) == Some(
                Index { chunks: ids_view(chunks@), names: names_view(names@) },
            ),
            None => index_of(layout, entries_view(entries@)) is None,
        },
{
    let ghost all = entries_view(entries@);
    let mut chunks: HashMap<FileHash, Vec<ChunkId>> = HashMap::new();
    let mut names: HashMap<FileHash, String> = HashMap::new();
    assert(ids_view(chunks@) =~= Map::empty());
    assert(names_view(names@) =~= Map::empty());
    for i in 0..entries.len()
        invariant
            all == entries_view(entries@),
            index_of(layout, all.take(i as int)) == Some(
                Index { chunks: ids_view(chunks@), names: names_view(names@) },
            ),
    {
        let entry = &entries[i];
        proof {
            assert(all.take(i as int + 1).drop_last() =~= all.take(i as int));
            assert(all.take(i as int + 1).last() == entry@);
        }
        if entry.is_dir && !(layout == Layout::Named && same_text(
            entry.name.as_str(),
            "downloads",
        )) {
            let hash = match parse_file_hash(entry.name.as_str()) {
                Some(hash) => hash,
                None => {
                    proof {
                        lemma_unreadable_entries(layout, all, i as int + 1);
                    }
                    return None;
                },
            };
            let (ids, name) = match read_dir(layout, entry) {
                Some(found) => found,
                None => {
                    proof {
                        lemma_unreadable_entries(layout, all, i as int + 1);
                    }
                    return None;
                },
            };
            let ghost names_before = names@;
            let ghost chunks_before = chunks@;
            match name {
                Some(name) => {
                    names.insert(hash, name);
                },
                None => {
                    if !names.contains_key(&hash) {
                        names.insert(hash, "unnamed".to_owned());
                    }
                },
            }
            chunks.insert(hash, ids);
            proof {
                assert(ids_view(chunks@) =~= ids_view(chunks_before).insert(hash, ids@));
                assert(names_view(names@) =~= if names_view(names_before).contains_key(hash)
                    && name_in(layout, entry@.files) is None {
                    names_view(names_before)
                } else {
                    names_view(names_before).insert(hash, names@[hash]@)
                });
            }
        }
    }
    assert(all.take(all.len() as int) =~= all);
    Some((chunks, names))
}

/// A directory of a shared file is readable: its name is a file hash, and the
/// names in it are chunk numbers or `name`.
pub open spec fn is_readable(layout: Layout, entry: DirEntryView) -> bool {
    &&& parse_hex_up_to(entry.name, u128::MAX as nat) is Some
    &&& chunk_ids_in(layout, entry.files) is Some
}

/// The directories can be indexed exactly if each of those of shared files is
/// readable.
pub proof fn law_index_exists(layout: Layout, entries: Seq<DirEntryView>)
    ensures
        index_of(layout, entries) is Some <==> forall|i: int|
            0 <= i < entries.len() && is_shared_file(layout, #[trigger] entries[i]) ==> is_readable(
                layout,
                entries[i],
            ),
    decreases entries.len(),
{
    if entries.len() > 0 {
        let rest = entries.drop_last();
        law_index_exists(layout, rest);
        assert(forall|i: int| 0 <= i < rest.len() ==> rest[i] == #[trigger] entries[i]);
        assert(entries.last() == entries[entries.len() - 1]);
        if index_of(layout, rest) is None {
            let i = choose|i: int|
                0 <= i < rest.len() && is_shared_file(layout, #[trigger] rest[i]) && !is_readable(layout, rest[i]);
            assert(is_shared_file(layout, entries[i]) && !is_readable(layout, entries[i]));
        }
    }
}

/// The entry is the directory of the shared file `hash`.
pub open spec fn is_dir_of(layout: Layout, entry: DirEntryView, hash: FileHash) -> bool {
    is_shared_file(layout, entry) && parse_hex_up_to(entry.name, u128::MAX as nat) == Some(hash as nat)
}

/// The index has chunks and a name for those files that have a directory, and
/// for no others.
pub proof fn law_index_covers_directories(layout: Layout, entries: Seq<DirEntryView>, hash: FileHash)
    requires
        index_of(layout, entries) is Some,
    ensures
        index_of(layout, entries)->0.chunks.contains_key(hash) <==> exists|i: int|
            0 <= i < entries.len() && is_dir_of(layout, #[trigger] entries[i], hash),
        index_of(layout, entries)->0.names.contains_key(hash) <==> index_of(
            layout, entries,
        )->0.chunks.contains_key(hash),
    decreases entries.len(),
{
    if entries.len() > 0 {
        let rest = entries.drop_last();
        law_index_covers_directories(layout, rest, hash);
        assert(forall|i: int| 0 <= i < rest.len() ==> rest[i] == #[trigger] entries[i]);
        assert(entries.last() == entries[entries.len() - 1]);
        if index_of(layout, rest)->0.chunks.contains_key(hash) {
            let i = choose|i: int| 0 <= i < rest.len() && is_dir_of(layout, #[trigger] rest[i], hash);
            assert(is_dir_of(layout, entries[i], hash));
        }
        if is_dir_of(layout, entries.last(), hash) {
            assert(is_dir_of(layout, entries[entries.len() - 1], hash));
        }
    }
}

/// The chunks of a file are those in its directory, the last one if there are
/// several that are named by the same number.
pub proof fn law_index_holds_chunks(layout: Layout, entries: Seq<DirEntryView>, i: int, hash: FileHash)
    requires
        index_of(layout, entries) is Some,
        0 <= i < entries.len(),
        is_dir_of(layout, entries[i], hash),
        forall|j: int| i < j < entries.len() ==> !is_dir_of(layout, #[trigger] entries[j], hash),
    ensures
        index_of(layout, entries)->0.chunks.contains_key(hash),
        Some(index_of(layout, entries)->0.chunks[hash]) == chunk_ids_in(layout, entries[i].files),
    decreases entries.len(),
{
    if i < entries.len() - 1 {
        let rest = entries.drop_last();
        assert(forall|j: int| 0 <= j < rest.len() ==> rest[j] == #[trigger] entries[j]);
        law_index_holds_chunks(layout, rest, i, hash);
        assert(!is_dir_of(layout, entries[entries.len() - 1], hash));
    }
}

/// A file that has one directory goes by the name that is given in it, or by
/// none.
pub proof fn law_index_holds_name(
    layout: Layout,
    entries: Seq<DirEntryView>,
    i: int,
    hash: FileHash,
)
    requires
        index_of(layout, entries) is Some,
        0 <= i < entries.len(),
        is_dir_of(layout, entries[i], hash),
        forall|j: int|
            0 <= j < entries.len() && j != i ==> !is_dir_of(layout, #[trigger] entries[j], hash),
    ensures
        index_of(layout, entries)->0.names.contains_key(hash),
        index_of(layout, entries)->0.names[hash] == match name_in(layout, entries[i].files) {
            Some(name) => name,
            None => "unnamed"@,
        },
    decreases entries.len(),
{
    let rest = entries.drop_last();
    assert(forall|j: int| 0 <= j < rest.len() ==> rest[j] == #[trigger] entries[j]);
    if i < entries.len() - 1 {
        law_index_holds_name(layout, rest, i, hash);
        assert(!is_dir_of(layout, entries[entries.len() - 1], hash));
    } else {
        law_index_covers_directories(layout, rest, hash);
    }
}

/// The files of the chunks `ids`, as they are named on disk.
pub open spec fn stored_chunks(ids: Seq<ChunkId>) -> Seq<FileEntryView> {
    Seq::new(
        ids.len(),
        |i: int| FileEntryView { name: hex(ids[i] as nat), contents: Seq::empty() },
    )
}

/// The file that holds the name of a shared file.
pub open spec fn stored_name(name: Seq<char>) -> FileEntryView {
    FileEntryView { name: "name"@, contents: name }
}

/// The directory of the file `hash` as it is left on disk, with the chunks
/// `ids` and, after `at` of them, the name.
pub open spec fn stored_file(
    hash: FileHash,
    ids: Seq<ChunkId>,
    name: Seq<char>,
    at: int,
) -> DirEntryView {
    DirEntryView {
        name: hex(hash as nat),
        is_dir: true,
        files: stored_chunks(ids.take(at)).push(stored_name(name)) + stored_chunks(ids.skip(at)),
    }
}

pub(crate) proof fn lemma_words_are_no_numbers(n: nat)
    ensures
        hex(n) != "name"@,
        hex(n) != "downloads"@,
{
    law_hex_round_trip(n);
    reveal_strlit("name");
    reveal_strlit("downloads");
    let name = "name"@;
    let downloads = "downloads"@;
    assert(hex_value(name) is None) by {
        lemma_hex_value_is_none(name, 0);
    }
    assert(hex_value(downloads) is None) by {
        lemma_hex_value_is_none(downloads, 1);
    }
}

proof fn lemma_stored_chunks(files: Seq<FileEntryView>, ids: Seq<ChunkId>, more: Seq<ChunkId>)
    requires
        chunk_ids_in(Layout::Named, files) == Some(ids),
    ensures
        chunk_ids_in(Layout::Named, files + stored_chunks(more)) == Some(ids + more),
        name_in(Layout::Named, files + stored_chunks(more)) == name_in(Layout::Named, files),
    decreases more.len(),
{
    let all = files + stored_chunks(more);
    if more.len() == 0 {
        assert(all =~= files);
        assert(ids + more =~= ids);
    } else {
        let fewer = more.drop_last();
        lemma_stored_chunks(files, ids, fewer);
        assert(all.drop_last() =~= files + stored_chunks(fewer));
        assert(all.last().name == hex(more.last() as nat));
        lemma_words_are_no_numbers(more.last() as nat);
        law_hex_round_trip(more.last() as nat);
        assert((ids + fewer).push(more.last()) =~= ids + more);
    }
}

/// What a node keeps on disk of a file, it finds again: the directory of the
/// file, in whatever order it is listed, is indexed under the file's hash with
/// the chunks and the name that were stored.
pub proof fn law_stored_file_is_found(
    index: Index,
    hash: FileHash,
    ids: Seq<ChunkId>,
    name: Seq<char>,
    at: int,
)
    requires
        0 <= at <= ids.len(),
    ensures
        index_with(Layout::Named, index, stored_file(hash, ids, name, at)) == Some(
            Index {
                chunks: index.chunks.insert(hash, ids),
                names: index.names.insert(hash, name),
            },
        ),
{
    let empty = Seq::<FileEntryView>::empty();
    let none = Seq::<ChunkId>::empty();
    let before = ids.take(at);
    let after = ids.skip(at);
    lemma_stored_chunks(empty, none, before);
    assert(empty + stored_chunks(before) =~= stored_chunks(before));
    assert(none + before =~= before);
    let named = stored_chunks(before).push(stored_name(name));
    assert(named.drop_last() =~= stored_chunks(before));
    assert(chunk_ids_in(Layout::Named, named) == Some(before));
    lemma_stored_chunks(named, before, after);
    assert(before + after =~= ids);
    lemma_words_are_no_numbers(hash as nat);
    law_hex_round_trip(hash as nat);
}

/// The files of a directory are read one by one, in order: the chunks among them
/// are those among the first ones and then those among the others, and the last
/// name that is given counts.
pub proof fn law_files_are_read_in_order(
    layout: Layout,
    first: Seq<FileEntryView>,
    second: Seq<FileEntryView>,
)
    ensures
        match (chunk_ids_in(layout, first), chunk_ids_in(layout, second)) {
            (Some(a), Some(b)) => chunk_ids_in(layout, first + second) == Some(a + b),
            _ => chunk_ids_in(layout, first + second) is None,
        },
        name_in(layout, first + second) == match name_in(layout, second) {
            Some(name) => Some(name),
            None => name_in(layout, first),
        },
    decreases second.len(),
{
    if second.len() == 0 {
        assert(first + second =~= first);
        if let Some(ids) = chunk_ids_in(layout, first) {
            assert(ids + Seq::<ChunkId>::empty() =~= ids);
        }
    } else {
        let fewer = second.drop_last();
        law_files_are_read_in_order(layout, first, fewer);
        assert((first + second).drop_last() =~= first + fewer);
        assert((first + second).last() == second.last());
        if let (Some(a), Some(b)) = (chunk_ids_in(layout, first), chunk_ids_in(layout, fewer)) {
            if let Some(n) = parse_hex_up_to(second.last().name, u64::MAX as nat) {
                assert((a + b).push(n as u64) =~= a + b.push(n as u64));
            }
        }
    }
}

/// A file is the chunk whose number it is named by. Where files have names, the
/// one that is named `name` is no chunk, but gives the name.
pub proof fn law_file_is_what_its_name_says(layout: Layout, file: FileEntryView)
    ensures
        layout == Layout::Named && file.name == "name"@ ==> {
            &&& chunk_ids_in(layout, seq![file]) == Some(Seq::<ChunkId>::empty())
            &&& name_in(layout, seq![file]) == Some(file.contents)
        },
        !(layout == Layout::Named && file.name == "name"@) ==> {
            &&& name_in(layout, seq![file]) is None
            &&& match parse_hex_up_to(file.name, u64::MAX as nat) {
                Some(n) => chunk_ids_in(layout, seq![file]) matches Some(ids) && ids.len() == 1
                    && ids[0] == n,
                None => chunk_ids_in(layout, seq![file]) is None,
            }
        },
{
    let files = seq![file];
    assert(files.drop_last() =~= Seq::empty());
    assert(chunk_ids_in(layout, files.drop_last()) == Some(Seq::<ChunkId>::empty()));
    assert(name_in(layout, files.drop_last()) is None);
}

/// What a directory adds to the index: its chunks, in place of those of another
/// directory of the same file, and the name that is given in it; if none is,
/// the file keeps its name, or is unnamed. Other files are not touched. What is
/// no directory adds nothing, nor does that of the downloads, where there is
/// one.
pub proof fn law_directory_is_added_to_the_index(
    layout: Layout,
    index: Index,
    entry: DirEntryView,
)
    ensures
        !entry.is_dir || (layout == Layout::Named && entry.name == "downloads"@) ==> index_with(
            layout,
            index,
            entry,
        ) == Some(index),
        entry.is_dir && !(layout == Layout::Named && entry.name == "downloads"@) ==> match (
            parse_hex_up_to(entry.name, u128::MAX as nat),
            chunk_ids_in(layout, entry.files),
        ) {
            (Some(n), Some(ids)) => index_with(layout, index, entry) matches Some(then) && {
                let hash = n as FileHash;
                &&& then.chunks.contains_key(hash)
                &&& then.chunks[hash] == ids
                &&& then.names.contains_key(hash)
                &&& then.names[hash] == match name_in(layout, entry.files) {
                    Some(name) => name,
                    None => if index.names.contains_key(hash) {
                        index.names[hash]
                    } else {
                        "unnamed"@
                    },
                }
                &&& forall|other: FileHash|
                    other != hash ==> {
                        &&& #[trigger] then.chunks.contains_key(other)
                            == index.chunks.contains_key(other)
                        &&& then.chunks[other] == index.chunks[other]
                    }
                &&& forall|other: FileHash|
                    other != hash ==> {
                        &&& #[trigger] then.names.contains_key(other) == index.names.contains_key(
                            other,
                        )
                        &&& then.names[other] == index.names[other]
                    }
            },
            _ => index_with(layout, index, entry) is None,
        },
{
}

/// The directories are added to the index one after the other, from none on.
pub proof fn law_index_is_built_in_order(
    layout: Layout,
    entries: Seq<DirEntryView>,
    entry: DirEntryView,
)
    ensures
        index_of(layout, Seq::empty()) matches Some(index) && (forall|hash: FileHash|
            !#[trigger] index.chunks.contains_key(hash)) && (forall|hash: FileHash|
            !#[trigger] index.names.contains_key(hash)),
        index_of(layout, entries.push(entry)) == match index_of(layout, entries) {
            Some(index) => index_with(layout, index, entry),
            None => None,
        },
{
    assert(entries.push(entry).drop_last() =~= entries);
}

} // verus!
