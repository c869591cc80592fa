//! Which peers have which chunks.
use crate::maps::{each_once, keys_of, lemma_contains_after_push};
use crate::{ChunkId, FileHash, PeerId};
use std::collections::HashMap;
use vstd::prelude::*;

verus! {

/// The peers that are known to have a chunk, for each chunk of each file, in
/// the order in which they were learned of.
pub struct ChunkTable {
    files: HashMap<FileHash, HashMap<ChunkId, Vec<PeerId>>>,
}

impl View for ChunkTable {
    type V = Map<(FileHash, ChunkId), Seq<PeerId>>;

    closed spec fn view(&self) -> Map<(FileHash, ChunkId), Seq<PeerId>> {
        Map::new(
            |key: (FileHash, ChunkId)|
                self.files@.contains_key(key.0) && self.files@[key.0]@.contains_key(key.1),
            |key: (FileHash, ChunkId)| self.files@[key.0]@[key.1]@,
        )
    }
}

/// The peers listed for a chunk; none, if the chunk is not known.
pub open spec fn holders(
    table: Map<(FileHash, ChunkId), Seq<PeerId>>,
    file_hash: FileHash,
    chunk_id: ChunkId,
) -> Seq<PeerId> {
    if table.contains_key((file_hash, chunk_id)) {
        table[(file_hash, chunk_id)]
    } else {
        Seq::empty()
    }
}

/// The table after `peer_id` was added at the end of a chunk's peers.
pub open spec fn with_holder(
    table: Map<(FileHash, ChunkId), Seq<PeerId>>,
    file_hash: FileHash,
    chunk_id: ChunkId,
    peer_id: PeerId,
) -> Map<(FileHash, ChunkId), Seq<PeerId>> {
    table.insert((file_hash, chunk_id), holders(table, file_hash, chunk_id).push(peer_id))
}

/// The table after `peer_id` was added for each of the chunks, in order.
pub open spec fn with_holder_of_all(
    table: Map<(FileHash, ChunkId), Seq<PeerId>>,
    file_hash: FileHash,
    chunk_ids: Seq<ChunkId>,
    peer_id: PeerId,
) -> Map<(FileHash, ChunkId), Seq<PeerId>>
    decreases chunk_ids.len(),
{
    if chunk_ids.len() == 0 {
        table
    } else {
        with_holder(
            with_holder_of_all(table, file_hash, chunk_ids.drop_last(), peer_id),
            file_hash,
            chunk_ids.last(),
            peer_id,
        )
    }
}

impl ChunkTable {
    pub fn new() -> (table: ChunkTable)
        ensures
            table@ == Map::<(FileHash, ChunkId), Seq<PeerId>>::empty(),
    {
        let table = ChunkTable { files: HashMap::new() };
        assert(table@ =~= Map::<(FileHash, ChunkId), Seq<PeerId>>::empty());
        table
    }

    /// Adds a peer to a chunk, which is created if it is not there.
    pub fn add_chunk(&mut self, file_hash: FileHash, chunk_id: ChunkId, peer_id: PeerId)
        ensures
            final(self)@ == with_holder(old(self)@, file_hash, chunk_id, peer_id),
    {
        let chunks = self.files.entry(file_hash).or_insert(HashMap::new());
        let peers = chunks.entry(chunk_id).or_insert(Vec::new());
        peers.push(peer_id);
        proof {
            assert(self@ =~= with_holder(old(self)@, file_hash, chunk_id, peer_id));
        }
    }

    /// Adds a peer to each of some chunks.
    pub fn add_chunks(&mut self, file_hash: FileHash, chunk_ids: &Vec<ChunkId>, peer_id: PeerId)
        ensures
            final(self)@ == with_holder_of_all(old(self)@, file_hash, chunk_ids@, peer_id),
    {
        for i in 0..chunk_ids.len()
            invariant
                self@ == with_holder_of_all(
                    old(self)@,
                    file_hash,
                    chunk_ids@.take(i as int),
                    peer_id,
                ),
        {
            assert(chunk_ids@.take(i as int + 1).drop_last() =~= chunk_ids@.take(i as int));
            self.add_chunk(file_hash, chunk_ids[i], peer_id);
        }
        assert(chunk_ids@.take(chunk_ids.len() as int) =~= chunk_ids@);
    }

    /// The peers that have a chunk.
    pub fn get_chunk_peers(&self, file_hash: FileHash, chunk_id: ChunkId) -> (peers: Option<
        &Vec<PeerId>,
    >)
        ensures
            match peers {
                Some(peers) => self@.contains_key((file_hash, chunk_id)) && peers@ == self@[(
                    file_hash,
                    chunk_id,
                )],
                None => !self@.contains_key((file_hash, chunk_id)),
            },
    {
        match self.files.get(&file_hash) {
            Some(chunks) => chunks.get(&chunk_id),
            None => None,
        }
    }

    /// The chunks of a file that the table knows, each once, in no particular
    /// order.
    pub fn known_chunks(&self, file_hash: FileHash) -> (ids: Vec<ChunkId>)
        ensures
            ids@.no_duplicates(),
            forall|id: ChunkId| #[trigger]
                ids@.contains(id) <==> self@.contains_key((file_hash, id)),
    {
        match self.files.get(&file_hash) {
            Some(chunks) => {
                let ids = keys_of(chunks);
                assert forall|id: ChunkId| #[trigger] ids@.contains(id) implies self@.contains_key(
                    (file_hash, id),
                ) by {
                    assert(ids@.to_set().contains(id));
                }
                assert forall|id: ChunkId|
                    self@.contains_key((file_hash, id)) implies #[trigger] ids@.contains(id) by {
                    assert(ids@.to_set().contains(id));
                }
                ids
            },
            None => Vec::new(),
        }
    }
    /// The files of which the table knows chunks, each once, in no particular
    /// order.
    pub fn known_files(&self) -> (hashes: Vec<FileHash>)
        ensures
            hashes@.no_duplicates(),
            forall|hash: FileHash| #[trigger]
                hashes@.contains(hash) <==> exists|id: ChunkId| #[trigger]
                    self@.contains_key((hash, id)),
    {
        let all = keys_of(&self.files);
        let mut hashes: Vec<FileHash> = Vec::new();
        for i in 0..all.len()
            invariant
                each_once(all@, self.files@.dom()),
                hashes@.no_duplicates(),
                forall|hash: FileHash| #[trigger]
                    hashes@.contains(hash) <==> all@.take(i as int).contains(hash)
                        && self.files@[hash]@.len() > 0,
        {
            let hash = all[i];
            proof {
                assert(all@.to_set().contains(all@[i as int]));
                assert(all@.take(i as int + 1) =~= all@.take(i as int).push(hash));
                lemma_contains_after_push(all@.take(i as int), hash);
                lemma_contains_after_push(hashes@, hash);
                assert(!hashes@.contains(hash)) by {
                    if all@.take(i as int).contains(hash) {
                        let j = all@.take(i as int).index_of(hash);
                        assert(all@[j] == all@[i as int]);
                    }
                }
            }
            if let Some(chunks) = self.files.get(&hash) {
                if chunks.len() > 0 {
                    hashes.push(hash);
                }
            }
        }
        assert(all@.take(all.len() as int) =~= all@);
        assert forall|hash: FileHash| #[trigger]
            hashes@.contains(hash) <==> exists|id: ChunkId| #[trigger]
                self@.contains_key((hash, id)) by {
            assert(all@.contains(hash) <==> all@.to_set().contains(hash));
            if hashes@.contains(hash) {
                let chunks = self.files@[hash]@;
                let id = chunks.dom().choose();
                assert(chunks.contains_key(id));
                assert(self@.contains_key((hash, id)));
            }
            if exists|id: ChunkId| #[trigger] self@.contains_key((hash, id)) {
                let id = choose|id: ChunkId| #[trigger] self@.contains_key((hash, id));
                let chunks = self.files@[hash]@;
                assert(chunks.dom().contains(id));
                assert(chunks.dom().len() > 0);
            }
        }
        hashes
    }

    /// The number of peers of a chunk fits into a machine word.
    pub(crate) proof fn lemma_holders_fit(&self, file_hash: FileHash, chunk_id: ChunkId)
        ensures
            holders(self@, file_hash, chunk_id).len() <= usize::MAX,
    {
        if self@.contains_key((file_hash, chunk_id)) {
            let peers = self.files@[file_hash]@[chunk_id];
            assert(peers@.len() == peers.len());
        }
    }
}

/// A file, and the chunks of it that a peer offers.
pub type OfferedChunks = (FileHash, Seq<ChunkId>);

/// The table after `peer_id` has offered chunks.
pub open spec fn with_offered(
    table: Map<(FileHash, ChunkId), Seq<PeerId>>,
    offers: Seq<OfferedChunks>,
    peer_id: PeerId,
) -> Map<(FileHash, ChunkId), Seq<PeerId>>
    decreases offers.len(),
{
    if offers.len() == 0 {
        table
    } else {
        with_holder_of_all(
            with_offered(table, offers.drop_last(), peer_id),
            offers.last().0,
            offers.last().1,
            peer_id,
        )
    }
}

/// How often a number stands among others.
pub open spec fn times(ids: Seq<ChunkId>, id: ChunkId) -> nat
    decreases ids.len(),
{
    if ids.len() == 0 {
        0
    } else {
        times(ids.drop_last(), id) + if ids.last() == id {
            1nat
        } else {
            0
        }
    }
}

/// How often a chunk is offered.
pub open spec fn times_offered(
    offers: Seq<OfferedChunks>,
    file_hash: FileHash,
    chunk_id: ChunkId,
) -> nat
    decreases offers.len(),
{
    if offers.len() == 0 {
        0
    } else {
        times_offered(offers.drop_last(), file_hash, chunk_id) + if offers.last().0 == file_hash {
            times(offers.last().1, chunk_id)
        } else {
            0
        }
    }
}

/// The chunk is among those that are offered.
pub open spec fn is_offered(
    offers: Seq<OfferedChunks>,
    file_hash: FileHash,
    chunk_id: ChunkId,
) -> bool {
    exists|i: int|
        0 <= i < offers.len() && (#[trigger] offers[i]).0 == file_hash && offers[i].1.contains(
            chunk_id,
        )
}

/// No file is offered twice, and no chunk of a file.
pub open spec fn are_distinct(offers: Seq<OfferedChunks>) -> bool {
    &&& forall|i: int, j: int|
        0 <= i < j < offers.len() ==> (#[trigger] offers[i]).0 != (#[trigger] offers[j]).0
    &&& forall|i: int| 0 <= i < offers.len() ==> (#[trigger] offers[i]).1.no_duplicates()
}

/// The same peer, `count` times.
pub open spec fn repeated(peer_id: PeerId, count: nat) -> Seq<PeerId> {
    Seq::new(count, |i: int| peer_id)
}

proof fn lemma_times(ids: Seq<ChunkId>, id: ChunkId)
    ensures
        times(ids, id) > 0 <==> ids.contains(id),
        ids.no_duplicates() ==> times(ids, id) <= 1,
    decreases ids.len(),
{
    if ids.len() > 0 {
        let fewer = ids.drop_last();
        lemma_times(fewer, id);
        if fewer.contains(id) {
            let i = fewer.index_of(id);
            assert(ids[i] == id);
        }
        if ids.contains(id) && ids.last() != id {
            let i = ids.index_of(id);
            assert(fewer[i] == id);
        }
    }
}

proof fn lemma_times_offered(
    offers: Seq<OfferedChunks>,
    file_hash: FileHash,
    chunk_id: ChunkId,
)
    ensures
        times_offered(offers, file_hash, chunk_id) > 0 <==> is_offered(
            offers,
            file_hash,
            chunk_id,
        ),
        are_distinct(offers) ==> times_offered(offers, file_hash, chunk_id) <= 1,
    decreases offers.len(),
{
    if offers.len() > 0 {
        let fewer = offers.drop_last();
        let last = offers.last();
        lemma_times_offered(fewer, file_hash, chunk_id);
        lemma_times(last.1, chunk_id);
        assert(forall|i: int| 0 <= i < fewer.len() ==> fewer[i] == #[trigger] offers[i]);
        assert(offers[offers.len() - 1] == last);
        if is_offered(fewer, file_hash, chunk_id) {
            let i = choose|i: int|
                0 <= i < fewer.len() && (#[trigger] fewer[i]).0 == file_hash
                    && fewer[i].1.contains(chunk_id);
            assert(offers[i].0 == file_hash);
        }
        if is_offered(offers, file_hash, chunk_id) {
            let i = choose|i: int|
                0 <= i < offers.len() && (#[trigger] offers[i]).0 == file_hash
                    && offers[i].1.contains(chunk_id);
            if i < fewer.len() {
                assert(fewer[i].0 == file_hash);
            }
        }
        if are_distinct(offers) {
            assert(are_distinct(fewer)) by {
                assert forall|i: int, j: int| 0 <= i < j < fewer.len() implies (
                #[trigger] fewer[i]).0 != (#[trigger] fewer[j]).0 by {
                    assert(offers[i].0 != offers[j].0);
                }
                assert forall|i: int| 0 <= i < fewer.len() implies (
                #[trigger] fewer[i]).1.no_duplicates() by {
                    assert(offers[i].1.no_duplicates());
                }
            }
            assert(offers[offers.len() - 1].1.no_duplicates());
            if last.0 == file_hash && is_offered(fewer, file_hash, chunk_id) {
                let i = choose|i: int|
                    0 <= i < fewer.len() && (#[trigger] fewer[i]).0 == file_hash
                        && fewer[i].1.contains(chunk_id);
                assert(offers[i].0 != offers[offers.len() - 1].0);
            }
        }
    }
}

proof fn lemma_holder_of_all(
    table: Map<(FileHash, ChunkId), Seq<PeerId>>,
    file_hash: FileHash,
    chunk_ids: Seq<ChunkId>,
    peer_id: PeerId,
    hash: FileHash,
    id: ChunkId,
)
    ensures
        holders(with_holder_of_all(table, file_hash, chunk_ids, peer_id), hash, id) == holders(
            table,
            hash,
            id,
        ) + repeated(
            peer_id,
            if hash == file_hash {
                times(chunk_ids, id)
            } else {
                0
            },
        ),
    decreases chunk_ids.len(),
{
    let then = holders(with_holder_of_all(table, file_hash, chunk_ids, peer_id), hash, id);
    if chunk_ids.len() == 0 {
        assert(then =~= holders(table, hash, id) + repeated(peer_id, 0));
    } else {
        lemma_holder_of_all(table, file_hash, chunk_ids.drop_last(), peer_id, hash, id);
        if hash == file_hash {
            assert(then =~= holders(table, hash, id) + repeated(peer_id, times(chunk_ids, id)));
        }
    }
}

/// What a peer offers is added to the table, and nothing else: the peer is
/// appended to the peers of a chunk as often as it offers the chunk. Where no
/// chunk is offered twice, it is appended once.
pub proof fn law_offered_chunks_are_listed(
    table: Map<(FileHash, ChunkId), Seq<PeerId>>,
    offers: Seq<OfferedChunks>,
    peer_id: PeerId,
    hash: FileHash,
    id: ChunkId,
)
    ensures
        holders(with_offered(table, offers, peer_id), hash, id) == holders(table, hash, id)
            + repeated(peer_id, times_offered(offers, hash, id)),
        times_offered(offers, hash, id) > 0 <==> is_offered(offers, hash, id),
        are_distinct(offers) ==> holders(with_offered(table, offers, peer_id), hash, id) == (
        if is_offered(offers, hash, id) {
            holders(table, hash, id).push(peer_id)
        } else {
            holders(table, hash, id)
        }),
    decreases offers.len(),
{
    let before = holders(table, hash, id);
    let then = holders(with_offered(table, offers, peer_id), hash, id);
    if offers.len() == 0 {
        assert(then =~= before + repeated(peer_id, 0));
    } else {
        let fewer = offers.drop_last();
        let last = offers.last();
        law_offered_chunks_are_listed(table, fewer, peer_id, hash, id);
        lemma_holder_of_all(
            with_offered(table, fewer, peer_id),
            last.0,
            last.1,
            peer_id,
            hash,
            id,
        );
        assert(then =~= before + repeated(peer_id, times_offered(offers, hash, id)));
    }
    lemma_times_offered(offers, hash, id);
    if are_distinct(offers) {
        assert(then =~= if is_offered(offers, hash, id) {
            before.push(peer_id)
        } else {
            before
        });
    }
}

proof fn lemma_keys_of_all(
    table: Map<(FileHash, ChunkId), Seq<PeerId>>,
    file_hash: FileHash,
    chunk_ids: Seq<ChunkId>,
    peer_id: PeerId,
    hash: FileHash,
    id: ChunkId,
)
    ensures
        with_holder_of_all(table, file_hash, chunk_ids, peer_id).contains_key((hash, id))
            <==> table.contains_key((hash, id)) || (hash == file_hash && chunk_ids.contains(id)),
    decreases chunk_ids.len(),
{
    if chunk_ids.len() > 0 {
        let fewer = chunk_ids.drop_last();
        lemma_keys_of_all(table, file_hash, fewer, peer_id, hash, id);
        assert(chunk_ids =~= fewer.push(chunk_ids.last()));
        lemma_contains_after_push(fewer, chunk_ids.last());
    }
}

proof fn lemma_keys_of_offers(
    table: Map<(FileHash, ChunkId), Seq<PeerId>>,
    offers: Seq<OfferedChunks>,
    peer_id: PeerId,
    hash: FileHash,
    id: ChunkId,
)
    ensures
        with_offered(table, offers, peer_id).contains_key((hash, id)) <==> table.contains_key(
            (hash, id),
        ) || is_offered(offers, hash, id),
    decreases offers.len(),
{
    if offers.len() > 0 {
        let fewer = offers.drop_last();
        let last = offers.last();
        lemma_keys_of_offers(table, fewer, peer_id, hash, id);
        lemma_keys_of_all(
            with_offered(table, fewer, peer_id),
            last.0,
            last.1,
            peer_id,
            hash,
            id,
        );
        assert(offers[offers.len() - 1] == last);
        if is_offered(fewer, hash, id) {
            let i = choose|i: int|
                0 <= i < fewer.len() && (#[trigger] fewer[i]).0 == hash && fewer[i].1.contains(id);
            assert(offers[i].0 == hash && offers[i].1.contains(id));
        }
        if is_offered(offers, hash, id) {
            let i = choose|i: int|
                0 <= i < offers.len() && (#[trigger] offers[i]).0 == hash && offers[i].1.contains(
                    id,
                );
            if i < fewer.len() {
                assert(fewer[i].0 == hash && fewer[i].1.contains(id));
            }
        }
    }
}

/// A chunk is known after some were offered if it was known before or is among
/// those offered. Who was listed for it stays listed, in the same places; only
/// the peer that offers it comes after them, and it does so only where the
/// chunk is offered: once, if no file and no chunk of a file is offered twice.
pub proof fn law_offers_are_added(
    table: Map<(FileHash, ChunkId), Seq<PeerId>>,
    offers: Seq<OfferedChunks>,
    peer_id: PeerId,
    hash: FileHash,
    id: ChunkId,
)
    ensures
        ({
            let then = with_offered(table, offers, peer_id);
            let key = (hash, id);
            let before = if table.contains_key(key) {
                table[key]
            } else {
                Seq::empty()
            };
            let offered = exists|i: int|
                0 <= i < offers.len() && (#[trigger] offers[i]).0 == hash && offers[i].1.contains(
                    id,
                );
            &&& then.contains_key(key) <==> table.contains_key(key) || offered
            &&& then.contains_key(key) ==> {
                &&& before.is_prefix_of(then[key])
                &&& forall|k: int|
                    before.len() <= k < then[key].len() ==> #[trigger] then[key][k] == peer_id
                &&& offered <==> then[key].len() > before.len()
                &&& (forall|i: int, j: int|
                    0 <= i < j < offers.len() ==> (#[trigger] offers[i]).0 != (
                    #[trigger] offers[j]).0) && (forall|i: int|
                    0 <= i < offers.len() ==> (#[trigger] offers[i]).1.no_duplicates())
                    ==> then[key].len() <= before.len() + 1
            }
        }),
{
    let then = with_offered(table, offers, peer_id);
    let key = (hash, id);
    lemma_keys_of_offers(table, offers, peer_id, hash, id);
    law_offered_chunks_are_listed(table, offers, peer_id, hash, id);
    let before = holders(table, hash, id);
    if then.contains_key(key) {
        assert(then[key] == before + repeated(peer_id, times_offered(offers, hash, id)));
        assert(before =~= then[key].subrange(0, before.len() as int));
        if (forall|i: int, j: int|
            0 <= i < j < offers.len() ==> (#[trigger] offers[i]).0 != (#[trigger] offers[j]).0)
            && (forall|i: int|
            0 <= i < offers.len() ==> (#[trigger] offers[i]).1.no_duplicates()) {
            assert(are_distinct(offers));
        }
    }
}

} // verus!
