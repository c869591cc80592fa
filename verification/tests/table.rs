use chunkshare::table::ChunkTable;

#[test]
fn peers_are_listed_in_order() {
    let mut table = ChunkTable::new();
    assert_eq!(table.get_chunk_peers(1, 2), None);
    table.add_chunk(1, 2, 30);
    table.add_chunk(1, 2, 20);
    table.add_chunk(1, 2, 30);
    table.add_chunk(2, 2, 40);
    assert_eq!(table.get_chunk_peers(1, 2), Some(&vec![30, 20, 30]));
    assert_eq!(table.get_chunk_peers(2, 2), Some(&vec![40]));
    assert_eq!(table.get_chunk_peers(1, 3), None);
    assert_eq!(table.get_chunk_peers(3, 2), None);
}

#[test]
fn peer_is_listed_for_all_chunks() {
    let mut table = ChunkTable::new();
    table.add_chunk(1, 5, 10);
    table.add_chunks(1, &vec![4, 5, 6], 20);
    assert_eq!(table.get_chunk_peers(1, 4), Some(&vec![20]));
    assert_eq!(table.get_chunk_peers(1, 5), Some(&vec![10, 20]));
    assert_eq!(table.get_chunk_peers(1, 6), Some(&vec![20]));
}

#[test]
fn known_chunks_of_a_file() {
    let mut table = ChunkTable::new();
    assert!(table.known_chunks(1).is_empty());
    table.add_chunks(1, &vec![4, 5, 4], 20);
    table.add_chunk(2, 9, 20);
    let mut ids = table.known_chunks(1);
    ids.sort();
    assert_eq!(ids, vec![4, 5]);
    assert_eq!(table.known_chunks(2), vec![9]);
}

#[test]
fn known_files_of_a_table() {
    let mut table = ChunkTable::new();
    assert!(table.known_files().is_empty());
    table.add_chunk(5, 1, 10);
    table.add_chunk(3, 1, 10);
    table.add_chunk(5, 2, 10);
    table.add_chunks(9, &vec![], 10);
    let mut hashes = table.known_files();
    hashes.sort();
    assert_eq!(hashes, vec![3, 5]);
}
