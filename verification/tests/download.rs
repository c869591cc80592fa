use chunkshare::digest::{addr_to_u64, sha256_of_vec, FileHasher};
use chunkshare::effect::{Effect, Fault};
use chunkshare::packet::{Packet, Request, Response};
use chunkshare::peer::Peer;
use chunkshare::server::download::{Download, DownloadWant};
use chunkshare::server::Server;

const FIRST: &str = "10.0.0.1:80";
const SECOND: &str = "10.0.0.2:80";

fn with_peers() -> Server {
    let mut server = Server::new(&vec![]).unwrap();
    server.add_peer(Peer::new(FIRST.to_string()));
    server.add_peer(Peer::new(SECOND.to_string()));
    server
}

fn file_hash(data: &[u8]) -> u128 {
    let mut hasher = FileHasher::new();
    hasher.update(data);
    hasher.finish()
}

fn chunk(data: &[u8]) -> Option<Packet> {
    Some(Packet::from(Response::Chunk(sha256_of_vec(data), data.to_vec())))
}

fn ask(to: &str, hash: u128, id: u64) -> DownloadWant {
    DownloadWant::Ask {
        to: addr_to_u64(to),
        packet: Packet::from(Request::Chunks(hash, vec![id])),
    }
}

fn append(hash: u128, data: &[u8]) -> Effect {
    Effect::Append {
        dir: "downloads".to_string(),
        file: format!("{hash:x}"),
        data: data.to_vec(),
    }
}

fn started(server: &Server, hash: u128) -> Download {
    let (download, effects) = server.download(hash);
    assert!(
        effects
            == vec![Effect::WriteFile {
                dir: "downloads".to_string(),
                file: format!("{hash:x}"),
                data: vec![],
            }]
    );
    download
}

#[test]
fn uploaded_file_comes_back() {
    let data: Vec<u8> = (0..1300u32).map(|i| (i % 251) as u8).collect();
    let hash = file_hash(&data);
    let mut server = with_peers();
    for id in [2, 0, 1] {
        server.add_chunk(hash, id, addr_to_u64(FIRST));
    }
    let mut download = started(&server, hash);
    let mut file = vec![];
    for (id, part) in data.chunks(512).enumerate() {
        assert!(server.download_next(&mut download) == ask(FIRST, hash, id as u64));
        let effects = server.download_answer(&mut download, chunk(part));
        assert!(
            effects
                == vec![append(hash, part), Effect::Progress { done: id as u64 + 1, total: 3 }]
        );
        file.extend_from_slice(part);
    }
    assert!(server.download_next(&mut download) == DownloadWant::Finish);
    assert!(server.finish_download(download) == Ok(()));
    assert_eq!(file, data);
    assert_eq!(server.stats.downloaded_chunks, 3);
    assert_eq!(server.stats.downloaded_files, 1);
}

#[test]
fn next_peer_is_tried() {
    let hash = file_hash(b"data");
    let mut server = with_peers();
    for addr in [FIRST, SECOND, FIRST] {
        server.add_chunk(hash, 0, addr_to_u64(addr));
    }
    let mut download = started(&server, hash);
    assert!(server.download_next(&mut download) == ask(FIRST, hash, 0));
    let damaged = Some(Packet::from(Response::Chunk(sha256_of_vec(b"data"), b"date".to_vec())));
    let effects = server.download_answer(&mut download, damaged);
    let message = "Chunk hash mismatch, trying next peer".to_string();
    assert!(effects == vec![Effect::Report { message }]);
    assert!(server.download_next(&mut download) == ask(SECOND, hash, 0));
    let effects = server.download_answer(&mut download, Some(Packet::from(Response::NoOp)));
    let message = "Expected Response::Chunk".to_string();
    assert!(effects == vec![Effect::Report { message }]);
    assert!(server.download_next(&mut download) == ask(FIRST, hash, 0));
    let effects = server.download_answer(&mut download, chunk(b"data"));
    assert!(effects == vec![append(hash, b"data"), Effect::Progress { done: 1, total: 1 }]);
    assert!(server.download_next(&mut download) == DownloadWant::Finish);
    assert!(server.finish_download(download) == Ok(()));
}

#[test]
fn unreadable_answers_are_reported() {
    let mut server = with_peers();
    server.add_chunk(1, 0, addr_to_u64(FIRST));
    let mut download = started(&server, 1);
    let _ = server.download_next(&mut download);
    let effects = server.download_answer(&mut download, None);
    let message = "Expected Response::Chunk".to_string();
    assert!(effects == vec![Effect::Report { message }]);
    assert!(server.download_next(&mut download) == DownloadWant::Finish);
}

#[test]
fn chunks_that_nobody_sends_are_passed_over() {
    let mut server = with_peers();
    server.add_chunk(1, 0, addr_to_u64(FIRST));
    server.add_chunk(1, 1, addr_to_u64(SECOND));
    let mut download = started(&server, 1);
    let _ = server.download_next(&mut download);
    let _ = server.download_answer(&mut download, None);
    assert!(server.download_next(&mut download) == ask(SECOND, 1, 1));
    let effects = server.download_answer(&mut download, chunk(b"x"));
    assert!(effects == vec![append(1, b"x"), Effect::Progress { done: 1, total: 2 }]);
    assert!(server.download_next(&mut download) == DownloadWant::Finish);
    assert!(server.finish_download(download) == Err(Fault::HashMismatch));
    assert_eq!(server.stats.downloaded_files, 0);
}

#[test]
fn accepted_chunks_have_their_digest() {
    let mut server = with_peers();
    server.add_chunk(1, 0, addr_to_u64(FIRST));
    let answer = || Some(Packet::from(Response::Chunk([4; 32], vec![1])));
    let mut download = started(&server, 1);
    let effects = server.download_answer_with(&mut download, answer(), [4; 32]);
    assert_eq!(effects.len(), 2);
    let mut download = started(&server, 1);
    let effects = server.download_answer_with(&mut download, answer(), [5; 32]);
    assert_eq!(effects.len(), 1);
    assert_eq!(server.stats.downloaded_chunks, 1);
}

#[test]
fn chunks_are_asked_for_in_order_and_once() {
    let mut server = with_peers();
    for id in [7, 3, 100, 3] {
        server.add_chunk(1, id, addr_to_u64(FIRST));
    }
    for id in [3, 9, 9] {
        let _ = server.add_own_chunk(1, id);
    }
    server.add_chunk(1, 9, addr_to_u64(FIRST));
    server.add_chunk(2, 50, addr_to_u64(FIRST));
    let mut download = started(&server, 1);
    for id in [3, 7, 9, 100] {
        assert!(server.download_next(&mut download) == ask(FIRST, 1, id));
        let _ = server.download_answer(&mut download, chunk(&[id as u8]));
    }
    assert!(server.download_next(&mut download) == DownloadWant::Finish);
}

#[test]
fn many_chunks_are_asked_for_in_order() {
    let mut server = with_peers();
    for id in (0..50).rev() {
        server.add_chunk(1, id * 1000, addr_to_u64(FIRST));
    }
    let mut download = started(&server, 1);
    for id in 0..50 {
        assert!(server.download_next(&mut download) == ask(FIRST, 1, id * 1000));
        let _ = server.download_answer(&mut download, chunk(&[]));
    }
    assert!(server.download_next(&mut download) == DownloadWant::Finish);
}

#[test]
fn own_chunks_need_peers_too() {
    let mut server = with_peers();
    let _ = server.add_own_chunk(1, 4);
    let mut download = started(&server, 1);
    assert!(
        server.download_next(&mut download) == DownloadWant::Fail(Fault::UnlistedChunk(1, 4))
    );
}

#[test]
fn peers_must_be_connected() {
    let mut server = with_peers();
    server.add_chunk(1, 4, 99);
    let mut download = started(&server, 1);
    assert!(server.download_next(&mut download) == DownloadWant::Fail(Fault::UnknownPeer(99)));
}

#[test]
fn unknown_file_is_an_empty_file() {
    let mut server = with_peers();
    let mut download = started(&server, 1);
    assert!(server.download_next(&mut download) == DownloadWant::Finish);
    assert!(server.finish_download(download) == Err(Fault::HashMismatch));
    let hash = file_hash(b"");
    let mut download = started(&server, hash);
    assert!(server.download_next(&mut download) == DownloadWant::Finish);
    assert!(server.finish_download(download) == Ok(()));
}

#[test]
fn download_is_complete_if_the_hash_is_right() {
    let mut server = with_peers();
    assert!(server.finish_download_with(5, 6) == Err(Fault::HashMismatch));
    assert_eq!(server.stats.downloaded_files, 0);
    assert!(server.finish_download_with(5, 5) == Ok(()));
    assert_eq!(server.stats.downloaded_files, 1);
}
