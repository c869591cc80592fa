use chunkshare::digest::addr_to_u64;
use chunkshare::effect::{Effect, Fault};
use chunkshare::packet::{Packet, Request, Response};
use chunkshare::peer::{
    connection_lost, speedtest_request, Peer, ReadFailure, SPEEDTEST_PACKETS, SPEEDTEST_SIZE,
};
use chunkshare::server::{Server, Stats};
use chunkshare::store::{DirEntry, FileEntry};

fn empty() -> Server {
    Server::new(&vec![]).unwrap()
}

fn with_chunks(name: &str, ids: &[&str]) -> Server {
    let files = ids
        .iter()
        .map(|id| FileEntry { name: id.to_string(), contents: "some name".to_string() })
        .collect();
    Server::new(&vec![DirEntry { name: name.to_string(), is_dir: true, files }]).unwrap()
}

fn peer(addr: &str) -> Peer {
    Peer::new(addr.to_string())
}

#[test]
fn new_server_knows_what_is_on_disk() {
    let server = with_chunks("a", &["0", "1f", "name"]);
    assert_eq!(server.own_chunks()[&10], vec![0, 31]);
    assert_eq!(server.file_name(10), Some("some name"));
    assert!(server.peers().is_empty());
    assert_eq!(server.stats, Stats::default());
    assert_eq!(server.stats(), server.stats);
    assert_eq!(
        server.stats,
        Stats { uploaded_chunks: 0, downloaded_chunks: 0, downloaded_files: 0 }
    );
}

#[test]
fn new_server_needs_readable_names() {
    let entries = vec![DirEntry { name: "x".to_string(), is_dir: true, files: vec![] }];
    assert!(Server::new(&entries).is_none());
}

#[test]
fn added_file_is_named() {
    let mut server = empty();
    assert_eq!(server.file_name(1), None);
    assert_eq!(server.file_hash_by_name("a"), None);
    server.add_file(1, "a".to_string());
    server.add_file(2, "b".to_string());
    assert_eq!(server.file_name(1), Some("a"));
    assert_eq!(server.file_hash_by_name("a"), Some(1));
    assert_eq!(server.file_hash_by_name("b"), Some(2));
    server.add_file(1, "c".to_string());
    assert_eq!(server.file_name(1), Some("c"));
    assert_eq!(server.file_name(2), Some("b"));
    assert_eq!(server.file_hash_by_name("a"), None);
}

#[test]
fn one_of_the_files_of_a_name_is_found() {
    let mut server = empty();
    server.add_file(1, "a".to_string());
    server.add_file(2, "a".to_string());
    let hash = server.file_hash_by_name("a").unwrap();
    assert!(hash == 1 || hash == 2);
}

#[test]
fn added_chunk_is_listed() {
    let mut server = empty();
    assert_eq!(server.get_chunk_peers(1, 2), None);
    server.add_chunk(1, 2, 3);
    server.add_chunk(1, 2, 4);
    assert_eq!(server.get_chunk_peers(1, 2), Some(&vec![3, 4]));
    assert_eq!(server.get_chunk_peers(2, 1), None);
    assert_eq!(server.chunks().get_chunk_peers(1, 2), Some(&vec![3, 4]));
}

#[test]
fn added_peer_is_known_by_its_identity() {
    let mut server = empty();
    server.add_peer(peer("10.0.0.1:80"));
    let id = addr_to_u64("10.0.0.1:80");
    assert_eq!(server.peers().len(), 1);
    assert_eq!(server.peers()[&id].addr(), "10.0.0.1:80");
    assert_eq!(server.peers()[&id].id(), id);
}

#[test]
fn peers_are_told_of_a_stored_chunk() {
    let mut server = empty();
    assert!(server.add_own_chunk(1, 7).is_empty());
    server.add_peer(peer("10.0.0.1:80"));
    server.add_peer(peer("10.0.0.2:80"));
    let effects = server.add_own_chunk(1, 8);
    assert_eq!(server.own_chunks()[&1], vec![7, 8]);
    assert_eq!(effects.len(), 2);
    for addr in ["10.0.0.1:80", "10.0.0.2:80"] {
        let notice = Effect::Send {
            to: addr_to_u64(addr),
            packet: Packet::Request(Request::HasChunk(1, 8)),
        };
        assert!(effects.iter().any(|effect| *effect == notice));
    }
}

#[test]
fn new_peer_is_sent_what_is_here() {
    let mut server = with_chunks("a", &["0", "1", "name"]);
    server.add_chunk(10, 1, 77);
    server.add_peer(peer("10.0.0.1:80"));
    let request = Request::Seed {
        chunks: vec![(10, "other name".to_string(), vec![0, 5]), (11, "b".to_string(), vec![])],
        send_peers: true,
    };
    let effects = server.handle_new_peer(peer("10.0.0.2:80"), Packet::from(request)).unwrap();
    let id = addr_to_u64("10.0.0.2:80");
    let response = Response::Seed {
        peers: vec!["10.0.0.1:80".to_string()],
        chunks: vec![(10, "some name".to_string(), vec![(0, vec![]), (1, vec![77])])],
    };
    assert!(effects == vec![Effect::Send { to: id, packet: Packet::from(response) }]);
    assert_eq!(server.peers()[&id].addr(), "10.0.0.2:80");
    assert_eq!(server.file_name(10), Some("other name"));
    assert_eq!(server.file_name(11), Some("b"));
    assert_eq!(server.get_chunk_peers(10, 0), Some(&vec![id]));
    assert_eq!(server.get_chunk_peers(10, 5), Some(&vec![id]));
    assert_eq!(server.get_chunk_peers(10, 1), Some(&vec![77]));
}

#[test]
fn peers_are_sent_only_if_asked_for() {
    let mut server = empty();
    server.add_peer(peer("10.0.0.1:80"));
    let request = Request::Seed { chunks: vec![], send_peers: false };
    let effects = server.welcome(5, peer("10.0.0.2:80"), Packet::from(request)).unwrap();
    let response = Response::Seed { peers: vec![], chunks: vec![] };
    assert!(effects == vec![Effect::Send { to: 5, packet: Packet::from(response) }]);
    assert!(server.peers().contains_key(&5));
}

#[test]
fn new_peer_with_another_request_is_taken_in() {
    let mut server = empty();
    let effects = server
        .handle_new_peer(peer("10.0.0.2:80"), Packet::from(Request::HasChunk(1, 2)))
        .unwrap();
    let message = "Unhandled request: HasChunk(1, 2)".to_string();
    assert!(effects == vec![Effect::Report { message }]);
    assert_eq!(server.peers().len(), 1);
    assert_eq!(server.get_chunk_peers(1, 2), None);
}

#[test]
fn new_peer_must_start_with_a_request() {
    let mut server = empty();
    let result = server.handle_new_peer(peer("10.0.0.2:80"), Packet::from(Response::NoOp));
    assert!(result == Err(Fault::ExpectedRequest));
    assert!(server.peers().is_empty());
}

#[test]
fn files_without_names_cannot_be_listed() {
    let mut server = empty();
    let _ = server.add_own_chunk(9, 0);
    let request = Request::Seed { chunks: vec![], send_peers: false };
    let result = server.handle_new_peer(peer("10.0.0.2:80"), Packet::from(request));
    assert!(result == Err(Fault::UnnamedFile(9)));
    assert!(server.peers().is_empty());
}

#[test]
fn speed_tests_send_zeros() {
    assert_eq!(SPEEDTEST_PACKETS, 1024);
    assert_eq!(SPEEDTEST_SIZE, 1024);
    assert!(speedtest_request() == Request::Speedtest(vec![0; 1024]));
}

#[test]
fn lost_connections() {
    assert!(connection_lost(ReadFailure::UnexpectedEof));
    assert!(connection_lost(ReadFailure::BrokenPipe));
    assert!(connection_lost(ReadFailure::ConnectionReset));
    assert!(!connection_lost(ReadFailure::Other));
}

#[test]
fn offers_are_appended() {
    let mut server = empty();
    server.add_chunk(1, 0, 5);
    server.add_chunk(2, 0, 5);
    server.add_file(3, "c".to_string());
    let request = Request::Seed {
        chunks: vec![(1, "a".to_string(), vec![0, 1, 1]), (1, "b".to_string(), vec![])],
        send_peers: false,
    };
    let _ = server.welcome(7, peer("10.0.0.2:80"), Packet::from(request)).unwrap();
    assert_eq!(server.get_chunk_peers(1, 0), Some(&vec![5, 7]));
    assert_eq!(server.get_chunk_peers(1, 1), Some(&vec![7, 7]));
    assert_eq!(server.get_chunk_peers(2, 0), Some(&vec![5]));
    assert_eq!(server.file_name(1), Some("b"));
    assert_eq!(server.file_name(3), Some("c"));
}
