use chunkshare::digest::addr_to_u64;
use chunkshare::peer::Peer;
use chunkshare::store::{DirEntry, FileEntry};
use chunkshare::stream::round::{Effect, Received, Round, Want, MAX_CHUNK_SIZE};
use chunkshare::stream::{get_own_chunks, Fault, Request, Response, Server};

fn dir(name: &str, ids: &[&str]) -> DirEntry {
    let files = ids
        .iter()
        .map(|id| FileEntry { name: id.to_string(), contents: String::new() })
        .collect();
    DirEntry { name: name.to_string(), is_dir: true, files }
}

fn peer(addr: &str) -> Peer {
    Peer::new(addr.to_string())
}

fn with_peer() -> Server {
    let mut server = Server::new(&vec![]).unwrap();
    server.add_peer(7, peer("10.0.0.1:80"));
    server
}

fn started(request: Request) -> Round {
    let mut round = with_peer().run_once();
    assert!(round.poll(Received::Request(request)) == Ok(None));
    round
}

#[test]
fn streamed_chunks_on_disk() {
    let note = DirEntry { name: "note".to_string(), is_dir: false, files: vec![] };
    let chunks = get_own_chunks(&vec![dir("a", &["0", "10"]), note]).unwrap();
    assert_eq!(chunks.len(), 1);
    assert_eq!(chunks[&10], vec![0, 16]);
    assert!(get_own_chunks(&vec![dir("a", &["name"])]).is_none());
    assert!(get_own_chunks(&vec![dir("downloads", &[])]).is_none());
    assert!(Server::new(&vec![dir("downloads", &[])]).is_none());
}

#[test]
fn new_server_is_sent_a_list() {
    let mut server = Server::new(&vec![dir("a", &["0"])]).unwrap();
    server.add_peer(7, peer("10.0.0.1:80"));
    server.add_chunk(10, 0, 7);
    let request = Request::Seed { chunks: vec![(10, vec![0, 1]), (11, vec![5])], send_peers: true };
    let response = server.handle_new_peer(peer("10.0.0.2:80"), request);
    assert!(
        response
            == Ok(Response::Seed {
                peers: vec!["10.0.0.1:80".to_string()],
                chunks: vec![(10, vec![(0, vec![7])])],
            })
    );
    let id = addr_to_u64("10.0.0.2:80");
    assert_eq!(server.get_chunk_peers(10, 0), Some(&vec![7, id]));
    assert_eq!(server.get_chunk_peers(10, 1), Some(&vec![id]));
    assert_eq!(server.get_chunk_peers(11, 5), Some(&vec![id]));
    assert_eq!(server.get_chunk_peers(11, 6), None);
}

#[test]
fn peers_are_listed_only_if_asked_for() {
    let mut server = with_peer();
    let request = Request::Seed { chunks: vec![], send_peers: false };
    let response = server.welcome(8, peer("10.0.0.2:80"), request);
    assert!(response == Ok(Response::Seed { peers: vec![], chunks: vec![] }));
}

#[test]
fn own_chunks_must_be_listed() {
    let mut server = Server::new(&vec![dir("a", &["3"])]).unwrap();
    let request = Request::Seed { chunks: vec![], send_peers: false };
    let response = server.handle_new_peer(peer("10.0.0.2:80"), request);
    assert!(response == Err(Fault::UnlistedChunk(10, 3)));
    assert!(server.run_once().wants() == Want::Nothing);
}

#[test]
fn new_peer_must_ask_for_a_list() {
    let mut server = with_peer();
    let response = server.handle_new_peer(peer("10.0.0.2:80"), Request::Chunks(1, vec![]));
    assert!(response == Err(Fault::Unimplemented));
    let response = server.handle_new_peer(peer("10.0.0.2:80"), Request::WriteChunks(1, vec![], 0));
    assert!(response == Err(Fault::Unimplemented));
}

#[test]
fn chunks_are_streamed_in_order() {
    let mut round = started(Request::Chunks(0xab, vec![16, 3]));
    let dir = || "ab".to_string();
    assert!(round.wants() == Want::Measure { dir: dir(), file: "3".to_string() });
    let effect = round.announce(100);
    assert!(effect == Effect::Respond { to: 7, response: Response::Chunks(100) });
    assert!(round.wants() == Want::ReadChunk { dir: dir(), file: "10".to_string() });
    assert!(round.serve_chunk(vec![1]) == Effect::SendData { to: 7, data: vec![1] });
    assert!(round.wants() == Want::ReadChunk { dir: dir(), file: "3".to_string() });
    assert!(round.serve_chunk(vec![2]) == Effect::SendData { to: 7, data: vec![2] });
    assert!(round.wants() == Want::Nothing);
}

#[test]
fn large_sizes_are_cut_off() {
    let mut round = started(Request::Chunks(1, vec![0]));
    let effect = round.announce(65536 + 12);
    assert!(effect == Effect::Respond { to: 7, response: Response::Chunks(12) });
}

#[test]
fn streamed_chunks_are_stored_in_order() {
    let mut round = started(Request::WriteChunks(0xab, vec![16, 3], 2));
    assert_eq!(MAX_CHUNK_SIZE, 512);
    assert!(round.wants() == Want::Receive { from: 7, count: 512 });
    let effect = round.store_chunk(vec![9; 512]);
    assert!(
        effect
            == Effect::WriteFile {
                dir: "ab".to_string(),
                file: "10".to_string(),
                data: vec![9; 512],
            }
    );
    assert!(round.wants() == Want::Receive { from: 7, count: 2 });
    let effect = round.store_chunk(vec![1, 2]);
    assert!(
        effect
            == Effect::WriteFile {
                dir: "ab".to_string(),
                file: "3".to_string(),
                data: vec![1, 2],
            }
    );
    assert!(round.wants() == Want::Nothing);
}

#[test]
fn last_chunk_must_fit() {
    let round = started(Request::WriteChunks(1, vec![0], 512));
    assert!(round.wants() == Want::Receive { from: 7, count: 512 });
    let round = started(Request::WriteChunks(1, vec![0], 513));
    assert!(round.wants() == Want::Fail(Fault::OversizedChunk(513)));
}

#[test]
fn requests_that_cannot_be_met() {
    let mut round = with_peer().run_once();
    let empty = Received::Request(Request::Chunks(1, vec![]));
    assert!(round.poll(empty) == Err(Fault::NoChunks));
    let empty = Received::Request(Request::WriteChunks(1, vec![], 0));
    assert!(round.poll(empty) == Err(Fault::NoChunks));
    let seed = Received::Request(Request::Seed { chunks: vec![], send_peers: true });
    assert!(round.poll(seed) == Err(Fault::Unimplemented));
    assert!(round.wants() == Want::Poll(7));
}

#[test]
fn silent_and_broken_connections() {
    let server = with_peer();
    let report = |message: &str| Some(Effect::Report { message: message.to_string() });
    let mut round = server.run_once();
    assert!(round.poll(Received::WouldBlock) == Ok(report("uh oh")));
    let mut round = server.run_once();
    assert!(round.poll(Received::Malformed) == Ok(report("uh oh2")));
    let mut round = server.run_once();
    assert!(round.poll(Received::ReadFailed) == Ok(None));
    assert!(round.wants() == Want::Nothing);
    assert!(server.run_once().wants() == Want::Poll(7));
}

#[test]
fn each_peer_of_the_stream_has_one_turn() {
    let mut server = with_peer();
    server.add_peer(8, peer("10.0.0.2:80"));
    let mut round = server.run_once();
    let mut seen = vec![];
    while let Want::Poll(id) = round.wants() {
        seen.push(id);
        assert!(round.poll(Received::ReadFailed) == Ok(None));
    }
    seen.sort();
    assert_eq!(seen, vec![7, 8]);
}
