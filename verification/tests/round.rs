use chunkshare::digest::{addr_to_u64, sha256_of_vec};
use chunkshare::effect::{Effect, Fault};
use chunkshare::packet::{Packet, Request, Response};
use chunkshare::peer::{Peer, Received};
use chunkshare::server::round::{Round, Want};
use chunkshare::server::Server;

const ADDR: &str = "10.0.0.1:80";

fn with_peer() -> (Server, u64) {
    let mut server = Server::new(&vec![]).unwrap();
    server.add_peer(Peer::new(ADDR.to_string()));
    (server, addr_to_u64(ADDR))
}

fn started(server: &mut Server, request: Request) -> (Round, Vec<Effect>) {
    let mut round = server.run_once();
    let effects = server.poll(&mut round, Received::Packet(Packet::from(request))).unwrap();
    (round, effects)
}

#[test]
fn without_peers_there_is_nothing_to_do() {
    let server = Server::new(&vec![]).unwrap();
    assert!(server.run_once().wants() == Want::Nothing);
}

#[test]
fn each_peer_has_one_turn() {
    let mut server = Server::new(&vec![]).unwrap();
    let addrs = ["10.0.0.1:80", "10.0.0.2:80", "10.0.0.3:80"];
    for addr in addrs {
        server.add_peer(Peer::new(addr.to_string()));
    }
    let mut round = server.run_once();
    let mut seen = vec![];
    while let Want::Poll(id) = round.wants() {
        seen.push(id);
        assert!(server.poll(&mut round, Received::Nothing).unwrap().is_empty());
    }
    assert!(round.wants() == Want::Nothing);
    seen.sort();
    let mut ids: Vec<u64> = addrs.iter().map(|addr| addr_to_u64(addr)).collect();
    ids.sort();
    assert_eq!(seen, ids);
}

#[test]
fn lost_peers_are_forgotten() {
    for received in [Received::Disconnected, Received::ReadFailed] {
        let (mut server, _) = with_peer();
        let mut round = server.run_once();
        assert!(server.poll(&mut round, received).unwrap().is_empty());
        assert!(server.peers().is_empty());
        assert!(round.wants() == Want::Nothing);
    }
}

#[test]
fn malformed_packets_are_reported() {
    let (mut server, _) = with_peer();
    let mut round = server.run_once();
    let effects = server.poll(&mut round, Received::Malformed("Oops".to_string())).unwrap();
    let message = "Error decoding packet: Oops".to_string();
    assert!(effects == vec![Effect::Report { message }]);
    assert_eq!(server.peers().len(), 1);
}

#[test]
fn responses_are_not_expected() {
    let (mut server, id) = with_peer();
    let mut round = server.run_once();
    let result = server.poll(&mut round, Received::Packet(Packet::from(Response::NoOp)));
    assert!(result == Err(Fault::ExpectedRequest));
    assert!(round.wants() == Want::Poll(id));
}

#[test]
fn chunks_are_served_in_order() {
    let (mut server, id) = with_peer();
    let (mut round, effects) = started(&mut server, Request::Chunks(0xab, vec![16, 3]));
    assert!(effects.is_empty());
    for (file, data) in [("10", vec![1u8, 2]), ("3", vec![])] {
        assert!(
            round.wants() == Want::ReadChunk { dir: "ab".to_string(), file: file.to_string() }
        );
        let sha = sha256_of_vec(&data);
        let effects = server.serve_chunk(&mut round, data.clone());
        let packet = Packet::from(Response::Chunk(sha, data));
        assert!(effects == vec![Effect::Send { to: id, packet }]);
    }
    assert!(round.wants() == Want::Nothing);
    assert_eq!(server.stats.uploaded_chunks, 2);
}

#[test]
fn served_chunk_carries_the_digest() {
    let (mut server, id) = with_peer();
    let (mut round, _) = started(&mut server, Request::Chunks(1, vec![0]));
    let effects = server.serve_chunk_with(&mut round, [7; 32], vec![1]);
    let packet = Packet::from(Response::Chunk([7; 32], vec![1]));
    assert!(effects == vec![Effect::Send { to: id, packet }]);
}

#[test]
fn chunks_are_stored_in_order() {
    let (mut server, id) = with_peer();
    let (mut round, effects) = started(&mut server, Request::WriteChunks(0xab, vec![16, 3]));
    assert!(effects == vec![Effect::CreateDir { dir: "ab".to_string() }]);
    for (chunk, file) in [(16, "10"), (3, "3")] {
        assert!(round.wants() == Want::Receive(id));
        let packet = Packet::from(Response::Chunk([0; 32], vec![chunk as u8]));
        let effects = server.store_chunk(&mut round, packet).unwrap();
        assert!(
            effects
                == vec![
                    Effect::WriteFile {
                        dir: "ab".to_string(),
                        file: file.to_string(),
                        data: vec![chunk as u8],
                    },
                    Effect::Send { to: id, packet: Packet::from(Request::HasChunk(0xab, chunk)) },
                ]
        );
    }
    assert!(round.wants() == Want::Nothing);
    assert_eq!(server.own_chunks()[&0xab], vec![16, 3]);
}

#[test]
fn data_is_taken_in_the_order_of_the_numbers() {
    let (mut server, id) = with_peer();
    let (mut round, _) = started(&mut server, Request::WriteChunks(0xab, vec![2, 1]));
    for (file, data) in [("2", b"x"), ("1", b"y")] {
        assert!(round.wants() == Want::Receive(id));
        let packet = Packet::from(Request::WriteChunk(data.to_vec()));
        let effects = server.store_chunk(&mut round, packet).unwrap();
        assert!(
            effects[0]
                == Effect::WriteFile {
                    dir: "ab".to_string(),
                    file: file.to_string(),
                    data: data.to_vec(),
                }
        );
    }
    assert!(round.wants() == Want::Nothing);
    assert_eq!(server.own_chunks()[&0xab], vec![2, 1]);
}

#[test]
fn only_chunks_are_stored() {
    let (mut server, id) = with_peer();
    for packet in [
        Packet::from(Response::NoOp),
        Packet::from(Response::Speedtest(vec![1])),
        Packet::from(Request::HasChunk(1, 2)),
    ] {
        let (mut round, _) = started(&mut server, Request::WriteChunks(1, vec![2]));
        assert!(server.store_chunk(&mut round, packet) == Err(Fault::ExpectedChunk));
        assert!(round.wants() == Want::Receive(id));
    }
    assert!(server.own_chunks().is_empty());
}

#[test]
fn stored_chunk_is_the_one_served() {
    let (mut server, _) = with_peer();
    let (mut round, _) = started(&mut server, Request::WriteChunks(0xfe, vec![9]));
    let packet = Packet::from(Response::Chunk([0; 32], vec![5]));
    let effects = server.store_chunk(&mut round, packet).unwrap();
    let (round, _) = started(&mut server, Request::Chunks(0xfe, vec![9]));
    match (&effects[0], round.wants()) {
        (Effect::WriteFile { dir, file, .. }, Want::ReadChunk { dir: from, file: name }) => {
            assert_eq!((dir, file), (&from, &name));
        }
        _ => panic!(),
    }
}

#[test]
fn empty_requests_are_done_at_once() {
    let (mut server, _) = with_peer();
    let (round, effects) = started(&mut server, Request::Chunks(1, vec![]));
    assert!(effects.is_empty());
    assert!(round.wants() == Want::Nothing);
    let (round, effects) = started(&mut server, Request::WriteChunks(1, vec![]));
    assert_eq!(effects.len(), 1);
    assert!(round.wants() == Want::Nothing);
}

#[test]
fn news_of_chunks_are_noted() {
    let (mut server, id) = with_peer();
    let (_, effects) = started(&mut server, Request::HasChunk(1, 2));
    assert!(effects.is_empty());
    assert_eq!(server.get_chunk_peers(1, 2), Some(&vec![id]));
}

#[test]
fn names_of_files_are_kept() {
    let (mut server, _) = with_peer();
    let (_, effects) = started(&mut server, Request::SetFileName(0xab, "é".to_string()));
    assert!(
        effects
            == vec![
                Effect::CreateDir { dir: "ab".to_string() },
                Effect::WriteFile {
                    dir: "ab".to_string(),
                    file: "name".to_string(),
                    data: vec![0xc3, 0xa9],
                },
            ]
    );
    assert_eq!(server.file_name(0xab), Some("é"));
}

#[test]
fn speed_test_data_comes_back_as_it_is() {
    let (mut server, id) = with_peer();
    let (_, effects) = started(&mut server, Request::Speedtest(vec![1, 2, 3]));
    let packet = Packet::from(Response::Speedtest(vec![1, 2, 3]));
    assert!(effects == vec![Effect::Send { to: id, packet }]);
}

#[test]
fn other_requests_are_reported() {
    let (mut server, _) = with_peer();
    let (_, effects) = started(&mut server, Request::WriteChunk(vec![1]));
    let message = "Unhandled request: WriteChunk".to_string();
    assert!(effects == vec![Effect::Report { message }]);
    let seed = Request::Seed { chunks: vec![], send_peers: true };
    let (_, effects) = started(&mut server, seed);
    let message = "Unhandled request: Seed { chunks: [], send_peers: true }".to_string();
    assert!(effects == vec![Effect::Report { message }]);
}
