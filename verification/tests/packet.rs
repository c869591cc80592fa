use chunkshare::packet::{Packet, Request, Response};

#[test]
fn requests_as_text() {
    assert_eq!(Request::SetFileName(255, "a \"b\"\n".to_string()).fmt(), "SetFileName(255, \"a \\\"b\\\"\\n\")");
    assert_eq!(Request::Chunks(1, vec![]).fmt(), "Chunks(1, [])");
    assert_eq!(Request::Chunks(1, vec![2]).fmt(), "Chunks(1, [2])");
    assert_eq!(Request::WriteChunks(1, vec![2, 3]).fmt(), "WriteChunks(1, [2, 3])");
    assert_eq!(Request::WriteChunk(vec![1, 2, 3]).fmt(), "WriteChunk");
    assert_eq!(Request::HasChunk(7, 8).fmt(), "HasChunk(7, 8)");
    assert_eq!(Request::Speedtest(vec![0; 4]).fmt(), "Speedtest");
    assert_eq!(
        Request::Seed {
            chunks: vec![(1, "a".to_string(), vec![0, 1]), (2, "b".to_string(), vec![])],
            send_peers: true,
        }
        .fmt(),
        "Seed { chunks: [(1, \"a\", [0, 1]), (2, \"b\", [])], send_peers: true }"
    );
    assert_eq!(
        Request::Seed { chunks: vec![], send_peers: false }.fmt(),
        "Seed { chunks: [], send_peers: false }"
    );
}

#[test]
fn responses_as_text() {
    assert_eq!(Response::Chunk([0; 32], vec![1]).fmt(), "Chunk");
    assert_eq!(Response::NoOp.fmt(), "NoOp");
    assert_eq!(Response::Speedtest(vec![1]).fmt(), "Speedtest");
    assert_eq!(
        Response::Seed {
            peers: vec!["127.0.0.1:1".to_string(), "[::1]:2".to_string()],
            chunks: vec![(1, "a".to_string(), vec![(0, vec![5, 6]), (1, vec![])])],
        }
        .fmt(),
        "Seed { peers: [127.0.0.1:1, [::1]:2], chunks: [(1, \"a\", [(0, [5, 6]), (1, [])])] }"
    );
}

#[test]
fn packets_as_text() {
    assert_eq!(Packet::from(Request::Chunks(1, vec![2])).fmt(), "Request(Chunks(1, [2]))");
    assert_eq!(Packet::from(Response::NoOp).fmt(), "Response(NoOp)");
}

#[test]
fn packets_hold_what_they_are_made_of() {
    assert!(Packet::from(Request::HasChunk(1, 2)) == Packet::Request(Request::HasChunk(1, 2)));
    assert!(Packet::from(Response::NoOp) == Packet::Response(Response::NoOp));
}
