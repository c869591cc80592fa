use chunkshare::digest::{addr_to_u64, sha256_of_vec, FileHasher};
use chunkshare::effect::Effect;
use chunkshare::packet::{Packet, Request, Response};
use chunkshare::peer::Peer;
use chunkshare::server::upload::{Upload, UploadWant, CHUNK_SIZE};
use chunkshare::server::Server;

const ADDR: &str = "10.0.0.1:80";

fn with_peer() -> (Server, u64) {
    let mut server = Server::new(&vec![]).unwrap();
    server.add_peer(Peer::new(ADDR.to_string()));
    (server, addr_to_u64(ADDR))
}

/// Reads the file for its hash, and gives the sizes of the parts that were
/// read.
fn hashed(server: &Server, data: &[u8]) -> (Upload, Vec<usize>) {
    let mut upload = server.upload("a file".to_string(), data.len() as u64);
    let mut at = 0;
    let mut sizes = vec![];
    while let UploadWant::Read(count) = upload.wants() {
        assert!(upload.is_hashing());
        let count = count as usize;
        upload.hash_chunk(&data[at..at + count]);
        at += count;
        sizes.push(count);
    }
    assert_eq!(upload.wants(), UploadWant::Rewind);
    (upload, sizes)
}

/// Uploads a file, and gives its hash and its chunks.
fn uploaded(server: &mut Server, data: &[u8]) -> (u128, Vec<Vec<u8>>) {
    let (upload, _) = hashed(server, data);
    let (mut upload, effects) = server.announce(upload);
    let hash = match &effects[0] {
        Effect::Send { packet: Packet::Request(Request::SetFileName(hash, _)), .. } => *hash,
        _ => panic!(),
    };
    let mut at = 0;
    let mut chunks = vec![];
    while let UploadWant::Read(count) = upload.wants() {
        assert!(!upload.is_hashing());
        let chunk = data[at..at + count as usize].to_vec();
        at += count as usize;
        let _ = server.send_chunk(&mut upload, &chunk);
        chunks.push(chunk);
    }
    assert_eq!(upload.wants(), UploadWant::Nothing);
    (hash, chunks)
}

fn file_hash(data: &[u8]) -> u128 {
    let mut hasher = FileHasher::new();
    hasher.update(data);
    hasher.finish()
}

#[test]
fn sizes_of_chunks() {
    let (server, _) = with_peer();
    assert_eq!(CHUNK_SIZE, 512);
    assert_eq!(hashed(&server, &[]).1, Vec::<usize>::new());
    assert_eq!(hashed(&server, &[1]).1, vec![1]);
    assert_eq!(hashed(&server, &[1; 511]).1, vec![511]);
    assert_eq!(hashed(&server, &[1; 513]).1, vec![512, 1]);
    assert_eq!(hashed(&server, &[1; 1300]).1, vec![512, 512, 276]);
}

#[test]
fn last_chunk_is_full_if_there_is_no_remainder() {
    let (server, _) = with_peer();
    assert_eq!(hashed(&server, &[1; 512]).1, vec![512]);
    assert_eq!(hashed(&server, &[1; 1024]).1, vec![512, 512]);
    let (mut server, _) = with_peer();
    let (hash, chunks) = uploaded(&mut server, &[1; 1024]);
    assert_eq!(hash, file_hash(&[1; 1024]));
    assert_eq!(chunks, vec![vec![1; 512], vec![1; 512]]);
}

#[test]
fn file_of_one_full_chunk_is_sent_whole() {
    let (mut server, id) = with_peer();
    let data = vec![1u8; 512];
    let hash = file_hash(&data);
    let (upload, _) = hashed(&server, &data);
    let (mut upload, effects) = server.announce(upload);
    let packet = Packet::from(Request::SetFileName(hash, "a file".to_string()));
    assert!(effects == vec![Effect::Send { to: id, packet }]);
    let effects = server.send_chunk(&mut upload, &data);
    let request = Packet::from(Request::WriteChunks(hash, vec![0]));
    let chunk = Packet::from(Response::Chunk(sha256_of_vec(&data), data));
    assert!(
        effects
            == vec![
                Effect::Send { to: id, packet: request },
                Effect::Send { to: id, packet: chunk },
                Effect::Progress { done: 1, total: 1 },
            ]
    );
    assert_eq!(upload.wants(), UploadWant::Nothing);
}

#[test]
fn chunks_make_up_the_file() {
    let (mut server, _) = with_peer();
    let data: Vec<u8> = (0..1300u32).map(|i| (i % 251) as u8).collect();
    let (hash, chunks) = uploaded(&mut server, &data);
    assert_eq!(hash, file_hash(&data));
    assert_eq!(chunks.concat(), data);
    assert_eq!(server.stats.uploaded_chunks, 3);
}

#[test]
fn file_is_announced_to_the_peers() {
    let (mut server, id) = with_peer();
    let (upload, _) = hashed(&server, b"abc");
    let (_, effects) = server.announce(upload);
    let hash = file_hash(b"abc");
    let packet = Packet::from(Request::SetFileName(hash, "a file".to_string()));
    assert!(effects == vec![Effect::Send { to: id, packet }]);
    assert_eq!(server.file_name(hash), Some("a file"));
}

#[test]
fn file_is_announced_under_the_given_hash() {
    let (mut server, id) = with_peer();
    let (upload, _) = hashed(&server, b"abc");
    let (_, effects) = server.announce_as(upload, 5);
    let packet = Packet::from(Request::SetFileName(5, "a file".to_string()));
    assert!(effects == vec![Effect::Send { to: id, packet }]);
    assert_eq!(server.file_hash_by_name("a file"), Some(5));
}

#[test]
fn each_chunk_goes_to_all_peers() {
    let (mut server, _) = with_peer();
    server.add_peer(Peer::new("10.0.0.2:80".to_string()));
    let data = [3u8; 600];
    let (upload, _) = hashed(&server, &data);
    let (mut upload, _) = server.announce_as(upload, 5);
    let first = server.send_chunk(&mut upload, &data[..512].to_vec());
    assert_eq!(first.len(), 5);
    assert!(first[4] == Effect::Progress { done: 1, total: 2 });
    for pair in [&first[0..2], &first[2..4]] {
        let to = match &pair[0] {
            Effect::Send { to, packet } => {
                assert!(*packet == Packet::from(Request::WriteChunks(5, vec![0])));
                *to
            }
            _ => panic!(),
        };
        assert!(to == addr_to_u64(ADDR) || to == addr_to_u64("10.0.0.2:80"));
        let data = data[..512].to_vec();
        let packet = Packet::from(Response::Chunk(sha256_of_vec(&data), data));
        assert!(pair[1] == Effect::Send { to, packet });
    }
    assert_eq!(server.stats.uploaded_chunks, 2);
    let second = server.send_chunk_with(&mut upload, [9; 32], &data[512..].to_vec());
    assert!(second[4] == Effect::Progress { done: 2, total: 2 });
    match &second[1] {
        Effect::Send { packet, .. } => {
            assert!(*packet == Packet::from(Response::Chunk([9; 32], vec![3; 88])));
        }
        _ => panic!(),
    }
    assert_eq!(server.stats.uploaded_chunks, 4);
    assert_eq!(upload.wants(), UploadWant::Nothing);
}

#[test]
fn empty_file_has_no_chunks() {
    let (mut server, _) = with_peer();
    let (hash, chunks) = uploaded(&mut server, &[]);
    assert_eq!(hash, file_hash(&[]));
    assert!(chunks.is_empty());
}
