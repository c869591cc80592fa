use chunkshare::digest::{addr_to_u64, sha256_of_vec, FileHasher};
use sha2::Digest;

#[test]
fn sha256_of_known_texts() {
    assert_eq!(
        sha256_of_vec(b"abc"),
        [
            0xba, 0x78, 0x16, 0xbf, 0x8f, 0x01, 0xcf, 0xea, 0x41, 0x41, 0x40, 0xde, 0x5d, 0xae,
            0x22, 0x23, 0xb0, 0x03, 0x61, 0xa3, 0x96, 0x17, 0x7a, 0x9c, 0xb4, 0x10, 0xff, 0x61,
            0xf2, 0x00, 0x15, 0xad,
        ]
    );
    assert_eq!(sha256_of_vec(b"")[..4], [0xe3, 0xb0, 0xc4, 0x42]);
}

#[test]
fn peer_identities() {
    assert_eq!(addr_to_u64(""), 0x2d06_8005_38d3_94c2);
    let addr = "127.0.0.1:8080";
    assert_eq!(addr_to_u64(addr), xxhash_rust::xxh3::xxh3_64(addr.as_bytes()));
    assert_ne!(addr_to_u64(addr), addr_to_u64("127.0.0.1:8081"));
}

fn file_hash(data: &[u8]) -> u128 {
    xxhash_rust::xxh3::xxh3_128(sha2::Sha512::digest(data).as_slice())
}

#[test]
fn file_hash_of_nothing() {
    assert_eq!(FileHasher::new().finish(), file_hash(b""));
}

#[test]
fn file_hash_does_not_depend_on_the_pieces() {
    let mut whole = FileHasher::new();
    whole.update(b"hello world");
    let mut pieces = FileHasher::new();
    pieces.update(b"hello");
    pieces.update(b"");
    pieces.update(b" world");
    let hash = whole.finish();
    assert_eq!(hash, pieces.finish());
    assert_eq!(hash, file_hash(b"hello world"));
    assert_ne!(hash, file_hash(b"hello worlds"));
}
