//! The hash functions that give chunks, files and peers their identities.
use sha2::Digest;
use vstd::prelude::*;

verus! {

/// What SHA-256 gives for `data`.
pub uninterp spec fn sha256_digest(data: Seq<u8>) -> Seq<u8>;

/// What SHA-512 gives for `data`.
pub uninterp spec fn sha512_digest(data: Seq<u8>) -> Seq<u8>;

/// The 64-bit XXH3 hash of `data`.
pub uninterp spec fn xxh3_64_hash(data: Seq<u8>) -> u64;

/// The 128-bit XXH3 hash of `data`.
pub uninterp spec fn xxh3_128_hash(data: Seq<u8>) -> u128;

/// The bytes that a SHA-512 hasher has been fed so far, in order.
pub uninterp spec fn sha512_fed(hasher: sha2::Sha512) -> Seq<u8>;

/// The incremental SHA-512 hasher of the `sha2` crate, as an opaque type.
#[verifier::external_type_specification]
#[verifier::external_body]
pub struct ExSha512(sha2::Sha512);

/// Calls `sha2::Sha256::digest`, which hashes the whole of its argument at
/// once. The result is named `sha256_digest`.
#[verifier::external_body]
fn sha256(data: &[u8]) -> (hash: [u8; 32])
    ensures
        hash@ == sha256_digest(data@),
{
    sha2::Sha256::digest(data).into()
}

/// Calls `sha2::Sha512::new`: the new hasher has been fed nothing.
#[verifier::external_body]
fn sha512_new() -> (hasher: sha2::Sha512)
    ensures
        sha512_fed(hasher) == Seq::<u8>::empty(),
{
    sha2::Sha512::new()
}

/// Calls `sha2::Sha512::update`, which feeds the hasher `data` after all that
/// it has been fed before.
#[verifier::external_body]
fn sha512_update(hasher: &mut sha2::Sha512, data: &[u8])
    ensures
        sha512_fed(*final(hasher)) == sha512_fed(*old(hasher)) + data@,
{
    hasher.update(data)
}

/// Calls `sha2::Sha512::finalize`: the digest is that of all the bytes the
/// hasher has been fed, taken together. It is named `sha512_digest`.
#[verifier::external_body]
fn sha512_finalize(hasher: sha2::Sha512) -> (hash: [u8; 64])
    ensures
        hash@ == sha512_digest(sha512_fed(hasher)),
{
    hasher.finalize().into()
}

/// Calls `xxhash_rust::xxh3::xxh3_64`. The result is named `xxh3_64_hash`.
#[verifier::external_body]
fn xxh3_64(data: &[u8]) -> (hash: u64)
    ensures
        hash == xxh3_64_hash(data@),
{
    xxhash_rust::xxh3::xxh3_64(data)
}

/// Calls `xxhash_rust::xxh3::xxh3_128`. The result is named `xxh3_128_hash`.
#[verifier::external_body]
fn xxh3_128(data: &[u8]) -> (hash: u128)
    ensures
        hash == xxh3_128_hash(data@),
{
    xxhash_rust::xxh3::xxh3_128(data)
}

/// The hash that stands for a file with the contents `data`: XXH3 over the
/// SHA-512 digest.
pub open spec fn file_hash_of(data: Seq<u8>) -> u128 {
    xxh3_128_hash(sha512_digest(data))
}

/// The SHA-256 digest that travels with a chunk.
pub fn sha256_of_vec(data: &[u8]) -> (hash: [u8; 32])
    ensures
        hash@ == sha256_digest(data@),
{
    sha256(data)
}

/// Computes the hash of a file from its contents, piece by piece.
pub struct FileHasher {
    inner: sha2::Sha512,
}

impl View for FileHasher {
    type V = Seq<u8>;

    /// The bytes fed so far.
    closed spec fn view(&self) -> Seq<u8> {
        sha512_fed(self.inner)
    }
}

impl FileHasher {
    pub fn new() -> (hasher: FileHasher)
        ensures
            hasher@ == Seq::<u8>::empty(),
    {
        FileHasher { inner: sha512_new() }
    }

    pub fn update(&mut self, data: &[u8])
        ensures
            final(self)@ == old(self)@ + data@,
    {
        sha512_update(&mut self.inner, data);
    }

    pub fn finish(self) -> (hash: u128)
        ensures
            hash == file_hash_of(self@),
    {
        let digest = sha512_finalize(self.inner);
        xxh3_128(digest.as_slice())
    }
}

/// The identity of the peer with the socket address `addr`, in its usual
/// textual form.
pub open spec fn peer_id_of(addr: Seq<char>) -> u64 {
    xxh3_64_hash(vstd::utf8::encode_utf8(addr))
}

pub fn addr_to_u64(addr: &str) -> (id: u64)
    ensures
        id == peer_id_of(addr@),
{
    xxh3_64(addr.as_bytes())
}

} // verus!
