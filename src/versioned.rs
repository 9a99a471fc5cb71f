//! Records of the content-addressed file store: a file's contents with its
//! path and mode, the digest that addresses those contents, and the queries
//! that read them back.

use vstd::prelude::*;

verus! {

/// The SHA-256 digest of a byte sequence.
pub uninterp spec fn sha256_of(b: Seq<u8>) -> Seq<u8>;

/// Relies on `sha2::Sha256::digest`: the 32-byte SHA-256 digest of `b`,
/// which depends on the bytes alone.
#[verifier::external_body]
fn sha256(b: &[u8]) -> (r: [u8; 32])
    ensures
        r@ == sha256_of(b@),
{
    <sha2::Sha256 as sha2::Digest>::digest(b).into()
}

/// A content digest.
#[derive(Clone, Copy)]
pub struct Hash(pub [u8; 32]);

/// One file of a project: its path, its contents and its mode bits.
#[derive(Debug)]
pub struct Path {
    pub path: String,
    pub bytes: Vec<u8>,
    pub mode: u32,
}

impl Path {
    pub fn new(path: String, bytes: Vec<u8>, mode: u32) -> (r: Path)
        ensures
            r.path@ == path@,
            r.bytes@ == bytes@,
            r.mode == mode,
    {
        Path { path, bytes, mode }
    }

    /// The digest that addresses this file's contents.
    pub fn hash_bytes(&self) -> (r: Hash)
        ensures
            r.0@ == sha256_of(self.bytes@),
    {
        Hash(sha256(self.bytes.as_slice()))
    }
}

/// A lookup of stored files under a path, at the latest version or at a
/// given one, with or without their contents.
pub enum Query {
    ListLatest(String, bool),
    ReadLatest(String, bool),
    List(String, bool, u64),
    Read(String, bool, u64),
}

} // verus!
