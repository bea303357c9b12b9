//! The digest function of the trie, and the trait that makes it replaceable.

use sha2::digest::FixedOutput;
use sha2::{Digest, Sha256};
use vstd::prelude::*;

verus! {

/// The SHA-256 digest of a byte sequence, as the `sha2` crate computes it.
///
/// Nothing is stated of its value but that it is a function of the message.
/// That no two messages have one digest is hoped, and nowhere assumed.
pub uninterp spec fn sha256(data: Seq<u8>) -> Seq<u8>;

/// Feeds `data` to a fresh `sha2::Sha256` hasher (`Digest::new`,
/// `Digest::update`) and takes its output (`FixedOutput::finalize_fixed`).
///
/// Trusted, not proved: the 32 bytes that come out are the SHA-256 digest of
/// `data`, which depends on nothing but the bytes of `data`. None of the three
/// calls panics.
#[verifier::external_body]
fn sha256_digest(data: &[u8]) -> (digest: [u8; 32])
    ensures
        digest@ == sha256(data@),
{
    let mut hasher = Sha256::new();
    hasher.update(data);
    <[u8; 32]>::from(hasher.finalize_fixed())
}

/// A digest function over byte sequences with a digest type of fixed width.
pub trait Hasher: Clone {
    /// The digest type.
    type Hash: Copy + PartialEq + Into<Vec<u8>> + TryFrom<Vec<u8>>;

    /// The function from messages to digest bytes that `hash` computes.
    spec fn digest(data: Seq<u8>) -> Seq<u8>;

    /// The bytes of a digest value.
    spec fn bytes(hash: Self::Hash) -> Seq<u8>;

    /// The digest of `data`.
    fn hash(data: &[u8]) -> (hash: Self::Hash)
        ensures
            Self::bytes(hash) == Self::digest(data@),
    ;

    /// The bytes of `hash`, in a vector.
    fn to_bytes(hash: &Self::Hash) -> (bytes: Vec<u8>)
        ensures
            bytes@ == Self::bytes(*hash),
    ;

    /// With a right digest, the digest of the bytes of `left` followed by those
    /// of `right`; without one, `left` itself.
    fn concat_and_hash(left: &Self::Hash, right: Option<&Self::Hash>) -> (hash: Self::Hash)
        ensures
            match right {
                Some(r) => Self::bytes(hash) == Self::digest(Self::bytes(*left) + Self::bytes(*r)),
                None => hash == *left,
            },
    {
        match right {
            Some(right_node) => {
                let mut concatenated = Self::to_bytes(left);
                let mut right_bytes = Self::to_bytes(right_node);
                concatenated.append(&mut right_bytes);
                Self::hash(concatenated.as_slice())
            },
            None => *left,
        }
    }

    /// The width of a digest in bytes.
    fn hash_size() -> (size: usize)
        ensures
            size == vstd::layout::size_of::<Self::Hash>(),
    {
        core::mem::size_of::<Self::Hash>()
    }
}

/// SHA-256, with digests of 32 bytes.
pub struct Sha256Algorithm;

impl Clone for Sha256Algorithm {
    fn clone(&self) -> (copy: Self)
        ensures
            copy == *self,
    {
        Sha256Algorithm
    }
}

impl Hasher for Sha256Algorithm {
    type Hash = [u8; 32];

    open spec fn digest(data: Seq<u8>) -> Seq<u8> {
        sha256(data)
    }

    open spec fn bytes(hash: [u8; 32]) -> Seq<u8> {
        hash@
    }

    fn hash(data: &[u8]) -> (hash: [u8; 32]) {
        sha256_digest(data)
    }

    fn to_bytes(hash: &[u8; 32]) -> (bytes: Vec<u8>) {
        let mut bytes: Vec<u8> = Vec::with_capacity(32);
        let mut i: usize = 0;
        while i < 32
            invariant
                i <= 32,
                bytes@ == hash@.subrange(0, i as int),
            decreases 32 - i,
        {
            bytes.push(hash[i]);
            i += 1;
        }
        bytes
    }
}

} // verus!
