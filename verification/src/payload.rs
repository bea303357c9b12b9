//! What a trie stores: values with a canonical byte encoding.

use vstd::prelude::*;
use vstd::slice::slice_to_vec;
use vstd::utf8::encode_utf8;

verus! {

/// A value that has one canonical sequence of bytes. The trie hashes these
/// bytes and never parses them.
pub trait Payload: Clone {
    /// The canonical bytes of the value.
    spec fn encoding(&self) -> Seq<u8>;

    /// The canonical bytes of the value, in a vector.
    fn encode(&self) -> (bytes: Vec<u8>)
        ensures
            bytes@ == self.encoding(),
    ;

    /// A clone has the bytes of the value it was made from.
    proof fn clone_keeps_encoding(&self, copy: &Self)
        requires
            cloned::<Self>(*self, *copy),
        ensures
            copy.encoding() == self.encoding(),
    ;
}

/// A byte vector is its own encoding.
impl Payload for Vec<u8> {
    open spec fn encoding(&self) -> Seq<u8> {
        self@
    }

    fn encode(&self) -> (bytes: Vec<u8>) {
        slice_to_vec(self.as_slice())
    }

    proof fn clone_keeps_encoding(&self, copy: &Self) {
        assert(copy@ =~= self@);
    }
}

/// A string is encoded as its UTF-8 bytes.
impl Payload for String {
    open spec fn encoding(&self) -> Seq<u8> {
        encode_utf8(self@)
    }

    fn encode(&self) -> (bytes: Vec<u8>) {
        slice_to_vec(self.as_str().as_bytes())
    }

    proof fn clone_keeps_encoding(&self, copy: &Self) {
    }
}

} // verus!
