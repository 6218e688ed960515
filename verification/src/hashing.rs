//! Hashing a stream of bytes, chunk by chunk.
use vstd::prelude::*;
use xxhash_rust::xxh3::Xxh3;

use crate::text::{hex16, hex_digits};

verus! {

/// The streaming XXH3 hasher.
#[verifier::external_type_specification]
#[verifier::external_body]
pub struct ExXxh3(Xxh3);

/// The bytes that a hasher has been given since it was made.
pub uninterp spec fn xxh3_absorbed(hasher: Xxh3) -> Seq<u8>;

/// What `Xxh3::digest` returns for a hasher that was given `bytes`: the 64-bit XXH3 hash
/// of them, with the default seed and secret.
pub uninterp spec fn xxh3_digest(bytes: Seq<u8>) -> u64;

/// `Xxh3::new` makes a hasher that has been given nothing.
pub assume_specification[ Xxh3::new ]() -> (hasher: Xxh3)
    ensures
        xxh3_absorbed(hasher) == Seq::<u8>::empty(),
;

/// `Xxh3::update` gives the hasher more bytes, after those that it was given before. How
/// the bytes are divided among calls makes no difference.
pub assume_specification[ Xxh3::update ](hasher: &mut Xxh3, input: &[u8])
    ensures
        xxh3_absorbed(*final(hasher)) == xxh3_absorbed(*old(hasher)) + input@,
;

/// `Xxh3::digest` returns the hash of all the bytes that the hasher was given.
pub assume_specification[ Xxh3::digest ](hasher: &Xxh3) -> (digest: u64)
    ensures
        digest == xxh3_digest(xxh3_absorbed(*hasher)),
;

/// The recorded hash of `bytes`.
pub open spec fn hash_text(bytes: Seq<u8>) -> Seq<char> {
    hex_digits(xxh3_digest(bytes) as nat, 16)
}

/// The bytes of `chunks`, one after the other.
pub open spec fn flattened(chunks: Seq<Seq<u8>>) -> Seq<u8>
    decreases chunks.len(),
{
    if chunks.len() == 0 {
        Seq::empty()
    } else {
        flattened(chunks.drop_last()) + chunks.last()
    }
}

/// A hasher at work on one stream.
pub struct StreamHash {
    hasher: Xxh3,
}

impl View for StreamHash {
    type V = Seq<u8>;

    closed spec fn view(&self) -> Seq<u8> {
        xxh3_absorbed(self.hasher)
    }
}

impl StreamHash {
    pub fn new() -> (hash: StreamHash)
        ensures
            hash@ == Seq::<u8>::empty(),
    {
        StreamHash { hasher: Xxh3::new() }
    }

    pub fn update(&mut self, chunk: &[u8])
        ensures
            final(self)@ == old(self)@ + chunk@,
    {
        self.hasher.update(chunk);
    }

    /// The hash of the stream so far, as it is recorded.
    pub fn text(&self) -> (text: String)
        ensures
            text@ == hash_text(self@),
            text@ == hex_digits(xxh3_digest(self@) as nat, 16),
    {
        hex16(self.hasher.digest())
    }
}

} // verus!
