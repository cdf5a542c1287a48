//! Plain value types shared by the protocols: room identifiers and the
//! fixed-size digests that stand for cards and shuffle artifacts.

use vstd::prelude::*;

verus! {

/// Unique identifier of a game room; one room owns exactly one `Game`.
pub type RoomId = u64;

/// A 256-bit digest used as a commitment for a card or a shuffle step,
/// held as four 64-bit words.
#[derive(Clone, Copy, PartialEq, Eq, Structural, Debug)]
pub struct CryptoHash {
    pub w0: u64,
    pub w1: u64,
    pub w2: u64,
    pub w3: u64,
}

impl CryptoHash {
    /// Builds a digest from its four 64-bit words.
    pub fn from_words(w0: u64, w1: u64, w2: u64, w3: u64) -> (r: CryptoHash)
        ensures
            r == (CryptoHash { w0, w1, w2, w3 }),
    {
        CryptoHash { w0, w1, w2, w3 }
    }
}

} // verus!
