use crate::crypto::hash;
use vstd::prelude::*;

verus! {

/// A request for some information from a peer.
#[derive(Clone, Copy, PartialEq, Eq, Debug)]
pub enum Request {
    /// Requests the peer for the hash of the longest chain, in the given round
    /// of questioning.
    LongestChain { query_round: usize },
}

/// A response for some information from a peer.
#[derive(Clone, Copy, PartialEq, Eq, Debug)]
pub enum Response {
    /// The head of the peer's longest chain and its height, for the given round
    /// of questioning.
    LongestChain { height: usize, hash: hash::Hash, query_round: usize },
}

} // verus!
