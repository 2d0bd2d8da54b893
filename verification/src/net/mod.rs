//! The decisions of the networking layer, taken on plain values: the client's
//! state, the requests peers exchange, message gossip and chain
//! synchronization.

pub mod client;
pub mod msg;
pub mod req;
pub mod sync;
