//! Messages of the chain, their JSON form and hash, and the runtime that keeps
//! them in chains.

pub mod json;
pub mod msg;
pub mod rt;
