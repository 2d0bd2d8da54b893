//! A blockchain of captcha-gated messages: message data and its hashing, the
//! runtime that tracks chains of messages and picks the longest one, and the
//! decisions that the networking and RPC layers take on plain values.

pub mod captcha;
pub mod crypto;
pub mod keyed;
pub mod net;
pub mod rpc;
pub mod sys;
