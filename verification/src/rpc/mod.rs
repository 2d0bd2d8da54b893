//! The commands that the RPC interface sends the client, its responses, and
//! how a caller picks out the response to its own request.

pub mod cmd;

use crate::crypto::hash;
use crate::rpc::cmd::CmdResp;
use crate::sys::msg::Message;
use vstd::prelude::*;

verus! {

/// What a response means to a caller waiting on its own request.
#[derive(Clone, PartialEq, Eq, Debug)]
pub enum Reply<T> {
    /// The response is for another request, or of another kind: the caller
    /// drops it and waits for the next one.
    Pending,
    /// The request succeeded with this value.
    Done(T),
    /// The request failed with this error.
    Failed(String),
}

/// What a response means to a caller that submitted a message as request
/// `req_id`.
pub fn submitted_reply(resp: CmdResp, req_id: usize) -> (r: Reply<hash::Hash>)
    ensures
        r == match resp {
            CmdResp::MsgSubmitted { hash, req_id: id } => if id == req_id {
                Reply::Done(hash)
            } else {
                Reply::Pending
            },
            CmdResp::Error { error, req_id: id } => if id == req_id {
                Reply::Failed(error)
            } else {
                Reply::Pending
            },
            _ => Reply::Pending,
        },
{
    match resp {
        CmdResp::MsgSubmitted { hash, req_id: id } => if id == req_id {
            Reply::Done(hash)
        } else {
            Reply::Pending
        },
        CmdResp::Error { error, req_id: id } => if id == req_id {
            Reply::Failed(error)
        } else {
            Reply::Pending
        },
        _ => Reply::Pending,
    }
}

/// What a response means to a caller that asked to load a message as request
/// `req_id`.
pub fn loaded_reply(resp: CmdResp, req_id: usize) -> (r: Reply<Message>)
    ensures
        r == match resp {
            CmdResp::MsgLoaded { msg, req_id: id } => if id == req_id {
                Reply::Done(msg)
            } else {
                Reply::Pending
            },
            CmdResp::Error { error, req_id: id } => if id == req_id {
                Reply::Failed(error)
            } else {
                Reply::Pending
            },
            _ => Reply::Pending,
        },
{
    match resp {
        CmdResp::MsgLoaded { msg, req_id: id } => if id == req_id {
            Reply::Done(msg)
        } else {
            Reply::Pending
        },
        CmdResp::Error { error, req_id: id } => if id == req_id {
            Reply::Failed(error)
        } else {
            Reply::Pending
        },
        _ => Reply::Pending,
    }
}

/// What a response means to a caller that asked for the head as request
/// `req_id`.
pub fn head_reply(resp: CmdResp, req_id: usize) -> (r: Reply<hash::Hash>)
    ensures
        r == match resp {
            CmdResp::HeadLoaded { hash, req_id: id } => if id == req_id {
                Reply::Done(hash)
            } else {
                Reply::Pending
            },
            CmdResp::Error { error, req_id: id } => if id == req_id {
                Reply::Failed(error)
            } else {
                Reply::Pending
            },
            _ => Reply::Pending,
        },
{
    match resp {
        CmdResp::HeadLoaded { hash, req_id: id } => if id == req_id {
            Reply::Done(hash)
        } else {
            Reply::Pending
        },
        CmdResp::Error { error, req_id: id } => if id == req_id {
            Reply::Failed(error)
        } else {
            Reply::Pending
        },
        _ => Reply::Pending,
    }
}

} // verus!
