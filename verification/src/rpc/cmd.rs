use crate::captcha::is_generated;
use crate::crypto::hash;
use crate::sys::msg::{opt_hash_view, opt_string_view, Message, MessageData};
use vstd::prelude::*;

verus! {

/// A partially applied message data construction used by clients to submit
/// messages to the chain.
#[derive(Clone, PartialEq, Eq, Debug)]
pub struct SubmitMsgReq {
    data: Vec<u8>,
    prev: Option<hash::Hash>,
    captcha_ans: Option<String>,
    captcha_src: Option<hash::Hash>,
    height: usize,
    timestamp: u128,
}

/// A request to load a message with a particular hash.
#[derive(Clone, Copy, PartialEq, Eq, Debug)]
pub struct LoadMsgReq {
    pub hash: hash::Hash,
}

/// RPC inputs to the client.
#[allow(inconsistent_fields)]
#[derive(Clone, PartialEq, Eq, Debug)]
pub enum Cmd {
    SubmitMsg { req: SubmitMsgReq, req_id: usize },
    LoadMsg { req: LoadMsgReq, req_id: usize },
    GetHead { req_id: usize },
    Terminate,
}

/// RPC outputs of the client.
#[derive(Clone, PartialEq, Eq, Debug)]
pub enum CmdResp {
    MsgSubmitted { hash: hash::Hash, req_id: usize },
    MsgLoaded { msg: Message, req_id: usize },
    HeadLoaded { hash: hash::Hash, req_id: usize },
    Error { error: String, req_id: usize },
}

/// The fields of a submission request, as plain values.
pub struct SubmitMsgReqView {
    pub data: Seq<u8>,
    pub prev: Option<Seq<u8>>,
    pub captcha_ans: Option<Seq<char>>,
    pub captcha_src: Option<Seq<u8>>,
    pub height: usize,
    pub timestamp: u128,
}

impl View for SubmitMsgReq {
    type V = SubmitMsgReqView;

    closed spec fn view(&self) -> SubmitMsgReqView {
        SubmitMsgReqView {
            data: self.data@,
            prev: opt_hash_view(self.prev),
            captcha_ans: opt_string_view(self.captcha_ans),
            captcha_src: opt_hash_view(self.captcha_src),
            height: self.height,
            timestamp: self.timestamp,
        }
    }
}

impl SubmitMsgReq {
    /// A request with the given fields.
    pub fn new(
        data: Vec<u8>,
        prev: Option<hash::Hash>,
        captcha_ans: Option<String>,
        captcha_src: Option<hash::Hash>,
        height: usize,
        timestamp: u128,
    ) -> (r: SubmitMsgReq)
        ensures
            r@ == (SubmitMsgReqView {
                data: data@,
                prev: opt_hash_view(prev),
                captcha_ans: opt_string_view(captcha_ans),
                captcha_src: opt_hash_view(captcha_src),
                height,
                timestamp,
            }),
    {
        SubmitMsgReq { data, prev, captcha_ans, captcha_src, height, timestamp }
    }

    /// The data of the message to submit.
    pub fn data(&self) -> (r: &[u8])
        ensures
            r@ == self@.data,
    {
        self.data.as_slice()
    }

    /// The hash of the previous message.
    pub fn prev(&self) -> (r: Option<hash::Hash>)
        ensures
            opt_hash_view(r) == self@.prev,
    {
        self.prev
    }

    /// The answer to the captcha being solved.
    pub fn captcha_ans(&self) -> (r: Option<&str>)
        ensures
            match r {
                None => self@.captcha_ans is None,
                Some(s) => self@.captcha_ans == Some(s@),
            },
    {
        match &self.captcha_ans {
            None => None,
            Some(s) => Some(s.as_str()),
        }
    }

    /// The hash of the message whose captcha is being solved.
    pub fn captcha_src(&self) -> (r: Option<hash::Hash>)
        ensures
            opt_hash_view(r) == self@.captcha_src,
    {
        self.captcha_src
    }

    /// The height of the message to submit.
    pub fn height(&self) -> (r: usize)
        ensures
            r == self@.height,
    {
        self.height
    }

    /// The timestamp of the message to submit.
    pub fn timestamp(&self) -> (r: u128)
        ensures
            r == self@.timestamp,
    {
        self.timestamp
    }

    /// Completes the construction: the message data of the request, with a
    /// freshly generated captcha.
    pub fn into_message_data(self) -> (r: MessageData)
        ensures
            r@.data == self@.data,
            r@.prev == self@.prev,
            is_generated(r@.new_captcha),
            r@.captcha_ans == self@.captcha_ans,
            r@.captcha_src == self@.captcha_src,
            r@.height == self@.height,
            r@.timestamp == self@.timestamp,
    {
        MessageData::new(self.data, self.prev, self.captcha_ans, self.captcha_src, self.height, self.timestamp)
    }
}

impl Cmd {
    /// Whether the command stops the client.
    pub fn stops_client(&self) -> (r: bool)
        ensures
            r == (*self is Terminate),
    {
        match self {
            Cmd::Terminate => true,
            _ => false,
        }
    }
}

} // verus!
