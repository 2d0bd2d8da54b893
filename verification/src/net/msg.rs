use crate::crypto::hash;
use crate::sys::msg::Message;
use crate::sys::rt::{chains_after, Rt};
use vstd::prelude::*;

verus! {

/// Events emitted by the message behavior.
#[derive(Clone, Copy, PartialEq, Eq, Debug)]
pub enum Event {
    /// Emitted when a message gets received.
    MessageReceived(hash::Hash),
}

/// A context that handles swarm events dealing with messages.
#[derive(Clone, Copy, PartialEq, Eq, Debug, Default)]
pub struct Context;

impl Context {
    /// Handles a message that arrived over floodsub. `on_topic` tells whether
    /// it was published on the messages topic, and `parsed` is its payload read
    /// as a message, if it could be. A message on the topic is stored in the
    /// runtime and reported; anything else leaves the runtime as it was.
    pub fn on_floodsub_message(&mut self, rt: &mut Rt, on_topic: bool, parsed: Option<Message>) -> (r:
        Option<Event>)
        requires
            old(rt).wf(),
        ensures
            final(rt).wf(),
            on_topic && parsed is Some ==> {
                let m = parsed.unwrap();
                &&& r matches Some(Event::MessageReceived(h)) && h@ == m@.hash
                &&& final(rt).stored() == old(rt).stored().insert(m@.hash, m)
                &&& final(rt).chains() == chains_after(old(rt).chains(), m@.hash, m@.data.prev)
            },
            !(on_topic && parsed is Some) ==> r is None && *final(rt) == *old(rt),
    {
        if !on_topic {
            return None;
        }
        match parsed {
            Some(msg) => {
                let h = *msg.hash();
                rt.insert_message(msg);
                Some(Event::MessageReceived(h))
            },
            None => None,
        }
    }
}

} // verus!
