use crate::sys::msg::Message;
use crate::sys::rt::{ChainView, Rt};
use vstd::prelude::*;

verus! {

/// An interface with the network: the runtime, the chain it follows, and
/// whether it has bootstrapped its DHT.
pub struct Client {
    pub runtime: Rt,
    chain_id: usize,
    bootstrapped: bool,
}

impl Client {
    /// The client's runtime.
    pub closed spec fn spec_runtime(&self) -> Rt {
        self.runtime
    }

    /// The chain that the client follows.
    pub closed spec fn spec_chain_id(&self) -> usize {
        self.chain_id
    }

    /// Whether the client has bootstrapped its DHT.
    pub closed spec fn spec_bootstrapped(&self) -> bool {
        self.bootstrapped
    }

    /// Creates a new client with an empty runtime for the given chain ID.
    pub fn new(chain_id: usize) -> (r: Client)
        ensures
            r.spec_runtime().wf(),
            r.spec_runtime().stored() == Map::<Seq<u8>, Message>::empty(),
            r.spec_runtime().chains() == Seq::<ChainView>::empty(),
            r.spec_chain_id() == chain_id,
            !r.spec_bootstrapped(),
    {
        Client { chain_id, runtime: Rt::default(), bootstrapped: false }
    }

    /// A client with the given state, as it was saved.
    pub fn from_state(runtime: Rt, chain_id: usize, bootstrapped: bool) -> (r: Client)
        ensures
            r.spec_runtime() == runtime,
            r.spec_chain_id() == chain_id,
            r.spec_bootstrapped() == bootstrapped,
    {
        Client { runtime, chain_id, bootstrapped }
    }

    /// The chain that the client follows.
    pub fn chain_id(&self) -> (r: usize)
        ensures
            r == self.spec_chain_id(),
    {
        self.chain_id
    }

    /// Whether the client has bootstrapped its DHT.
    pub fn bootstrapped(&self) -> (r: bool)
        ensures
            r == self.spec_bootstrapped(),
    {
        self.bootstrapped
    }

    /// Whether a connection to the dialed `address` should bootstrap the DHT:
    /// when the client has not bootstrapped yet and the address is one of the
    /// bootstrap peers.
    pub fn should_bootstrap(&self, address: &String, bootstrap_peers: &Vec<String>) -> (r: bool)
        ensures
            r == (!self.spec_bootstrapped() && exists|i: int|
                0 <= i < bootstrap_peers@.len() && (#[trigger] bootstrap_peers@[i])@ == address@),
    {
        if self.bootstrapped {
            return false;
        }
        let mut i: usize = 0;
        while i < bootstrap_peers.len()
            invariant
                !self.spec_bootstrapped(),
                0 <= i <= bootstrap_peers@.len(),
                forall|j: int| 0 <= j < i ==> (#[trigger] bootstrap_peers@[j])@ != address@,
            decreases bootstrap_peers@.len() - i,
        {
            let found = bootstrap_peers[i].eq(address);
            if found {
                return true;
            }
            i = i + 1;
        }
        false
    }

    /// Records that the DHT has been bootstrapped.
    pub fn mark_bootstrapped(&mut self)
        ensures
            final(self).spec_bootstrapped(),
            final(self).spec_runtime() == old(self).spec_runtime(),
            final(self).spec_chain_id() == old(self).spec_chain_id(),
    {
        self.bootstrapped = true;
    }
}

} // verus!
