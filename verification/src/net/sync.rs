use crate::crypto::hash;
use crate::keyed::{keys_distinct, lemma_at, lemma_push, lemma_remove, lemma_update, pairs_map};
use crate::net::req::Response;
use crate::sys::msg::Message;
use crate::sys::rt::{is_longest, longest_head, message_in_longest, ChainView, Rt};
use vstd::prelude::*;

verus! {

/// The number of milliseconds after which a round of questioning about the
/// longest chain stops taking answers.
pub const SYNCHRONIZATION_TIMEOUT: u64 = 60000;

/// Events emitted by the synchronization behavior.
#[derive(Clone, PartialEq, Eq, Debug)]
pub enum Event {
    /// Emitted when a message of the chain has been committed.
    MessageCommitted(hash::Hash),
    /// Emitted when a message is successfully loaded.
    MessageLoaded(Message),
    /// Emitted when the longest chain has been updated.
    LongestChainUpdated {
        /// The hash of the head of the longest chain.
        hash: hash::Hash,
        /// The length of the longest chain.
        height: usize,
    },
}

/// Errors that may occur while synchronizing the chain.
#[derive(Clone, Copy, PartialEq, Eq, Debug)]
pub enum Error {
    /// The runtime is missing a message that the chain refers to.
    MissingMessage,
}

/// A round of questioning about the longest chain, as plain values.
pub struct RoundView {
    pub initiated_at: u64,
    pub peers_contacted: usize,
    pub results: Seq<(Seq<u8>, usize)>,
}

/// The state of synchronization, as plain values: the rounds of questioning,
/// the hash uploaded by each pending upload query, and the pending download
/// queries.
pub struct ContextView {
    pub rounds: Seq<RoundView>,
    pub uploads: Map<u64, Seq<u8>>,
    pub downloads: Set<u64>,
}

/// The number of peers to question out of those known: half of them.
pub open spec fn sample_size(n: nat) -> nat {
    n / 2
}

/// Whether a round has heard from more than half of the peers it asked.
pub open spec fn has_quorum(results: nat, contacted: nat) -> bool {
    2 * results > contacted
}

/// The milliseconds from `then` to `now`, or zero if `now` is earlier.
pub open spec fn elapsed(now: u64, then: u64) -> nat {
    if now >= then {
        (now - then) as nat
    } else {
        0
    }
}

/// Whether answer `k` is the last of the highest answers.
pub open spec fn is_last_max(rs: Seq<(Seq<u8>, usize)>, k: int) -> bool {
    &&& 0 <= k < rs.len()
    &&& forall|j: int| 0 <= j < rs.len() ==> (#[trigger] rs[j]).1 <= rs[k].1
    &&& forall|j: int| k < j < rs.len() ==> (#[trigger] rs[j]).1 < rs[k].1
}

/// The answer that a round settles on: the highest one, and of equally high
/// ones the last received.
pub open spec fn best_answer(rs: Seq<(Seq<u8>, usize)>) -> (Seq<u8>, usize) {
    rs[choose|k: int| is_last_max(rs, k)]
}

/// The last of the highest among the first `n` answers, found by a scan.
spec fn scan_last_max(rs: Seq<(Seq<u8>, usize)>, n: nat) -> int
    decreases n,
{
    if n <= 1 {
        0
    } else {
        let k = scan_last_max(rs, (n - 1) as nat);
        if rs[n - 1].1 >= rs[k].1 {
            n - 1
        } else {
            k
        }
    }
}

proof fn lemma_scan_last_max(rs: Seq<(Seq<u8>, usize)>, n: nat)
    requires
        1 <= n <= rs.len(),
    ensures
        0 <= scan_last_max(rs, n) < n,
        forall|j: int| 0 <= j < n ==> (#[trigger] rs[j]).1 <= rs[scan_last_max(rs, n)].1,
        forall|j: int| scan_last_max(rs, n) < j < n ==> (#[trigger] rs[j]).1 < rs[scan_last_max(rs, n)].1,
    decreases n,
{
    if n > 1 {
        lemma_scan_last_max(rs, (n - 1) as nat);
    }
}

/// A round has a quorum exactly when more than half of the peers it asked have
/// answered.
pub proof fn law_has_quorum(results: nat, contacted: nat)
    ensures
        has_quorum(results, contacted) <==> 2 * results > contacted,
        results > contacted ==> has_quorum(results, contacted),
        results == 0 ==> !has_quorum(results, contacted),
{
}

/// The answer a round settles on is one of its answers, no answer is higher,
/// and every answer received after it is lower.
pub proof fn law_best_answer(rs: Seq<(Seq<u8>, usize)>)
    requires
        rs.len() > 0,
    ensures
        exists|k: int|
            0 <= k < rs.len() && rs[k] == best_answer(rs) && (forall|j: int|
                0 <= j < rs.len() ==> (#[trigger] rs[j]).1 <= best_answer(rs).1) && (forall|j: int|
                k < j < rs.len() ==> (#[trigger] rs[j]).1 < best_answer(rs).1),
{
    lemma_scan_last_max(rs, rs.len());
    let k = scan_last_max(rs, rs.len());
    lemma_last_max(rs, k);
}

proof fn lemma_last_max(rs: Seq<(Seq<u8>, usize)>, k: int)
    requires
        is_last_max(rs, k),
    ensures
        best_answer(rs) == rs[k],
{
    let c = choose|c: int| is_last_max(rs, c);
    assert(is_last_max(rs, c));
    if c < k {
        assert(rs[k].1 < rs[c].1);
        assert(rs[k].1 <= rs[c].1);
        assert(rs[c].1 <= rs[k].1);
    }
    if k < c {
        assert(rs[c].1 < rs[k].1);
        assert(rs[k].1 <= rs[c].1);
    }
}

/// The hashes of the messages to upload, walking back from `h` through the
/// previous hashes for at most `fuel` steps, and whether the walk stopped at a
/// hash whose message is not on the current chain.
pub open spec fn upload_walk(cs: Seq<ChainView>, st: Map<Seq<u8>, Message>, h: Seq<u8>, fuel: nat) -> (
    Seq<Seq<u8>>,
    bool,
)
    decreases fuel,
{
    if fuel == 0 {
        (seq![], false)
    } else {
        match message_in_longest(cs, st, h) {
            None => (seq![], true),
            Some(m) => match m@.data.prev {
                None => (seq![h], false),
                Some(p) => {
                    let rest = upload_walk(cs, st, p, (fuel - 1) as nat);
                    (seq![h] + rest.0, rest.1)
                },
            },
        }
    }
}

/// What to upload of the chain: the hashes of its messages, from the head of
/// the longest chain back, and whether a message was missing.
pub struct UploadPlan {
    pub hashes: Vec<hash::Hash>,
    pub missing: bool,
}

/// A round of questioning regarding the longest chain.
struct Round {
    initiated_at: u64,
    peers_contacted: usize,
    results: Vec<(hash::Hash, usize)>,
}

spec fn result_view(r: (hash::Hash, usize)) -> (Seq<u8>, usize) {
    (r.0@, r.1)
}

spec fn round_view(r: Round) -> RoundView {
    RoundView {
        initiated_at: r.initiated_at,
        peers_contacted: r.peers_contacted,
        results: r.results@.map_values(|x: (hash::Hash, usize)| result_view(x)),
    }
}

/// The pending uploads as pairs of query and uploaded hash.
spec fn upload_pairs(s: Seq<(u64, hash::Hash)>) -> Seq<(u64, Seq<u8>)> {
    Seq::new(s.len(), |i: int| (s[i].0, s[i].1@))
}

/// Synchronization of the chain with peers: uploading it, downloading
/// messages, and questioning peers about the longest chain.
pub struct Context {
    chain_downloads: Vec<Round>,
    chain_uploads: Vec<(u64, hash::Hash)>,
    message_downloads: Vec<u64>,
}

impl View for Context {
    type V = ContextView;

    closed spec fn view(&self) -> ContextView {
        ContextView {
            rounds: self.chain_downloads@.map_values(|r: Round| round_view(r)),
            uploads: pairs_map(upload_pairs(self.chain_uploads@)),
            downloads: Set::new(
                |q: u64| exists|i: int| 0 <= i < self.message_downloads@.len() && self.message_downloads@[i] == q,
            ),
        }
    }
}

impl Default for Context {
    /// A context with nothing pending.
    fn default() -> (r: Context)
        ensures
            r.wf(),
            r@.rounds == Seq::<RoundView>::empty(),
            r@.uploads == Map::<u64, Seq<u8>>::empty(),
            r@.downloads == Set::<u64>::empty(),
    {
        Context::new()
    }
}

impl Context {
    /// No upload query is registered twice.
    pub closed spec fn wf(&self) -> bool {
        keys_distinct(upload_pairs(self.chain_uploads@))
    }

    /// A context with nothing pending.
    pub fn new() -> (r: Context)
        ensures
            r.wf(),
            r@.rounds == Seq::<RoundView>::empty(),
            r@.uploads == Map::<u64, Seq<u8>>::empty(),
            r@.downloads == Set::<u64>::empty(),
    {
        let r = Context { chain_downloads: Vec::new(), chain_uploads: Vec::new(), message_downloads: Vec::new() };
        assert(r@.rounds =~= Seq::<RoundView>::empty());
        assert(r@.uploads =~= Map::<u64, Seq<u8>>::empty());
        assert(r@.downloads =~= Set::<u64>::empty());
        r
    }

    proof fn lemma_upload_at(&self, i: int)
        requires
            self.wf(),
            0 <= i < self.chain_uploads@.len(),
        ensures
            self@.uploads.contains_key(self.chain_uploads@[i].0),
            self@.uploads[self.chain_uploads@[i].0] == self.chain_uploads@[i].1@,
    {
        lemma_at(upload_pairs(self.chain_uploads@), i);
    }

    /// The index of the pending upload with the given query.
    fn find_upload(&self, query: u64) -> (r: Option<usize>)
        requires
            self.wf(),
        ensures
            r matches Some(i) ==> i < self.chain_uploads@.len() && self.chain_uploads@[i as int].0 == query,
            r is None ==> !self@.uploads.contains_key(query),
    {
        let mut i: usize = 0;
        while i < self.chain_uploads.len()
            invariant
                0 <= i <= self.chain_uploads@.len(),
                forall|j: int| 0 <= j < i ==> (#[trigger] self.chain_uploads@[j]).0 != query,
            decreases self.chain_uploads@.len() - i,
        {
            if self.chain_uploads[i].0 == query {
                return Some(i);
            }
            i = i + 1;
        }
        None
    }

    /// Whether a download with the given query is pending.
    fn has_download(&self, query: u64) -> (r: bool)
        ensures
            r == self@.downloads.contains(query),
    {
        let mut i: usize = 0;
        while i < self.message_downloads.len()
            invariant
                0 <= i <= self.message_downloads@.len(),
                forall|j: int| 0 <= j < i ==> self.message_downloads@[j] != query,
            decreases self.message_downloads@.len() - i,
        {
            if self.message_downloads[i] == query {
                return true;
            }
            i = i + 1;
        }
        false
    }

    /// Notes that the DHT query `query` writes the message with hash `h`.
    pub fn register_upload(&mut self, query: u64, h: hash::Hash)
        requires
            old(self).wf(),
        ensures
            final(self).wf(),
            final(self)@.uploads == old(self)@.uploads.insert(query, h@),
            final(self)@.rounds == old(self)@.rounds,
            final(self)@.downloads == old(self)@.downloads,
    {
        let ghost before = *self;
        let ghost p = upload_pairs(before.chain_uploads@);
        match self.find_upload(query) {
            Some(i) => {
                self.chain_uploads.set(i, (query, h));
                proof {
                    assert(upload_pairs(self.chain_uploads@) =~= p.update(i as int, (p[i as int].0, h@)));
                    lemma_update(p, i as int, h@);
                }
            },
            None => {
                self.chain_uploads.push((query, h));
                proof {
                    assert(upload_pairs(self.chain_uploads@) =~= p.push((query, h@)));
                    lemma_push(p, query, h@);
                }
            },
        }
        assert(self@.rounds =~= before@.rounds);
        assert(self@.downloads =~= before@.downloads);
    }

    /// Notes that the DHT query `query` looks up a message.
    pub fn download_msg(&mut self, query: u64)
        requires
            old(self).wf(),
        ensures
            final(self).wf(),
            final(self)@.downloads == old(self)@.downloads.insert(query),
            final(self)@.uploads == old(self)@.uploads,
            final(self)@.rounds == old(self)@.rounds,
    {
        let ghost before = *self;
        if !self.has_download(query) {
            self.message_downloads.push(query);
            proof {
                assert forall|x: u64| #[trigger] self@.downloads.contains(x) <==> before@.downloads.insert(query).contains(x) by {
                    if self@.downloads.contains(x) && x != query {
                        let j = choose|j: int| 0 <= j < self.message_downloads@.len() && self.message_downloads@[j] == x;
                        assert(j < before.message_downloads@.len());
                        assert(before.message_downloads@[j] == self.message_downloads@[j]);
                    }
                    if before@.downloads.contains(x) {
                        let j = choose|j: int| 0 <= j < before.message_downloads@.len() && before.message_downloads@[j] == x;
                        assert(before.message_downloads@[j] == self.message_downloads@[j]);
                    }
                    if x == query {
                        assert(self.message_downloads@[before.message_downloads@.len() as int] == query);
                    }
                }
            }
        }
        assert(self@.downloads =~= before@.downloads.insert(query));
        assert(self@.uploads =~= before@.uploads);
        assert(self@.rounds =~= before@.rounds);
    }

    /// Handles the progress of a DHT query. `put_ok` tells whether it was a
    /// write that succeeded, and `loaded` is the message it found, if it was a
    /// read that found a record that reads as a message. A pending upload with
    /// this query is forgotten, and reported as committed when the write
    /// succeeded; otherwise a pending download with this query reports the
    /// loaded message.
    pub fn on_query_progressed(&mut self, query: u64, put_ok: bool, loaded: Option<Message>) -> (r:
        Option<Event>)
        requires
            old(self).wf(),
        ensures
            final(self).wf(),
            final(self)@.uploads == old(self)@.uploads.remove(query),
            final(self)@.downloads == old(self)@.downloads,
            final(self)@.rounds == old(self)@.rounds,
            old(self)@.uploads.contains_key(query) && put_ok ==> (r matches Some(Event::MessageCommitted(h))
                && h@ == old(self)@.uploads[query]),
            !(old(self)@.uploads.contains_key(query) && put_ok) ==> r == (if old(self)@.downloads.contains(query)
                && loaded is Some {
                Some(Event::MessageLoaded(loaded.unwrap()))
            } else {
                None::<Event>
            }),
    {
        let ghost before = *self;
        match self.find_upload(query) {
            Some(i) => {
                proof {
                    self.lemma_upload_at(i as int);
                }
                let (_, h) = self.chain_uploads.remove(i);
                proof {
                    let p = upload_pairs(before.chain_uploads@);
                    assert(upload_pairs(self.chain_uploads@) =~= p.remove(i as int));
                    lemma_remove(p, i as int);
                    assert(self@.rounds =~= before@.rounds);
                    assert(self@.downloads =~= before@.downloads);
                }
                if put_ok {
                    return Some(Event::MessageCommitted(h));
                }
            },
            None => {
                assert(self@.uploads =~= before@.uploads.remove(query));
            },
        }
        if self.has_download(query) {
            if let Some(m) = loaded {
                return Some(Event::MessageLoaded(m));
            }
        }
        None
    }

    /// Answers a peer that asks for the longest chain in round `query_round`:
    /// with the hash and height of the message at its head, if the runtime has
    /// one.
    pub fn on_longest_chain_request(rt: &Rt, query_round: usize) -> (r: Option<Response>)
        requires
            rt.wf(),
        ensures
            match longest_head(rt.chains(), rt.stored()) {
                None => r is None,
                Some(l) => match message_in_longest(rt.chains(), rt.stored(), l) {
                    None => r is None,
                    Some(m) => r matches Some(Response::LongestChain { height, hash, query_round: q }) && height
                        == m@.data.height && hash@ == m@.hash && q == query_round,
                },
            },
    {
        match rt.longest_chain() {
            None => None,
            Some(l) => match rt.get_message(l) {
                None => None,
                Some(m) => Some(
                    Response::LongestChain { hash: *m.hash(), height: m.data().height(), query_round },
                ),
            },
        }
    }

    /// Starts a round of questioning about the longest chain, at time `now`,
    /// among `n_peers` known peers. Returns the number of the round, which the
    /// requests carry, and how many of the peers to ask: the first half.
    pub fn download_head(&mut self, n_peers: usize, now: u64) -> (r: (usize, usize))
        requires
            old(self).wf(),
        ensures
            final(self).wf(),
            r.0 == old(self)@.rounds.len(),
            r.1 == sample_size(n_peers as nat),
            final(self)@.rounds == old(self)@.rounds.push(
                RoundView { initiated_at: now, peers_contacted: r.1, results: Seq::empty() },
            ),
            final(self)@.uploads == old(self)@.uploads,
            final(self)@.downloads == old(self)@.downloads,
    {
        let ghost before = *self;
        let to_contact = n_peers / 2;
        let id = self.chain_downloads.len();
        self.chain_downloads.push(Round { initiated_at: now, peers_contacted: to_contact, results: Vec::new() });
        proof {
            let last = self.chain_downloads@[id as int];
            assert(round_view(last).results =~= Seq::<(Seq<u8>, usize)>::empty());
            assert(self@.rounds =~= before@.rounds.push(round_view(last)));
            assert(self@.uploads =~= before@.uploads);
            assert(self@.downloads =~= before@.downloads);
        }
        (id, to_contact)
    }

    /// Takes a peer's answer about the longest chain, received at time `now`.
    /// An answer for a round that exists and has not timed out is added to the
    /// round's results; once more than half of the asked peers have answered,
    /// the highest answer is reported, the last received among equally high
    /// ones. Answers for other rounds are dropped.
    pub fn on_longest_chain_response(
        &mut self,
        hash: hash::Hash,
        height: usize,
        query_round: usize,
        now: u64,
    ) -> (r: Option<Event>)
        requires
            old(self).wf(),
        ensures
            final(self).wf(),
            final(self)@.uploads == old(self)@.uploads,
            final(self)@.downloads == old(self)@.downloads,
            ({
                let rounds = old(self)@.rounds;
                if query_round < rounds.len() && (if now >= rounds[query_round as int].initiated_at {
                    now - rounds[query_round as int].initiated_at
                } else {
                    0
                }) < SYNCHRONIZATION_TIMEOUT {
                    let q = rounds[query_round as int];
                    let results = q.results.push((hash@, height));
                    &&& final(self)@.rounds == rounds.update(
                        query_round as int,
                        RoundView { initiated_at: q.initiated_at, peers_contacted: q.peers_contacted, results },
                    )
                    &&& has_quorum(results.len(), q.peers_contacted as nat) ==> (r matches Some(
                        Event::LongestChainUpdated { hash: h, height: ht },
                    ) && (h@, ht) == best_answer(results))
                    &&& !has_quorum(results.len(), q.peers_contacted as nat) ==> r is None
                    &&& 2 * results.len() > q.peers_contacted ==> (r matches Some(
                        Event::LongestChainUpdated { hash: h, height: ht },
                    ) && exists|k: int|
                        0 <= k < results.len() && results[k] == (h@, ht) && (forall|j: int|
                            0 <= j < results.len() ==> (#[trigger] results[j]).1 <= ht) && (forall|j: int|
                            k < j < results.len() ==> (#[trigger] results[j]).1 < ht))
                    &&& 2 * results.len() <= q.peers_contacted ==> r is None
                } else {
                    final(self)@.rounds == rounds && r is None
                }
            }),
    {
        let ghost before = *self;
        if query_round >= self.chain_downloads.len() {
            return None;
        }
        assert(before@.rounds[query_round as int] == round_view(self.chain_downloads@[query_round as int]));
        let started = self.chain_downloads[query_round].initiated_at;
        let waited: u64 = if now >= started { now - started } else { 0 };
        if waited >= SYNCHRONIZATION_TIMEOUT {
            return None;
        }
        let mut round = self.chain_downloads.remove(query_round);
        round.results.push((hash, height));
        let n = round.results.len();
        let contacted = round.peers_contacted;
        let ghost rv = round_view(round);
        let mut event: Option<Event> = None;
        if (n as u128) * 2 > contacted as u128 {
            let mut k: usize = 0;
            let mut i: usize = 1;
            while i < n
                invariant
                    n == round.results@.len(),
                    rv == round_view(round),
                    1 <= i <= n,
                    k < i,
                    forall|j: int| 0 <= j < i ==> (#[trigger] rv.results[j]).1 <= rv.results[k as int].1,
                    forall|j: int| k < j < i ==> (#[trigger] rv.results[j]).1 < rv.results[k as int].1,
                decreases n - i,
            {
                assert(rv.results[i as int] == result_view(round.results@[i as int]));
                assert(rv.results[k as int] == result_view(round.results@[k as int]));
                if round.results[i].1 >= round.results[k].1 {
                    k = i;
                }
                i = i + 1;
            }
            proof {
                lemma_last_max(rv.results, k as int);
                assert(rv.results[k as int] == result_view(round.results@[k as int]));
            }
            event = Some(Event::LongestChainUpdated { hash: round.results[k].0, height: round.results[k].1 });
        }
        self.chain_downloads.insert(query_round, round);
        proof {
            let q = before@.rounds[query_round as int];
            assert(rv.results =~= q.results.push((hash@, height)));
            assert(self.chain_downloads@ =~= before.chain_downloads@.update(query_round as int, round));
            assert(self@.rounds =~= before@.rounds.update(query_round as int, rv));
            assert(self@.uploads =~= before@.uploads);
            assert(self@.downloads =~= before@.downloads);
        }
        event
    }

    /// When any chain exists, the upload of the chain starts with the head of
    /// the longest chain.
    pub proof fn law_upload_starts_at_head(rt: Rt)
        requires
            rt.wf(),
            rt.chains().len() > 0,
        ensures
            longest_head(rt.chains(), rt.stored()) matches Some(l) && ({
                let walk = upload_walk(rt.chains(), rt.stored(), l, (rt.stored().dom().len() + 1) as nat);
                walk.0.len() >= 1 && walk.0[0] == l
            }),
    {
        let cs = rt.chains();
        let st = rt.stored();
        Rt::law_longest_iff_nonempty(rt);
        Rt::law_head_is_in_longest(rt);
        let l = longest_head(cs, st).unwrap();
        let k = choose|k: int| is_longest(cs, st, k);
        assert(is_longest(cs, st, k));
        assert(st.contains_key(l));
        assert(message_in_longest(cs, st, l) is Some);
    }

    /// Plans the upload of the chain to the DHT: the hashes of the messages to
    /// write, from the head of the longest chain back through the previous
    /// messages, and whether the walk reached a hash whose message is not on
    /// the current chain. The walk takes at most one step more than there are
    /// stored messages, so that it ends even where previous hashes loop.
    pub fn upload_chain(rt: &Rt) -> (r: UploadPlan)
        requires
            rt.wf(),
        ensures
            rt.stored().dom().finite(),
            match longest_head(rt.chains(), rt.stored()) {
                None => r.hashes@.len() == 0 && !r.missing,
                Some(l) => {
                    let walk = upload_walk(rt.chains(), rt.stored(), l, (rt.stored().dom().len() + 1) as nat);
                    &&& r.hashes@.map_values(|h: hash::Hash| h@) == walk.0
                    &&& r.missing == walk.1
                },
            },
    {
        let count = rt.message_count();
        let mut hashes: Vec<hash::Hash> = Vec::new();
        let mut curr = match rt.longest_chain() {
            Some(l) => l,
            None => {
                assert(hashes@.map_values(|h: hash::Hash| h@) =~= Seq::<Seq<u8>>::empty());
                return UploadPlan { hashes, missing: false };
            },
        };
        let ghost cs = rt.chains();
        let ghost st = rt.stored();
        let ghost total: nat = (count + 1) as nat;
        let ghost start = curr@;
        let mut fuel: usize = count;
        proof {
            assert(hashes@.map_values(|h: hash::Hash| h@) =~= Seq::<Seq<u8>>::empty());
            assert(upload_walk(cs, st, start, total).0 =~= Seq::<Seq<u8>>::empty() + upload_walk(cs, st, curr@, (fuel + 1) as nat).0);
        }
        loop
            invariant
                rt.wf(),
                cs == rt.chains(),
                st == rt.stored(),
                st.dom().finite(),
                count == st.dom().len(),
                total == count + 1,
                longest_head(cs, st) == Some(start),
                fuel <= count,
                upload_walk(cs, st, start, total).0 == hashes@.map_values(|h: hash::Hash| h@)
                    + upload_walk(cs, st, curr@, (fuel + 1) as nat).0,
                upload_walk(cs, st, start, total).1 == upload_walk(cs, st, curr@, (fuel + 1) as nat).1,
            decreases fuel,
        {
            let ghost before = hashes@;
            match rt.get_message(curr) {
                None => {
                    proof {
                        assert(upload_walk(cs, st, curr@, (fuel + 1) as nat) == (Seq::<Seq<u8>>::empty(), true));
                        assert(upload_walk(cs, st, start, total).0 =~= hashes@.map_values(|h: hash::Hash| h@));
                    }
                    return UploadPlan { hashes, missing: true };
                },
                Some(m) => {
                    hashes.push(curr);
                    proof {
                        assert(hashes@.map_values(|h: hash::Hash| h@) =~= before.map_values(|h: hash::Hash| h@).push(curr@));
                    }
                    match m.data().prev() {
                        None => {
                            proof {
                                assert(upload_walk(cs, st, curr@, (fuel + 1) as nat) == (seq![curr@], false));
                                assert(upload_walk(cs, st, start, total).0 =~= hashes@.map_values(|h: hash::Hash| h@));
                            }
                            return UploadPlan { hashes, missing: false };
                        },
                        Some(p) => {
                            if fuel == 0 {
                                proof {
                                    assert(upload_walk(cs, st, p@, 0).0 =~= Seq::<Seq<u8>>::empty());
                                    assert(upload_walk(cs, st, start, total).0 =~= hashes@.map_values(|h: hash::Hash| h@));
                                }
                                return UploadPlan { hashes, missing: false };
                            }
                            let ghost old_curr = curr;
                            curr = *p;
                            fuel = fuel - 1;
                            proof {
                                let rest = upload_walk(cs, st, curr@, (fuel + 1) as nat);
                                assert(upload_walk(cs, st, old_curr@, (fuel + 2) as nat).0 == seq![old_curr@] + rest.0);
                                assert(upload_walk(cs, st, start, total).0 =~= hashes@.map_values(|h: hash::Hash| h@) + rest.0);
                            }
                        },
                    }
                },
            }
        }
    }
}

} // verus!
