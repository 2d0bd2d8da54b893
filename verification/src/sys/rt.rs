use super::msg::Message;
use crate::crypto::hash;
use crate::keyed::{keys_distinct, lemma_at, lemma_len, lemma_push, lemma_update, pairs_map};
use vstd::prelude::*;

verus! {

/// A chain as plain values: the hash of its head and the hashes of its members.
pub struct ChainView {
    pub head: Seq<u8>,
    pub members: Set<Seq<u8>>,
}

/// Whether `i` is the first chain whose head is `h`.
pub open spec fn is_first_with_head(cs: Seq<ChainView>, h: Seq<u8>, i: int) -> bool {
    &&& 0 <= i < cs.len()
    &&& cs[i].head == h
    &&& forall|j: int| 0 <= j < i ==> cs[j].head != h
}

/// The first chain whose head is `h`, if any.
pub open spec fn first_with_head(cs: Seq<ChainView>, h: Seq<u8>) -> Option<int> {
    if exists|i: int| is_first_with_head(cs, h, i) {
        Some(choose|i: int| is_first_with_head(cs, h, i))
    } else {
        None
    }
}

/// The chains after a message with hash `new_head` and previous hash `prev`
/// arrives: the first chain whose head is `prev` advances to the new head and
/// takes it as a member; if there is none, a new chain of the message alone
/// is added at the end.
pub open spec fn chains_after(cs: Seq<ChainView>, new_head: Seq<u8>, prev: Option<Seq<u8>>) -> Seq<
    ChainView,
> {
    let fresh = ChainView { head: new_head, members: Set::empty().insert(new_head) };
    match prev {
        Some(p) => match first_with_head(cs, p) {
            Some(i) => cs.update(i, ChainView { head: new_head, members: cs[i].members.insert(new_head) }),
            None => cs.push(fresh),
        },
        None => cs.push(fresh),
    }
}

/// Whether chain `i` has a head whose message is stored.
pub open spec fn is_candidate(cs: Seq<ChainView>, st: Map<Seq<u8>, Message>, i: int) -> bool {
    0 <= i < cs.len() && st.contains_key(cs[i].head)
}

/// The height of the message at the head of chain `i`.
pub open spec fn head_height(cs: Seq<ChainView>, st: Map<Seq<u8>, Message>, i: int) -> int {
    st[cs[i].head]@.data.height as int
}

/// Whether chain `i` is the longest: its head is stored, no stored head is
/// higher, and every earlier chain with a stored head is lower.
pub open spec fn is_longest(cs: Seq<ChainView>, st: Map<Seq<u8>, Message>, k: int) -> bool {
    &&& is_candidate(cs, st, k)
    &&& forall|j: int| #[trigger] is_candidate(cs, st, j) ==> head_height(cs, st, j) <= head_height(cs, st, k)
    &&& forall|j: int| 0 <= j < k && #[trigger] is_candidate(cs, st, j) ==> head_height(cs, st, j) < head_height(cs, st, k)
}

/// The head of the longest chain, if any chain has a stored head.
pub open spec fn longest_head(cs: Seq<ChainView>, st: Map<Seq<u8>, Message>) -> Option<Seq<u8>> {
    if exists|k: int| is_longest(cs, st, k) {
        Some(cs[choose|k: int| is_longest(cs, st, k)].head)
    } else {
        None
    }
}

/// The hash reached from `h` after `n` steps back through previous hashes,
/// each step taken from a stored message.
pub open spec fn ancestor(st: Map<Seq<u8>, Message>, h: Seq<u8>, n: nat) -> Option<Seq<u8>>
    decreases n,
{
    if n == 0 {
        Some(h)
    } else if st.contains_key(h) {
        match st[h]@.data.prev {
            Some(p) => ancestor(st, p, (n - 1) as nat),
            None => None,
        }
    } else {
        None
    }
}

/// Whether the stored message with hash `h` is on the chain that ends in
/// `head`: reached from it back through previous hashes in fewer steps than
/// there are stored messages (which is every way of reaching it, see
/// `Rt::law_chain_within_count`).
pub open spec fn on_chain(st: Map<Seq<u8>, Message>, head: Seq<u8>, h: Seq<u8>) -> bool {
    &&& st.contains_key(h)
    &&& exists|n: nat| n < st.dom().len() && #[trigger] ancestor(st, head, n) == Some(h)
}

/// The message with hash `h` if it is on the current chain: the chain that
/// ends in the head of the longest chain.
pub open spec fn message_in_longest(cs: Seq<ChainView>, st: Map<Seq<u8>, Message>, h: Seq<u8>) -> Option<
    Message,
> {
    match longest_head(cs, st) {
        None => None,
        Some(l) => if on_chain(st, l, h) {
            Some(st[h])
        } else {
            None
        },
    }
}

/// One more step back: from where `n` steps lead, the previous hash of the
/// stored message there.
pub open spec fn step_back(st: Map<Seq<u8>, Message>, a: Option<Seq<u8>>) -> Option<Seq<u8>> {
    match a {
        Some(c) => if st.contains_key(c) {
            st[c]@.data.prev
        } else {
            None
        },
        None => None,
    }
}

proof fn lemma_ancestor_step(st: Map<Seq<u8>, Message>, h: Seq<u8>, n: nat)
    ensures
        ancestor(st, h, n + 1) == step_back(st, ancestor(st, h, n)),
    decreases n,
{
    if st.contains_key(h) {
        if let Some(p) = st[h]@.data.prev {
            if n == 0 {
                assert(ancestor(st, p, 0) == Some(p));
            } else {
                lemma_ancestor_step(st, p, (n - 1) as nat);
                assert(((n + 1) - 1) as nat == n);
            }
        }
    }
}

proof fn lemma_ancestor_add(st: Map<Seq<u8>, Message>, h: Seq<u8>, a: nat, b: nat)
    ensures
        ancestor(st, h, a + b) == match ancestor(st, h, a) {
            Some(c) => ancestor(st, c, b),
            None => None,
        },
    decreases a,
{
    if a > 0 && st.contains_key(h) {
        if let Some(p) = st[h]@.data.prev {
            lemma_ancestor_add(st, p, (a - 1) as nat, b);
            assert((a + b - 1) as nat == ((a - 1) as nat + b) as nat);
        }
    }
}

proof fn lemma_ancestor_dead(st: Map<Seq<u8>, Message>, h: Seq<u8>, n: nat, m: nat)
    requires
        ancestor(st, h, n) is None,
        n <= m,
    ensures
        ancestor(st, h, m) is None,
    decreases m - n,
{
    if n < m {
        lemma_ancestor_step(st, h, n);
        lemma_ancestor_dead(st, h, n + 1, m);
    }
}

/// The message at the head of the longest chain.
pub open spec fn head_message(cs: Seq<ChainView>, st: Map<Seq<u8>, Message>) -> Option<Message> {
    match longest_head(cs, st) {
        None => None,
        Some(l) => if st.contains_key(l) {
            Some(st[l])
        } else {
            None
        },
    }
}

proof fn lemma_first_with_head(cs: Seq<ChainView>, h: Seq<u8>, i: int)
    requires
        is_first_with_head(cs, h, i),
    ensures
        first_with_head(cs, h) == Some(i),
{
    let c = choose|c: int| is_first_with_head(cs, h, c);
    assert(is_first_with_head(cs, h, c));
    if c < i {
        assert(cs[c].head != h);
    }
    if i < c {
        assert(cs[i].head != h);
    }
}

proof fn lemma_exists_first_head(cs: Seq<ChainView>, h: Seq<u8>, k: int)
    requires
        0 <= k < cs.len(),
        cs[k].head == h,
    ensures
        first_with_head(cs, h) is Some,
    decreases k,
{
    if forall|j: int| 0 <= j < k ==> cs[j].head != h {
        assert(is_first_with_head(cs, h, k));
    } else {
        let j = choose|j: int| 0 <= j < k && cs[j].head == h;
        lemma_exists_first_head(cs, h, j);
    }
}

proof fn lemma_no_head(cs: Seq<ChainView>, h: Seq<u8>)
    requires
        forall|j: int| 0 <= j < cs.len() ==> cs[j].head != h,
    ensures
        first_with_head(cs, h) is None,
{
}

proof fn lemma_longest(cs: Seq<ChainView>, st: Map<Seq<u8>, Message>, k: int)
    requires
        is_longest(cs, st, k),
    ensures
        longest_head(cs, st) == Some(cs[k].head),
{
    let c = choose|c: int| is_longest(cs, st, c);
    assert(is_longest(cs, st, c));
    assert(is_candidate(cs, st, c));
    assert(is_candidate(cs, st, k));
    if c < k {
        assert(head_height(cs, st, c) < head_height(cs, st, k));
    }
    if k < c {
        assert(head_height(cs, st, k) < head_height(cs, st, c));
    }
}

/// The longest among the first `n` chains, found by a scan that keeps the
/// first chain of greatest head height.
spec fn best_upto(cs: Seq<ChainView>, st: Map<Seq<u8>, Message>, n: nat) -> Option<int>
    decreases n,
{
    if n == 0 {
        None
    } else {
        let i = n - 1;
        let prev = best_upto(cs, st, (n - 1) as nat);
        if is_candidate(cs, st, i) {
            match prev {
                None => Some(i),
                Some(k) => if head_height(cs, st, i) > head_height(cs, st, k) {
                    Some(i)
                } else {
                    prev
                },
            }
        } else {
            prev
        }
    }
}

proof fn lemma_best_upto(cs: Seq<ChainView>, st: Map<Seq<u8>, Message>, n: nat)
    requires
        n <= cs.len(),
    ensures
        best_upto(cs, st, n) is None ==> forall|j: int| 0 <= j < n ==> !#[trigger] is_candidate(cs, st, j),
        best_upto(cs, st, n) matches Some(k) ==> {
            &&& 0 <= k < n
            &&& is_candidate(cs, st, k)
            &&& forall|j: int| 0 <= j < n && #[trigger] is_candidate(cs, st, j) ==> head_height(cs, st, j) <= head_height(cs, st, k)
            &&& forall|j: int| 0 <= j < k && #[trigger] is_candidate(cs, st, j) ==> head_height(cs, st, j) < head_height(cs, st, k)
        },
    decreases n,
{
    if n > 0 {
        lemma_best_upto(cs, st, (n - 1) as nat);
    }
}

/// If some chain's head is stored, a longest chain exists.
proof fn lemma_longest_exists(cs: Seq<ChainView>, st: Map<Seq<u8>, Message>, i: int)
    requires
        is_candidate(cs, st, i),
    ensures
        longest_head(cs, st) is Some,
{
    lemma_best_upto(cs, st, cs.len());
    let k = best_upto(cs, st, cs.len()).unwrap();
    assert(is_longest(cs, st, k));
}

/// The view of an optional hash.
pub open spec fn opt_view(o: Option<hash::Hash>) -> Option<Seq<u8>> {
    match o {
        None => None,
        Some(h) => Some(h@),
    }
}

/// The set of the hashes in a sequence.
pub open spec fn hash_set(v: Seq<hash::Hash>) -> Set<Seq<u8>> {
    Set::new(|k: Seq<u8>| exists|i: int| 0 <= i < v.len() && (#[trigger] v[i])@ == k)
}

/// Whether two runtimes hold the same: messages with the same fields under the
/// same hashes, and the same chains in the same order, whatever order the
/// messages and members are held in.
pub open spec fn same_state(
    st1: Map<Seq<u8>, Message>,
    cs1: Seq<ChainView>,
    st2: Map<Seq<u8>, Message>,
    cs2: Seq<ChainView>,
) -> bool {
    &&& st1.dom() == st2.dom()
    &&& forall|k: Seq<u8>| #[trigger] st1.contains_key(k) ==> st1[k]@ == st2[k]@
    &&& cs1 == cs2
}

/// The messages of a sequence paired with their hashes.
pub open spec fn message_pairs(s: Seq<Message>) -> Seq<(Seq<u8>, Message)> {
    Seq::new(s.len(), |i: int| (s[i]@.hash, s[i]))
}

/// The messages of a sequence, by hash.
pub open spec fn messages_map(s: Seq<Message>) -> Map<Seq<u8>, Message> {
    pairs_map(message_pairs(s))
}

/// No two messages of a sequence have the same hash exactly when no key of
/// their pairs occurs twice.
proof fn lemma_message_pairs(s: Seq<Message>)
    ensures
        keys_distinct(message_pairs(s)) <==> forall|i: int, j: int|
            0 <= i < j < s.len() ==> (#[trigger] s[i])@.hash != (#[trigger] s[j])@.hash,
        forall|k: Seq<u8>| #[trigger] messages_map(s).contains_key(k) <==> exists|i: int| 0 <= i < s.len() && (#[trigger] s[i])@.hash == k,
{
    let p = message_pairs(s);
    assert forall|k: Seq<u8>| #[trigger] messages_map(s).contains_key(k) implies exists|i: int| 0 <= i < s.len() && (#[trigger] s[i])@.hash == k by {
        let i = choose|i: int| 0 <= i < p.len() && (#[trigger] p[i]).0 == k;
        assert(s[i]@.hash == k);
    }
    assert forall|k: Seq<u8>| (exists|i: int| 0 <= i < s.len() && (#[trigger] s[i])@.hash == k) implies #[trigger] messages_map(s).contains_key(k) by {
        let i = choose|i: int| 0 <= i < s.len() && (#[trigger] s[i])@.hash == k;
        assert(p[i].0 == k);
    }
    if keys_distinct(p) {
        assert forall|i: int, j: int| 0 <= i < j < s.len() implies (#[trigger] s[i])@.hash != (#[trigger] s[j])@.hash by {
            assert(p[i].0 != p[j].0);
        }
    }
    if forall|i: int, j: int| 0 <= i < j < s.len() ==> (#[trigger] s[i])@.hash != (#[trigger] s[j])@.hash {
        assert forall|i: int, j: int| 0 <= i < j < p.len() implies (#[trigger] p[i]).0 != (#[trigger] p[j]).0 by {
            assert(s[i]@.hash != s[j]@.hash);
        }
    }
}

/// A chain of messages: the hash of its head and the hashes of its members.
#[derive(Debug)]
pub struct Chain {
    head: hash::Hash,
    messages: Vec<hash::Hash>,
}

/// The view of a chain.
pub closed spec fn chain_view(c: Chain) -> ChainView {
    ChainView { head: c.head@, members: hash_set(c.messages@) }
}

/// A caching layer for the messages of the network: the messages by hash, and
/// the chains that they form.
#[derive(Debug)]
pub struct Rt {
    messages: Vec<Message>,
    chains: Vec<Chain>,
}

/// Whether the parts of a runtime hold its invariant: no two messages have the
/// same hash, and each chain has distinct members, among them its head, all of
/// them hashes of the messages.
pub open spec fn parts_valid(ms: Seq<Message>, cs: Seq<Chain>) -> bool {
    &&& forall|i: int, j: int| 0 <= i < j < ms.len() ==> (#[trigger] ms[i])@.hash != (#[trigger] ms[j])@.hash
    &&& forall|c: int| 0 <= c < cs.len() ==> (#[trigger] cs[c]).member_seq().no_duplicates()
    &&& forall|c: int| 0 <= c < cs.len() ==> chain_view(#[trigger] cs[c]).members.contains(chain_view(cs[c]).head)
    &&& forall|c: int, k: Seq<u8>|
        0 <= c < cs.len() && #[trigger] chain_view(cs[c]).members.contains(k) ==> messages_map(ms).contains_key(k)
}

impl Chain {
    /// The hashes of the members, in the order they were added.
    pub closed spec fn member_seq(&self) -> Seq<Seq<u8>> {
        self.messages@.map_values(|h: hash::Hash| h@)
    }

    /// The members of a chain are distinct.
    closed spec fn wf(&self) -> bool {
        forall|i: int, j: int|
            0 <= i < j < self.messages@.len() ==> (#[trigger] self.messages@[i])@ != (#[trigger] self.messages@[j])@
    }

    proof fn lemma_view(&self)
        ensures
            chain_view(*self).members == self.member_seq().to_set(),
            self.wf() <==> self.member_seq().no_duplicates(),
    {
        let ms = self.member_seq();
        assert forall|k: Seq<u8>| chain_view(*self).members.contains(k) <==> ms.to_set().contains(k) by {
            if chain_view(*self).members.contains(k) {
                let i = choose|i: int| 0 <= i < self.messages@.len() && (#[trigger] self.messages@[i])@ == k;
                assert(ms[i] == k);
            }
            if ms.to_set().contains(k) {
                let i = choose|i: int| 0 <= i < ms.len() && ms[i] == k;
                assert(self.messages@[i]@ == k);
            }
        }
        assert(chain_view(*self).members =~= ms.to_set());
        if self.wf() {
            assert forall|i: int, j: int| 0 <= i < ms.len() && 0 <= j < ms.len() && i != j implies ms[i] != ms[j] by {
                if i < j {
                    assert(self.messages@[i]@ != self.messages@[j]@);
                } else {
                    assert(self.messages@[j]@ != self.messages@[i]@);
                }
            }
        }
        if ms.no_duplicates() {
            assert forall|i: int, j: int| 0 <= i < j < self.messages@.len() implies (#[trigger] self.messages@[i])@
                != (#[trigger] self.messages@[j])@ by {
                assert(ms[i] != ms[j]);
            }
        }
    }

    /// A chain with the given head and members.
    pub fn new(head: hash::Hash, members: Vec<hash::Hash>) -> (r: Chain)
        ensures
            chain_view(r).head == head@,
            r.member_seq() == members@.map_values(|h: hash::Hash| h@),
            chain_view(r).members == r.member_seq().to_set(),
    {
        let r = Chain { head, messages: members };
        proof {
            r.lemma_view();
        }
        r
    }

    /// The hash of the head of the chain.
    pub fn head(&self) -> (r: hash::Hash)
        ensures
            r@ == chain_view(*self).head,
    {
        self.head
    }

    /// The hashes of the members of the chain.
    pub fn members(&self) -> (r: &[hash::Hash])
        ensures
            r@.map_values(|h: hash::Hash| h@) == self.member_seq(),
    {
        self.messages.as_slice()
    }

    /// Whether no two members are the same.
    fn members_distinct(&self) -> (r: bool)
        ensures
            r == self.wf(),
    {
        let n = self.messages.len();
        let mut i: usize = 0;
        while i < n
            invariant
                n == self.messages@.len(),
                0 <= i <= n,
                forall|a: int, b: int| 0 <= a < i && a < b < n ==> (#[trigger] self.messages@[a])@ != (#[trigger] self.messages@[b])@,
            decreases n - i,
        {
            let mut j: usize = i + 1;
            while j < n
                invariant
                    n == self.messages@.len(),
                    0 <= i < n,
                    i < j <= n,
                    forall|a: int, b: int| 0 <= a < i && a < b < n ==> (#[trigger] self.messages@[a])@ != (#[trigger] self.messages@[b])@,
                    forall|b: int| i < b < j ==> self.messages@[i as int]@ != (#[trigger] self.messages@[b])@,
                decreases n - j,
            {
                if self.messages[i].equals(&self.messages[j]) {
                    return false;
                }
                j = j + 1;
            }
            i = i + 1;
        }
        true
    }

    /// Whether two chains have the same head and the same members.
    fn same(&self, other: &Chain) -> (r: bool)
        ensures
            r == (chain_view(*self) == chain_view(*other)),
    {
        if !self.head.equals(&other.head) {
            return false;
        }
        let mut i: usize = 0;
        while i < self.messages.len()
            invariant
                0 <= i <= self.messages@.len(),
                forall|j: int| 0 <= j < i ==> chain_view(*other).members.contains((#[trigger] self.messages@[j])@),
            decreases self.messages@.len() - i,
        {
            if !other.contains(&self.messages[i]) {
                assert(chain_view(*self).members.contains(self.messages@[i as int]@));
                return false;
            }
            i = i + 1;
        }
        let mut j: usize = 0;
        while j < other.messages.len()
            invariant
                0 <= j <= other.messages@.len(),
                forall|x: int| 0 <= x < j ==> chain_view(*self).members.contains((#[trigger] other.messages@[x])@),
            decreases other.messages@.len() - j,
        {
            if !self.contains(&other.messages[j]) {
                assert(chain_view(*other).members.contains(other.messages@[j as int]@));
                return false;
            }
            j = j + 1;
        }
        proof {
            assert forall|k: Seq<u8>| chain_view(*self).members.contains(k) implies chain_view(*other).members.contains(k) by {
                let x = choose|x: int| 0 <= x < self.messages@.len() && (#[trigger] self.messages@[x])@ == k;
            }
            assert forall|k: Seq<u8>| chain_view(*other).members.contains(k) implies chain_view(*self).members.contains(k) by {
                let x = choose|x: int| 0 <= x < other.messages@.len() && (#[trigger] other.messages@[x])@ == k;
            }
            assert(chain_view(*self).members =~= chain_view(*other).members);
        }
        true
    }

    /// Whether the chain has a member with the given hash.
    fn contains(&self, h: &hash::Hash) -> (r: bool)
        ensures
            r == chain_view(*self).members.contains(h@),
    {
        let mut i: usize = 0;
        while i < self.messages.len()
            invariant
                0 <= i <= self.messages@.len(),
                forall|j: int| 0 <= j < i ==> (#[trigger] self.messages@[j])@ != h@,
            decreases self.messages@.len() - i,
        {
            if self.messages[i].equals(h) {
                assert(hash_set(self.messages@).contains(h@));
                return true;
            }
            i = i + 1;
        }
        false
    }

    /// Adds a member to the chain unless it is one already.
    fn add_member(&mut self, h: hash::Hash)
        requires
            old(self).wf(),
        ensures
            final(self).wf(),
            final(self).head == old(self).head,
            chain_view(*final(self)).members == chain_view(*old(self)).members.insert(h@),
    {
        if !self.contains(&h) {
            let ghost before = self.messages@;
            self.messages.push(h);
            assert(hash_set(self.messages@) =~= hash_set(before).insert(h@)) by {
                assert(self.messages@[before.len() as int] == h);
                assert forall|k: Seq<u8>| hash_set(before).contains(k) implies hash_set(self.messages@).contains(k) by {
                    let i = choose|i: int| 0 <= i < before.len() && (#[trigger] before[i])@ == k;
                    assert(self.messages@[i] == before[i]);
                }
                assert forall|k: Seq<u8>| hash_set(self.messages@).contains(k) implies k == h@ || hash_set(before).contains(k) by {
                    let i = choose|i: int| 0 <= i < self.messages@.len() && (#[trigger] self.messages@[i])@ == k;
                    if i < before.len() {
                        assert(before[i] == self.messages@[i]);
                    }
                }
            }
        } else {
            assert(chain_view(*self).members =~= chain_view(*self).members.insert(h@));
        }
    }
}

impl Default for Rt {
    /// An empty runtime: no messages and no chains.
    fn default() -> (r: Rt)
        ensures
            r.wf(),
            r.stored() == Map::<Seq<u8>, Message>::empty(),
            r.chains() == Seq::<ChainView>::empty(),
    {
        let r = Rt { messages: Vec::new(), chains: Vec::new() };
        assert(r.stored() =~= Map::<Seq<u8>, Message>::empty());
        assert(r.chains() =~= Seq::<ChainView>::empty());
        r
    }
}

impl Rt {
    /// The stored messages, by hash.
    pub closed spec fn stored(&self) -> Map<Seq<u8>, Message> {
        messages_map(self.messages@)
    }

    /// The chains, in the order in which they were started.
    pub closed spec fn chains(&self) -> Seq<ChainView> {
        self.chains@.map_values(|c: Chain| chain_view(c))
    }

    /// No two stored messages have the same hash.
    closed spec fn messages_distinct(&self) -> bool {
        forall|i: int, j: int|
            0 <= i < j < self.messages@.len() ==> (#[trigger] self.messages@[i])@.hash != (#[trigger] self.messages@[j])@.hash
    }

    /// No chain has a member twice, and each chain's head is one of its members.
    closed spec fn chains_wf(&self) -> bool {
        &&& forall|c: int| 0 <= c < self.chains@.len() ==> (#[trigger] self.chains@[c]).wf()
        &&& forall|c: int| 0 <= c < self.chains().len() ==> (#[trigger] self.chains()[c]).members.contains(self.chains()[c].head)
    }

    /// The runtime's invariant: no two stored messages have the same hash, no
    /// chain has a member twice, and each chain's head is one of its members,
    /// all of which are stored.
    pub closed spec fn wf(&self) -> bool {
        &&& self.messages_distinct()
        &&& self.chains_wf()
        &&& forall|c: int, k: Seq<u8>|
            0 <= c < self.chains().len() && #[trigger] self.chains()[c].members.contains(k) ==> self.stored().contains_key(k)
    }

    proof fn lemma_stored_at(&self, i: int)
        requires
            self.messages_distinct(),
            0 <= i < self.messages@.len(),
        ensures
            self.stored().contains_key(self.messages@[i]@.hash),
            self.stored()[self.messages@[i]@.hash] == self.messages@[i],
    {
        lemma_message_pairs(self.messages@);
        lemma_at(message_pairs(self.messages@), i);
    }

    /// The index of the stored message with the given hash.
    fn find_message(&self, h: &hash::Hash) -> (r: Option<usize>)
        requires
            self.messages_distinct(),
        ensures
            r matches Some(i) ==> i < self.messages@.len() && self.messages@[i as int]@.hash == h@
                && self.stored().contains_key(h@) && self.stored()[h@] == self.messages@[i as int],
            r is None ==> !self.stored().contains_key(h@),
    {
        let mut i: usize = 0;
        while i < self.messages.len()
            invariant
                self.messages_distinct(),
                0 <= i <= self.messages@.len(),
                forall|j: int| 0 <= j < i ==> (#[trigger] self.messages@[j])@.hash != h@,
            decreases self.messages@.len() - i,
        {
            if self.messages[i].hash().equals(h) {
                proof {
                    self.lemma_stored_at(i as int);
                }
                return Some(i);
            }
            i = i + 1;
        }
        None
    }

    /// Stores a message under its hash, in place of any stored message with
    /// that hash.
    fn store(&mut self, msg: Message)
        requires
            old(self).messages_distinct(),
        ensures
            final(self).messages_distinct(),
            final(self).stored() == old(self).stored().insert(msg@.hash, msg),
            final(self).chains@ == old(self).chains@,
    {
        let ghost before = *self;
        let ghost k = msg@.hash;
        let ghost p = message_pairs(before.messages@);
        proof {
            lemma_message_pairs(before.messages@);
        }
        match self.find_message(msg.hash()) {
            Some(i) => {
                self.messages.set(i, msg);
                proof {
                    assert(message_pairs(self.messages@) =~= p.update(i as int, (p[i as int].0, msg)));
                    lemma_update(p, i as int, msg);
                }
            },
            None => {
                self.messages.push(msg);
                proof {
                    assert(message_pairs(self.messages@) =~= p.push((k, msg)));
                    lemma_push(p, k, msg);
                }
            },
        }
        proof {
            lemma_message_pairs(self.messages@);
        }
    }

    /// Advances the head that is the previous node referenced by the message,
    /// or else inserts the message as a new head.
    fn update_head(&mut self, new_head: hash::Hash, prev: Option<hash::Hash>)
        requires
            old(self).chains_wf(),
        ensures
            final(self).chains_wf(),
            final(self).chains() == chains_after(old(self).chains(), new_head@, opt_view(prev)),
            final(self).messages@ == old(self).messages@,
    {
        let ghost before = *self;
        let ghost cs = self.chains();
        let mut i: usize = 0;
        while i < self.chains.len()
            invariant
                *self == before,
                *old(self) == before,
                before.chains_wf(),
                cs == self.chains(),
                0 <= i <= self.chains@.len(),
                prev matches Some(p) ==> forall|j: int| 0 <= j < i ==> (#[trigger] cs[j]).head != p@,
            decreases self.chains@.len() - i,
        {
            assert(cs[i as int] == chain_view(self.chains@[i as int]));
            if let Some(p) = &prev {
                if p.equals(&self.chains[i].head) {
                    proof {
                        lemma_first_with_head(cs, p@, i as int);
                    }
                    let mut c = self.chains.remove(i);
                    assert(c == before.chains@[i as int]);
                    c.head = new_head;
                    c.add_member(new_head);
                    self.chains.insert(i, c);
                    proof {
                        assert(self.chains@ =~= before.chains@.update(i as int, c));
                        assert(self.chains() =~= chains_after(cs, new_head@, opt_view(prev)));
                        assert forall|j: int| 0 <= j < self.chains@.len() implies (#[trigger] self.chains@[j]).wf() by {
                            if j != i {
                                assert(self.chains@[j] == before.chains@[j]);
                            }
                        }
                        assert forall|j: int| 0 <= j < self.chains().len() implies (#[trigger] self.chains()[j]).members.contains(self.chains()[j].head) by {
                            if j != i {
                                assert(self.chains()[j] == cs[j]);
                            }
                        }
                    }
                    return;
                }
            }
            i = i + 1;
        }
        self.chains.push(Chain { head: new_head, messages: vec![new_head] });
        proof {
            let last = self.chains@[self.chains@.len() - 1];
            assert(last.messages@ =~= seq![new_head]);
            assert(hash_set(last.messages@) =~= Set::empty().insert(new_head@)) by {
                assert(last.messages@[0] == new_head);
            }
            if let Some(p) = prev {
                lemma_no_head(cs, p@);
            }
            assert(self.chains@ =~= before.chains@.push(last));
            assert(self.chains() =~= chains_after(cs, new_head@, opt_view(prev)));
            assert forall|j: int| 0 <= j < self.chains@.len() implies (#[trigger] self.chains@[j]).wf() by {
                if j < before.chains@.len() {
                    assert(self.chains@[j] == before.chains@[j]);
                }
            }
            assert forall|j: int| 0 <= j < self.chains().len() implies (#[trigger] self.chains()[j]).members.contains(self.chains()[j].head) by {
                if j < cs.len() {
                    assert(self.chains()[j] == cs[j]);
                }
            }
        }
    }

    /// Registers the message in the runtime, updating the consensus view if need
    /// be. Assumes the message is valid per consensus rules.
    pub fn insert_message(&mut self, msg: Message)
        requires
            old(self).wf(),
        ensures
            final(self).wf(),
            final(self).stored() == old(self).stored().insert(msg@.hash, msg),
            final(self).chains() == chains_after(old(self).chains(), msg@.hash, msg@.data.prev),
            forall|j: int|
                0 <= j < old(self).chains().len() && (msg@.data.prev is None || old(self).chains()[j].head != msg@.data.prev->0) ==> #[trigger] final(self).chains()[j] == old(self).chains()[j],
            msg@.data.prev is None || (forall|j: int| 0 <= j < old(self).chains().len() ==> old(self).chains()[j].head != msg@.data.prev->0) ==> final(self).chains() == old(self).chains().push(
                ChainView { head: msg@.hash, members: Set::empty().insert(msg@.hash) },
            ),
            msg@.data.prev is Some && (exists|j: int| 0 <= j < old(self).chains().len() && old(self).chains()[j].head == msg@.data.prev->0) ==> {
                &&& final(self).chains().len() == old(self).chains().len()
                &&& exists|i: int|
                    0 <= i < old(self).chains().len() && old(self).chains()[i].head == msg@.data.prev->0 && (forall|j: int| 0 <= j < i ==> old(self).chains()[j].head != msg@.data.prev->0)
                        && final(self).chains()[i] == ChainView { head: msg@.hash, members: old(self).chains()[i].members.insert(msg@.hash) } && (forall|j: int|
                        0 <= j < old(self).chains().len() && j != i ==> final(self).chains()[j] == old(self).chains()[j])
            },
            longest_head(final(self).chains(), final(self).stored()) is Some,
    {
        let ghost before = *self;
        let h = *msg.hash();
        let prev: Option<hash::Hash> = match msg.data().prev() {
            Some(p) => Some(*p),
            None => None,
        };
        assert(opt_view(prev) == msg@.data.prev);
        self.update_head(h, prev);
        let ghost mid = *self;
        self.store(msg);
        proof {
            assert(self.chains() == mid.chains());
            let cs = before.chains();
            assert forall|c: int, k: Seq<u8>|
                0 <= c < self.chains().len() && #[trigger] self.chains()[c].members.contains(k) implies self.stored().contains_key(k) by {
                if k != h@ {
                    match msg@.data.prev {
                        Some(p) => match first_with_head(cs, p) {
                            Some(i) => {
                                assert(self.chains()[c].members.contains(k));
                                if c != i {
                                    assert(self.chains()[c] == cs[c]);
                                }
                                assert(cs[c].members.contains(k));
                            },
                            None => {
                                assert(self.chains()[c] == cs[c]);
                            },
                        },
                        None => {
                            assert(self.chains()[c] == cs[c]);
                        },
                    }
                    assert(before.stored().contains_key(k));
                }
            }
            Self::law_longest_iff_nonempty(*self);
            assert(self.chains().len() > 0);
            Self::law_chains_after(before.chains(), msg@.hash, msg@.data.prev);
        }
    }

    /// The stored messages, in the order they were first stored.
    pub closed spec fn spec_messages(&self) -> Seq<Message> {
        self.messages@
    }

    /// The chains, as they are held.
    pub closed spec fn spec_chain_list(&self) -> Seq<Chain> {
        self.chains@
    }

    /// The stored messages.
    pub fn message_list(&self) -> (r: &[Message])
        ensures
            r@ == self.spec_messages(),
            messages_map(r@) == self.stored(),
    {
        self.messages.as_slice()
    }

    /// The chains.
    pub fn chain_list(&self) -> (r: &[Chain])
        ensures
            r@ == self.spec_chain_list(),
            r@.map_values(|c: Chain| chain_view(c)) == self.chains(),
    {
        self.chains.as_slice()
    }

    /// The runtime with the given messages and chains, if they hold its
    /// invariant.
    pub fn from_parts(messages: Vec<Message>, chains: Vec<Chain>) -> (r: Option<Rt>)
        ensures
            r is Some <==> parts_valid(messages@, chains@),
            r matches Some(rt) ==> rt.wf() && rt.spec_messages() == messages@ && rt.spec_chain_list() == chains@,
    {
        let n = messages.len();
        let mut i: usize = 0;
        while i < n
            invariant
                n == messages@.len(),
                0 <= i <= n,
                forall|a: int, b: int| 0 <= a < i && a < b < n ==> (#[trigger] messages@[a])@.hash != (#[trigger] messages@[b])@.hash,
            decreases n - i,
        {
            let mut j: usize = i + 1;
            while j < n
                invariant
                    n == messages@.len(),
                    0 <= i < n,
                    i < j <= n,
                    forall|a: int, b: int| 0 <= a < i && a < b < n ==> (#[trigger] messages@[a])@.hash != (#[trigger] messages@[b])@.hash,
                    forall|b: int| i < b < j ==> messages@[i as int]@.hash != (#[trigger] messages@[b])@.hash,
                decreases n - j,
            {
                if messages[i].hash().equals(messages[j].hash()) {
                    return None;
                }
                j = j + 1;
            }
            i = i + 1;
        }
        let ghost ms = messages@;
        let rt = Rt { messages, chains: Vec::new() };
        let m = chains.len();
        let mut c: usize = 0;
        while c < m
            invariant
                m == chains@.len(),
                0 <= c <= m,
                rt.messages_distinct(),
                rt.messages@ == ms,
                ms == messages@,
                forall|x: int| 0 <= x < c ==> (#[trigger] chains@[x]).member_seq().no_duplicates(),
                forall|x: int| 0 <= x < c ==> chain_view(#[trigger] chains@[x]).members.contains(chain_view(chains@[x]).head),
                forall|x: int, k: Seq<u8>|
                    0 <= x < c && #[trigger] chain_view(chains@[x]).members.contains(k) ==> rt.stored().contains_key(k),
            decreases m - c,
        {
            let chain = &chains[c];
            proof {
                chain.lemma_view();
            }
            if !chain.members_distinct() {
                return None;
            }
            if !chain.contains(&chain.head) {
                return None;
            }
            let k = chain.messages.len();
            let mut t: usize = 0;
            while t < k
                invariant
                    k == chain.messages@.len(),
                    0 <= t <= k,
                    m == chains@.len(),
                    0 <= c < m,
                    *chain == chains@[c as int],
                    rt.messages_distinct(),
                    rt.messages@ == ms,
                    ms == messages@,
                    forall|y: int| 0 <= y < t ==> rt.stored().contains_key((#[trigger] chain.messages@[y])@),
                decreases k - t,
            {
                if rt.find_message(&chain.messages[t]).is_none() {
                    proof {
                        assert(chain_view(chains@[c as int]).members.contains(chain.messages@[t as int]@));
                    }
                    return None;
                }
                t = t + 1;
            }
            assert forall|h: Seq<u8>| #[trigger] chain_view(*chain).members.contains(h) implies rt.stored().contains_key(h) by {
                let y = choose|y: int| 0 <= y < chain.messages@.len() && (#[trigger] chain.messages@[y])@ == h;
            }
            c = c + 1;
        }
        let mut rt = rt;
        rt.chains = chains;
        proof {
            assert forall|x: int| 0 <= x < rt.chains@.len() implies (#[trigger] rt.chains@[x]).wf() by {
                rt.chains@[x].lemma_view();
            }
            assert forall|x: int| 0 <= x < rt.chains().len() implies (#[trigger] rt.chains()[x]).members.contains(rt.chains()[x].head) by {
                assert(rt.chains()[x] == chain_view(chains@[x]));
            }
            assert forall|x: int, k: Seq<u8>|
                0 <= x < rt.chains().len() && #[trigger] rt.chains()[x].members.contains(k) implies rt.stored().contains_key(k) by {
                assert(rt.chains()[x] == chain_view(chains@[x]));
            }
        }
        Some(rt)
    }

    /// The parts of a runtime that holds its invariant are valid, so that
    /// building a runtime from its message list and chain list succeeds.
    pub proof fn law_parts_round_trip(rt: Rt)
        requires
            rt.wf(),
        ensures
            parts_valid(rt.spec_messages(), rt.spec_chain_list()),
    {
        assert forall|x: int| 0 <= x < rt.chains@.len() implies (#[trigger] rt.chains@[x]).member_seq().no_duplicates() by {
            rt.chains@[x].lemma_view();
        }
        assert forall|x: int| 0 <= x < rt.chains@.len() implies chain_view(#[trigger] rt.chains@[x]).members.contains(
            chain_view(rt.chains@[x]).head,
        ) by {
            assert(rt.chains()[x] == chain_view(rt.chains@[x]));
        }
        assert forall|x: int, k: Seq<u8>|
            0 <= x < rt.chains@.len() && #[trigger] chain_view(rt.chains@[x]).members.contains(k) implies messages_map(
            rt.messages@,
        ).contains_key(k) by {
            assert(rt.chains()[x] == chain_view(rt.chains@[x]));
        }
    }

    /// The stored messages are finitely many, one for each held message.
    proof fn lemma_stored_finite(&self)
        requires
            self.messages_distinct(),
        ensures
            self.stored().dom().finite(),
            self.stored().dom().len() == self.messages@.len(),
    {
        lemma_message_pairs(self.messages@);
        lemma_len(message_pairs(self.messages@));
    }

    /// The number of stored messages.
    pub fn message_count(&self) -> (r: usize)
        requires
            self.wf(),
        ensures
            self.stored().dom().finite(),
            r == self.stored().dom().len(),
    {
        proof {
            self.lemma_stored_finite();
        }
        self.messages.len()
    }

    /// The stored message with the given hash, whether or not it is in the
    /// longest chain.
    pub fn message(&self, h: &hash::Hash) -> (r: Option<&Message>)
        requires
            self.wf(),
        ensures
            r is Some == self.stored().contains_key(h@),
            r matches Some(m) ==> *m == self.stored()[h@],
    {
        match self.find_message(h) {
            Some(m) => Some(&self.messages[m]),
            None => None,
        }
    }

    /// Whether the two runtimes hold the same messages and chains.
    pub fn same_state(&self, other: &Rt) -> (r: bool)
        requires
            self.wf(),
            other.wf(),
        ensures
            r == same_state(self.stored(), self.chains(), other.stored(), other.chains()),
    {
        let mut i: usize = 0;
        while i < self.messages.len()
            invariant
                self.wf(),
                other.wf(),
                0 <= i <= self.messages@.len(),
                forall|j: int| 0 <= j < i ==> {
                    let k = (#[trigger] self.messages@[j])@.hash;
                    other.stored().contains_key(k) && self.stored()[k]@ == other.stored()[k]@
                },
            decreases self.messages@.len() - i,
        {
            proof {
                self.lemma_stored_at(i as int);
            }
            match other.find_message(self.messages[i].hash()) {
                None => {
                    return false;
                },
                Some(j) => {
                    if !self.messages[i].same(&other.messages[j]) {
                        return false;
                    }
                },
            }
            i = i + 1;
        }
        let mut j: usize = 0;
        while j < other.messages.len()
            invariant
                self.wf(),
                other.wf(),
                0 <= j <= other.messages@.len(),
                forall|x: int| 0 <= x < j ==> self.stored().contains_key((#[trigger] other.messages@[x])@.hash),
            decreases other.messages@.len() - j,
        {
            if self.find_message(other.messages[j].hash()).is_none() {
                proof {
                    other.lemma_stored_at(j as int);
                }
                return false;
            }
            j = j + 1;
        }
        proof {
            assert forall|k: Seq<u8>| #[trigger] self.stored().contains_key(k) implies other.stored().contains_key(k)
                && self.stored()[k]@ == other.stored()[k]@ by {
                let x = choose|x: int| 0 <= x < self.messages@.len() && (#[trigger] self.messages@[x])@.hash == k;
                assert(self.messages@[x]@.hash == k);
            }
            assert forall|k: Seq<u8>| #[trigger] other.stored().contains_key(k) implies self.stored().contains_key(k) by {
                let x = choose|x: int| 0 <= x < other.messages@.len() && (#[trigger] other.messages@[x])@.hash == k;
                assert(other.messages@[x]@.hash == k);
            }
            assert(self.stored().dom() =~= other.stored().dom());
        }
        if self.chains.len() != other.chains.len() {
            return false;
        }
        let mut c: usize = 0;
        while c < self.chains.len()
            invariant
                self.chains@.len() == other.chains@.len(),
                0 <= c <= self.chains@.len(),
                forall|x: int| 0 <= x < c ==> #[trigger] self.chains()[x] == other.chains()[x],
            decreases self.chains@.len() - c,
        {
            assert(self.chains()[c as int] == chain_view(self.chains@[c as int]));
            assert(other.chains()[c as int] == chain_view(other.chains@[c as int]));
            if !self.chains[c].same(&other.chains[c]) {
                return false;
            }
            c = c + 1;
        }
        assert(self.chains() =~= other.chains());
        true
    }

    /// The number of chains.
    pub fn chain_count(&self) -> (r: usize)
        ensures
            r == self.chains().len(),
    {
        self.chains.len()
    }

    /// The hash of the head of chain `i`.
    pub fn chain_head(&self, i: usize) -> (r: Option<hash::Hash>)
        ensures
            r is Some == (i < self.chains().len()),
            r matches Some(h) ==> h@ == self.chains()[i as int].head,
    {
        if i < self.chains.len() {
            Some(self.chains[i].head)
        } else {
            None
        }
    }

    /// Whether chain `i` has the given hash among its members.
    pub fn chain_contains(&self, i: usize, h: &hash::Hash) -> (r: bool)
        ensures
            r == (i < self.chains().len() && self.chains()[i as int].members.contains(h@)),
    {
        if i < self.chains.len() {
            self.chains[i].contains(h)
        } else {
            false
        }
    }

    /// When the runtime holds its invariant, some chain is the longest exactly
    /// when there is any chain at all.
    pub proof fn law_longest_iff_nonempty(rt: Rt)
        requires
            rt.wf(),
        ensures
            longest_head(rt.chains(), rt.stored()) is Some <==> rt.chains().len() > 0,
    {
        if rt.chains().len() > 0 {
            assert(rt.chains()[0].members.contains(rt.chains()[0].head));
            lemma_longest_exists(rt.chains(), rt.stored(), 0);
        }
    }

    /// Whatever stored message can be reached back from a hash through previous
    /// hashes can be reached in fewer steps than there are stored messages: a
    /// longer walk visits some message twice, and cutting out the loop between
    /// the two visits leaves a shorter walk to the same message.
    pub proof fn law_chain_within_count(rt: Rt, head: Seq<u8>, h: Seq<u8>, n: nat)
        requires
            rt.wf(),
            rt.stored().contains_key(h),
            ancestor(rt.stored(), head, n) == Some(h),
        ensures
            on_chain(rt.stored(), head, h),
        decreases n,
    {
        let st = rt.stored();
        rt.lemma_stored_finite();
        let count = st.dom().len();
        if n < count {
            return;
        }
        // Every position of the walk is a stored hash.
        assert forall|i: nat| i <= n implies #[trigger] ancestor(st, head, i) is Some by {
            if ancestor(st, head, i) is None {
                lemma_ancestor_dead(st, head, i, n);
            }
        }
        assert forall|i: nat| i < n implies st.contains_key(#[trigger] ancestor(st, head, i).unwrap()) by {
            lemma_ancestor_step(st, head, i);
            assert(ancestor(st, head, i + 1) is Some);
        }
        let ps = Seq::new(n + 1, |i: int| ancestor(st, head, i as nat).unwrap());
        assert forall|x: Seq<u8>| ps.to_set().contains(x) implies st.dom().contains(x) by {
            let i = choose|i: int| 0 <= i < ps.len() && ps[i] == x;
            assert(ancestor(st, head, i as nat) is Some);
            if i < n {
                assert(st.contains_key(ancestor(st, head, i as nat).unwrap()));
            }
        }
        if ps.no_duplicates() {
            ps.unique_seq_to_set();
            vstd::set_lib::lemma_len_subset(ps.to_set(), st.dom());
            assert(false);
        }
        let (i, j) = choose|i: int, j: int| 0 <= i < ps.len() && 0 <= j < ps.len() && i != j && ps[i] == ps[j];
        let (a, b) = if i < j { (i as nat, j as nat) } else { (j as nat, i as nat) };
        assert(ancestor(st, head, a) is Some && ancestor(st, head, b) is Some);
        assert(ancestor(st, head, a) == ancestor(st, head, b));
        let rest = (n - b) as nat;
        lemma_ancestor_add(st, head, b, rest);
        lemma_ancestor_add(st, head, a, rest);
        assert(b + rest == n);
        Self::law_chain_within_count(rt, head, h, a + rest);
    }

    /// Every stored message reached back from the head of the longest chain
    /// through previous hashes is on the current chain, so `get_message`
    /// returns it.
    pub proof fn law_ancestors_in_longest(rt: Rt, h: Seq<u8>, n: nat)
        requires
            rt.wf(),
            rt.stored().contains_key(h),
            longest_head(rt.chains(), rt.stored()) matches Some(l) && ancestor(rt.stored(), l, n) == Some(h),
        ensures
            message_in_longest(rt.chains(), rt.stored(), h) == Some(rt.stored()[h]),
    {
        let l = longest_head(rt.chains(), rt.stored()).unwrap();
        Self::law_chain_within_count(rt, l, h, n);
    }

    /// How the chains change when a message arrives: a chain whose head is not
    /// the message's previous hash is left as it was; if no chain's head is the
    /// previous hash (or there is none), a chain of the message alone is added
    /// at the end and nothing else changes; otherwise the first chain whose head
    /// is the previous hash, and only it, advances to the message and takes it
    /// as a member.
    pub proof fn law_chains_after(cs: Seq<ChainView>, h: Seq<u8>, prev: Option<Seq<u8>>)
        ensures
            forall|j: int|
                0 <= j < cs.len() && (prev is None || cs[j].head != prev->0) ==> #[trigger] chains_after(cs, h, prev)[j] == cs[j],
            prev is None || (forall|j: int| 0 <= j < cs.len() ==> cs[j].head != prev->0) ==> chains_after(cs, h, prev) == cs.push(
                ChainView { head: h, members: Set::empty().insert(h) },
            ),
            prev is Some && (exists|j: int| 0 <= j < cs.len() && cs[j].head == prev->0) ==> {
                &&& chains_after(cs, h, prev).len() == cs.len()
                &&& exists|i: int|
                    0 <= i < cs.len() && cs[i].head == prev->0 && (forall|j: int| 0 <= j < i ==> cs[j].head != prev->0)
                        && chains_after(cs, h, prev)[i] == ChainView { head: h, members: cs[i].members.insert(h) } && (forall|j: int|
                        0 <= j < cs.len() && j != i ==> chains_after(cs, h, prev)[j] == cs[j])
            },
    {
        if let Some(p) = prev {
            if exists|j: int| 0 <= j < cs.len() && cs[j].head == p {
                let j = choose|j: int| 0 <= j < cs.len() && cs[j].head == p;
                lemma_exists_first_head(cs, p, j);
                let i = first_with_head(cs, p).unwrap();
                assert(is_first_with_head(cs, p, i));
                let r = chains_after(cs, h, prev);
                assert(r == cs.update(i, ChainView { head: h, members: cs[i].members.insert(h) }));
                assert(forall|k: int| 0 <= k < cs.len() && k != i ==> r[k] == cs[k]);
                assert(0 <= i < cs.len() && cs[i].head == p && (forall|j: int| 0 <= j < i ==> cs[j].head != p)
                    && r[i] == ChainView { head: h, members: cs[i].members.insert(h) } && (forall|j: int|
                    0 <= j < cs.len() && j != i ==> r[j] == cs[j]));
            } else {
                lemma_no_head(cs, p);
            }
        }
    }

    /// The message that `get_message` finds under the hash of the longest
    /// chain's head is the message that `head` returns.
    pub proof fn law_head_is_in_longest(rt: Rt)
        requires
            rt.wf(),
        ensures
            longest_head(rt.chains(), rt.stored()) matches Some(l) ==> message_in_longest(rt.chains(), rt.stored(), l)
                == head_message(rt.chains(), rt.stored()),
    {
        let cs = rt.chains();
        let st = rt.stored();
        if let Some(l) = longest_head(cs, st) {
            let k = choose|k: int| is_longest(cs, st, k);
            assert(is_longest(cs, st, k));
            assert(st.contains_key(l));
            rt.lemma_stored_finite();
            assert(st.dom().len() > 0);
            assert(ancestor(st, l, 0) == Some(l));
        }
    }

    /// Determines the longest chain in the runtime: among the chains whose head
    /// is stored, the first one whose head is highest. Returns None if no
    /// chains exist.
    pub fn longest_chain(&self) -> (r: Option<hash::Hash>)
        requires
            self.wf(),
        ensures
            opt_view(r) == longest_head(self.chains(), self.stored()),
    {
        let ghost cs = self.chains();
        let ghost st = self.stored();
        let mut best: Option<usize> = None;
        let mut best_height: usize = 0;
        let mut i: usize = 0;
        while i < self.chains.len()
            invariant
                self.wf(),
                cs == self.chains(),
                st == self.stored(),
                0 <= i <= self.chains@.len(),
                best is None ==> forall|j: int| 0 <= j < i ==> !#[trigger] is_candidate(cs, st, j),
                best matches Some(k) ==> {
                    &&& k < i
                    &&& is_candidate(cs, st, k as int)
                    &&& head_height(cs, st, k as int) == best_height
                    &&& forall|j: int| 0 <= j < i && #[trigger] is_candidate(cs, st, j) ==> head_height(cs, st, j) <= best_height
                    &&& forall|j: int| 0 <= j < k && #[trigger] is_candidate(cs, st, j) ==> head_height(cs, st, j) < best_height
                },
            decreases self.chains@.len() - i,
        {
            assert(cs[i as int] == chain_view(self.chains@[i as int]));
            match self.find_message(&self.chains[i].head) {
                Some(m) => {
                    let ht = self.messages[m].data().height();
                    assert(is_candidate(cs, st, i as int));
                    assert(head_height(cs, st, i as int) == ht);
                    if best.is_none() || ht > best_height {
                        best = Some(i);
                        best_height = ht;
                    }
                },
                None => {
                    assert(!is_candidate(cs, st, i as int));
                },
            }
            i = i + 1;
        }
        match best {
            None => {
                assert(!exists|k: int| is_longest(cs, st, k));
                None
            },
            Some(k) => {
                proof {
                    assert(is_longest(cs, st, k as int));
                    lemma_longest(cs, st, k as int);
                }
                assert(cs[k as int] == chain_view(self.chains@[k as int]));
                Some(self.chains[k].head)
            },
        }
    }

    /// Gets the message in the current chain with the indicated hash: a stored
    /// message reached back from the head of the longest chain through previous
    /// hashes. Returns None if the message does not exist, or if it is not in
    /// the current chain.
    pub fn get_message(&self, hash: hash::Hash) -> (r: Option<&Message>)
        requires
            self.wf(),
        ensures
            r is Some == message_in_longest(self.chains(), self.stored(), hash@) is Some,
            r matches Some(m) ==> *m == message_in_longest(self.chains(), self.stored(), hash@).unwrap()
                && m@.hash == hash@,
    {
        let longest = match self.longest_chain() {
            Some(l) => l,
            None => {
                return None;
            },
        };
        let count = self.message_count();
        let ghost st = self.stored();
        let ghost l = longest@;
        let mut cur = longest;
        let mut n: usize = 0;
        while n < count
            invariant
                self.wf(),
                st == self.stored(),
                st.dom().finite(),
                count == st.dom().len(),
                longest_head(self.chains(), st) == Some(l),
                n <= count,
                ancestor(st, l, n as nat) == Some(cur@),
                forall|m: nat| m < n ==> #[trigger] ancestor(st, l, m) != Some(hash@),
            decreases count - n,
        {
            proof {
                lemma_ancestor_step(st, l, n as nat);
            }
            match self.find_message(&cur) {
                None => {
                    proof {
                        if cur@ != hash@ {
                            assert forall|m: nat| m < count implies #[trigger] ancestor(st, l, m) != Some(hash@) by {
                                if m > n {
                                    lemma_ancestor_dead(st, l, (n + 1) as nat, m);
                                }
                            }
                        }
                    }
                    return None;
                },
                Some(i) => {
                    if cur.equals(&hash) {
                        return Some(&self.messages[i]);
                    }
                    match self.messages[i].data().prev() {
                        None => {
                            proof {
                                assert forall|m: nat| m < count implies #[trigger] ancestor(st, l, m) != Some(hash@) by {
                                    if m > n {
                                        lemma_ancestor_dead(st, l, (n + 1) as nat, m);
                                    }
                                }
                            }
                            return None;
                        },
                        Some(p) => {
                            cur = *p;
                            n = n + 1;
                        },
                    }
                },
            }
        }
        None
    }

    /// Gets the head of the current blockchain.
    pub fn head(&self) -> (r: Option<&Message>)
        requires
            self.wf(),
        ensures
            r is Some == head_message(self.chains(), self.stored()) is Some,
            r matches Some(m) ==> *m == head_message(self.chains(), self.stored()).unwrap(),
    {
        let longest = match self.longest_chain() {
            Some(l) => l,
            None => {
                return None;
            },
        };
        match self.find_message(&longest) {
            Some(m) => Some(&self.messages[m]),
            None => None,
        }
    }
}

} // verus!
