use super::json::{
    bytes_equal, json_byte_array, lemma_byte_array_prefix, lemma_cancel_prefix, lemma_hash_prefix,
    lemma_opt_hash_prefix, lemma_opt_string_prefix, lemma_uint_prefix, json_hash, json_opt_hash, json_opt_string, json_uint, push_str, write_byte_array,
    write_hash, write_opt_hash, write_opt_string, write_uint,
};
use crate::captcha::{is_generated, Captcha, CaptchaView};
use crate::crypto::hash;
use crate::crypto::hash::{sha256_digest, sha256_hash, hex_decode, hex_encode, hex_lower, lemma_hex_round_trip};
use vstd::prelude::*;
use vstd::string::StringSliceAdditionalSpecFns;
use vstd::string::StrSliceExecFns;
use vstd::seq_lib::lemma_concat_associative;
use vstd::utf8::is_ascii_chars_encode_utf8;

verus! {

/// The number of leading hex digits of a message's hash from which its
/// lookback is read.
pub const CAPTCHA_ANS_LOOKBACK_FACTOR: usize = 16;

/// The fields of message data, as plain values.
pub struct MessageDataView {
    pub data: Seq<u8>,
    pub prev: Option<Seq<u8>>,
    pub new_captcha: CaptchaView,
    pub captcha_ans: Option<Seq<char>>,
    pub captcha_src: Option<Seq<u8>>,
    pub height: usize,
    pub timestamp: u128,
}

/// The view of an optional hash.
pub open spec fn opt_hash_view(o: Option<hash::Hash>) -> Option<Seq<u8>> {
    match o {
        None => None,
        Some(h) => Some(h@),
    }
}

/// The view of an optional string.
pub open spec fn opt_string_view(o: Option<String>) -> Option<Seq<char>> {
    match o {
        None => None,
        Some(s) => Some(s@),
    }
}

/// The captcha as a JSON object.
pub open spec fn json_captcha(c: CaptchaView) -> Seq<u8> {
    "{\"data\":".spec_bytes() + json_byte_array(c.data) + ",\"answer\":".spec_bytes() + json_hash(c.answer)
        + "}".spec_bytes()
}

/// Message data as the JSON object that `serde_json` writes for it, fields in
/// declaration order.
pub open spec fn json_message_data(d: MessageDataView) -> Seq<u8> {
    "{\"data\":".spec_bytes() + json_byte_array(d.data) + ",\"prev\":".spec_bytes() + json_opt_hash(d.prev)
        + ",\"new_captcha\":".spec_bytes() + json_captcha(d.new_captcha) + ",\"captcha_ans\":".spec_bytes()
        + json_opt_string(d.captcha_ans) + ",\"captcha_src\":".spec_bytes() + json_opt_hash(d.captcha_src)
        + ",\"height\":".spec_bytes() + json_uint(d.height as nat) + ",\"timestamp\":".spec_bytes()
        + json_uint(d.timestamp as nat) + "}".spec_bytes()
}

/// The hash of message data: SHA-256 of its JSON form.
pub open spec fn message_hash(d: MessageDataView) -> Seq<u8> {
    sha256_digest(json_message_data(d))
}

/// A captcha's JSON object ends at its closing brace.
proof fn lemma_captcha_prefix(c1: CaptchaView, c2: CaptchaView, r1: Seq<u8>, r2: Seq<u8>)
    requires
        json_captcha(c1) + r1 == json_captcha(c2) + r2,
    ensures
        c1 == c2,
        r1 == r2,
{
    let k1 = "{\"data\":".spec_bytes();
    let k2 = ",\"answer\":".spec_bytes();
    let k3 = "}".spec_bytes();
    let t1 = json_hash(c1.answer) + (k3 + r1);
    let t2 = json_hash(c2.answer) + (k3 + r2);
    assert(json_captcha(c1) + r1 =~= k1 + (json_byte_array(c1.data) + (k2 + t1)));
    assert(json_captcha(c2) + r2 =~= k1 + (json_byte_array(c2.data) + (k2 + t2)));
    lemma_cancel_prefix(k1, json_byte_array(c1.data) + (k2 + t1), json_byte_array(c2.data) + (k2 + t2));
    lemma_byte_array_prefix(c1.data, c2.data, k2 + t1, k2 + t2);
    lemma_cancel_prefix(k2, t1, t2);
    lemma_hash_prefix(c1.answer, c2.answer, k3 + r1, k3 + r2);
    lemma_cancel_prefix(k3, r1, r2);
}

/// The JSON form of message data, nested from the right.
spec fn json_nested(d: MessageDataView) -> Seq<u8> {
    "{\"data\":".spec_bytes() + (json_byte_array(d.data) + (",\"prev\":".spec_bytes() + (json_opt_hash(d.prev) + (
    ",\"new_captcha\":".spec_bytes() + (json_captcha(d.new_captcha) + (",\"captcha_ans\":".spec_bytes() + (
    json_opt_string(d.captcha_ans) + (",\"captcha_src\":".spec_bytes() + (json_opt_hash(d.captcha_src) + (
    ",\"height\":".spec_bytes() + (json_uint(d.height as nat) + (",\"timestamp\":".spec_bytes() + (json_uint(
    d.timestamp as nat) + "}".spec_bytes())))))))))))))
}

/// Concatenation regrouped: the JSON form equals its right-nested form.
proof fn lemma_json_nested(d: MessageDataView)
    ensures
        json_message_data(d) == json_nested(d),
{
    let f0 = "{\"data\":".spec_bytes();
    let f1 = json_byte_array(d.data);
    let f2 = ",\"prev\":".spec_bytes();
    let f3 = json_opt_hash(d.prev);
    let f4 = ",\"new_captcha\":".spec_bytes();
    let f5 = json_captcha(d.new_captcha);
    let f6 = ",\"captcha_ans\":".spec_bytes();
    let f7 = json_opt_string(d.captcha_ans);
    let f8 = ",\"captcha_src\":".spec_bytes();
    let f9 = json_opt_hash(d.captcha_src);
    let f10 = ",\"height\":".spec_bytes();
    let f11 = json_uint(d.height as nat);
    let f12 = ",\"timestamp\":".spec_bytes();
    let f13 = json_uint(d.timestamp as nat);
    let f14 = "}".spec_bytes();
    let l0 = f0;
    let l1 = l0 + f1;
    let l2 = l1 + f2;
    let l3 = l2 + f3;
    let l4 = l3 + f4;
    let l5 = l4 + f5;
    let l6 = l5 + f6;
    let l7 = l6 + f7;
    let l8 = l7 + f8;
    let l9 = l8 + f9;
    let l10 = l9 + f10;
    let l11 = l10 + f11;
    let l12 = l11 + f12;
    let l13 = l12 + f13;
    let l14 = l13 + f14;
    let r14 = f14;
    let r13 = f13 + r14;
    let r12 = f12 + r13;
    let r11 = f11 + r12;
    let r10 = f10 + r11;
    let r9 = f9 + r10;
    let r8 = f8 + r9;
    let r7 = f7 + r8;
    let r6 = f6 + r7;
    let r5 = f5 + r6;
    let r4 = f4 + r5;
    let r3 = f3 + r4;
    let r2 = f2 + r3;
    let r1 = f1 + r2;
    let r0 = f0 + r1;
    assert(json_message_data(d) == l14);
    assert(json_nested(d) == r0);
    assert(l14 == l13 + r14);
    lemma_concat_associative(l12, f13, r14);
    assert(l14 == l12 + r13);
    lemma_concat_associative(l11, f12, r13);
    assert(l14 == l11 + r12);
    lemma_concat_associative(l10, f11, r12);
    assert(l14 == l10 + r11);
    lemma_concat_associative(l9, f10, r11);
    assert(l14 == l9 + r10);
    lemma_concat_associative(l8, f9, r10);
    assert(l14 == l8 + r9);
    lemma_concat_associative(l7, f8, r9);
    assert(l14 == l7 + r8);
    lemma_concat_associative(l6, f7, r8);
    assert(l14 == l6 + r7);
    lemma_concat_associative(l5, f6, r7);
    assert(l14 == l5 + r6);
    lemma_concat_associative(l4, f5, r6);
    assert(l14 == l4 + r5);
    lemma_concat_associative(l3, f4, r5);
    assert(l14 == l3 + r4);
    lemma_concat_associative(l2, f3, r4);
    assert(l14 == l2 + r3);
    lemma_concat_associative(l1, f2, r3);
    assert(l14 == l1 + r2);
    lemma_concat_associative(l0, f1, r2);
    assert(l14 == l0 + r1);
}

/// Message data is recovered from its JSON form: two values with the same
/// JSON form are the same value. So a change to any one field, the captcha's
/// image and answer, an absent or present previous hash, captcha answer or
/// captcha source included, changes the bytes whose digest is the message's
/// hash.
pub proof fn law_json_message_data_injective(d: MessageDataView, e: MessageDataView)
    requires
        json_message_data(d) == json_message_data(e),
    ensures
        d == e,
{
    let k1 = "{\"data\":".spec_bytes();
    let k2 = ",\"prev\":".spec_bytes();
    let k3 = ",\"new_captcha\":".spec_bytes();
    let k4 = ",\"captcha_ans\":".spec_bytes();
    let k5 = ",\"captcha_src\":".spec_bytes();
    let k6 = ",\"height\":".spec_bytes();
    let k7 = ",\"timestamp\":".spec_bytes();
    let k8 = "}".spec_bytes();
    reveal_strlit(",\"timestamp\":");
    reveal_strlit("}");
    is_ascii_chars_encode_utf8(",\"timestamp\":"@);
    is_ascii_chars_encode_utf8("}"@);
    assert(k7[0] == 44u8);
    assert(k8[0] == 125u8);
    lemma_json_nested(d);
    lemma_json_nested(e);
    let tt1 = json_uint(d.timestamp as nat) + k8;
    let tt2 = json_uint(e.timestamp as nat) + k8;
    let th1 = json_uint(d.height as nat) + (k7 + tt1);
    let th2 = json_uint(e.height as nat) + (k7 + tt2);
    let ts1 = json_opt_hash(d.captcha_src) + (k6 + th1);
    let ts2 = json_opt_hash(e.captcha_src) + (k6 + th2);
    let ta1 = json_opt_string(d.captcha_ans) + (k5 + ts1);
    let ta2 = json_opt_string(e.captcha_ans) + (k5 + ts2);
    let tc1 = json_captcha(d.new_captcha) + (k4 + ta1);
    let tc2 = json_captcha(e.new_captcha) + (k4 + ta2);
    let tp1 = json_opt_hash(d.prev) + (k3 + tc1);
    let tp2 = json_opt_hash(e.prev) + (k3 + tc2);
    let td1 = json_byte_array(d.data) + (k2 + tp1);
    let td2 = json_byte_array(e.data) + (k2 + tp2);
    lemma_cancel_prefix(k1, td1, td2);
    lemma_byte_array_prefix(d.data, e.data, k2 + tp1, k2 + tp2);
    lemma_cancel_prefix(k2, tp1, tp2);
    lemma_opt_hash_prefix(d.prev, e.prev, k3 + tc1, k3 + tc2);
    lemma_cancel_prefix(k3, tc1, tc2);
    lemma_captcha_prefix(d.new_captcha, e.new_captcha, k4 + ta1, k4 + ta2);
    lemma_cancel_prefix(k4, ta1, ta2);
    lemma_opt_string_prefix(d.captcha_ans, e.captcha_ans, k5 + ts1, k5 + ts2);
    lemma_cancel_prefix(k5, ts1, ts2);
    lemma_opt_hash_prefix(d.captcha_src, e.captcha_src, k6 + th1, k6 + th2);
    lemma_cancel_prefix(k6, th1, th2);
    assert((k7 + tt1)[0] == k7[0]);
    assert((k7 + tt2)[0] == k7[0]);
    lemma_uint_prefix(d.height as nat, e.height as nat, k7 + tt1, k7 + tt2);
    lemma_cancel_prefix(k7, tt1, tt2);
    lemma_uint_prefix(d.timestamp as nat, e.timestamp as nat, k8, k8);
}

/// The number that little-endian bytes stand for.
pub open spec fn le_value(s: Seq<u8>) -> nat
    decreases s.len(),
{
    if s.len() == 0 {
        0
    } else {
        s[0] as nat + 256 * le_value(s.drop_first())
    }
}

/// The lookback of message data: its hash's first eight bytes read as a
/// little-endian number.
pub open spec fn lookback_of(d: MessageDataView) -> nat {
    le_value(message_hash(d).subrange(0, 8))
}

/// A message in the chain. Primarily constituted by arbitrary data, and newly
/// generated and previous captcha answers.
#[derive(Clone, PartialEq, Eq, Hash, Debug)]
pub struct MessageData {
    data: Vec<u8>,
    prev: Option<hash::Hash>,
    new_captcha: Captcha,
    captcha_ans: Option<String>,
    captcha_src: Option<hash::Hash>,
    height: usize,
    timestamp: u128,
}

impl View for MessageData {
    type V = MessageDataView;

    closed spec fn view(&self) -> MessageDataView {
        MessageDataView {
            data: self.data@,
            prev: opt_hash_view(self.prev),
            new_captcha: self.new_captcha@,
            captcha_ans: opt_string_view(self.captcha_ans),
            captcha_src: opt_hash_view(self.captcha_src),
            height: self.height,
            timestamp: self.timestamp,
        }
    }
}

/// An error in computing the hash of message data. The JSON form of message
/// data is always written, so no function of this library returns it.
#[derive(Clone, Copy, PartialEq, Eq, Debug)]
pub enum Error {
    Serialization,
}

/// Appends the captcha as a JSON object.
fn write_captcha(out: &mut Vec<u8>, c: &Captcha)
    ensures
        final(out)@ == old(out)@ + json_captcha(c@),
{
    let ghost start = out@;
    push_str(out, "{\"data\":");
    write_byte_array(out, c.data());
    push_str(out, ",\"answer\":");
    write_hash(out, c.answer());
    push_str(out, "}");
    assert(out@ =~= start + json_captcha(c@));
}

impl MessageData {
    /// Builds message data with the given captcha in place of a fresh one.
    pub fn with_captcha(
        data: Vec<u8>,
        prev: Option<hash::Hash>,
        new_captcha: Captcha,
        captcha_ans: Option<String>,
        captcha_src: Option<hash::Hash>,
        height: usize,
        timestamp: u128,
    ) -> (r: MessageData)
        ensures
            r@ == (MessageDataView {
                data: data@,
                prev: opt_hash_view(prev),
                new_captcha: new_captcha@,
                captcha_ans: opt_string_view(captcha_ans),
                captcha_src: opt_hash_view(captcha_src),
                height,
                timestamp,
            }),
    {
        MessageData { data, prev, new_captcha, captcha_ans, captcha_src, height, timestamp }
    }

    /// Constructs a new message in the context of a greater blockchain. Expects
    /// a height and answer to the derived corresponding captcha, as well as a
    /// previous message, and arbitrary data. Generates a new captcha to attach to
    /// the message.
    pub fn new(
        data: Vec<u8>,
        prev: Option<hash::Hash>,
        captcha_ans: Option<String>,
        captcha_src: Option<hash::Hash>,
        height: usize,
        timestamp: u128,
    ) -> (r: MessageData)
        ensures
            r@.data == data@,
            r@.prev == opt_hash_view(prev),
            is_generated(r@.new_captcha),
            r@.captcha_ans == opt_string_view(captcha_ans),
            r@.captcha_src == opt_hash_view(captcha_src),
            r@.height == height,
            r@.timestamp == timestamp,
    {
        MessageData::with_captcha(
            data,
            prev,
            Captcha::default(),
            captcha_ans,
            captcha_src,
            height,
            timestamp,
        )
    }

    /// The data in the message.
    pub fn data(&self) -> (r: &[u8])
        ensures
            r@ == self@.data,
    {
        self.data.as_slice()
    }

    /// The hash of the previous message in the chain.
    pub fn prev(&self) -> (r: Option<&hash::Hash>)
        ensures
            match r {
                None => self@.prev is None,
                Some(h) => self@.prev == Some(h@),
            },
    {
        self.prev.as_ref()
    }

    /// The newly generated captcha contained in the message.
    pub fn new_captcha(&self) -> (r: &Captcha)
        ensures
            r@ == self@.new_captcha,
    {
        &self.new_captcha
    }

    /// The answer to the derived captcha from the message.
    pub fn captcha_ans(&self) -> (r: Option<&str>)
        ensures
            match r {
                None => self@.captcha_ans is None,
                Some(s) => self@.captcha_ans == Some(s@),
            },
    {
        match &self.captcha_ans {
            None => None,
            Some(s) => Some(s.as_str()),
        }
    }

    /// The hash of the message from which the captcha is derived that this
    /// message is answering.
    pub fn captcha_src(&self) -> (r: Option<&hash::Hash>)
        ensures
            match r {
                None => self@.captcha_src is None,
                Some(h) => self@.captcha_src == Some(h@),
            },
    {
        self.captcha_src.as_ref()
    }

    /// The index of the message in the chain. Should be prev.height + 1.
    pub fn height(&self) -> (r: usize)
        ensures
            r == self@.height,
    {
        self.height
    }

    /// The UNIX timestamp of the message.
    pub fn timestamp(&self) -> (r: u128)
        ensures
            r == self@.timestamp,
    {
        self.timestamp
    }

    /// The JSON form of the message data.
    pub fn to_json(&self) -> (r: Vec<u8>)
        ensures
            r@ == json_message_data(self@),
    {
        let mut out: Vec<u8> = Vec::new();
        push_str(&mut out, "{\"data\":");
        write_byte_array(&mut out, self.data.as_slice());
        push_str(&mut out, ",\"prev\":");
        write_opt_hash(&mut out, &self.prev);
        push_str(&mut out, ",\"new_captcha\":");
        write_captcha(&mut out, &self.new_captcha);
        push_str(&mut out, ",\"captcha_ans\":");
        write_opt_string(&mut out, &self.captcha_ans);
        push_str(&mut out, ",\"captcha_src\":");
        write_opt_hash(&mut out, &self.captcha_src);
        push_str(&mut out, ",\"height\":");
        write_uint(&mut out, self.height as u128);
        push_str(&mut out, ",\"timestamp\":");
        write_uint(&mut out, self.timestamp);
        push_str(&mut out, "}");
        assert(out@ =~= json_message_data(self@));
        out
    }

    /// Calculates the hash of the message data: SHA-256 of its JSON form.
    pub fn hashed(&self) -> (r: Result<hash::Hash, Error>)
        ensures
            r matches Ok(h) && h@ == message_hash(self@),
    {
        let json = self.to_json();
        Ok(hash::Hash::new(sha256_hash(json.as_slice())))
    }

    /// Calculates the number of posts back to look for the message whose
    /// captcha this message answers: the first sixteen hex digits of the hash,
    /// decoded, as a little-endian number.
    pub fn lookback(&self) -> (r: Option<u64>)
        ensures
            r matches Some(v) && v as nat == lookback_of(self@),
    {
        let h = match self.hashed() {
            Ok(h) => h,
            Err(_) => {
                return None;
            },
        };
        let digits = hex_encode(h.as_bytes().as_slice());
        proof {
            h.lemma_len();
            lemma_hex_round_trip(h@);
        }
        let relevant = digits.as_str().substring_ascii(0, CAPTCHA_ANS_LOOKBACK_FACTOR);
        proof {
            let first = h@.subrange(0, 8);
            assert(hex_lower(h@).subrange(0, 16) =~= hex_lower(first));
            lemma_hex_round_trip(first);
        }
        let decoded = match hex_decode(relevant) {
            Ok(v) => v,
            Err(_) => {
                return None;
            },
        };
        if decoded.len() != 8 {
            return None;
        }
        let v = le_u64(decoded.as_slice());
        Some(v)
    }
}

/// The powers of 256.
pub open spec fn pow256(n: nat) -> nat
    decreases n,
{
    if n == 0 {
        1
    } else {
        256 * pow256((n - 1) as nat)
    }
}

proof fn lemma_le_value_bound(s: Seq<u8>)
    ensures
        le_value(s) < pow256(s.len()),
    decreases s.len(),
{
    if s.len() > 0 {
        lemma_le_value_bound(s.drop_first());
        let a = s[0] as nat;
        let b = le_value(s.drop_first());
        let p = pow256((s.len() - 1) as nat);
        assert(a + 256 * b < 256 * p) by (nonlinear_arith)
            requires
                a < 256,
                b < p,
        ;
    }
}

/// Reads eight bytes as a little-endian number.
fn le_u64(b: &[u8]) -> (r: u64)
    requires
        b@.len() == 8,
    ensures
        r as nat == le_value(b@),
{
    let mut acc: u64 = 0;
    let mut i: usize = 8;
    assert(b@.subrange(8, 8) =~= Seq::<u8>::empty());
    while i > 0
        invariant
            0 <= i <= 8,
            b@.len() == 8,
            acc as nat == le_value(b@.subrange(i as int, 8)),
        decreases i,
    {
        let ghost rest = b@.subrange(i as int, 8);
        proof {
            lemma_le_value_bound(rest);
            assert(pow256(0) == 1);
            assert(pow256(1) == 256);
            assert(pow256(2) == 65536);
            assert(pow256(3) == 16777216);
            assert(pow256(4) == 4294967296);
            assert(pow256(5) == 1099511627776);
            assert(pow256(6) == 281474976710656);
            assert(pow256(7) == 72057594037927936);
        }
        i = i - 1;
        let next = acc as u128 * 256 + b[i] as u128;
        assert(b@.subrange(i as int, 8).drop_first() =~= rest);
        acc = next as u64;
    }
    assert(b@.subrange(0, 8) =~= b@);
    acc
}

/// A message in the chain: message data with its hash.
#[derive(Clone, PartialEq, Eq, Hash, Debug)]
pub struct Message {
    data: MessageData,
    hash: hash::Hash,
}

/// A message as plain values: its data and the hash it carries.
pub struct MessageView {
    pub data: MessageDataView,
    pub hash: Seq<u8>,
}

impl View for Message {
    type V = MessageView;

    closed spec fn view(&self) -> MessageView {
        MessageView { data: self.data@, hash: self.hash@ }
    }
}

/// Whether two optional hashes are the same.
fn opt_hash_equal(a: &Option<hash::Hash>, b: &Option<hash::Hash>) -> (r: bool)
    ensures
        r == (opt_hash_view(*a) == opt_hash_view(*b)),
{
    match (a, b) {
        (None, None) => true,
        (Some(x), Some(y)) => x.equals(y),
        _ => false,
    }
}

/// Whether two optional strings are the same.
fn opt_string_equal(a: &Option<String>, b: &Option<String>) -> (r: bool)
    ensures
        r == (opt_string_view(*a) == opt_string_view(*b)),
{
    match (a, b) {
        (None, None) => true,
        (Some(x), Some(y)) => x.eq(y),
        _ => false,
    }
}

impl MessageData {
    /// Whether two message data have the same fields.
    pub fn same(&self, other: &MessageData) -> (r: bool)
        ensures
            r == (self@ == other@),
    {
        let r = bytes_equal(self.data.as_slice(), other.data.as_slice())
            && opt_hash_equal(&self.prev, &other.prev)
            && bytes_equal(self.new_captcha.data(), other.new_captcha.data())
            && self.new_captcha.answer().equals(other.new_captcha.answer())
            && opt_string_equal(&self.captcha_ans, &other.captcha_ans)
            && opt_hash_equal(&self.captcha_src, &other.captcha_src)
            && self.height == other.height
            && self.timestamp == other.timestamp;
        proof {
            if r {
                assert(self@.new_captcha == other@.new_captcha);
            }
        }
        r
    }
}

impl Message {
    /// Whether two messages have the same data and hash.
    pub fn same(&self, other: &Message) -> (r: bool)
        ensures
            r == (self@ == other@),
    {
        self.data.same(&other.data) && self.hash.equals(&other.hash)
    }

    /// A message with the given data and the hash it carried when it was
    /// saved or received; the hash is taken as it is.
    pub fn from_saved(data: MessageData, hash: hash::Hash) -> (r: Message)
        ensures
            r@.data == data@,
            r@.hash == hash@,
    {
        Message { data, hash }
    }

    /// The body of the message.
    pub fn data(&self) -> (r: &MessageData)
        ensures
            r@ == self@.data,
    {
        &self.data
    }

    /// The hash of the message.
    pub fn hash(&self) -> (r: &hash::Hash)
        ensures
            r@ == self@.hash,
    {
        &self.hash
    }
}

impl vstd::std_specs::convert::TryFromSpecImpl<MessageData> for Message {
    open spec fn obeys_try_from_spec() -> bool {
        true
    }

    closed spec fn try_from_spec(v: MessageData) -> Result<Message, Error> {
        Ok(Message { data: v, hash: choose|h: hash::Hash| h@ == message_hash(v@) })
    }
}

impl TryFrom<MessageData> for Message {
    type Error = Error;

    /// Seals message data with its hash.
    fn try_from(data: MessageData) -> (r: Result<Message, Error>)
        ensures
            r matches Ok(m) && m@.data == data@ && m@.hash == message_hash(data@),
    {
        let hash = match data.hashed() {
            Ok(h) => h,
            Err(e) => {
                return Err(e);
            },
        };
        proof {
            let c = choose|h: hash::Hash| h@ == message_hash(data@);
            hash::Hash::lemma_view_injective(hash, c);
        }
        Ok(Message { data, hash })
    }
}

} // verus!
