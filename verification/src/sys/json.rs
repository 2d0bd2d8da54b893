//! The compact JSON form of message data, byte for byte as `serde_json` writes
//! it for the derived serialisation of these types.

use crate::crypto::hash;
use crate::crypto::hash::hex_lower;
use vstd::prelude::*;
use vstd::string::StringSliceAdditionalSpecFns;
use vstd::utf8::{encode_utf8, encode_utf8_decode_utf8};

verus! {

/// The decimal digits of a number.
pub open spec fn json_uint(n: nat) -> Seq<u8>
    decreases n,
{
    if n < 10 {
        seq![(48 + n) as u8]
    } else {
        json_uint(n / 10).push((48 + n % 10) as u8)
    }
}

/// The numbers of a byte sequence, separated by commas.
pub open spec fn json_items(s: Seq<u8>) -> Seq<u8>
    decreases s.len(),
{
    if s.len() == 0 {
        seq![]
    } else if s.len() == 1 {
        json_uint(s[0] as nat)
    } else {
        json_items(s.drop_last()) + seq![44u8] + json_uint(s.last() as nat)
    }
}

/// A byte sequence as a JSON array of numbers.
pub open spec fn json_byte_array(s: Seq<u8>) -> Seq<u8> {
    seq![91u8] + json_items(s) + seq![93u8]
}

/// The lower-case hex digit of a nibble, as a byte.
pub open spec fn hex_byte(n: int) -> u8 {
    if n < 10 {
        (48 + n) as u8
    } else {
        (87 + n) as u8
    }
}

/// How one byte of a string is written inside a JSON string literal.
pub open spec fn json_escape_byte(b: u8) -> Seq<u8> {
    if b == 34 {
        seq![92u8, 34u8]
    } else if b == 92 {
        seq![92u8, 92u8]
    } else if b == 8 {
        seq![92u8, 98u8]
    } else if b == 12 {
        seq![92u8, 102u8]
    } else if b == 10 {
        seq![92u8, 110u8]
    } else if b == 13 {
        seq![92u8, 114u8]
    } else if b == 9 {
        seq![92u8, 116u8]
    } else if b < 32 {
        seq![92u8, 117u8, 48u8, 48u8, hex_byte(b as int / 16), hex_byte(b as int % 16)]
    } else {
        seq![b]
    }
}

/// The escaped bytes of a string.
pub open spec fn json_escaped(s: Seq<u8>) -> Seq<u8>
    decreases s.len(),
{
    if s.len() == 0 {
        seq![]
    } else {
        json_escaped(s.drop_last()) + json_escape_byte(s.last())
    }
}

/// The UTF-8 bytes of a string as a JSON string literal.
pub open spec fn json_string(s: Seq<u8>) -> Seq<u8> {
    seq![34u8] + json_escaped(s) + seq![34u8]
}

/// A hash as a JSON string of its lower-case hex digits.
pub open spec fn json_hash(h: Seq<u8>) -> Seq<u8> {
    seq![34u8] + encode_utf8(hex_lower(h)) + seq![34u8]
}

/// The JSON literal `null`.
pub open spec fn json_null() -> Seq<u8> {
    seq![110u8, 117u8, 108u8, 108u8]
}

/// An optional hash: `null`, or the hash as a string.
pub open spec fn json_opt_hash(o: Option<Seq<u8>>) -> Seq<u8> {
    match o {
        None => json_null(),
        Some(h) => json_hash(h),
    }
}

/// An optional string: `null`, or the string literal of its UTF-8 bytes.
pub open spec fn json_opt_string(o: Option<Seq<char>>) -> Seq<u8> {
    match o {
        None => json_null(),
        Some(c) => json_string(encode_utf8(c)),
    }
}

/// Whether two byte sequences are the same.
pub fn bytes_equal(a: &[u8], b: &[u8]) -> (r: bool)
    ensures
        r == (a@ == b@),
{
    if a.len() != b.len() {
        return false;
    }
    let mut i: usize = 0;
    while i < a.len()
        invariant
            a@.len() == b@.len(),
            0 <= i <= a@.len(),
            forall|j: int| 0 <= j < i ==> a@[j] == b@[j],
        decreases a@.len() - i,
    {
        if a[i] != b[i] {
            return false;
        }
        i = i + 1;
    }
    assert(a@ =~= b@);
    true
}

/// Appends bytes to a buffer.
pub fn push_bytes(out: &mut Vec<u8>, bytes: &[u8])
    ensures
        final(out)@ == old(out)@ + bytes@,
{
    let ghost start = out@;
    let mut i: usize = 0;
    while i < bytes.len()
        invariant
            0 <= i <= bytes@.len(),
            out@ == start + bytes@.subrange(0, i as int),
        decreases bytes@.len() - i,
    {
        out.push(bytes[i]);
        i = i + 1;
        assert(out@ =~= start + bytes@.subrange(0, i as int));
    }
    assert(bytes@.subrange(0, i as int) =~= bytes@);
}

/// Appends the UTF-8 bytes of a string literal to a buffer.
pub fn push_str(out: &mut Vec<u8>, s: &str)
    ensures
        final(out)@ == old(out)@ + s.spec_bytes(),
{
    push_bytes(out, s.as_bytes());
}

/// Appends the decimal digits of a number.
pub fn write_uint(out: &mut Vec<u8>, n: u128)
    ensures
        final(out)@ == old(out)@ + json_uint(n as nat),
    decreases n,
{
    if n >= 10 {
        write_uint(out, n / 10);
    }
    let d: u8 = (n % 10) as u8;
    out.push(48 + d);
}

/// Appends a byte sequence as a JSON array of numbers.
pub fn write_byte_array(out: &mut Vec<u8>, s: &[u8])
    ensures
        final(out)@ == old(out)@ + json_byte_array(s@),
{
    let ghost start = out@;
    out.push(91);
    let mut i: usize = 0;
    while i < s.len()
        invariant
            0 <= i <= s@.len(),
            out@ == start + seq![91u8] + json_items(s@.subrange(0, i as int)),
        decreases s@.len() - i,
    {
        let ghost prev = out@;
        if i > 0 {
            out.push(44);
        }
        write_uint(out, s[i] as u128);
        let ghost next = s@.subrange(0, i + 1);
        assert(next.drop_last() =~= s@.subrange(0, i as int));
        if i == 0 {
            assert(json_items(next) == json_uint(s@[0] as nat));
            assert(json_items(s@.subrange(0, 0)) =~= seq![]);
        }
        i = i + 1;
        assert(out@ =~= start + seq![91u8] + json_items(s@.subrange(0, i as int)));
    }
    assert(s@.subrange(0, i as int) =~= s@);
    out.push(93);
    assert(out@ =~= start + json_byte_array(s@));
}

/// The escape of one byte, as the bytes to append.
fn write_escape_byte(out: &mut Vec<u8>, b: u8)
    ensures
        final(out)@ == old(out)@ + json_escape_byte(b),
{
    let ghost start = out@;
    if b == 34 {
        out.push(92);
        out.push(34);
    } else if b == 92 {
        out.push(92);
        out.push(92);
    } else if b == 8 {
        out.push(92);
        out.push(98);
    } else if b == 12 {
        out.push(92);
        out.push(102);
    } else if b == 10 {
        out.push(92);
        out.push(110);
    } else if b == 13 {
        out.push(92);
        out.push(114);
    } else if b == 9 {
        out.push(92);
        out.push(116);
    } else if b < 32 {
        let hi: u8 = b / 16;
        let lo: u8 = b % 16;
        out.push(92);
        out.push(117);
        out.push(48);
        out.push(48);
        out.push(if hi < 10 { 48 + hi } else { 87 + hi });
        out.push(if lo < 10 { 48 + lo } else { 87 + lo });
    } else {
        out.push(b);
    }
    assert(out@ =~= start + json_escape_byte(b));
}

/// Appends the UTF-8 bytes of a string as a JSON string literal.
pub fn write_string(out: &mut Vec<u8>, s: &[u8])
    ensures
        final(out)@ == old(out)@ + json_string(s@),
{
    let ghost start = out@;
    out.push(34);
    let mut i: usize = 0;
    while i < s.len()
        invariant
            0 <= i <= s@.len(),
            out@ == start + seq![34u8] + json_escaped(s@.subrange(0, i as int)),
        decreases s@.len() - i,
    {
        write_escape_byte(out, s[i]);
        let ghost next = s@.subrange(0, i + 1);
        assert(next.drop_last() =~= s@.subrange(0, i as int));
        i = i + 1;
        assert(out@ =~= start + seq![34u8] + json_escaped(s@.subrange(0, i as int)));
    }
    assert(s@.subrange(0, i as int) =~= s@);
    out.push(34);
    assert(out@ =~= start + json_string(s@));
}

/// Appends a hash as a JSON string of its hex digits.
pub fn write_hash(out: &mut Vec<u8>, h: &hash::Hash)
    ensures
        final(out)@ == old(out)@ + json_hash(h@),
{
    let ghost start = out@;
    let hex = h.to_hex();
    out.push(34);
    push_str(out, hex.as_str());
    out.push(34);
    assert(out@ =~= start + json_hash(h@));
}

/// Appends an optional hash.
pub fn write_opt_hash(out: &mut Vec<u8>, o: &Option<hash::Hash>)
    ensures
        final(out)@ == old(out)@ + json_opt_hash(
            match o {
                None => None,
                Some(h) => Some(h@),
            },
        ),
{
    let ghost start = out@;
    match o {
        None => {
            out.push(110);
            out.push(117);
            out.push(108);
            out.push(108);
            assert(out@ =~= start + json_null());
        },
        Some(h) => {
            write_hash(out, h);
        },
    }
}

/// Appends an optional string.
pub fn write_opt_string(out: &mut Vec<u8>, o: &Option<String>)
    ensures
        final(out)@ == old(out)@ + json_opt_string(
            match o {
                None => None,
                Some(s) => Some(s@),
            },
        ),
{
    let ghost start = out@;
    match o {
        None => {
            out.push(110);
            out.push(117);
            out.push(108);
            out.push(108);
            assert(out@ =~= start + json_null());
        },
        Some(s) => {
            write_string(out, s.as_str().as_bytes());
        },
    }
}

proof fn lemma_uint_digits(n: nat)
    ensures
        json_uint(n).len() >= 1,
        n >= 10 ==> json_uint(n).len() >= 2,
        forall|i: int| 0 <= i < json_uint(n).len() ==> 48 <= #[trigger] json_uint(n)[i] <= 57,
    decreases n,
{
    if n >= 10 {
        lemma_uint_digits(n / 10);
    }
}

/// Different numbers have different decimal forms.
pub proof fn law_uint_injective(a: nat, b: nat)
    requires
        json_uint(a) == json_uint(b),
    ensures
        a == b,
    decreases a,
{
    lemma_uint_digits(a);
    lemma_uint_digits(b);
    if a >= 10 && b >= 10 {
        assert(json_uint(a).drop_last() =~= json_uint(a / 10));
        assert(json_uint(b).drop_last() =~= json_uint(b / 10));
        law_uint_injective(a / 10, b / 10);
        assert(json_uint(a).last() == json_uint(b).last());
        assert(json_uint(a).last() == (48 + a % 10) as u8);
        assert(json_uint(b).last() == (48 + b % 10) as u8);
        assert(a % 10 == b % 10);
        assert(a == 10 * (a / 10) + a % 10);
        assert(b == 10 * (b / 10) + b % 10);
        assert(a == b);
    } else if a < 10 && b < 10 {
        assert(json_uint(a) == seq![(48 + a) as u8]);
        assert(json_uint(b) == seq![(48 + b) as u8]);
        assert(json_uint(a)[0] == json_uint(b)[0]);
        assert(json_uint(a)[0] == (48 + a) as u8);
        assert(json_uint(b)[0] == (48 + b) as u8);
        assert((48 + a) as u8 == 48 + a);
        assert((48 + b) as u8 == 48 + b);
        assert(a == b);
    } else if a < 10 {
        assert(json_uint(a).len() == 1);
        assert(false);
    } else {
        assert(json_uint(b).len() == 1);
        assert(false);
    }
}

proof fn lemma_items_nonempty(s: Seq<u8>)
    ensures
        s.len() > 0 ==> json_items(s).len() >= 1,
    decreases s.len(),
{
    if s.len() == 1 {
        lemma_uint_digits(s[0] as nat);
    }
}

/// Different byte sequences have different comma-separated forms.
pub proof fn law_items_injective(a: Seq<u8>, b: Seq<u8>)
    requires
        json_items(a) == json_items(b),
    ensures
        a == b,
    decreases a.len(),
{
    lemma_items_nonempty(a);
    lemma_items_nonempty(b);
    if a.len() == 0 || b.len() == 0 {
    } else if a.len() == 1 && b.len() == 1 {
        law_uint_injective(a[0] as nat, b[0] as nat);
        assert(a =~= b);
    } else if a.len() == 1 {
        let x = json_items(b.drop_last());
        lemma_uint_digits(a[0] as nat);
        assert(json_items(b)[x.len() as int] == 44u8);
        assert(json_items(a)[x.len() as int] == json_uint(a[0] as nat)[x.len() as int]);
    } else if b.len() == 1 {
        let x = json_items(a.drop_last());
        lemma_uint_digits(b[0] as nat);
        assert(json_items(a)[x.len() as int] == 44u8);
        assert(json_items(b)[x.len() as int] == json_uint(b[0] as nat)[x.len() as int]);
    } else {
        let x = json_items(a.drop_last());
        let y = json_items(b.drop_last());
        let ux = json_uint(a.last() as nat);
        let uy = json_uint(b.last() as nat);
        let w = json_items(a);
        lemma_uint_digits(a.last() as nat);
        lemma_uint_digits(b.last() as nat);
        assert(w == x + seq![44u8] + ux);
        assert(w == y + seq![44u8] + uy);
        if ux.len() < uy.len() {
            let k = w.len() - 1 - ux.len();
            assert(w[k] == 44u8);
            assert(w[k] == uy[uy.len() - 1 - ux.len()]);
        } else if uy.len() < ux.len() {
            let k = w.len() - 1 - uy.len();
            assert(w[k] == 44u8);
            assert(w[k] == ux[ux.len() - 1 - uy.len()]);
        }
        assert(ux =~= w.subrange(w.len() - ux.len(), w.len() as int));
        assert(uy =~= w.subrange(w.len() - uy.len(), w.len() as int));
        law_uint_injective(a.last() as nat, b.last() as nat);
        assert(x =~= w.subrange(0, x.len() as int));
        assert(y =~= w.subrange(0, y.len() as int));
        law_items_injective(a.drop_last(), b.drop_last());
        assert(a =~= a.drop_last().push(a.last()));
        assert(b =~= b.drop_last().push(b.last()));
    }
}

/// Different byte sequences have different JSON arrays.
pub proof fn law_byte_array_injective(a: Seq<u8>, b: Seq<u8>)
    requires
        json_byte_array(a) == json_byte_array(b),
    ensures
        a == b,
{
    let w = json_byte_array(a);
    assert(json_items(a) =~= w.subrange(1, w.len() - 1));
    assert(json_items(b) =~= w.subrange(1, w.len() - 1));
    law_items_injective(a, b);
}

proof fn lemma_escaped_front(s: Seq<u8>)
    requires
        s.len() > 0,
    ensures
        json_escaped(s) == json_escape_byte(s[0]) + json_escaped(s.drop_first()),
    decreases s.len(),
{
    if s.len() == 1 {
        assert(s.drop_last() =~= Seq::<u8>::empty());
        assert(s.drop_first() =~= Seq::<u8>::empty());
        assert(json_escaped(s) =~= json_escape_byte(s[0]) + json_escaped(s.drop_first()));
    } else {
        lemma_escaped_front(s.drop_last());
        assert(s.drop_last().drop_first() =~= s.drop_first().drop_last());
        assert(s.drop_last()[0] == s[0]);
        assert(s.drop_first().last() == s.last());
        assert(json_escaped(s) =~= json_escape_byte(s[0]) + json_escaped(s.drop_first()));
    }
}

proof fn lemma_escape_byte_prefix(x: u8, y: u8, r1: Seq<u8>, r2: Seq<u8>)
    requires
        json_escape_byte(x) + r1 == json_escape_byte(y) + r2,
    ensures
        x == y,
        r1 == r2,
{
    let ex = json_escape_byte(x);
    let ey = json_escape_byte(y);
    let w = ex + r1;
    assert(w[0] == ex[0] && w[0] == ey[0]);
    assert(ex.len() >= 1 && ey.len() >= 1);
    if ex.len() >= 2 && ey.len() >= 2 {
        assert(w[1] == ex[1] && w[1] == ey[1]);
        if ex.len() == 6 && ey.len() == 6 {
            assert(w[4] == ex[4] && w[4] == ey[4]);
            assert(w[5] == ex[5] && w[5] == ey[5]);
            assert(x / 16 == y / 16);
            assert(x % 16 == y % 16);
        }
    }
    assert(x == y);
    assert(r1 =~= w.subrange(ex.len() as int, w.len() as int));
    assert(r2 =~= w.subrange(ey.len() as int, w.len() as int));
}

/// Different byte strings have different escaped forms.
pub proof fn law_escaped_injective(a: Seq<u8>, b: Seq<u8>)
    requires
        json_escaped(a) == json_escaped(b),
    ensures
        a == b,
    decreases a.len(),
{
    if a.len() > 0 && b.len() > 0 {
        lemma_escaped_front(a);
        lemma_escaped_front(b);
        lemma_escape_byte_prefix(a[0], b[0], json_escaped(a.drop_first()), json_escaped(b.drop_first()));
        law_escaped_injective(a.drop_first(), b.drop_first());
        assert(a =~= seq![a[0]] + a.drop_first());
        assert(b =~= seq![b[0]] + b.drop_first());
    } else if a.len() > 0 {
        lemma_escaped_front(a);
        assert(json_escaped(b).len() == 0);
    } else if b.len() > 0 {
        lemma_escaped_front(b);
        assert(json_escaped(a).len() == 0);
    }
}

/// Different character sequences have different UTF-8 encodings.
pub proof fn law_utf8_injective(a: Seq<char>, b: Seq<char>)
    requires
        encode_utf8(a) == encode_utf8(b),
    ensures
        a == b,
{
    encode_utf8_decode_utf8(a);
    encode_utf8_decode_utf8(b);
}

/// Different strings have different JSON string literals.
pub proof fn law_string_injective(a: Seq<u8>, b: Seq<u8>)
    requires
        json_string(a) == json_string(b),
    ensures
        a == b,
{
    let w = json_string(a);
    assert(json_escaped(a) =~= w.subrange(1, w.len() - 1));
    assert(json_escaped(b) =~= w.subrange(1, w.len() - 1));
    law_escaped_injective(a, b);
}

/// Different hashes have different JSON forms.
pub proof fn law_hash_injective(a: Seq<u8>, b: Seq<u8>)
    requires
        json_hash(a) == json_hash(b),
    ensures
        a == b,
{
    let w = json_hash(a);
    assert(encode_utf8(hex_lower(a)) =~= w.subrange(1, w.len() - 1));
    assert(encode_utf8(hex_lower(b)) =~= w.subrange(1, w.len() - 1));
    hash::lemma_hex_round_trip(a);
    hash::lemma_hex_round_trip(b);
}

/// An absent value is written as the literal `null`, which no present hash
/// or string is written as; different optional hashes, and different optional
/// strings, have different JSON forms.
pub proof fn law_optional_forms(h1: Option<Seq<u8>>, h2: Option<Seq<u8>>, s1: Option<Seq<char>>, s2: Option<Seq<char>>)
    ensures
        json_opt_hash(None) == seq![110u8, 117u8, 108u8, 108u8],
        json_opt_string(None) == seq![110u8, 117u8, 108u8, 108u8],
        json_opt_hash(h1) == json_opt_hash(h2) ==> h1 == h2,
        json_opt_string(s1) == json_opt_string(s2) ==> s1 == s2,
{
    if json_opt_hash(h1) == json_opt_hash(h2) {
        match (h1, h2) {
            (Some(a), Some(b)) => law_hash_injective(a, b),
            (Some(a), None) => assert(json_opt_hash(h1)[0] != json_opt_hash(h2)[0]),
            (None, Some(b)) => assert(json_opt_hash(h1)[0] != json_opt_hash(h2)[0]),
            (None, None) => {},
        }
    }
    if json_opt_string(s1) == json_opt_string(s2) {
        match (s1, s2) {
            (Some(a), Some(b)) => {
                law_string_injective(encode_utf8(a), encode_utf8(b));
                law_utf8_injective(a, b);
            },
            (Some(a), None) => assert(json_opt_string(s1)[0] != json_opt_string(s2)[0]),
            (None, Some(b)) => assert(json_opt_string(s1)[0] != json_opt_string(s2)[0]),
            (None, None) => {},
        }
    }
}

/// A common prefix cancels.
pub proof fn lemma_cancel_prefix(k: Seq<u8>, x: Seq<u8>, y: Seq<u8>)
    requires
        k + x == k + y,
    ensures
        x == y,
{
    assert(x =~= (k + x).subrange(k.len() as int, (k + x).len() as int));
    assert(y =~= (k + y).subrange(k.len() as int, (k + y).len() as int));
}

/// A number's decimal form ends where the next byte is not a digit.
pub proof fn lemma_uint_prefix(a: nat, b: nat, r1: Seq<u8>, r2: Seq<u8>)
    requires
        json_uint(a) + r1 == json_uint(b) + r2,
        r1.len() > 0 && !(48 <= r1[0] <= 57),
        r2.len() > 0 && !(48 <= r2[0] <= 57),
    ensures
        a == b,
        r1 == r2,
{
    let ua = json_uint(a);
    let ub = json_uint(b);
    let w = ua + r1;
    lemma_uint_digits(a);
    lemma_uint_digits(b);
    if ua.len() < ub.len() {
        assert(w[ua.len() as int] == r1[0]);
        assert(w[ua.len() as int] == ub[ua.len() as int]);
    } else if ub.len() < ua.len() {
        assert(w[ub.len() as int] == r2[0]);
        assert(w[ub.len() as int] == ua[ub.len() as int]);
    }
    assert(ua =~= w.subrange(0, ua.len() as int));
    assert(ub =~= w.subrange(0, ub.len() as int));
    law_uint_injective(a, b);
    lemma_cancel_prefix(ua, r1, r2);
}

proof fn lemma_items_bytes(s: Seq<u8>)
    ensures
        forall|i: int| 0 <= i < json_items(s).len() ==> #[trigger] json_items(s)[i] == 44 || 48 <= json_items(s)[i] <= 57,
    decreases s.len(),
{
    if s.len() == 1 {
        lemma_uint_digits(s[0] as nat);
    } else if s.len() > 1 {
        lemma_items_bytes(s.drop_last());
        lemma_uint_digits(s.last() as nat);
        let x = json_items(s.drop_last());
        let u = json_uint(s.last() as nat);
        assert forall|i: int| 0 <= i < json_items(s).len() implies #[trigger] json_items(s)[i] == 44 || 48
            <= json_items(s)[i] <= 57 by {
            if i < x.len() {
                assert(json_items(s)[i] == x[i]);
            } else if i > x.len() {
                assert(json_items(s)[i] == u[i - x.len() - 1]);
            }
        }
    }
}

/// A JSON array of numbers ends at its closing bracket.
pub proof fn lemma_byte_array_prefix(a: Seq<u8>, b: Seq<u8>, r1: Seq<u8>, r2: Seq<u8>)
    requires
        json_byte_array(a) + r1 == json_byte_array(b) + r2,
    ensures
        a == b,
        r1 == r2,
{
    let xa = json_items(a);
    let xb = json_items(b);
    let aa = json_byte_array(a);
    let ab = json_byte_array(b);
    let w = aa + r1;
    lemma_items_bytes(a);
    lemma_items_bytes(b);
    if xa.len() < xb.len() {
        assert(w[xa.len() as int + 1] == aa[xa.len() as int + 1]);
        assert(w[xa.len() as int + 1] == xb[xa.len() as int]);
    } else if xb.len() < xa.len() {
        assert(w[xb.len() as int + 1] == ab[xb.len() as int + 1]);
        assert(w[xb.len() as int + 1] == xa[xb.len() as int]);
    }
    assert(aa =~= w.subrange(0, aa.len() as int));
    assert(ab =~= w.subrange(0, ab.len() as int));
    law_byte_array_injective(a, b);
    lemma_cancel_prefix(aa, r1, r2);
}

/// A hash's JSON string ends at its closing quote.
pub proof fn lemma_hash_prefix(a: Seq<u8>, b: Seq<u8>, r1: Seq<u8>, r2: Seq<u8>)
    requires
        json_hash(a) + r1 == json_hash(b) + r2,
    ensures
        a == b,
        r1 == r2,
{
    let ha = encode_utf8(hex_lower(a));
    let hb = encode_utf8(hex_lower(b));
    let ja = json_hash(a);
    let jb = json_hash(b);
    let w = ja + r1;
    hash::lemma_hex_round_trip(a);
    hash::lemma_hex_round_trip(b);
    if ha.len() < hb.len() {
        assert(w[ha.len() as int + 1] == ja[ha.len() as int + 1]);
        assert(w[ha.len() as int + 1] == hb[ha.len() as int]);
        assert(hash::hex_value(hb[ha.len() as int]) is Some);
    } else if hb.len() < ha.len() {
        assert(w[hb.len() as int + 1] == jb[hb.len() as int + 1]);
        assert(w[hb.len() as int + 1] == ha[hb.len() as int]);
        assert(hash::hex_value(ha[hb.len() as int]) is Some);
    }
    assert(ja =~= w.subrange(0, ja.len() as int));
    assert(jb =~= w.subrange(0, jb.len() as int));
    law_hash_injective(a, b);
    lemma_cancel_prefix(ja, r1, r2);
}

/// An optional hash's JSON form ends where `null` or the string ends.
pub proof fn lemma_opt_hash_prefix(a: Option<Seq<u8>>, b: Option<Seq<u8>>, r1: Seq<u8>, r2: Seq<u8>)
    requires
        json_opt_hash(a) + r1 == json_opt_hash(b) + r2,
    ensures
        a == b,
        r1 == r2,
{
    let w = json_opt_hash(a) + r1;
    match (a, b) {
        (Some(x), Some(y)) => lemma_hash_prefix(x, y, r1, r2),
        (None, None) => lemma_cancel_prefix(json_null(), r1, r2),
        (Some(x), None) => {
            assert(w[0] == json_opt_hash(a)[0]);
            assert(w[0] == json_opt_hash(b)[0]);
        },
        (None, Some(y)) => {
            assert(w[0] == json_opt_hash(a)[0]);
            assert(w[0] == json_opt_hash(b)[0]);
        },
    }
}

proof fn lemma_escaped_close(a: Seq<u8>, b: Seq<u8>, r1: Seq<u8>, r2: Seq<u8>)
    requires
        json_escaped(a) + (seq![34u8] + r1) == json_escaped(b) + (seq![34u8] + r2),
    ensures
        a == b,
        r1 == r2,
    decreases a.len(),
{
    let wa = json_escaped(a) + (seq![34u8] + r1);
    if a.len() > 0 && b.len() > 0 {
        lemma_escaped_front(a);
        lemma_escaped_front(b);
        let ta = json_escaped(a.drop_first()) + (seq![34u8] + r1);
        let tb = json_escaped(b.drop_first()) + (seq![34u8] + r2);
        assert(wa =~= json_escape_byte(a[0]) + ta);
        assert(json_escaped(b) + (seq![34u8] + r2) =~= json_escape_byte(b[0]) + tb);
        lemma_escape_byte_prefix(a[0], b[0], ta, tb);
        lemma_escaped_close(a.drop_first(), b.drop_first(), r1, r2);
        assert(a =~= seq![a[0]] + a.drop_first());
        assert(b =~= seq![b[0]] + b.drop_first());
    } else if a.len() > 0 {
        lemma_escaped_front(a);
        assert(wa[0] == json_escape_byte(a[0])[0]);
        assert(json_escaped(b).len() == 0);
        assert(wa[0] == 34u8);
    } else if b.len() > 0 {
        lemma_escaped_front(b);
        let wb = json_escaped(b) + (seq![34u8] + r2);
        assert(wb[0] == json_escape_byte(b[0])[0]);
        assert(json_escaped(a).len() == 0);
        assert(wb[0] == 34u8);
    } else {
        lemma_cancel_prefix(seq![34u8], r1, r2);
    }
}

/// A JSON string literal ends at its first quote that is not escaped.
pub proof fn lemma_string_prefix(a: Seq<u8>, b: Seq<u8>, r1: Seq<u8>, r2: Seq<u8>)
    requires
        json_string(a) + r1 == json_string(b) + r2,
    ensures
        a == b,
        r1 == r2,
{
    assert(json_string(a) + r1 =~= seq![34u8] + (json_escaped(a) + (seq![34u8] + r1)));
    assert(json_string(b) + r2 =~= seq![34u8] + (json_escaped(b) + (seq![34u8] + r2)));
    lemma_cancel_prefix(seq![34u8], json_escaped(a) + (seq![34u8] + r1), json_escaped(b) + (seq![34u8] + r2));
    lemma_escaped_close(a, b, r1, r2);
}

/// An optional string's JSON form ends where `null` or the literal ends.
pub proof fn lemma_opt_string_prefix(a: Option<Seq<char>>, b: Option<Seq<char>>, r1: Seq<u8>, r2: Seq<u8>)
    requires
        json_opt_string(a) + r1 == json_opt_string(b) + r2,
    ensures
        a == b,
        r1 == r2,
{
    let w = json_opt_string(a) + r1;
    match (a, b) {
        (Some(x), Some(y)) => {
            lemma_string_prefix(encode_utf8(x), encode_utf8(y), r1, r2);
            law_utf8_injective(x, y);
        },
        (None, None) => lemma_cancel_prefix(json_null(), r1, r2),
        (Some(x), None) => {
            assert(w[0] == json_opt_string(a)[0]);
            assert(w[0] == json_opt_string(b)[0]);
        },
        (None, Some(y)) => {
            assert(w[0] == json_opt_string(a)[0]);
            assert(w[0] == json_opt_string(b)[0]);
        },
    }
}

} // verus!
