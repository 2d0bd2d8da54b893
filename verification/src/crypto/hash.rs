use vstd::prelude::*;
use vstd::string::StringSliceAdditionalSpecFns;
use vstd::utf8::{encode_utf8, is_ascii_chars, is_ascii_chars_encode_utf8};

verus! {

/// The lower-case hex digit for a nibble.
pub open spec fn hex_digit(n: int) -> char {
    if n < 10 {
        (48 + n) as char
    } else {
        (87 + n) as char
    }
}

/// The lower-case hex encoding of bytes: two digits per byte, high nibble first.
pub open spec fn hex_lower(data: Seq<u8>) -> Seq<char> {
    Seq::new(
        2 * data.len(),
        |i: int|
            if i % 2 == 0 {
                hex_digit(data[i / 2] as int / 16)
            } else {
                hex_digit(data[i / 2] as int % 16)
            },
    )
}

/// The value of a hex digit given as a byte, upper or lower case.
pub open spec fn hex_value(b: u8) -> Option<u8> {
    if 48 <= b <= 57 {
        Some((b - 48) as u8)
    } else if 97 <= b <= 102 {
        Some((b - 87) as u8)
    } else if 65 <= b <= 70 {
        Some((b - 55) as u8)
    } else {
        None
    }
}

/// Whether a byte string is a well-formed hex encoding.
pub open spec fn hex_valid(s: Seq<u8>) -> bool {
    &&& s.len() % 2 == 0
    &&& forall|i: int| 0 <= i < s.len() ==> (#[trigger] hex_value(s[i])) is Some
}

/// The bytes that a well-formed hex encoding stands for.
pub open spec fn hex_decoded(s: Seq<u8>) -> Seq<u8> {
    Seq::new(
        s.len() / 2,
        |i: int| (hex_value(s[2 * i]).unwrap() * 16 + hex_value(s[2 * i + 1]).unwrap()) as u8,
    )
}

/// Each nibble's digit is an ASCII character that reads back as the nibble.
proof fn lemma_hex_digit(n: int)
    requires
        0 <= n < 16,
    ensures
        '\0' <= hex_digit(n) <= '\u{7f}',
        hex_value(hex_digit(n) as u8) == Some(n as u8),
{
}

/// The hex encoding of any bytes is ASCII, its bytes are well-formed hex with two
/// digits per byte, and they decode back to the bytes.
pub proof fn lemma_hex_round_trip(data: Seq<u8>)
    ensures
        is_ascii_chars(hex_lower(data)),
        encode_utf8(hex_lower(data)).len() == 2 * data.len(),
        hex_valid(encode_utf8(hex_lower(data))),
        hex_decoded(encode_utf8(hex_lower(data))) == data,
{
    let chars = hex_lower(data);
    assert forall|i: int| 0 <= i < chars.len() implies '\0' <= #[trigger] chars[i] <= '\u{7f}' by {
        lemma_hex_digit(data[i / 2] as int / 16);
        lemma_hex_digit(data[i / 2] as int % 16);
    }
    is_ascii_chars_encode_utf8(chars);
    let bytes = encode_utf8(chars);
    assert forall|i: int| 0 <= i < bytes.len() implies (#[trigger] hex_value(bytes[i])) is Some by {
        lemma_hex_digit(data[i / 2] as int / 16);
        lemma_hex_digit(data[i / 2] as int % 16);
        assert(bytes[i] == chars[i] as u8);
    }
    assert forall|k: int| 0 <= k < data.len() implies #[trigger] hex_decoded(bytes)[k] == data[k] by {
        let b = data[k] as int;
        lemma_hex_digit(b / 16);
        lemma_hex_digit(b % 16);
        assert(bytes[2 * k] == chars[2 * k] as u8);
        assert(bytes[2 * k + 1] == chars[2 * k + 1] as u8);
        assert((2 * k) / 2 == k);
        assert((2 * k + 1) / 2 == k);
        assert((2 * k) % 2 == 0);
        assert((2 * k + 1) % 2 == 1);
    }
    assert(hex_decoded(bytes) =~= data);
}

/// Calls `hex::encode`, which writes each byte as two lower-case hex digits.
#[verifier::external_body]
pub(crate) fn hex_encode(data: &[u8]) -> (r: String)
    ensures
        r@ == hex_lower(data@),
{
    hex::encode(data)
}

/// Why bytes are not a well-formed hex encoding, as `hex::FromHexError` tells.
#[derive(Clone, Copy, PartialEq, Eq, Debug)]
pub enum HexError {
    /// The byte at `index`, read as the character `c`, is not a hex digit.
    InvalidHexCharacter { c: char, index: usize },
    /// The number of digits is odd.
    OddLength,
    /// The number of digits does not fit the output.
    InvalidStringLength,
}

/// Whether `i` is the first position of `s` that holds no hex digit.
pub open spec fn is_first_non_hex(s: Seq<u8>, i: int) -> bool {
    &&& 0 <= i < s.len()
    &&& hex_value(s[i]) is None
    &&& forall|j: int| 0 <= j < i ==> (#[trigger] hex_value(s[j])) is Some
}

/// The error that decoding reports on bytes that are not well-formed hex: an
/// odd length first, else the first byte that is not a hex digit.
pub open spec fn hex_error(s: Seq<u8>) -> HexError {
    if s.len() % 2 != 0 {
        HexError::OddLength
    } else {
        let i = choose|i: int| is_first_non_hex(s, i);
        HexError::InvalidHexCharacter { c: s[i] as char, index: i as usize }
    }
}

/// Calls `hex::decode` on the bytes of `s`: it succeeds exactly when their number
/// is even and each is a hex digit of either case, and yields one byte per pair.
/// Otherwise it reports an odd length, or else the first byte that is not a hex
/// digit, with its position; each variant of its error is moved into `HexError`.
#[verifier::external_body]
pub(crate) fn hex_decode(s: &str) -> (r: Result<Vec<u8>, HexError>)
    ensures
        r is Ok <==> hex_valid(s.spec_bytes()),
        r matches Ok(v) ==> v@ == hex_decoded(s.spec_bytes()),
        r matches Err(e) ==> e == hex_error(s.spec_bytes()),
{
    match hex::decode(s) {
        Ok(v) => Ok(v),
        Err(hex::FromHexError::InvalidHexCharacter { c, index }) => Err(HexError::InvalidHexCharacter { c, index }),
        Err(hex::FromHexError::OddLength) => Err(HexError::OddLength),
        Err(hex::FromHexError::InvalidStringLength) => Err(HexError::InvalidStringLength),
    }
}

/// What `sha2::Sha256::digest` returns for the given input: its SHA-256 digest.
pub uninterp spec fn sha256_digest(data: Seq<u8>) -> Seq<u8>;

/// Calls `sha2::Sha256::digest` and returns the 32 bytes of the digest.
#[verifier::external_body]
pub(crate) fn sha256_hash(data: &[u8]) -> (r: [u8; 32])
    ensures
        r@ == sha256_digest(data@),
{
    <sha2::Sha256 as sha2::Digest>::digest(data).into()
}

/// A SHA-256 digest of 32 bytes, written as 64 lower-case hex digits.
#[derive(Clone, Copy, PartialEq, Eq, Hash, Debug)]
pub struct Hash {
    bytes: [u8; 32],
}

impl View for Hash {
    type V = Seq<u8>;

    closed spec fn view(&self) -> Seq<u8> {
        self.bytes@
    }
}

/// Why a string could not be read as a hash.
#[derive(Clone, Copy, PartialEq, Eq, Debug)]
pub enum HashParseError {
    /// The string is not a well-formed hex encoding, for the reason given.
    InvalidHex(HexError),
    /// The string encodes a number of bytes other than 32.
    InvalidLength,
}

impl Hash {
    /// Every hash has 32 bytes.
    pub proof fn lemma_len(&self)
        ensures
            self@.len() == 32,
    {
    }

    /// Two hashes with the same bytes are the same hash.
    pub proof fn lemma_view_injective(a: Hash, b: Hash)
        requires
            a@ == b@,
        ensures
            a == b,
    {
        assert forall|i: int| 0 <= i < 32 implies a.bytes[i] == b.bytes[i] by {
            assert(a.bytes@[i] == b.bytes@[i]);
        }
        assert(a.bytes =~= b.bytes);
    }

    /// Builds the hash with the given bytes.
    pub fn new(bytes: [u8; 32]) -> (r: Hash)
        ensures
            r@ == bytes@,
    {
        Hash { bytes }
    }

    /// The bytes of the hash.
    pub fn as_bytes(&self) -> (r: &[u8; 32])
        ensures
            r@ == self@,
    {
        &self.bytes
    }

    /// Whether two hashes have the same bytes.
    pub fn equals(&self, other: &Hash) -> (r: bool)
        ensures
            r == (self@ == other@),
    {
        let mut i: usize = 0;
        while i < 32
            invariant
                0 <= i <= 32,
                self@.len() == 32,
                other@.len() == 32,
                forall|j: int| 0 <= j < i ==> self@[j] == other@[j],
            decreases 32 - i,
        {
            if self.bytes[i] != other.bytes[i] {
                return false;
            }
            i = i + 1;
        }
        assert(self@ =~= other@);
        true
    }

    /// The hash as 64 lower-case hex digits.
    pub fn to_hex(&self) -> (r: String)
        ensures
            r@ == hex_lower(self@),
    {
        hex_encode(self.bytes.as_slice())
    }

    /// Reading back the hex form of a hash gives the same hash: the string that
    /// `to_hex` returns is well-formed hex of 64 digits, and it decodes to the
    /// hash's bytes, so `from_hex` returns `Ok` with those bytes.
    pub proof fn law_hex_round_trip(h: Hash, s: &str)
        requires
            s@ == hex_lower(h@),
        ensures
            hex_valid(s.spec_bytes()),
            s.spec_bytes().len() == 64,
            hex_decoded(s.spec_bytes()) == h@,
    {
        lemma_hex_round_trip(h@);
    }

    /// Reads a hash from its hex form, in either case.
    pub fn from_hex(s: &str) -> (r: Result<Hash, HashParseError>)
        ensures
            !hex_valid(s.spec_bytes()) ==> r == Err::<Hash, HashParseError>(
                HashParseError::InvalidHex(hex_error(s.spec_bytes())),
            ),
            hex_valid(s.spec_bytes()) && s.spec_bytes().len() != 64 ==> r == Err::<Hash, HashParseError>(HashParseError::InvalidLength),
            hex_valid(s.spec_bytes()) && s.spec_bytes().len() == 64 ==> (r matches Ok(h) && h@ == hex_decoded(s.spec_bytes())),
    {
        let decoded = match hex_decode(s) {
            Ok(v) => v,
            Err(e) => {
                return Err(HashParseError::InvalidHex(e));
            },
        };
        if decoded.len() != 32 {
            return Err(HashParseError::InvalidLength);
        }
        let mut bytes: [u8; 32] = [0u8; 32];
        let mut i: usize = 0;
        while i < 32
            invariant
                0 <= i <= 32,
                decoded@.len() == 32,
                bytes@.len() == 32,
                forall|j: int| 0 <= j < i ==> bytes@[j] == decoded@[j],
            decreases 32 - i,
        {
            bytes[i] = decoded[i];
            i = i + 1;
        }
        assert(bytes@ =~= decoded@);
        Ok(Hash { bytes })
    }
}

} // verus!
