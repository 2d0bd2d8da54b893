use crate::crypto::hash;
use crate::crypto::hash::{sha256_digest, sha256_hash};
use vstd::prelude::*;

verus! {

/// The image data and hashed answer of a captcha, as plain values.
pub struct CaptchaView {
    pub data: Seq<u8>,
    pub answer: Seq<u8>,
}

/// Whether a byte is one of the characters that captcha answers are drawn from:
/// the digits 2 to 9 and the ASCII letters other than I, L, O, i, l and o.
pub open spec fn is_captcha_char(b: u8) -> bool {
    ||| 50 <= b <= 57
    ||| 65 <= b <= 90 && b != 73 && b != 76 && b != 79
    ||| 97 <= b <= 122 && b != 105 && b != 108 && b != 111
}

/// The prefix of every captcha image, which is a base64 data URL of a JPEG.
pub open spec fn image_prefix() -> Seq<u8> {
    seq![
        100u8, 97, 116, 97, 58, 105, 109, 97, 103, 101, 47, 106, 112, 101, 103, 59, 98, 97,
        115, 101, 54, 52, 44,
    ]
}

/// Whether a byte is a character of standard base64 text: a letter, a digit,
/// `+`, `/`, or the padding `=`.
pub open spec fn is_base64_char(b: u8) -> bool {
    ||| 65 <= b <= 90
    ||| 97 <= b <= 122
    ||| 48 <= b <= 57
    ||| b == 43 || b == 47 || b == 61
}

/// Whether bytes are a JPEG data URL: the prefix, then base64 text. Such bytes
/// are ASCII, and so valid UTF-8.
pub open spec fn is_jpeg_data_url(data: Seq<u8>) -> bool {
    &&& data.len() >= image_prefix().len()
    &&& data.subrange(0, image_prefix().len() as int) == image_prefix()
    &&& forall|i: int| image_prefix().len() <= i < data.len() ==> is_base64_char(#[trigger] data[i])
}

/// The number of characters of a generated answer: the requested length,
/// brought into 1..=32.
pub open spec fn answer_len(length: usize) -> int {
    if length < 1 {
        1
    } else if length > 32 {
        32
    } else {
        length as int
    }
}

/// Calls `captcha_rs::CaptchaBuilder` with the given settings, builds a captcha
/// and returns the bytes of its base64 image and of its answer text. The source
/// of `captcha_rs` draws the answer at random: `answer_len(length)` characters
/// from its basic set. The image string is the data-URL prefix of a JPEG followed
/// by the standard base64 encoding of the image (nothing after the prefix if
/// encoding fails). Which characters and which image come out is left open.
#[verifier::external_body]
fn generate_captcha(
    length: usize,
    width: u32,
    height: u32,
    dark_mode: bool,
    complexity: u32,
    compression: u8,
) -> (r: (Vec<u8>, Vec<u8>))
    ensures
        is_jpeg_data_url(r.0@),
        r.1@.len() == answer_len(length),
        forall|i: int| 0 <= i < r.1@.len() ==> is_captcha_char(#[trigger] r.1@[i]),
{
    let captcha = captcha_rs::CaptchaBuilder::new()
        .length(length)
        .width(width)
        .height(height)
        .dark_mode(dark_mode)
        .complexity(complexity)
        .compression(compression)
        .build();
    (captcha.to_base64().into_bytes(), captcha.text.into_bytes())
}

/// A captcha to be solved: base64-encoded image data and the hash of its answer.
#[derive(Clone, PartialEq, Eq, Hash, Debug)]
pub struct Captcha {
    data: Vec<u8>,
    answer: hash::Hash,
}

impl View for Captcha {
    type V = CaptchaView;

    closed spec fn view(&self) -> CaptchaView {
        CaptchaView { data: self.data@, answer: self.answer@ }
    }
}

/// Whether a captcha is one that `Captcha::default` can produce: its image is a
/// JPEG data URL of base64 text and its answer is the SHA-256 hash of five captcha characters.
pub open spec fn is_generated(c: CaptchaView) -> bool {
    &&& is_jpeg_data_url(c.data)
    &&& exists|text: Seq<u8>|
        #![trigger sha256_digest(text)]
        text.len() == 5 && (forall|i: int| 0 <= i < 5 ==> is_captcha_char(#[trigger] text[i]))
            && c.answer == sha256_digest(text)
}

impl Captcha {
    /// Builds a captcha from image data and its answer in plain text; the answer
    /// is kept only as its SHA-256 hash.
    pub fn from_parts(data: Vec<u8>, answer_text: &[u8]) -> (r: Captcha)
        ensures
            r@.data == data@,
            r@.answer == sha256_digest(answer_text@),
    {
        let answer = hash::Hash::new(sha256_hash(answer_text));
        Captcha { data, answer }
    }

    /// A captcha with the given image data and hashed answer, as it was saved.
    pub fn from_saved(data: Vec<u8>, answer: hash::Hash) -> (r: Captcha)
        ensures
            r@.data == data@,
            r@.answer == answer@,
    {
        Captcha { data, answer }
    }

    /// The image data underlying the captcha.
    pub fn data(&self) -> (r: &[u8])
        ensures
            r@ == self@.data,
    {
        self.data.as_slice()
    }

    /// The hash of the answer to the captcha.
    pub fn answer(&self) -> (r: &hash::Hash)
        ensures
            r@ == self@.answer,
    {
        &self.answer
    }
}

impl Default for Captcha {
    /// Generates a fresh captcha of five characters, 130 by 40 pixels, in dark
    /// mode, with complexity 8 and compression 50.
    fn default() -> (r: Captcha)
        ensures
            is_generated(r@),
            r@.data.len() > 0,
    {
        let (image, text) = generate_captcha(5, 130, 40, true, 8, 50);
        let r = Captcha::from_parts(image, text.as_slice());
        assert(sha256_digest(text@) == r@.answer);
        r
    }
}

} // verus!
