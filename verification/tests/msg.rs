use chud::captcha::Captcha;
use chud::sys::msg::{Error, Message, MessageData};

fn blank(height: usize, prev: Option<chud::crypto::hash::Hash>) -> MessageData {
    MessageData::new(Vec::new(), prev, None, None, height, 0)
}

#[test]
fn msg_test_new() {
    let data = MessageData::new(Vec::new(), None, None, None, 0, 0);
    assert_eq!(data.data(), <Vec<u8>>::new().as_slice());
    assert_eq!(data.prev(), None);
    assert_eq!(data.captcha_ans(), None);
    assert_eq!(data.timestamp(), 0);
}

#[test]
fn test_try_from() -> Result<(), Error> {
    let data = MessageData::new(Vec::new(), None, None, None, 0, 0);
    let _ = Message::try_from(data)?;

    Ok(())
}

#[test]
fn new_keeps_fields_and_generates_captcha() {
    let prev = chud::crypto::hash::Hash::new([7u8; 32]);
    let src = chud::crypto::hash::Hash::new([9u8; 32]);
    let data = MessageData::new(vec![1, 2, 3], Some(prev), Some(String::from("AbC")), Some(src), 4, 5);
    assert_eq!(data.data(), &[1u8, 2, 3][..]);
    assert_eq!(data.prev(), Some(&prev));
    assert_eq!(data.captcha_ans(), Some("AbC"));
    assert_eq!(data.captcha_src(), Some(&src));
    assert_eq!(data.height(), 4);
    assert_eq!(data.timestamp(), 5);
    assert!(data.new_captcha().data().starts_with(b"data:image/jpeg;base64,"));
}

fn fixed_data() -> MessageData {
    let captcha = Captcha::from_parts(vec![3, 200], b"abc");
    MessageData::with_captcha(
        vec![1, 2, 255],
        Some(chud::crypto::hash::Hash::new([0x11; 32])),
        captcha,
        Some(String::from("a\"b\\c\n\u{1}\u{7f}é/")),
        None,
        5,
        12345678901234567890123u128,
    )
}

#[test]
fn json_form_is_exact() {
    let data = fixed_data();
    let answer = "ba7816bf8f01cfea414140de5dae2223b00361a396177a9cb410ff61f20015ad";
    let expected = format!(
        "{{\"data\":[1,2,255],\"prev\":\"{}\",\"new_captcha\":{{\"data\":[3,200],\"answer\":\"{}\"}},\"captcha_ans\":\"a\\\"b\\\\c\\n\\u0001\u{7f}é/\",\"captcha_src\":null,\"height\":5,\"timestamp\":12345678901234567890123}}",
        "11".repeat(32),
        answer
    );
    assert_eq!(String::from_utf8(data.to_json()).unwrap(), expected);
}

#[test]
fn json_pieces_agree_with_serde_json() {
    let s = String::from("a\"b\\c\n\u{1}\u{7f}é/\t\r\u{8}\u{c}\u{1f}");
    let data = MessageData::with_captcha(
        Vec::new(),
        None,
        Captcha::from_parts(Vec::new(), b""),
        Some(s.clone()),
        None,
        usize::MAX,
        u128::MAX,
    );
    let json = String::from_utf8(data.to_json()).unwrap();
    let escaped = serde_json::to_string(&s).unwrap();
    assert!(json.contains(&format!("\"captcha_ans\":{},", escaped)));
    assert!(json.contains(&format!("\"height\":{},", serde_json::to_string(&usize::MAX).unwrap())));
    assert!(json.ends_with(&format!("\"timestamp\":{}}}", serde_json::to_string(&u128::MAX).unwrap())));
    assert!(json.starts_with(&format!("{{\"data\":{},\"prev\":null,", serde_json::to_string(&Vec::<u8>::new()).unwrap())));
}

#[test]
fn hashed_is_sha256_of_json() {
    let data = fixed_data();
    let h = data.hashed().unwrap();
    let expected: [u8; 32] = <sha2::Sha256 as sha2::Digest>::digest(&data.to_json()).into();
    assert_eq!(*h.as_bytes(), expected);
}

#[test]
fn try_from_seals_with_hash() {
    let data = fixed_data();
    let h = data.hashed().unwrap();
    let msg = Message::try_from(data.clone()).unwrap();
    assert_eq!(msg.hash(), &h);
    assert_eq!(msg.data(), &data);
}

#[test]
fn lookback_reads_first_hex_digits() {
    let data = fixed_data();
    let h = data.hashed().unwrap();
    let digits = hex::encode(h.as_bytes());
    let bytes: [u8; 8] = hex::decode(&digits[..16]).unwrap().try_into().unwrap();
    assert_eq!(data.lookback(), Some(u64::from_le_bytes(bytes)));
}

#[test]
fn fresh_messages_differ() {
    let a = Message::try_from(blank(0, None)).unwrap();
    let b = Message::try_from(blank(0, None)).unwrap();
    assert_ne!(a.data().new_captcha().answer(), &chud::crypto::hash::Hash::new([0; 32]));
    assert_ne!(a.hash(), b.hash());
}
