use chud::captcha::Captcha;

#[test]
fn mod_test_default() {
    let captcha = Captcha::default();
    assert_eq!(captcha.data().is_empty(), false);
    assert_ne!(*captcha.answer().as_bytes(), [0; 32]);
}

#[test]
fn default_image_is_a_jpeg_data_url() {
    let captcha = Captcha::default();
    assert!(captcha.data().starts_with(b"data:image/jpeg;base64,"));
    assert!(captcha.data().len() > b"data:image/jpeg;base64,".len());
    assert!(std::str::from_utf8(captcha.data()).is_ok());
    assert!(captcha.data()[b"data:image/jpeg;base64,".len()..]
        .iter()
        .all(|b| b.is_ascii_alphanumeric() || *b == b'+' || *b == b'/' || *b == b'='));
}

#[test]
fn from_parts_hashes_the_answer() {
    let captcha = Captcha::from_parts(vec![1, 2], b"abc");
    assert_eq!(captcha.data(), &[1u8, 2][..]);
    assert_eq!(
        captcha.answer().to_hex(),
        "ba7816bf8f01cfea414140de5dae2223b00361a396177a9cb410ff61f20015ad"
    );
}
