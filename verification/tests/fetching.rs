use pcyp_rust::fetch::{decode_text, request_url};

#[test]
fn decodes_sjis() {
    let (sjis, _, _) = encoding_rs::SHIFT_JIS.encode("予定地");
    assert_eq!(decode_text(&sjis), "予定地");
    assert_eq!(decode_text("\u{feff}abc".as_bytes()), "abc");
}

#[test]
fn host_param() {
    assert_eq!(request_url("http://a/index.txt", 7144), "http://a/index.txt?host=localhost%3A7144");
    assert_eq!(request_url("http://a/i?x=1", 7145), "http://a/i?x=1&host=localhost%3A7145");
}

// ---------------------------------------------------------------- more cases

#[test]
fn utf8_is_read_as_it_is() {
    assert_eq!(decode_text("予定地".as_bytes()), "予定地");
    assert_eq!(decode_text(b""), "");
}

#[test]
fn broken_utf8_is_read_as_shift_jis() {
    assert_eq!(decode_text(&[0x82, 0xa0]), "あ");
}
