use lemon_apod::decode::decode_html;

#[test]
fn honours_a_declared_charset() {
    let mut page =
        b"<meta http-equiv=\"Content-Type\" content=\"text/html; charset=iso-8859-1\"><p>caf"
            .to_vec();
    page.push(0xE9);
    page.extend_from_slice(b"</p>");

    let (text, encoding) = decode_html(&page);
    assert_eq!(encoding, "windows-1252");
    assert!(text.contains("café"), "got {text}");
}

#[test]
fn falls_back_to_windows_1252_for_undeclared_high_bytes() {
    let page = vec![b'<', b'p', b'>', 0xB1, b'<', b'/', b'p', b'>'];
    let (text, encoding) = decode_html(&page);
    assert_eq!(encoding, "windows-1252");
    assert!(text.contains('±'), "got {text}");
}

#[test]
fn keeps_undeclared_utf8_intact() {
    let page = "<p>Messier 31 — 2.5 million ly</p>".as_bytes();
    let (text, encoding) = decode_html(page);
    assert_eq!(encoding, "UTF-8");
    assert!(text.contains('—'));
}

#[test]
fn a_byte_order_mark_outranks_a_declared_charset() {
    let mut page = vec![0xEF, 0xBB, 0xBF];
    page.extend_from_slice(b"<meta charset=\"windows-1252\"><p>caf\xC3\xA9</p>");
    let (text, encoding) = decode_html(&page);
    assert_eq!(encoding, "UTF-8");
    assert!(text.contains("café"), "got {text}");
}

#[test]
fn an_unknown_label_falls_back_on_the_bytes() {
    let page = b"<meta charset=\"no-such-charset\"><p>plain</p>";
    let (text, encoding) = decode_html(page);
    assert_eq!(encoding, "UTF-8");
    assert_eq!(text, "<meta charset=\"no-such-charset\"><p>plain</p>");
}
