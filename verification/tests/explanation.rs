use lemon_apod::html::parse_document;
use lemon_apod::parse::explanation::{parse, strip_label};

const BASE: &str = "https://apod.nasa.gov/apod/ap240305.html";

#[test]
fn extracts_prose_and_keeps_links() {
    let doc = parse_document(
        r#"<body><center><b>Title</b></center>
           <p> <b> Explanation: </b> The <a href="ap990101.html">nebula</a> glows.
           <p> Tomorrow's picture: <a href="ap240306.html">something</a></body>"#,
    );

    let out = parse(&doc, BASE).unwrap();
    assert_eq!(out.text, "The nebula glows.");
    assert_eq!(
        out.html,
        r#"The <a href="https://apod.nasa.gov/apod/ap990101.html">nebula</a> glows."#
    );
}

#[test]
fn handles_the_old_single_table_cell_layout() {
    let doc = parse_document(
        "<body><table><tr><td><b>Explanation:</b> Old prose here. \
         Authors & editors: Someone</td></tr></table></body>",
    );

    assert_eq!(parse(&doc, BASE).unwrap().text, "Old prose here.");
}

#[test]
fn reaches_prose_that_sits_beside_the_marker_rather_than_under_it() {
    let doc = parse_document(
        r#"<body><center><b>Conjunction Haiku</b></center>
           <p> <b> Explanation: </b>
           <center><i>Sister planet stands<br>together with sister stars.</i></center>
           <p> <center><b>Tomorrow's picture: </b>moon with a view</center></body>"#,
    );

    let out = parse(&doc, BASE).unwrap();
    assert_eq!(out.text, "Sister planet stands together with sister stars.");
    assert!(out.html.contains("<br>"), "the line breaks are the poem");
}

#[test]
fn still_prefers_the_tightest_container_that_holds_the_prose() {
    let doc = parse_document(
        r#"<body><center><b>Title</b></center>
           <p><b>Explanation:</b> The real prose.</p>
           <p>Unrelated trailing paragraph.</p></body>"#,
    );
    assert_eq!(parse(&doc, BASE).unwrap().text, "The real prose.");
}

#[test]
fn returns_none_without_a_marker() {
    let doc = parse_document("<body><p>just some text</p></body>");
    assert!(parse(&doc, BASE).is_none());
}

#[test]
fn only_a_leading_label_is_stripped() {
    assert_eq!(strip_label("Explanation:  The sky."), "The sky.");
    assert_eq!(strip_label("The explanation: is elsewhere."), "The explanation: is elsewhere.");
}
