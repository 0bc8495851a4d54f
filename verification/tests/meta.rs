use lemon_apod::html::parse_document;
use lemon_apod::parse::meta::{keywords, tomorrow_teaser};

#[test]
fn reads_and_deduplicates_keywords() {
    let doc =
        parse_document(r#"<meta name="keywords" content="nebula, Orion ,  nebula , ,star formation">"#);
    assert_eq!(keywords(&doc), vec!["nebula", "Orion", "star formation"]);
}

#[test]
fn no_keywords_meta_means_no_keywords() {
    assert!(keywords(&parse_document("<body></body>")).is_empty());
}

#[test]
fn reads_the_teaser() {
    let doc = parse_document("<body><p>Tomorrow's picture: open water</p></body>");
    assert_eq!(tomorrow_teaser(&doc).as_deref(), Some("open water"));
}

#[test]
fn stops_the_teaser_before_the_footer() {
    let doc = parse_document(
        "<body><p>Tomorrow's picture: open water Authors & editors: Someone</p></body>",
    );
    assert_eq!(tomorrow_teaser(&doc).as_deref(), Some("open water"));
}

#[test]
fn stops_the_teaser_before_the_page_navigation() {
    let doc = parse_document(
        "<body><p>Tomorrow's picture: A Venus Landing | Archive | Glossary | About APOD |</p></body>",
    );
    assert_eq!(tomorrow_teaser(&doc).as_deref(), Some("A Venus Landing"));
}

#[test]
fn rejects_an_implausibly_long_teaser() {
    let long = "word ".repeat(60);
    let doc = parse_document(&format!("<body><p>Tomorrow's picture: {long}</p></body>"));
    assert!(tomorrow_teaser(&doc).is_none());
}

#[test]
fn a_keywords_meta_is_found_whatever_the_case_of_its_name() {
    let doc = parse_document(
        r#"<meta name="KEYWORDS" content="Moon"><meta name="description" content="not a keyword"><meta name="keywords" content="moon, Mars">"#,
    );
    assert_eq!(keywords(&doc), vec!["Moon", "Mars"]);
}
