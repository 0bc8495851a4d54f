use lemon_apod::date::ApodDate;
use lemon_apod::media::MediaKind;
use lemon_apod::parse::{parse_bytes, parse_page, ParseError};

const PAGE: &str = r#"<html><head><title>APOD: 2024 March 5 - The Crab Nebula</title>
<meta name="keywords" content="crab, nebula"></head>
<body><center><h1>Astronomy Picture of the Day</h1>
<p><a href="image/2403/crab.jpg"><img src="image/2403/crab_small.jpg"></a></center>
<center><b> The Crab Nebula </b><br>
<b> Image Credit: </b><a href="https://example.org/jane">Jane Doe</a></center>
<p><b> Explanation: </b> The <a href="ap990101.html">crab</a> glows.
<p><center><b>Tomorrow's picture: </b>dark skies</center>
</body></html>"#;

fn day() -> ApodDate {
    "2024-03-05".parse().unwrap()
}

#[test]
fn a_whole_page_reads_as_one_entry() {
    let entry = parse_page(day(), PAGE).unwrap();

    assert_eq!(entry.date, day());
    assert_eq!(entry.title, "The Crab Nebula");
    assert_eq!(
        entry.title_raw.as_deref(),
        Some("APOD: 2024 March 5 - The Crab Nebula")
    );
    assert_eq!(entry.explanation_text, "The crab glows.");
    assert_eq!(
        entry.explanation_html,
        r#"The <a href="https://apod.nasa.gov/apod/ap990101.html">crab</a> glows."#
    );
    assert_eq!(entry.media.kind, MediaKind::ImageJpg);
    assert_eq!(
        entry.media.url.as_deref(),
        Some("https://apod.nasa.gov/apod/image/2403/crab_small.jpg")
    );
    assert_eq!(
        entry.media.hd_url.as_deref(),
        Some("https://apod.nasa.gov/apod/image/2403/crab.jpg")
    );
    assert!(entry.extra_media.is_empty());
    assert_eq!(entry.credits.len(), 1);
    assert_eq!(entry.credits[0].text, "Jane Doe");
    assert!(!entry.has_copyright);
    assert_eq!(entry.keywords, vec!["crab".to_owned(), "nebula".to_owned()]);
    assert_eq!(entry.source_url, "https://apod.nasa.gov/apod/ap240305.html");
}

#[test]
fn a_page_without_a_title_is_refused_as_such() {
    let out = parse_page(day(), "<html><body><p>nothing here</p></body></html>");
    assert_eq!(out.unwrap_err(), ParseError::TitleNotFound);
}

#[test]
fn a_page_with_a_title_and_no_explanation_is_refused_as_such() {
    let out = parse_page(
        day(),
        "<html><body><center><b>A Title</b></center><p>no marker</p></body></html>",
    );
    assert_eq!(out.unwrap_err(), ParseError::ExplanationNotFound);
}

#[test]
fn the_bytes_of_a_page_read_as_its_text_does() {
    let from_bytes = parse_bytes(day(), PAGE.as_bytes()).unwrap();
    let from_text = parse_page(day(), PAGE).unwrap();
    assert_eq!(from_bytes.title, from_text.title);
    assert_eq!(from_bytes.explanation_text, from_text.explanation_text);
}

#[test]
fn an_error_says_what_was_missing() {
    assert_eq!(ParseError::TitleNotFound.message(), "no title found");
    assert_eq!(ParseError::ExplanationNotFound.message(), "no explanation found");
}
