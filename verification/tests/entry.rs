use lemon_apod::date::ApodDate;
use lemon_apod::entry::{
    is_decommissioned, truncate_on_word_boundary, ApodEntry, Credit, Matched, Provenance,
};
use lemon_apod::media::Media;

fn at(source_url: &str) -> ApodEntry {
    ApodEntry {
        date: ApodDate::start(),
        title: String::new(),
        title_raw: None,
        explanation_html: String::new(),
        explanation_text: String::new(),
        credits: Vec::new(),
        has_copyright: false,
        license_url: None,
        tomorrow_teaser: None,
        keywords: Vec::new(),
        media: Media::default(),
        extra_media: Vec::new(),
        legacy_media_url: None,
        alt: None,
        authors: Vec::new(),
        provenance: Provenance::Both,
        source_url: source_url.to_owned(),
        picture: None,
    }
}

#[test]
fn only_a_page_on_a_host_that_survives_is_offered_as_the_official_one() {
    assert_eq!(
        at("https://science.nasa.gov/image-article/apod/apod-x/").official_url(),
        Some("https://science.nasa.gov/image-article/apod/apod-x/")
    );
    for dead in [
        "https://apod.nasa.gov/apod/ap950616.html",
        "http://apod.nasa.gov/apod/ap950616.html",
        "https://www.apod.nasa.gov/apod/ap950616.html",
        "https://antwrp.gsfc.nasa.gov/apod/ap950616.html",
    ] {
        assert_eq!(at(dead).official_url(), None, "{dead}");
        assert!(is_decommissioned(dead));
    }
    assert_eq!(
        at("https://science.nasa.gov/apod.nasa.gov/x").official_url(),
        Some("https://science.nasa.gov/apod.nasa.gov/x"),
        "the dead host has to be the host, not a substring of the path"
    );
}

#[test]
fn truncates_without_splitting_words() {
    assert_eq!(truncate_on_word_boundary("one two three", 100), "one two three");
    assert_eq!(truncate_on_word_boundary("one two three", 8), "one two…");
}

#[test]
fn truncating_handles_multibyte_text() {
    let text = "Messier 31 — the Andromeda Galaxy";
    assert_eq!(truncate_on_word_boundary(text, 12), "Messier 31…");
}

#[test]
fn a_cut_through_one_long_word_keeps_the_cut_and_drops_trailing_punctuation() {
    assert_eq!(truncate_on_word_boundary("abcdefghij", 4), "abcd…");
    assert_eq!(truncate_on_word_boundary("one, two, three", 5), "one…");
}

#[test]
fn credits_are_indexed_as_one_line_of_names() {
    let mut entry = at("x");
    assert_eq!(entry.credit_text(), None);
    entry.credits = vec![
        Credit { role: "Image Credit".into(), html: "A".into(), text: "Ann".into() },
        Credit { role: "Text".into(), html: "B".into(), text: "Bo".into() },
    ];
    assert_eq!(entry.credit_text().as_deref(), Some("Ann; Bo"));
    entry.explanation_text = "The galaxy is big.".into();
    assert_eq!(entry.summary_text(10), "The…");
    assert_eq!(entry.summary_text(11), "The galaxy…");
    let summary = entry.to_summary();
    assert_eq!(summary.title, entry.title);
}

#[test]
fn provenance_names_and_sides() {
    assert_eq!(Provenance::of(false, false), None);
    assert_eq!(Provenance::of(true, false), Some(Provenance::LegacyOnly));
    assert_eq!(Provenance::of(false, true), Some(Provenance::ModernOnly));
    assert_eq!(Provenance::of(true, true), Some(Provenance::Both));
    assert!(Provenance::Both.has_legacy() && Provenance::Both.has_modern());
    assert!(!Provenance::LegacyOnly.has_modern());
    for p in [Provenance::LegacyOnly, Provenance::ModernOnly, Provenance::Both] {
        assert_eq!(p.as_str().parse::<Provenance>(), Ok(p));
    }
    assert_eq!(Provenance::default(), Provenance::LegacyOnly);
}

#[test]
fn a_hit_only_in_the_credits_is_beyond_the_prose() {
    let hit = Matched { title: false, explanation: false, credit: true, keywords: false };
    assert!(hit.only_beyond_the_prose());
    let prose = Matched { title: true, ..hit };
    assert!(!prose.only_beyond_the_prose());
    assert!(!Matched::default().only_beyond_the_prose());
}
