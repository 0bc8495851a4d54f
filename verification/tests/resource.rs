use lemon_apod::date::ApodDate;
use lemon_apod::entry::{ApodEntry, Credit, Provenance};
use lemon_apod::media::{Media, MediaKind};
use lemon_apod::resource::{links, url};

fn entry(explanation: &str, credits: &[&str]) -> ApodEntry {
    ApodEntry {
        date: ApodDate::start(),
        title: "Title".into(),
        title_raw: None,
        explanation_html: explanation.into(),
        explanation_text: String::new(),
        credits: credits
            .iter()
            .map(|html| Credit {
                role: "Image Credit".into(),
                html: (*html).into(),
                text: String::new(),
            })
            .collect(),
        has_copyright: false,
        license_url: None,
        tomorrow_teaser: None,
        keywords: Vec::new(),
        media: Media::new(MediaKind::ImageJpg, None, None),
        extra_media: Vec::new(),
        legacy_media_url: None,
        alt: None,
        authors: Vec::new(),
        provenance: Provenance::LegacyOnly,
        source_url: ApodDate::start().source_url(),
        picture: None,
    }
}

fn keys(explanation: &str) -> Vec<String> {
    links(&entry(explanation, &[]))
        .into_iter()
        .map(|link| link.key)
        .collect()
}

#[test]
fn catalogues_an_outbound_link_with_its_text() {
    let found = links(&entry(
        r#"The <a href="https://en.wikipedia.org/wiki/Crab_Nebula">Crab Nebula</a> glows."#,
        &[],
    ));

    assert_eq!(found.len(), 1);
    assert_eq!(found[0].key, "en.wikipedia.org/wiki/Crab_Nebula");
    assert_eq!(found[0].url(), "https://en.wikipedia.org/wiki/Crab_Nebula");
    assert_eq!(found[0].host, "en.wikipedia.org");
    assert_eq!(found[0].anchor, "Crab Nebula");
    assert!(!found[0].in_credit);
}

#[test]
fn apods_own_pages_are_cross_references_not_resources() {
    assert!(keys(r#"<a href="https://apod.nasa.gov/apod/ap240304.html">yesterday</a>"#).is_empty());
    assert!(keys(r#"<a href="https://antwrp.gsfc.nasa.gov/apod/ap960101.html">old</a>"#).is_empty());
    assert!(keys(r#"<a href="https://apod.nasa.gov/apod/lib/about_apod.html">about</a>"#).is_empty());
    assert!(keys(r#"<a href="https://apod.nasa.gov/apod/archivepix.html">archive</a>"#).is_empty());
    assert!(keys(r#"<a href="https://apod.nasa.gov/">home</a>"#).is_empty());

    assert_eq!(
        keys(r#"<a href="https://apod.nasa.gov/apod/emission_nebulae.html">nebulae</a>"#),
        vec!["apod.nasa.gov/apod/emission_nebulae.html"],
        "APOD's subject index pages are real referenced pages"
    );
}

#[test]
fn a_picture_or_a_recording_is_media_not_a_resource() {
    for href in [
        "https://apod.nasa.gov/apod/image/2403/M31.jpg",
        "https://example.com/clip.MP4",
        "https://i.pinimg.com/originals/a/b/c.png",
    ] {
        assert!(
            keys(&format!(r#"<a href="{href}">x</a>"#)).is_empty(),
            "{href} should not be catalogued"
        );
    }

    assert_eq!(
        keys(r#"<a href="https://arxiv.org/pdf/2401.01234.pdf">the paper</a>"#).len(),
        1,
        "a paper is something to read, whatever its file extension"
    );
}

#[test]
fn the_same_resource_spelled_two_ways_is_one_resource() {
    let found = links(&entry(
        r#"<a href="http://www.nasa.gov/">NASA</a> and
           <a href="https://www.nasa.gov/#top">NASA again</a> and
           <a href="https://www.nasa.gov">NASA once more</a>"#,
        &[],
    ));

    assert_eq!(found.len(), 1, "scheme, fragment and trailing slash are noise");
    assert_eq!(found[0].count, 3);
    assert_eq!(found[0].key, "www.nasa.gov/");
    assert_eq!(
        found[0].url(),
        "https://www.nasa.gov/",
        "a link the catalogue hands out should be the one that still works"
    );
    assert_eq!(found[0].host, "nasa.gov", "the site groups without its www");
    assert_eq!(found[0].anchor, "NASA", "the first text APOD used names it");
}

#[test]
fn a_credited_link_is_marked_as_one() {
    let found = links(&entry(
        "no links here",
        &[r#"<a href="https://www.astrobin.com/users/jdoe/">Jane Doe</a>"#],
    ));
    assert_eq!(found.len(), 1);
    assert!(found[0].in_credit);
    assert_eq!(found[0].anchor, "Jane Doe");
}

#[test]
fn a_resource_linked_from_both_places_is_marked_as_credited() {
    let found = links(&entry(
        r#"see <a href="https://example.com/x">this</a>"#,
        &[r#"<a href="https://example.com/x">Jane Doe</a>"#],
    ));
    assert_eq!(found.len(), 1);
    assert_eq!(found[0].count, 2);
    assert!(found[0].in_credit);
}

#[test]
fn anchor_text_survives_the_markup_inside_it() {
    let found = links(&entry(
        r#"<a href="https://example.com/x">Jane <b>Q</b>  Doe &amp; Co</a>"#,
        &[],
    ));
    assert_eq!(found[0].anchor, "Jane Q Doe & Co");
}

#[test]
fn only_the_web_is_catalogued() {
    assert!(keys(r#"<a href="mailto:someone@example.com">write</a>"#).is_empty());
    assert!(keys(r#"<a href="ap240304.html">relative</a>"#).is_empty());
}

#[test]
fn a_port_stays_part_of_the_address() {
    assert_eq!(
        keys(r#"<a href="http://example.com:8080/page">x</a>"#),
        vec!["example.com:8080/page"]
    );
}

#[test]
fn a_query_string_distinguishes_two_pages() {
    let found = keys(r#"<a href="https://e.com/s?id=1">one</a> <a href="https://e.com/s?id=2">two</a>"#);
    assert_eq!(found, vec!["e.com/s?id=1", "e.com/s?id=2"]);
}

#[test]
fn a_resource_address_is_its_scheme_and_key() {
    assert_eq!(url("https", "example.com/x"), "https://example.com/x");
}

#[test]
fn every_resource_of_an_entry_is_listed_once() {
    let found = links(&entry(
        r#"<a href="https://a.org/">a</a> <a href="https://b.org/">b</a> <a href="http://a.org">a again</a>"#,
        &[r#"<a href="https://b.org">b</a>"#],
    ));
    let keys: Vec<&str> = found.iter().map(|l| l.key.as_str()).collect();
    assert_eq!(keys, ["a.org/", "b.org/"]);
    assert_eq!(found[0].count, 2);
    assert_eq!(found[1].count, 2);
    assert!(found[1].in_credit);
    assert!(!found[0].in_credit);
}
