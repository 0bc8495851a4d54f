use lemon_apod::object::{in_text, named, named_from_hits, number, word_span, Basis, ByName, Catalog, Hit};

#[test]
fn a_title_outweighs_the_explanation_which_outweighs_the_keywords() {
    let title = Basis { in_title: true, in_keywords: false, in_explanation: false, explanation_hits: 0 };
    let explained = Basis { in_title: false, in_keywords: false, in_explanation: true, explanation_hits: 1 };
    let keyword = Basis { in_title: false, in_keywords: true, in_explanation: false, explanation_hits: 0 };
    assert_eq!(title.score(), 4);
    assert_eq!(explained.score(), 2);
    assert_eq!(keyword.score(), 1);
    assert_eq!(Basis::default().score(), 0);
}

#[test]
fn repeats_in_the_explanation_add_up_to_a_cap() {
    let hits = |n: u32| Basis { in_title: false, in_keywords: false, in_explanation: true, explanation_hits: n };
    assert_eq!(hits(2).score(), 3);
    assert_eq!(hits(4).score(), 5);
    assert_eq!(hits(40).score(), 5);
    let everywhere = Basis { in_title: true, in_keywords: true, in_explanation: true, explanation_hits: 9 };
    assert_eq!(everywhere.score(), 10);
}

#[test]
fn a_designation_is_ordered_by_its_first_number() {
    assert_eq!(number("M31"), 31);
    assert_eq!(number("NGC 0224"), 224);
    assert_eq!(number("SN 1987A"), 1987);
    assert_eq!(number("Sh2-155"), 2);
    assert_eq!(number("Moon"), 0);
    assert_eq!(number("X 99999999999"), 0);
}

#[test]
fn a_name_is_found_only_as_whole_words() {
    assert_eq!(word_span("Moonlight on the moon.", "moon", &[]), Some((17, 21)));
    assert_eq!(word_span("Honeymoon", "moon", &[]), None);
    assert_eq!(word_span("The Orion Nebula", "orion nebula", &[]), Some((4, 16)));
    assert_eq!(word_span("moon", "", &[]), None);
    assert_eq!(word_span("moon", "the moon", &[]), None);
}

#[test]
fn a_claimed_span_is_passed_over() {
    let text = "Moon, and the Moon again";
    assert_eq!(word_span(text, "moon", &[(0, 4)]), Some((14, 18)));
    assert_eq!(word_span(text, "moon", &[(0, 4), (14, 18)]), None);
}

#[test]
fn a_letter_beyond_ascii_counts_as_part_of_a_word() {
    assert_eq!(word_span("émoon moon", "moon", &[]), Some((7, 11)));
}

fn hit(id: &str, catalog: &str, name: &str, hits: u32) -> Hit {
    Hit { id: id.to_owned(), catalog: catalog.to_owned(), name: name.to_owned(), hits }
}

#[test]
fn an_object_named_in_several_places_is_listed_once_with_every_place() {
    let out = named_from_hits(
        &vec![hit("M31", "messier", "Andromeda", 1)],
        &vec![hit("M31", "messier", "m31", 1), hit("NGC 891", "ngc", "NGC 891", 1)],
        &vec![hit("M31", "messier", "M 31", 3), hit("Moon", "solar_system", "Moon", 1)],
    );
    let ids: Vec<&str> = out.iter().map(|n| n.id.as_str()).collect();
    assert_eq!(ids, vec!["M31", "Moon", "NGC 891"]);
    assert_eq!(out[0].name, "Andromeda", "the first words that named it are kept");
    assert_eq!(
        out[0].basis,
        Basis { in_title: true, in_keywords: true, in_explanation: true, explanation_hits: 3 }
    );
    assert_eq!(out[0].basis.score(), 9);
}

#[test]
fn ties_go_by_catalogue_then_by_number_then_by_designation() {
    let out = named_from_hits(
        &vec![],
        &vec![],
        &vec![
            hit("NGC 7000", "ngc", "NGC 7000", 1),
            hit("M31", "messier", "M31", 1),
            hit("M8", "messier", "M8", 1),
            hit("M8b", "messier", "M8b", 1),
        ],
    );
    let ids: Vec<&str> = out.iter().map(|n| n.id.as_str()).collect();
    assert_eq!(ids, vec!["M8", "M8b", "M31", "NGC 7000"]);
}

#[test]
fn an_entry_that_names_nothing_lists_nothing() {
    assert!(named_from_hits(&vec![], &vec![], &vec![]).is_empty());
}

use lemon_apod::date::ApodDate;
use lemon_apod::entry::{ApodEntry, Provenance};
use lemon_apod::media::{Media, MediaKind};

fn catalogs() -> Vec<Catalog> {
    let c = |prefix: &str, catalog: &str, format: &str, max: u32| Catalog {
        prefix: prefix.into(),
        catalog: catalog.into(),
        format: format.into(),
        max,
    };
    vec![
        c("m", "messier", "M{}", 110),
        c("ngc", "ngc", "NGC {}", 7840),
        c("sh2", "sharpless", "Sh2-{}", 313),
    ]
}

fn names() -> Vec<ByName> {
    let n = |phrase: &str, id: &str, catalog: &str| ByName {
        phrase: phrase.into(),
        id: id.into(),
        catalog: catalog.into(),
    };
    vec![n("moon", "Moon", "solar_system"), n("orion nebula", "M42", "messier")]
}

fn entry(title: &str, keywords: &[&str], text: &str) -> ApodEntry {
    ApodEntry {
        date: ApodDate::start(),
        title: title.into(),
        title_raw: None,
        explanation_html: text.into(),
        explanation_text: text.into(),
        credits: Vec::new(),
        has_copyright: false,
        license_url: None,
        tomorrow_teaser: None,
        keywords: keywords.iter().map(|k| k.to_string()).collect(),
        media: Media::new(MediaKind::ImageJpg, None, None),
        extra_media: Vec::new(),
        legacy_media_url: None,
        alt: None,
        authors: Vec::new(),
        provenance: Provenance::LegacyOnly,
        picture: None,
        source_url: String::new(),
    }
}

#[test]
fn every_way_a_designation_is_written_lands_on_one_object() {
    let hits = in_text("M 31, m31 and M-31 again", &catalogs(), &names());
    assert_eq!(hits.len(), 1);
    assert_eq!(hits[0].id, "M31");
    assert_eq!(hits[0].hits, 3);
    assert_eq!(hits[0].name, "M 31");
}

#[test]
fn a_number_outside_its_catalogue_or_zero_is_not_a_designation() {
    assert!(in_text("M111 and M0", &catalogs(), &names()).is_empty());
    assert_eq!(in_text("Sh 2-155", &catalogs(), &names())[0].id, "Sh2-155");
}

#[test]
fn supernovae_and_comets_are_read_in_their_own_shapes() {
    let hits = in_text("SN 1987a and C/2020 F3", &catalogs(), &names());
    let ids: Vec<&str> = hits.iter().map(|h| h.id.as_str()).collect();
    assert_eq!(ids, vec!["SN 1987A", "C/2020 F3"]);
}

#[test]
fn a_name_is_read_as_whole_words_and_not_inside_a_designation_read_already() {
    let hits = in_text("The Orion Nebula and the moon, not moons or honeymoon.", &catalogs(), &names());
    let ids: Vec<&str> = hits.iter().map(|h| h.id.as_str()).collect();
    assert_eq!(ids, vec!["M42", "Moon"]);
    assert_eq!(hits[0].name, "Orion Nebula");
}

#[test]
fn objects_come_out_in_an_order_a_person_would_have_put_them_in() {
    let found = named(&entry("M10, M9, M100 and NGC 1", &[], ""), &catalogs(), &names());
    let ids: Vec<&str> = found.iter().map(|n| n.id.as_str()).collect();
    assert_eq!(ids, vec!["M9", "M10", "M100", "NGC 1"]);
}

#[test]
fn what_an_entry_leads_with_outranks_what_it_mentions_in_passing() {
    let found = named(
        &entry("The Moon", &["ngc 7000"], "The moon passes M31 and M31 and M31."),
        &catalogs(),
        &names(),
    );
    let ids: Vec<&str> = found.iter().map(|n| n.id.as_str()).collect();
    assert_eq!(ids, vec!["Moon", "M31", "NGC 7000"]);
    assert!(found[0].basis.in_title && found[0].basis.in_explanation);
    assert_eq!(found[1].basis.explanation_hits, 3);
}
