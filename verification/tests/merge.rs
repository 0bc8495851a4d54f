use lemon_apod::date::ApodDate;
use lemon_apod::entry::{ApodEntry, Credit, Provenance};
use lemon_apod::media::{Media, MediaKind};
use lemon_apod::merge::{merge, Divergence, Merged};

fn legacy() -> ApodEntry {
    ApodEntry {
        date: ApodDate::start(),
        title: "Rubin's COSMOS field".into(),
        title_raw: Some("APOD: 2026 August 7 - Rubin's COSMOS field".into()),
        explanation_html: "The <b>survey</b> looked deep.".into(),
        explanation_text: "The survey looked deep.".into(),
        credits: vec![Credit {
            role: "Image Credit & Copyright".into(),
            html: "Jane Doe".into(),
            text: "Jane Doe".into(),
        }],
        has_copyright: true,
        license_url: None,
        tomorrow_teaser: Some("lion head space".into()),
        keywords: vec!["rubin".into()],
        media: Media::new(
            MediaKind::ImageJpg,
            Some("https://apod.nasa.gov/apod/image/2608/noirlab_1024.jpg".into()),
            Some("https://apod.nasa.gov/apod/image/2608/noirlab.jpg".into()),
        ),
        extra_media: Vec::new(),
        legacy_media_url: None,
        alt: None,
        authors: Vec::new(),
        provenance: Provenance::LegacyOnly,
        picture: None,
        source_url: ApodDate::start().source_url(),
    }
}

fn modern() -> ApodEntry {
    ApodEntry {
        title: "Rubin\u{2019}s Cosmos Field".into(),
        title_raw: None,
        media: Media::new(
            MediaKind::ImageJpg,
            Some("https://assets.science.nasa.gov/content/dam/noirlab.jpg".into()),
            Some("https://assets.science.nasa.gov/content/dam/noirlab.jpg".into()),
        ),
        alt: Some("A deep field of faint galaxies.".into()),
        authors: vec!["Robert Nemiroff".into(), "Jerry Bonnell".into()],
        keywords: Vec::new(),
        tomorrow_teaser: None,
        source_url: "https://science.nasa.gov/image-article/apod-2026-august-7/".into(),
        provenance: Provenance::ModernOnly,
        ..legacy()
    }
}

fn fields(divergences: &[Divergence]) -> Vec<&str> {
    divergences.iter().map(|d| d.field).collect()
}

#[test]
fn two_absent_sides_are_not_an_entry() {
    assert!(merge(None, None).is_none());
}

#[test]
fn one_side_is_the_entry_and_disagrees_with_nobody() {
    let Merged { entry, divergences } = merge(Some(legacy()), None).unwrap();
    assert_eq!(entry.provenance, Provenance::LegacyOnly);
    assert_eq!(entry.title, "Rubin's COSMOS field");
    assert!(divergences.is_empty());

    let Merged { entry, divergences } = merge(None, Some(modern())).unwrap();
    assert_eq!(entry.provenance, Provenance::ModernOnly);
    assert_eq!(entry.title, "Rubin\u{2019}s Cosmos Field");
    assert!(divergences.is_empty(), "a single source cannot disagree with anything");
}

#[test]
fn legacy_wins_every_content_field() {
    let Merged { entry, .. } = merge(Some(legacy()), Some(modern())).unwrap();
    assert_eq!(entry.title, "Rubin's COSMOS field");
    assert_eq!(entry.explanation_text, "The survey looked deep.");
    assert_eq!(entry.tomorrow_teaser.as_deref(), Some("lion head space"));
    assert_eq!(entry.keywords, ["rubin"]);
    assert_eq!(entry.provenance, Provenance::Both);
}

#[test]
fn the_official_page_link_moves_to_the_host_that_survives() {
    let Merged { entry, divergences } = merge(Some(legacy()), Some(modern())).unwrap();
    assert_eq!(entry.source_url, "https://science.nasa.gov/image-article/apod-2026-august-7/");
    assert!(!fields(&divergences).contains(&"source_url"));

    let mut blank = modern();
    blank.source_url = String::new();
    let Merged { entry, .. } = merge(Some(legacy()), Some(blank)).unwrap();
    assert_eq!(entry.source_url, ApodDate::start().source_url());
}

#[test]
fn media_comes_from_the_source_that_survives_and_the_old_url_is_kept() {
    let Merged { entry, divergences } = merge(Some(legacy()), Some(modern())).unwrap();
    assert_eq!(
        entry.media.url.as_deref(),
        Some("https://assets.science.nasa.gov/content/dam/noirlab.jpg")
    );
    assert_eq!(
        entry.legacy_media_url.as_deref(),
        Some("https://apod.nasa.gov/apod/image/2608/noirlab_1024.jpg")
    );
    assert!(fields(&divergences).contains(&"media_url"));
}

#[test]
fn a_modern_record_with_no_media_never_blanks_the_entry() {
    let mut empty = modern();
    empty.media = Media::new(MediaKind::NoMedia, None, None);
    empty.credits.clear();
    empty.explanation_text.clear();
    empty.explanation_html.clear();

    let Merged { entry, divergences } = merge(Some(legacy()), Some(empty)).unwrap();
    assert_eq!(
        entry.media.url.as_deref(),
        Some("https://apod.nasa.gov/apod/image/2608/noirlab_1024.jpg")
    );
    assert_eq!(entry.legacy_media_url, None);
    assert_eq!(fields(&divergences), ["title"]);
}

#[test]
fn alt_text_and_authors_come_from_the_only_source_that_has_them() {
    let Merged { entry, divergences } = merge(Some(legacy()), Some(modern())).unwrap();
    assert_eq!(entry.alt.as_deref(), Some("A deep field of faint galaxies."));
    assert_eq!(entry.authors, ["Robert Nemiroff", "Jerry Bonnell"]);
    assert!(!fields(&divergences).contains(&"alt"));
}

#[test]
fn a_re_cased_title_is_a_divergence_and_keeps_both_spellings() {
    let Merged { divergences, .. } = merge(Some(legacy()), Some(modern())).unwrap();
    let title = divergences.iter().find(|d| d.field == "title").unwrap();
    assert_eq!(title.legacy, "Rubin's COSMOS field");
    assert_eq!(title.modern, "Rubin\u{2019}s Cosmos Field");
}

#[test]
fn every_way_the_migration_mangles_an_apostrophe_folds_to_the_same_title() {
    for mangled in [
        "Kemble\u{2019}s Cascade",
        "Kembles Cascade",
        "Kemble s Cascade",
        "Kemble's Cascade",
    ] {
        let mut left = legacy();
        left.title = "Kemble's Cascade".into();
        let mut right = modern();
        right.title = mangled.into();
        let Merged { divergences, .. } = merge(Some(left), Some(right)).unwrap();
        assert!(!fields(&divergences).contains(&"title"), "{mangled}");
    }
}

#[test]
fn a_separator_normalised_to_an_en_dash_is_not_a_divergence() {
    let mut left = legacy();
    left.title = "M102: Edge-on Disk".into();
    let mut right = modern();
    right.title = "M102: Edge\u{2013}on Disk".into();
    let Merged { divergences, .. } = merge(Some(left), Some(right)).unwrap();
    assert!(!fields(&divergences).contains(&"title"));
}

#[test]
fn punctuation_dropped_from_a_name_is_a_divergence() {
    let mut left = legacy();
    left.title = "Comet Tsuchinshan-ATLAS Approaches".into();
    let mut right = modern();
    right.title = "Comet Tsuchinshan ATLAS Approaches".into();
    let Merged { divergences, .. } = merge(Some(left), Some(right)).unwrap();
    assert!(fields(&divergences).contains(&"title"));
}

#[test]
fn a_copyright_claim_the_modern_table_lost_is_recorded() {
    let mut right = modern();
    right.has_copyright = false;
    right.credits = vec![Credit { role: "Credit".into(), html: "Jane Doe".into(), text: "Jane Doe".into() }];
    let Merged { entry, divergences } = merge(Some(legacy()), Some(right)).unwrap();
    assert!(entry.has_copyright);
    let claim = divergences.iter().find(|d| d.field == "has_copyright").unwrap();
    assert_eq!((claim.legacy.as_str(), claim.modern.as_str()), ("true", "false"));
}

#[test]
fn a_video_embed_that_lost_its_start_offset_is_recorded() {
    let mut left = legacy();
    left.media = Media::new(
        MediaKind::YouTube,
        Some("https://www.youtube.com/embed/UgxWkOXcdZU?si=GOlnR&t=23".into()),
        None,
    );
    let mut right = modern();
    right.media = Media::new(
        MediaKind::YouTube,
        Some("https://www.youtube.com/embed/UgxWkOXcdZU?feature=oembed".into()),
        None,
    );
    let Merged { entry, divergences } = merge(Some(left), Some(right)).unwrap();
    assert_eq!(
        entry.media.url.as_deref(),
        Some("https://www.youtube.com/embed/UgxWkOXcdZU?feature=oembed")
    );
    assert!(entry.legacy_media_url.as_deref().is_some_and(|url| url.contains("t=23")));
    assert!(fields(&divergences).contains(&"media_url"));
}

#[test]
fn keywords_the_modern_source_never_carried_are_not_a_disagreement() {
    let Merged { entry, divergences } = merge(Some(legacy()), Some(modern())).unwrap();
    assert_eq!(entry.keywords, ["rubin"]);
    assert!(!fields(&divergences).contains(&"keywords"));
    assert!(!fields(&divergences).contains(&"tomorrow_teaser"));
}

#[test]
fn a_media_kind_the_sources_disagree_on_is_recorded_by_name() {
    let mut right = modern();
    right.media.kind = MediaKind::ImagePng;
    let Merged { divergences, .. } = merge(Some(legacy()), Some(right)).unwrap();
    let kind = divergences.iter().find(|d| d.field == "media_kind").unwrap();
    assert_eq!((kind.legacy.as_str(), kind.modern.as_str()), ("image_jpg", "image_png"));
}

#[test]
fn an_entry_merged_with_itself_disagrees_about_nothing() {
    let Merged { divergences, .. } = merge(Some(legacy()), Some(legacy())).unwrap();
    assert!(divergences.is_empty());
    let merged = Merged::from_entry(legacy());
    assert!(merged.divergences.is_empty());
}
