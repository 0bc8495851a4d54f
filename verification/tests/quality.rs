use lemon_apod::date::ApodDate;
use lemon_apod::entry::{ApodEntry, Credit, Provenance};
use lemon_apod::media::{Media, MediaKind};
use lemon_apod::quality::{quality_control, QualityIssue, QualityWarning};

fn entry() -> ApodEntry {
    ApodEntry {
        date: ApodDate::start(),
        title: "A Fine Title".into(),
        title_raw: None,
        explanation_html: "Some prose that is comfortably long enough to look like a real \
                           APOD explanation."
            .into(),
        explanation_text: "Some prose that is comfortably long enough to look like a real \
                           APOD explanation."
            .into(),
        credits: vec![Credit {
            role: "Image Credit".into(),
            html: "Someone".into(),
            text: "Someone".into(),
        }],
        has_copyright: false,
        license_url: None,
        tomorrow_teaser: None,
        keywords: Vec::new(),
        media: Media::new(MediaKind::ImageJpg, Some("https://x/y.jpg".into()), None),
        extra_media: Vec::new(),
        legacy_media_url: None,
        alt: None,
        authors: Vec::new(),
        provenance: Provenance::LegacyOnly,
        source_url: ApodDate::start().source_url(),
        picture: None,
    }
}

fn warnings(entry: &ApodEntry) -> Vec<QualityWarning> {
    quality_control(entry, None)
        .into_iter()
        .map(|i| i.warning)
        .collect()
}

#[test]
fn a_clean_entry_has_no_warnings() {
    assert!(quality_control(&entry(), None).is_empty());
}

#[test]
fn a_page_that_credits_nobody_is_not_a_missing_credit() {
    let mut entry = entry();
    entry.credits.clear();

    assert!(
        warnings(&entry).contains(&QualityWarning::CreditMissing),
        "with no page to consult, an absent credit is still worth reporting"
    );
    assert!(
        quality_control(&entry, Some(true))
            .iter()
            .any(|issue| issue.warning == QualityWarning::CreditMissing),
        "the page attributes somebody, so the parser missed it"
    );
    assert!(
        !quality_control(&entry, Some(false))
            .iter()
            .any(|issue| issue.warning == QualityWarning::CreditMissing),
        "the page attributes nobody, so there is nothing to find"
    );
}

#[test]
fn flags_a_truncated_explanation() {
    let mut entry = entry();
    entry.explanation_text = "Too short.".into();
    assert!(warnings(&entry).contains(&QualityWarning::ExplanationSuspiciouslyShort));
}

#[test]
fn flags_a_title_that_is_only_the_next_days_teaser_label() {
    let mut entry = entry();
    entry.title = "Tomorrow's picture:".into();
    assert!(warnings(&entry).contains(&QualityWarning::TitleIsTeaserLabel));

    entry.title = "Tomorrow\u{2019}s Picture".into();
    assert!(warnings(&entry).contains(&QualityWarning::TitleIsTeaserLabel));

    entry.title = "Tomorrow at the Observatory".into();
    assert!(
        !warnings(&entry).contains(&QualityWarning::TitleIsTeaserLabel),
        "a title that merely starts with the word is still a title"
    );
}

#[test]
fn flags_surviving_markup_but_not_legitimate_angle_brackets() {
    let mut entry = entry();
    entry.title = "5 < 7 and 8 > 2".into();
    assert!(!warnings(&entry).contains(&QualityWarning::ContainsHtml));

    entry.title = "Broken <br> title".into();
    assert!(warnings(&entry).contains(&QualityWarning::ContainsHtml));
}

#[test]
fn flags_a_relative_link_that_escaped_absolutisation() {
    let mut entry = entry();
    entry.explanation_html = r#"See <a href="ap240304.html">this</a>."#.into();
    assert!(warnings(&entry).contains(&QualityWarning::NonAbsoluteLink));
}

#[test]
fn flags_missing_credit_and_media() {
    let mut entry = entry();
    entry.credits.clear();
    entry.media = Media::new(MediaKind::NoMedia, None, None);

    let found = warnings(&entry);
    assert!(found.contains(&QualityWarning::CreditMissing));
    assert!(found.contains(&QualityWarning::NoMedia));
}

#[test]
fn flags_a_role_that_swallowed_the_name_after_it() {
    let mut entry = entry();
    entry.credits[0].role = "Image Credit and Processing and Text and Music and More".into();
    assert!(warnings(&entry).contains(&QualityWarning::CreditRoleSuspicious));
}

#[test]
fn a_long_label_apod_really_writes_is_not_a_runaway() {
    for role in [
        "Image and Video Credit & Copyright",
        "Simulation Video & Text Credit",
        "Sound Image Credit & Copyright",
        "Digital Illustration Credit & Copyright",
    ] {
        let mut entry = entry();
        entry.credits[0].role = role.into();
        assert!(
            !warnings(&entry).contains(&QualityWarning::CreditRoleSuspicious),
            "{role} is a label APOD writes, not a parse that ran on"
        );
    }
}

#[test]
fn an_embed_is_a_classification_not_a_gap() {
    let mut entry = entry();
    entry.media = Media::new(MediaKind::Embed, Some("https://x/panorama".into()), None);

    let found = warnings(&entry);
    assert!(!found.contains(&QualityWarning::UnknownMediaKind));
    assert!(!found.contains(&QualityWarning::NoMedia));
}

#[test]
fn whitespace_problems_are_named_per_field() {
    let mut entry = entry();
    entry.title = " Two  spaces ".into();
    let issues = quality_control(&entry, None);
    let named: Vec<String> = issues.iter().map(QualityIssue::to_text).collect();
    assert_eq!(
        named,
        [
            "title: leading_whitespace",
            "title: trailing_whitespace",
            "title: multi_whitespace"
        ]
    );
}

#[test]
fn a_title_over_two_lines_is_flagged_but_a_trailing_break_is_not() {
    let mut entry = entry();
    entry.title = "One\nTwo".into();
    assert!(warnings(&entry).contains(&QualityWarning::TitleMultiline));
    entry.title = "One\n".into();
    assert!(!warnings(&entry).contains(&QualityWarning::TitleMultiline));
}

#[test]
fn an_empty_field_is_reported_once() {
    let mut entry = entry();
    entry.title = String::new();
    let found = warnings(&entry);
    assert_eq!(found, [QualityWarning::EmptyField]);
}
