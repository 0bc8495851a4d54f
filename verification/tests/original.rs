use lemon_apod::date::ApodDate;
use lemon_apod::entry::{ApodEntry, Credit, Provenance};
use lemon_apod::media::{Media, MediaKind};
use lemon_apod::original::{escape_attr, legacy_entry, splice, Original, APOD_HOME};

const PAGE: &str = r##"<!doctype html>
<html>
<head>
<title> APOD: 2025 January 31 - The Variable Nebula NGC 2261
</title>
<script id="_fed_an_ua_tag" src="//dap.digitalgov.gov/x.js">
</script>
</head>
<body BGCOLOR="#F4F4FF" text="#000000">
<center>
<h1> Astronomy Picture of the Day </h1>
<a href="archivepix.html">Discover the cosmos!</a>
<a href="image/2501/big.jpg">
<IMG SRC="image/2501/small.jpg"
alt="See Explanation." style="max-width:100%"></a>
</center>
<a href="https://apod.nasa.gov/apod/reflection_nebulae.html">reflection nebula</a>
<a href="ap250201.html">light-weekend</a>
<a href="/apod.rss">RSS</a>
<a href="http://asterisk.apod.com/discuss_apod.php?date=250131&amp;x=1">Discuss</a>
<a href="mailto:someone@example.com">mail</a>
<script src="//cdn.parsely.com/p.js" async="" defer=""></script>
</body>
</html>
"##;

fn entry() -> ApodEntry {
    let date: ApodDate = "2025-01-31".parse().unwrap();
    ApodEntry {
        date,
        title: "The Variable Nebula NGC 2261".into(),
        title_raw: None,
        explanation_html: "The interstellar <b>cloud</b>.".into(),
        explanation_text: "The interstellar cloud.".into(),
        credits: vec![Credit {
            role: "Image Credit & Copyright".into(),
            html: "<a href=\"https://example.com\">Tommy Lease</a>".into(),
            text: "Tommy Lease".into(),
        }],
        has_copyright: true,
        license_url: None,
        tomorrow_teaser: Some("light-weekend".into()),
        keywords: Vec::new(),
        media: Media::new(
            MediaKind::ImageJpg,
            Some("https://assets.science.nasa.gov/content/dam/small.jpg".into()),
            None,
        ),
        extra_media: Vec::new(),
        legacy_media_url: Some("https://apod.nasa.gov/apod/image/2501/small.jpg".into()),
        alt: None,
        authors: vec!["Jerry Bonnell".into()],
        provenance: Provenance::Both,
        source_url: "https://science.nasa.gov/image-article/apod/apod-x/".into(),
        picture: None,
    }
}

fn view(entry: &ApodEntry) -> Original<'_> {
    Original {
        entry,
        public_url: "https://apod.lemon.industries",
        fetched_at: Some(1_754_998_907),
    }
}

fn archived() -> String {
    let entry = entry();
    view(&entry).archived(PAGE.as_bytes())
}

#[test]
fn no_script_survives_the_rewrite() {
    let page = archived();
    assert!(!page.contains("<script"), "{page}");
    assert!(!page.contains("dap.digitalgov.gov"));
    assert!(!page.contains("cdn.parsely.com"));
}

#[test]
fn every_relative_url_resolves_against_the_legacy_base() {
    let page = archived();
    assert!(
        page.contains(r#"href="https://apod.nasa.gov/apod/archivepix.html""#),
        "{page}"
    );
    assert!(page.contains(r#"href="https://apod.nasa.gov/apod/image/2501/big.jpg""#));
    assert!(
        page.contains(r#"href="https://apod.nasa.gov/apod.rss""#),
        "a root-relative path hangs off the host, not the apod directory"
    );
}

#[test]
fn the_attribute_name_may_be_shouted() {
    let page = archived();
    assert!(
        !page.contains("IMG SRC=\"image/"),
        "the corpus writes IMG SRC in capitals and it still has to be rewritten: {page}"
    );
}

#[test]
fn the_entrys_own_picture_moves_to_the_host_that_survives() {
    let page = archived();
    assert!(
        page.contains(r#"SRC="https://assets.science.nasa.gov/content/dam/small.jpg""#),
        "{page}"
    );
    assert!(
        page.contains(
            r#"img[src="https://assets.science.nasa.gov/content/dam/small.jpg"]{max-width:min(100%,1024px)!important}"#
        ),
        "the origin file is the full-resolution master, and the page laid out for a display \
         copy, so it has to be capped back to about that size: {page}"
    );
    assert!(
        page.contains(r#"href="https://apod.nasa.gov/apod/image/2501/big.jpg""#),
        "only the displayed copy has a known origin URL; the linked one is left where it was"
    );
}

#[test]
fn a_page_whose_picture_was_not_substituted_caps_nothing() {
    let mut entry = entry();
    entry.legacy_media_url = None;

    let page = view(&entry).archived(PAGE.as_bytes());
    assert!(
        !page.contains("max-width:min(100%"),
        "a legacy image that is still the legacy image keeps whatever size it was: {page}"
    );
}

#[test]
fn another_day_of_the_archive_points_at_our_own_copy_of_it() {
    let page = archived();
    assert!(page.contains(r#"href="/2025-02-01/original""#), "{page}");
    assert!(
        page.contains(r#"href="https://apod.nasa.gov/apod/reflection_nebulae.html""#),
        "a library page is not an entry page"
    );
}

#[test]
fn a_truncated_filename_is_not_a_date() {
    assert!(legacy_entry("https://apod.nasa.gov/apod/ap07071.html").is_none());
    assert!(legacy_entry("https://apod.nasa.gov/apod/apnotadate.html").is_none());
    assert!(legacy_entry("https://apod.nasa.gov/apod/calendar/allyears.html").is_none());
    assert_eq!(
        legacy_entry("https://apod.nasa.gov/apod/ap070713.html").map(|d| d.to_iso()),
        Some("2007-07-13".to_owned())
    );
}

#[test]
fn somebody_elses_url_is_left_exactly_as_nasa_wrote_it() {
    let page = archived();
    assert!(
        page.contains(r#"href="http://asterisk.apod.com/discuss_apod.php?date=250131&amp;x=1""#),
        "an absolute URL is not ours to touch, entities included: {page}"
    );
    assert!(page.contains(r#"href="mailto:someone@example.com""#));
}

#[test]
fn the_frame_names_apod_and_says_when_the_copy_was_taken() {
    let page = archived();
    let body = page.split_once("<body").unwrap().1;
    assert!(
        body.contains("Astronomy Picture of the Day"),
        "the name has to be near the picture, not only in the head"
    );
    assert!(body.contains("Archived copy of"));
    assert!(body.contains("fetched 12 August 2025"), "{body}");
    assert!(body.contains(r#"href="/2025-01-31""#));
}

#[test]
fn the_head_says_what_this_is_and_keeps_it_out_of_the_index() {
    let page = archived();
    let head = page.split_once("</head>").unwrap().0;
    assert!(head.contains("<title>Archived: The Variable Nebula NGC 2261 (APOD 2025-01-31)"));
    assert!(
        !head.contains("<title> APOD: 2025 January 31"),
        "NASA's own title is replaced"
    );
    assert!(head.contains(r#"content="noindex, follow""#));
    assert!(head.contains(r#"<link rel="canonical" href="https://apod.lemon.industries/2025-01-31">"#));
    assert!(head.contains(r#"content="https://assets.science.nasa.gov/content/dam/small.jpg""#));
}

#[test]
fn the_oldest_pages_carry_no_body_tag_and_still_get_the_frame_above_the_page() {
    let entry = entry();
    let bare = b"<title> APOD: June 16, 1995 </title>\n<h1> Astronomy Picture of the Day </h1>";
    let page = view(&entry).archived(bare);

    let frame = page.find("apod-frame").expect("the frame is there");
    let content = page.find("<h1>").expect("the page is there");
    assert!(
        frame < content,
        "a banner below the page it labels is the one place it cannot be: {page}"
    );
    assert!(page.contains("og:title"));
}

#[test]
fn a_reconstruction_cannot_be_mistaken_for_an_archived_page() {
    let entry = entry();
    let page = view(&entry).reconstructed();

    assert!(
        page.contains("This is a reconstruction, not an archived page."),
        "{page}"
    );
    assert!(page.contains("Nothing above was archived"));
    assert!(page.contains("<title>Reconstruction: The Variable Nebula NGC 2261"));
    assert!(page.contains("Astronomy Picture of the Day"));
    assert!(page.contains("The interstellar <b>cloud</b>."));
    assert!(page.contains("<b>Image Credit &amp; Copyright:</b>"));
    assert!(page.contains("Tomorrow's picture:"));
}

#[test]
fn a_reconstruction_states_the_credit_the_record_carries_and_the_service_line() {
    let entry = entry();
    let page = view(&entry).reconstructed();
    assert!(page.contains("<b>Authors &amp; editors:</b> Jerry Bonnell"));
    assert!(page.contains("NASA Science Activation &amp; Michigan Tech. U."));

    let mut anonymous = entry;
    anonymous.authors.clear();
    let page = view(&anonymous).reconstructed();
    assert!(
        page.contains("Jerry Bonnell, Cecilia Chirenti, Robert Nemiroff, Keighley Rockcliffe"),
        "a record with no authors falls back to the credit APOD carries today: {page}"
    );
}

#[test]
fn an_entry_nasa_never_carried_across_links_apods_home_rather_than_a_page_that_is_not_there() {
    let mut entry = entry();
    entry.provenance = Provenance::LegacyOnly;
    entry.source_url = entry.date.source_url();

    let page = view(&entry).archived(PAGE.as_bytes());
    let frame = page.split_once("apod-frame-links").unwrap().1;
    assert!(frame.contains(APOD_HOME), "{frame}");
}

#[test]
fn a_video_shows_its_thumbnail_and_says_where_it_plays() {
    let mut entry = entry();
    entry.media = Media::new(
        MediaKind::YouTube,
        Some("https://www.youtube.com/embed/abc".into()),
        None,
    );
    entry.media.thumb_url = Some("/thumbs/2025/01/2025-01-31.webp".into());

    let page = view(&entry).reconstructed();
    assert!(page.contains(r#"<img src="/thumbs/2025/01/2025-01-31.webp""#), "{page}");
    assert!(page.contains("This entry is a video. It plays on the platform hosting it."));
    assert!(
        page.contains(r#"content="https://apod.lemon.industries/thumbs/2025/01/2025-01-31.webp""#),
        "a share card shows the thumbnail of what does not render inline"
    );
}

#[test]
fn an_entity_already_in_a_url_is_not_escaped_twice() {
    assert_eq!(escape_attr("a?b=1&amp;c=2&d"), "a?b=1&amp;c=2&amp;d");
    assert_eq!(escape_attr("x&#39;y\"z"), "x&#39;y&quot;z");
    assert_eq!(escape_attr("&toolongname;"), "&amp;toolongname;");
}

#[test]
fn splicing_replaces_a_range() {
    assert_eq!(splice("abcdef", 2, 4, "XY"), "abXYef");
    assert_eq!(splice("abc", 1, 1, "-"), "a-bc");
}
