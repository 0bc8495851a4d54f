use lemon_apod::html::parse_document;
use lemon_apod::media::MediaKind;
use lemon_apod::parse::media::parse;

const BASE: &str = "https://apod.nasa.gov/apod/ap240305.html";

#[test]
fn resolves_the_image_and_its_full_resolution_link() {
    let doc = parse_document(
        r#"<body><a href="image/2403/big.jpg"><img src="image/2403/small.jpg"></a></body>"#,
    );

    let (media, extra) = parse(&doc, BASE);
    assert_eq!(media.kind, MediaKind::ImageJpg);
    assert_eq!(
        media.url.as_deref(),
        Some("https://apod.nasa.gov/apod/image/2403/small.jpg")
    );
    assert_eq!(
        media.hd_url.as_deref(),
        Some("https://apod.nasa.gov/apod/image/2403/big.jpg")
    );
    assert!(extra.is_empty());
}

#[test]
fn gives_each_image_on_a_multi_image_page_its_own_hd_link() {
    let doc = parse_document(
        r#"<body>
           <a href="image/2403/one_big.jpg"><img src="image/2403/one.jpg"></a>
           <a href="image/2403/two_big.jpg"><img src="image/2403/two.jpg"></a>
           </body>"#,
    );

    let (media, extra) = parse(&doc, BASE);
    assert_eq!(
        media.hd_url.as_deref(),
        Some("https://apod.nasa.gov/apod/image/2403/one_big.jpg")
    );
    assert_eq!(extra.len(), 1);
    assert_eq!(
        extra[0].hd_url.as_deref(),
        Some("https://apod.nasa.gov/apod/image/2403/two_big.jpg")
    );
}

#[test]
fn an_hd_link_identical_to_the_image_is_dropped() {
    let doc = parse_document(
        r#"<body><a href="image/2608/spokes.gif"><img src="image/2608/spokes.gif"></a></body>"#,
    );

    let (media, _) = parse(&doc, BASE);
    assert_eq!(
        media.url.as_deref(),
        Some("https://apod.nasa.gov/apod/image/2608/spokes.gif")
    );
    assert_eq!(media.hd_url, None);
}

#[test]
fn later_images_do_not_inherit_the_first_images_hd_link() {
    let doc = parse_document(
        r#"<body>
           <a href="image/2403/one_big.jpg"><img src="image/2403/one.jpg"></a>
           <img src="image/2403/two.jpg">
           </body>"#,
    );

    let (_, extra) = parse(&doc, BASE);
    assert_eq!(extra.len(), 1);
    assert_eq!(extra[0].hd_url, None);
}

#[test]
fn picks_up_embedded_video() {
    let doc =
        parse_document(r#"<body><iframe src="https://www.youtube.com/embed/abc123?rel=0"></iframe></body>"#);

    let (media, _) = parse(&doc, BASE);
    assert_eq!(media.kind, MediaKind::YouTube);
    assert_eq!(media.video_id().as_deref(), Some("abc123"));
}

#[test]
fn picks_up_self_hosted_mp4() {
    let doc = parse_document(r#"<body><video><source src="image/2403/clip.mp4"></video></body>"#);

    let (media, _) = parse(&doc, BASE);
    assert_eq!(media.kind, MediaKind::VideoMp4);
    assert_eq!(
        media.url.as_deref(),
        Some("https://apod.nasa.gov/apod/image/2403/clip.mp4")
    );
}

#[test]
fn reads_a_flash_era_youtube_embed_as_the_video_it_plays() {
    let doc = parse_document(
        r#"<body><object width="900" height="536">
           <param name="movie" value="http://www.youtube.com/v/fKTu6B4Rgek?fs=1&amp;rel=0">
           <embed src="https://www.youtube.com/v/fKTu6B4Rgek?fs=1&amp;rel=0"
           type="application/x-shockwave-flash"></embed></object></body>"#,
    );

    let (media, extra) = parse(&doc, BASE);
    assert_eq!(media.kind, MediaKind::YouTube);
    assert_eq!(media.video_id().as_deref(), Some("fKTu6B4Rgek"));
    assert!(
        extra.is_empty(),
        "the <object> and its <embed> name one video, not two"
    );
}

#[test]
fn an_object_with_no_embed_still_names_what_it_plays() {
    let doc = parse_document(
        r#"<body><object width="900" height="536">
           <param name="movie" value="image/1203/scaleofuniverse_huang.swf?border=white">
           </object></body>"#,
    );

    let (media, _) = parse(&doc, BASE);
    assert_eq!(media.kind, MediaKind::Embed);
    assert_eq!(
        media.url.as_deref(),
        Some("https://apod.nasa.gov/apod/image/1203/scaleofuniverse_huang.swf?border=white")
    );
}

#[test]
fn a_flash_era_vimeo_embed_keeps_its_clip_id() {
    let doc = parse_document(
        r#"<body><embed src="https://www.vimeo.com/moogaloop.swf?clip_id=1250929&amp;color="
           type="application/x-shockwave-flash"></embed></body>"#,
    );

    let (media, _) = parse(&doc, BASE);
    assert_eq!(media.kind, MediaKind::Vimeo);
    assert_eq!(media.video_id().as_deref(), Some("1250929"));
}

#[test]
fn reports_none_when_a_page_has_no_media() {
    let doc = parse_document("<body><p>text only</p></body>");
    let (media, extra) = parse(&doc, BASE);
    assert_eq!(media.kind, MediaKind::NoMedia);
    assert!(media.is_empty());
    assert!(extra.is_empty());
}

#[test]
fn an_interactive_embed_is_an_embed_rather_than_an_unknown() {
    let doc = parse_document(r#"<body><iframe src="https://stefanom.org/spc/game.php"></iframe></body>"#);

    let (media, _) = parse(&doc, BASE);
    assert_eq!(media.kind, MediaKind::Embed);
    assert_eq!(media.url.as_deref(), Some("https://stefanom.org/spc/game.php"));
}

#[test]
fn a_quoted_tweet_stands_in_for_media_the_archive_never_kept() {
    let doc = parse_document(
        r#"<body><blockquote class="twitter-tweet"><p>Mechazilla has caught it!
           <a href="https://t.co/6R5YatSVJX">pic.twitter.com/6R5YatSVJX</a></p>
           <a href="https://twitter.com/SpaceX/status/1845442658397049011?ref_src=twsrc%5Etfw"
           >October 13, 2024</a></blockquote></body>"#,
    );

    let (media, extra) = parse(&doc, BASE);
    assert_eq!(media.kind, MediaKind::Embed);
    assert_eq!(
        media.url.as_deref(),
        Some("https://twitter.com/SpaceX/status/1845442658397049011")
    );
    assert!(extra.is_empty());
}

#[test]
fn a_real_image_outranks_a_quoted_tweet() {
    let doc = parse_document(
        r#"<body><blockquote class="twitter-tweet">
           <a href="https://twitter.com/SpaceX/status/1845442658397049011">a tweet</a>
           </blockquote><img src="image/2410/catch.jpg"></body>"#,
    );

    let (media, extra) = parse(&doc, BASE);
    assert_eq!(media.kind, MediaKind::ImageJpg);
    assert!(extra.is_empty(), "the tweet is a fallback, not extra media");
}
