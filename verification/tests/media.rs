use lemon_apod::media::{KindFilter, Media, MediaKind, Thumb, ThumbSource};

#[test]
fn every_kind_spells_itself_the_same_way_everywhere() {
    let kinds = [
        MediaKind::ImageJpg,
        MediaKind::ImagePng,
        MediaKind::ImageGif,
        MediaKind::VideoMp4,
        MediaKind::YouTube,
        MediaKind::Vimeo,
        MediaKind::Embed,
        MediaKind::Other,
        MediaKind::NoMedia,
    ];
    for kind in kinds {
        assert_eq!(MediaKind::from_name(kind.as_str()), Some(kind));
        assert_eq!(kind.as_str().parse::<MediaKind>(), Ok(kind));
    }
    assert_eq!(MediaKind::NoMedia.as_str(), "none");
    assert_eq!(MediaKind::YouTube.as_str(), "youtube");
    assert!("mystery".parse::<MediaKind>().is_err());
}

#[test]
fn classifies_by_extension_and_host() {
    assert_eq!(MediaKind::from_url("a/b/c.JPG"), MediaKind::ImageJpg);
    assert_eq!(MediaKind::from_url("x.png?v=2"), MediaKind::ImagePng);
    assert_eq!(MediaKind::from_url("clip.mp4"), MediaKind::VideoMp4);
    assert_eq!(MediaKind::from_url("https://www.youtube.com/embed/abc123"), MediaKind::YouTube);
    assert_eq!(MediaKind::from_url("https://player.vimeo.com/video/98765"), MediaKind::Vimeo);
    assert_eq!(MediaKind::from_url("https://example.com/thing"), MediaKind::Other);
}

#[test]
fn an_embedded_url_is_never_merely_unknown() {
    assert_eq!(MediaKind::from_embed_url("https://stefanom.org/spc/game.php"), MediaKind::Embed);
    assert_eq!(
        MediaKind::from_embed_url("https://www.youtube.com/embed/abc123"),
        MediaKind::YouTube,
        "an embed the parser does recognise keeps its own kind"
    );
    assert!(!MediaKind::Embed.is_image() && !MediaKind::Embed.is_video());
}

#[test]
fn extracts_provider_video_ids() {
    let yt = Media::new(
        MediaKind::YouTube,
        Some("https://www.youtube.com/embed/dQw4w9WgXcQ?rel=0".into()),
        None,
    );
    assert_eq!(yt.video_id().as_deref(), Some("dQw4w9WgXcQ"));
    assert_eq!(yt.thumb_source(), ThumbSource::YouTube("dQw4w9WgXcQ".into()));

    let vimeo = Media::new(
        MediaKind::Vimeo,
        Some("https://player.vimeo.com/video/12345678".into()),
        None,
    );
    assert_eq!(vimeo.video_id().as_deref(), Some("12345678"));
}

#[test]
fn a_flash_era_embed_keeps_its_parameters_out_of_the_id() {
    for url in [
        "https://www.youtube.com/v/zlfKdbWwruY&hl=en_US&fs=1?rel=0&hd=1",
        "https://www.youtube.com/v/zlfKdbWwruY&hl=en_US&fs=1&",
        "https://www.youtube.com/v/zlfKdbWwruY?fs=1&hl=en_US",
        "https://www.youtube.com/v/zlfKdbWwruY",
    ] {
        let media = Media::new(MediaKind::YouTube, Some(url.into()), None);
        assert_eq!(media.video_id().as_deref(), Some("zlfKdbWwruY"), "from {url}");
    }

    let vimeo = Media::new(
        MediaKind::Vimeo,
        Some("https://www.vimeo.com/moogaloop.swf?clip_id=1250929&server=www.vimeo.com".into()),
        None,
    );
    assert_eq!(vimeo.video_id().as_deref(), Some("1250929"));
}

#[test]
fn a_self_hosted_video_is_thumbnailed_from_its_own_frames() {
    let media = Media::new(
        MediaKind::VideoMp4,
        Some("https://apod.nasa.gov/apod/image/2607/clip.mp4".into()),
        None,
    );
    assert_eq!(
        media.thumb_source(),
        ThumbSource::Frame("https://apod.nasa.gov/apod/image/2607/clip.mp4".into())
    );
}

#[test]
fn a_kind_filter_expands_the_groups_the_ui_actually_offers() {
    let video: KindFilter = "video".parse().unwrap();
    assert_eq!(video.kinds(), KindFilter::video().as_slice());
    assert!(video.kinds().contains(&MediaKind::YouTube));

    let images: KindFilter = "image".parse().unwrap();
    assert_eq!(images.kinds(), KindFilter::image().as_slice());
}

#[test]
fn a_kind_filter_also_takes_single_kinds_and_lists() {
    assert_eq!("youtube".parse::<KindFilter>().unwrap().kinds(), [MediaKind::YouTube]);
    assert_eq!(
        "youtube,vimeo".parse::<KindFilter>().unwrap().kinds(),
        [MediaKind::YouTube, MediaKind::Vimeo]
    );
    assert_eq!(
        "video,youtube".parse::<KindFilter>().unwrap().kinds(),
        KindFilter::video().as_slice(),
        "a kind already covered by a group should not be repeated"
    );

    assert!("mystery".parse::<KindFilter>().is_err());
    assert!("".parse::<KindFilter>().is_err());
    assert!(",,".parse::<KindFilter>().is_err());
}

#[test]
fn a_kind_filter_writes_itself_back_as_a_list() {
    let filter = KindFilter::parse(" images , embed ").unwrap();
    assert_eq!(filter.to_text(), "image_jpg,image_png,image_gif,embed");
    assert_eq!(KindFilter::single(MediaKind::Vimeo).to_text(), "vimeo");
    assert_eq!(KindFilter::new(vec![MediaKind::Other, MediaKind::Other]).unwrap().kinds(), [MediaKind::Other]);
    assert!(KindFilter::new(Vec::new()).is_none());
}

#[test]
fn a_thumbnail_carries_its_size_when_one_was_recorded() {
    let mut media = Media::new(MediaKind::ImageJpg, None, None);

    media.set_thumb(Some(Thumb::sized("2024/03/x.webp".into(), 480, 320)), Some("/t/"));
    assert_eq!(media.thumb_url.as_deref(), Some("/t/2024/03/x.webp"));
    assert_eq!((media.thumb_width, media.thumb_height), (Some(480), Some(320)));

    media.set_thumb(Some(Thumb::new("2024/03/x.webp".into())), Some("/t/"));
    assert_eq!(
        (media.thumb_width, media.thumb_height),
        (None, None),
        "an unmeasured thumbnail must not keep the previous one's size"
    );

    media.set_thumb(None, Some("/t/"));
    assert_eq!(media.thumb_path, None);
    assert_eq!(media.thumb_url, None);
}

#[test]
fn thumbnails_come_from_the_display_image_not_the_hd_one() {
    let media = Media::new(
        MediaKind::ImageJpg,
        Some("https://apod.nasa.gov/apod/image/2503/small.jpg".into()),
        Some("https://apod.nasa.gov/apod/image/2503/huge.jpg".into()),
    );
    assert_eq!(
        media.thumb_source(),
        ThumbSource::Direct("https://apod.nasa.gov/apod/image/2503/small.jpg".into())
    );
    assert_eq!(media.best_url(), Some("https://apod.nasa.gov/apod/image/2503/huge.jpg"));
    assert!(!media.is_empty());
    assert!(Media::new(MediaKind::NoMedia, None, None).is_empty());
}

#[test]
fn a_picture_known_only_by_its_hd_version_is_thumbnailed_from_that() {
    let media = Media::new(MediaKind::ImagePng, None, Some("big.png".into()));
    assert_eq!(media.thumb_source(), ThumbSource::Direct("big.png".into()));
    let nothing = Media::new(MediaKind::Embed, Some("https://x/".into()), None);
    assert_eq!(nothing.thumb_source(), ThumbSource::NoSource);
}
