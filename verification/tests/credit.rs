use lemon_apod::html::parse_document;
use lemon_apod::parse::credit::{attributes_anyone, is_all_role_words, parse, Credits};

const BASE: &str = "https://apod.nasa.gov/apod/ap240305.html";
const NO_TITLE: &str = "A Title On No Page Below";
const UNLABELLED_ROLE: &str = "Credit";

fn parse_body(body: &str) -> Option<Credits> {
    parse_titled(body, NO_TITLE)
}

fn parse_titled(body: &str, title: &str) -> Option<Credits> {
    parse(&parse_document(body), BASE, title)
}

fn roles(credits: &Credits) -> Vec<&str> {
    credits
        .segments
        .iter()
        .map(|segment| segment.role.as_str())
        .collect()
}

#[test]
fn reads_the_credit_and_notices_copyright() {
    let credits = parse_body(
        r#"<body><center><b>Title</b><br>
           <b>Image Credit &amp; Copyright:</b>
           <a href="http://example.com/">Jane Doe</a></center>
           <p><b>Explanation:</b> prose</p></body>"#,
    )
    .unwrap();

    assert_eq!(roles(&credits), ["Image Credit & Copyright"]);
    assert_eq!(credits.segments[0].text, "Jane Doe");
    assert_eq!(
        credits.segments[0].html,
        r#"<a href="http://example.com/">Jane Doe</a>"#
    );
    assert!(credits.has_copyright);
}

#[test]
fn a_plain_credit_is_not_copyrighted() {
    let credits =
        parse_body("<body><center><b>Image Credit:</b> NASA, ESA, Hubble</center></body>").unwrap();

    assert_eq!(credits.segments[0].text, "NASA, ESA, Hubble");
    assert!(!credits.has_copyright);
    assert_eq!(credits.license_url, None);
}

#[test]
fn handles_video_and_illustration_labels() {
    for label in ["Video Credit", "Illustration Credit", "Credits"] {
        let credits =
            parse_body(&format!("<body><center><b>{label}:</b> Someone</center></body>")).unwrap();
        assert_eq!(credits.segments[0].text, "Someone");
    }
}

#[test]
fn returns_none_when_there_is_no_credit() {
    assert!(parse_body("<body><p>nothing here</p></body>").is_none());
}

#[test]
fn a_label_split_across_a_link_still_reads() {
    let credits = parse_body(
        r#"<body><center><b>Buck Moon</b> <br>
           <b>Image Credit &amp;
           <a href="lib/about_apod.html#srapply">Copyright</a>:</b>
           <a href="https://www.instagram.com/bnastro000/">Branko Nadj</a>
           </center> <p> <b> Explanation: </b> prose</body>"#,
    )
    .unwrap();

    assert_eq!(roles(&credits), ["Image Credit & Copyright"]);
    assert_eq!(credits.segments[0].text, "Branko Nadj");
    assert!(credits.has_copyright);
}

#[test]
fn splits_a_block_into_one_segment_per_role() {
    let credits = parse_body(
        r#"<body><center><b>Corona Australis</b> <br>
           <b>Image Credit:</b> DES/DOE/FNAL/DECam/CTIO/NOIRLab/NSF/AURA
           <br><b>Image Processing:</b> T.A. Rector (UAA/NOIRLab), R. Colombari
           <br><b>Text:</b> <a href="https://kerockcliffe.com/">Keighley Rockcliffe</a>
           </center> <p> <b> Explanation: </b> prose</body>"#,
    )
    .unwrap();

    assert_eq!(roles(&credits), ["Image Credit", "Image Processing", "Text"]);
    assert_eq!(
        credits.segments[0].text,
        "DES/DOE/FNAL/DECam/CTIO/NOIRLab/NSF/AURA"
    );
    assert_eq!(
        credits.segments[1].text,
        "T.A. Rector (UAA/NOIRLab), R. Colombari"
    );
    assert_eq!(credits.segments[2].text, "Keighley Rockcliffe");
}

#[test]
fn a_semicolon_chained_role_splits_too() {
    let credits = parse_body(
        r#"<body><center><b>Image Credit:</b> NASA/JPL-Caltech/MSSS;
           Processing &amp;
           <a href="https://creativecommons.org/licenses/by/4.0/">License</a>:
           <a href="https://www.flickr.com/people/195227719@N04/">Thomas Thomopoulos</a>
           </center></body>"#,
    )
    .unwrap();

    assert_eq!(roles(&credits), ["Image Credit", "Processing & License"]);
    assert_eq!(credits.segments[0].text, "NASA/JPL-Caltech/MSSS");
    assert_eq!(credits.segments[1].text, "Thomas Thomopoulos");
    assert_eq!(
        credits.license_url.as_deref(),
        Some("https://creativecommons.org/licenses/by/4.0/")
    );
    assert!(!credits.has_copyright);
}

#[test]
fn stops_before_the_page_footer() {
    let credits = parse_body(
        "<body><center><b>Image Credit:</b> NASA
         <p><b>Authors &amp; editors:</b> Robert Nemiroff</center></body>",
    )
    .unwrap();

    assert_eq!(roles(&credits), ["Image Credit"]);
    assert_eq!(credits.segments[0].text, "NASA");
}

#[test]
fn a_title_that_contains_a_colon_is_not_mistaken_for_a_label() {
    let credits = parse_body(
        "<body><center><b>Simulation TNG50: A Galaxy Cluster Forms</b> <br>
         <b>Video Credit:</b> IllustrisTNG Project</center></body>",
    )
    .unwrap();

    assert_eq!(roles(&credits), ["Video Credit"]);
    assert_eq!(credits.segments[0].text, "IllustrisTNG Project");
}

#[test]
fn a_role_set_in_italics_ends_at_its_dash() {
    let credits = parse_titled(
        r#"<body><center><b>Young Star Cluster NGC 346</b> <br>
           <i>Science</i> - <a href="https://www.nasa.gov">NASA</a>, ESA, CSA
           <br><i>Processing</i> - Alyssa Pagan (STScI)
           </center> <p> <b>Explanation:</b> prose</body>"#,
        "Young Star Cluster NGC 346",
    )
    .unwrap();

    assert_eq!(roles(&credits), ["Science", "Processing"]);
    assert_eq!(credits.segments[0].text, "NASA, ESA, CSA");
    assert_eq!(credits.segments[1].text, "Alyssa Pagan (STScI)");
}

#[test]
fn a_label_that_never_got_its_colon_still_reads() {
    let credits = parse_titled(
        r#"<body><center><b>Herschel Crater on Mimas</b> <br>
           <b>Image Credit</b>
           <a href="http://ciclops.org/">Cassini Imaging Team</a>, JPL, ESA, NASA
           </center> <p> <b>Explanation:</b> prose</body>"#,
        "Herschel Crater on Mimas",
    )
    .unwrap();

    assert_eq!(roles(&credits), ["Image Credit"]);
    assert_eq!(
        credits.segments[0].text,
        "Cassini Imaging Team, JPL, ESA, NASA"
    );
    assert!(credits.segments[0]
        .html
        .contains(r#"<a href="http://ciclops.org/">"#));
}

#[test]
fn an_attribution_with_no_label_at_all_is_still_an_attribution() {
    let credits = parse_titled(
        r#"<body><center><b>Saturn at Night</b> <br>
           <a href="https://www.nasa.gov/">NASA</a>, JPL-Caltech,
           <a href="https://www.spacescience.org/">Space Science Institute</a>
           </center> <p> <b>Explanation:</b> prose</body>"#,
        "Saturn at Night",
    )
    .unwrap();

    assert_eq!(roles(&credits), [UNLABELLED_ROLE]);
    assert_eq!(
        credits.segments[0].text,
        "NASA, JPL-Caltech, Space Science Institute"
    );
    assert!(!credits.has_copyright);
}

#[test]
fn prose_under_the_title_is_not_mistaken_for_an_attribution() {
    let prose = "This kilometer high cliff occurs on the surface of a comet. ".repeat(10);
    assert!(parse_titled(
        &format!("<body><center><b>A Cliff</b> <br> {prose}</center></body>"),
        "A Cliff",
    )
    .is_none());
}

#[test]
fn a_label_spelling_out_its_licence_keeps_only_the_roles() {
    let credits = parse_titled(
        r#"<body><center><b>A Kilometer High Cliff</b> <br>
           <b>Image Credit &amp;
           <a href="https://creativecommons.org/licenses/by-sa/3.0/igo/">Licence
           (CC BY-SA 3.0 IGO)</a>: </b>
           <a href="http://www.esa.int/">ESA</a>, Rosetta spacecraft, NAVCAM;
           <b>Additional Processing:</b> Stuart Atkinson
           </center> <p> <b>Explanation:</b> prose</body>"#,
        "A Kilometer High Cliff",
    )
    .unwrap();

    assert_eq!(
        roles(&credits),
        ["Image Credit & Licence", "Additional Processing"]
    );
    assert_eq!(credits.segments[0].text, "ESA, Rosetta spacecraft, NAVCAM");
    assert_eq!(credits.segments[1].text, "Stuart Atkinson");
    assert_eq!(
        credits.license_url.as_deref(),
        Some("https://creativecommons.org/licenses/by-sa/3.0/igo/")
    );
}

#[test]
fn a_header_label_keeps_its_copyright_when_sub_roles_take_every_name() {
    let credits = parse_body(
        r#"<body><center><b>NGC 1365</b> <br>
           <b>Image Credit &amp;
           <a href="lib/about_apod.html#srapply">Copyright</a>: </b>
           <i>Processing</i> - <a href="https://millenniumphoton.com/">J.-B. Auroux</a>,
           <i>Data</i> - <a href="https://throughlightandtime.com/">Mike Selby</a>
           </center> <p> <b>Explanation:</b> prose</body>"#,
    )
    .unwrap();

    assert_eq!(roles(&credits), ["Processing", "Data"]);
    assert!(
        credits.has_copyright,
        "the header claims the copyright even though it credits nobody directly"
    );
}

#[test]
fn role_words_alone_are_told_from_a_name() {
    assert!(is_all_role_words("Image Credit and Copyright"));
    assert!(is_all_role_words("video"));
    assert!(!is_all_role_words("Image Credit: Jane Doe"));
    assert!(!is_all_role_words("and"));
    assert!(!is_all_role_words(""));
}

#[test]
fn a_page_with_a_credit_label_anywhere_attributes_someone() {
    assert!(attributes_anyone(&parse_document(
        "<body><p>Picture</p><p><b>Image Credit:</b> NASA</p></body>"
    )));
    assert!(!attributes_anyone(&parse_document(
        "<body><p><b>Processing:</b> Someone</p></body>"
    )));
}
