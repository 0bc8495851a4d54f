use lemon_apod::contributor::{clean, identity, kind, mentions, CreditWords, Judged, Kind, Mention};
use lemon_apod::date::ApodDate;
use lemon_apod::entry::{ApodEntry, Credit, Provenance};
use lemon_apod::media::{Media, MediaKind};

fn strings(list: &[&str]) -> Vec<String> {
    list.iter().map(|s| (*s).to_owned()).collect()
}

fn words() -> CreditWords {
    CreditWords {
        group: strings(&[
            "observatory", "observatoire", "observatorio", "team", "telescope", "society",
            "laboratory", "group", "univ", "institute",
        ]),
        prefix: strings(&["u", "univ", "university"]),
        ignore: strings(&["by", "at", "et", "al", "jr", "x-ray", "optical", "the"]),
        strip: strings(&[
            "colour photography by", "image processed by", "photograph by", "stitched by",
            "courtesy of", "courtesy", "crew",
        ]),
    }
}

fn judged() -> Judged {
    let merges = [
        ("space telescope science institute", "stsci"),
        ("space telescope scientific institute", "stsci"),
        ("nas a", "nasa"),
        ("jpl caltech", "jpl"),
        ("st sci", "stsci"),
        ("nasa stsci", "stsci"),
        ("cxo", "cxc"),
        ("chandra", "cxc"),
        ("chandra x ray observatory", "cxc"),
        ("nasa cxc", "cxc"),
    ];
    Judged {
        merges: merges.iter().map(|(a, b)| ((*a).to_owned(), (*b).to_owned())).collect(),
        groups: strings(&["nasa", "esa", "eso", "stsci", "jpl", "cxc", "hst"]),
    }
}

fn id(name: &str) -> Option<String> {
    identity(name, &judged())
}

fn guess(name: &str) -> Kind {
    kind(&id(name).unwrap_or_default(), name, &words(), &judged())
}

fn cleaned(printed: &str) -> String {
    clean(printed, &words())
}

fn entry(credits: &[(&str, &str)]) -> ApodEntry {
    ApodEntry {
        date: ApodDate::start(),
        title: "Title".into(),
        title_raw: None,
        explanation_html: String::new(),
        explanation_text: String::new(),
        credits: credits
            .iter()
            .map(|(role, html)| Credit { role: (*role).to_owned(), html: (*html).to_owned(), text: String::new() })
            .collect(),
        has_copyright: false,
        license_url: None,
        tomorrow_teaser: None,
        keywords: Vec::new(),
        media: Media::new(MediaKind::ImageJpg, None, None),
        extra_media: Vec::new(),
        legacy_media_url: None,
        alt: None,
        authors: Vec::new(),
        provenance: Provenance::LegacyOnly,
        picture: None,
        source_url: String::new(),
    }
}

fn found(credits: &[(&str, &str)]) -> Vec<Mention> {
    mentions(&entry(credits), &words(), &judged())
}

fn ids(credits: &[(&str, &str)]) -> Vec<String> {
    found(credits).into_iter().map(|f| f.id).collect()
}

#[test]
fn a_linked_credit_keeps_the_name_the_role_and_the_link() {
    let found = found(&[(
        "Image Credit & Copyright",
        r#"<a href="https://www.instagram.com/paulofwild/">Paulo Ferreira</a>"#,
    )]);
    assert_eq!(found.len(), 1);
    assert_eq!(found[0].name, "Paulo Ferreira");
    assert_eq!(found[0].id, "paulo ferreira");
    assert_eq!(found[0].role, "Image Credit & Copyright");
    assert_eq!(found[0].url.as_deref(), Some("https://www.instagram.com/paulofwild/"));
    assert_eq!(found[0].kind, Kind::Person);
}

#[test]
fn a_credit_line_of_several_bodies_is_several_credits() {
    let ids = ids(&[(
        "Image Credit",
        r#"<a href="https://www.nasa.gov/">NASA</a>, <a href="https://esahubble.org/">ESA</a>, and the <a href="https://www.stsci.edu/">STScI</a>"#,
    )]);
    assert!(ids.contains(&"nasa".to_owned()), "{ids:?}");
    assert!(ids.contains(&"esa".to_owned()), "{ids:?}");
    assert!(ids.contains(&"stsci".to_owned()), "{ids:?}");
}

#[test]
fn people_named_without_a_link_are_still_credited() {
    let found = found(&[("Acknowledgment", "R. Chandar (U. Toledo) &amp; J. Miller (U. Michigan)")]);
    let ids: Vec<&str> = found.iter().map(|f| f.id.as_str()).collect();
    assert!(ids.contains(&"r chandar"), "{ids:?}");
    assert!(ids.contains(&"j miller"), "{ids:?}");
    assert!(found.iter().all(|found| found.url.is_none()));
    assert_eq!(found[0].name, "R. Chandar (U. Toledo)");
}

#[test]
fn one_party_named_twice_on_an_entry_is_one_credit() {
    let found = found(&[
        ("Image Credit", r#"<a href="https://www.nasa.gov/">NASA</a>"#),
        ("Processing", "NASA"),
    ]);
    assert_eq!(found.len(), 1, "{found:?}");
    assert_eq!(found[0].url.as_deref(), Some("https://www.nasa.gov/"));
}

#[test]
fn an_unlinked_sighting_first_takes_the_link_of_a_later_one() {
    let found = found(&[
        ("Processing", "NASA"),
        ("Image Credit", r#"<a href="https://www.nasa.gov/">NASA</a>"#),
    ]);
    assert_eq!(found.len(), 1, "{found:?}");
    assert_eq!(found[0].role, "Processing");
    assert_eq!(found[0].url.as_deref(), Some("https://www.nasa.gov/"));
}

#[test]
fn the_spellings_of_one_institute_land_on_one_identity() {
    for written in [
        "STScI",
        "StScI",
        "stsci",
        "Space Telescope Science Institute",
        "Space Telescope Scientific Institute",
    ] {
        assert_eq!(id(written).as_deref(), Some("stsci"), "from '{written}'");
    }
    assert_eq!(id("HST").as_deref(), Some("hst"));
}

#[test]
fn a_typo_in_the_source_does_not_become_a_second_body() {
    assert_eq!(id("NAS A").as_deref(), Some("nasa"));
    assert_eq!(id("NASA /").as_deref(), Some("nasa"));
    assert_eq!(id("JPL-Caltech").as_deref(), Some("jpl"));
    assert_eq!(id("JPL / Caltech").as_deref(), Some("jpl"));
}

#[test]
fn a_name_written_with_and_without_its_diacritics_is_one_person() {
    assert_eq!(id("José Mtanous"), id("Jose Mtanous"));
    assert_eq!(id("José Mtanous").as_deref(), Some("jose mtanous"));
    assert_eq!(id("Jean-Luc Dauvergne"), id("Jean Luc Dauvergne"));
}

#[test]
fn what_is_not_a_name_is_not_filed_as_one() {
    assert_eq!(id(""), None);
    assert_eq!(id("  "), None);
    assert_eq!(id("2024"), None);
    assert_eq!(id(" - / "), None);
}

#[test]
fn an_escaped_separator_does_not_become_a_credited_party() {
    let ids = ids(&[("Image Credit", "Rolf Geissinger &amp; Bray Falls")]);
    assert_eq!(ids, ["rolf geissinger", "bray falls"], "{ids:?}");
    assert!(!ids.iter().any(|id| id == "amp"));
}

#[test]
fn a_body_is_told_from_a_person_only_where_the_name_says_so() {
    assert_eq!(guess("NASA"), Kind::Group);
    assert_eq!(guess("ESO"), Kind::Group);
    assert_eq!(guess("Mount Wilson Observatory"), Kind::Group);
    assert_eq!(guess("Hubble Heritage Team"), Kind::Group);
    assert_eq!(guess("Spitzer Space Telescope"), Kind::Group);
    assert_eq!(guess("CRESST II"), Kind::Group);
    assert_eq!(guess("UMBC CSST"), Kind::Group);
    assert_eq!(guess("JPL-Caltech"), Kind::Group);
    assert_eq!(guess("ESA/Webb"), Kind::Group);
    assert_eq!(guess("NASA/JPL"), Kind::Group);
    assert_eq!(guess("Paulo Ferreira"), Kind::Person);
    assert_eq!(guess("R. Chandar"), Kind::Person);
    assert_eq!(guess("Jean-Luc Dauvergne"), Kind::Person);
    assert_eq!(guess("Gemini"), Kind::Unknown);
}

#[test]
fn an_affiliation_left_beside_a_linked_name_is_not_a_second_person() {
    let found = found(&[(
        "Image Credit & Copyright",
        r#"<a href="https://example.com/block">Adam Block</a> (<a href="https://www.as.arizona.edu/">U. Arizona</a>)"#,
    )]);
    let ids: Vec<&str> = found.iter().map(|f| f.id.as_str()).collect();
    assert_eq!(ids, ["adam block", "univ arizona"], "{ids:?}");
    assert!(!ids.contains(&"univ arizona )"));
    assert_eq!(found[0].name, "Adam Block");
}

#[test]
fn a_bracket_nobody_linked_stays_with_the_person_it_belongs_to() {
    let found = found(&[("Acknowledgment", "R. Chandar (U. Toledo)")]);
    assert_eq!(found.len(), 1, "{found:?}");
    assert_eq!(found[0].id, "r chandar");
    assert_eq!(found[0].name, "R. Chandar (U. Toledo)");
}

#[test]
fn a_wavelength_is_not_a_photographer() {
    let ids = ids(&[
        ("Credit", "X-Ray"),
        (
            "image",
            r#"<a href="https://www.nasa.gov/">NASA</a>/ <a href="http://chandra.harvard.edu/">CXC</a><br> Optical"#,
        ),
    ]);
    assert_eq!(ids, ["nasa", "cxc"], "{ids:?}");
}

#[test]
fn a_university_written_the_way_apod_writes_one_is_a_body() {
    assert_eq!(guess("U. Arizona"), Kind::Group);
    assert_eq!(guess("U. Toledo"), Kind::Group);
    assert_eq!(guess("Univ. of Hawaii"), Kind::Group);
    assert_eq!(id("U. Arizona"), id("University of Arizona"));
    assert_eq!(id("Univ. Arizona").as_deref(), Some("univ arizona"));
    assert_eq!(guess("Johns Hopkins Univ./APL"), Kind::Group);
    assert_eq!(guess("Adam Block (U. Arizona)"), Kind::Person);
    assert_eq!(guess("R. Chandar"), Kind::Person);
}

#[test]
fn what_the_split_leaves_behind_is_not_a_person() {
    for debris in ["A", "s", "'s", "T", "i", "by", "at", "et", "al", "Jr", "courtesy"] {
        let ids = ids(&[("Image Credit", debris)]);
        assert!(ids.is_empty(), "'{debris}' should name nobody, got {ids:?}");
    }
    assert_eq!(id("UA").as_deref(), Some("ua"));
}

#[test]
fn a_body_reached_by_one_address_under_several_names_is_one_body() {
    for written in ["STScI", "St. Sci.", "NASA/STScI"] {
        assert_eq!(id(written).as_deref(), Some("stsci"), "from '{written}'");
    }
    for written in ["CXO", "Chandra", "Chandra X-ray Observatory", "NASA/CXC"] {
        assert_eq!(id(written).as_deref(), Some("cxc"), "from '{written}'");
    }
    assert_eq!(id("HST").as_deref(), Some("hst"));
    assert_eq!(id("JPL").as_deref(), Some("jpl"));
}

#[test]
fn an_entry_with_no_credits_yields_none() {
    assert!(ids(&[]).is_empty());
}

#[test]
fn a_role_printed_inside_the_name_does_not_split_one_photographer_into_two() {
    for printed in [
        "David Malin",
        "photograph by David Malin",
        "Photograph by David Malin",
        "Colour photography by David Malin",
    ] {
        assert_eq!(id(&cleaned(printed)).as_deref(), Some("david malin"), "'{printed}'");
    }
}

#[test]
fn a_credit_that_is_only_a_role_is_not_an_identity() {
    for printed in ["Courtesy of", "courtesy", "Courtesy \" \"", "Crew"] {
        assert_eq!(id(&cleaned(printed)), None, "'{printed}' names nobody: {:?}", cleaned(printed));
    }
}

#[test]
fn a_role_printed_after_the_name_folds_the_same_way_as_one_printed_before() {
    for printed in ["Arne Henden Image Processed by", "Arne Henden - stitched by"] {
        assert_eq!(id(&cleaned(printed)).as_deref(), Some("arne henden"), "'{printed}'");
    }
}

#[test]
fn a_lowercase_particle_in_the_middle_of_a_name_still_reads_as_a_person() {
    for printed in ["Davide de Martin", "P. van Dokkum", "T. von Hippel", "Richard de Grijs"] {
        let name = cleaned(printed);
        assert_eq!(kind(&id(&name).unwrap(), &name, &words(), &judged()), Kind::Person, "'{printed}'");
    }
}

#[test]
fn a_group_named_in_another_language_is_not_mistaken_for_a_person() {
    for printed in ["Observatoire de Paris", "Observatorio del Teide", "Groupe Astronomie"] {
        let name = cleaned(printed);
        assert_eq!(kind(&id(&name).unwrap(), &name, &words(), &judged()), Kind::Group, "'{printed}'");
    }
}

#[test]
fn stripping_a_role_word_never_eats_the_start_of_a_real_name() {
    for printed in ["Optical Society", "Image Science Laboratory", "Data Analysis Group"] {
        assert_eq!(cleaned(printed), printed);
    }
}
