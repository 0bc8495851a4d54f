use lemon_apod::date::{days_from_civil, ApodDate};

#[test]
fn start_is_zero() {
    assert_eq!(ApodDate::from_ymd(1995, 6, 16).unwrap(), ApodDate::start());
    assert_eq!(ApodDate::start().to_iso(), "1995-06-16");
}

#[test]
fn roundtrips_through_string() {
    let date: ApodDate = "2024-03-05".parse().unwrap();
    assert_eq!(date.to_iso(), "2024-03-05");
    assert_eq!(date.ymd(), (2024, 3, 5));
    let padded: ApodDate = "  2024-03-05\n".parse().unwrap();
    assert_eq!(padded, date);
    assert!("2024-13-05".parse::<ApodDate>().is_err());
    assert!(ApodDate::from_ymd(2023, 2, 29).is_none());
}

#[test]
fn builds_source_and_storage_paths() {
    let date: ApodDate = "2024-03-05".parse().unwrap();
    assert_eq!(date.source_url(), "https://apod.nasa.gov/apod/ap240305.html");
    assert_eq!(date.html_path(), "2024/03/2024-03-05.html");
    assert_eq!(date.thumb_path(), "2024/03/2024-03-05.webp");
    assert_eq!(date.json_path(), "2024/03/2024-03-05.json");
    assert_eq!(date.format("%Y/%m"), "2024/03");
}

#[test]
fn skips_known_gaps_when_iterating() {
    let dates: Vec<String> = ApodDate::from_ymd(1995, 6, 20)
        .unwrap()
        .iter_asc()
        .into_iter()
        .map(|d| d.to_iso())
        .collect();
    assert_eq!(dates, vec!["1995-06-16", "1995-06-20"]);
}

#[test]
fn descending_iteration_starts_at_the_newest() {
    let today = ApodDate::from_ymd(1995, 6, 21).unwrap();
    let first = today.iter_desc()[0];
    assert_eq!(first, today);
}

#[test]
fn a_legacy_page_name_reads_as_its_date() {
    assert_eq!(
        ApodDate::from_legacy_filename("https://apod.nasa.gov/apod/ap950616.html"),
        Some(ApodDate::start())
    );
    assert_eq!(ApodDate::from_legacy_filename("ap9506161.html"), None);
    assert_eq!(ApodDate::from_legacy_filename("ap95061x.html"), None);
    assert_eq!(ApodDate::from_legacy_filename("ap951332.html"), None);
}

#[test]
fn the_days_nothing_ran_are_out_of_range() {
    let today = ApodDate::from_ymd(2024, 1, 1).unwrap();
    for missing in ApodDate::known_missing() {
        assert!(missing.is_known_missing());
        assert!(!missing.is_in_range(today));
    }
    assert!(ApodDate::start().is_in_range(today));
    assert!(!today.next().is_in_range(today));
    assert_eq!(today.next().prev(), today);
    assert_eq!(ApodDate::from_days(42).days(), 42);
}

#[test]
fn the_civil_day_count_starts_at_the_unix_epoch() {
    assert_eq!(days_from_civil(1970, 1, 1), 0);
    assert_eq!(days_from_civil(1969, 12, 31), -1);
    assert_eq!(days_from_civil(1995, 6, 16), 9297);
    assert_eq!(days_from_civil(2000, 3, 1), 11017);
    assert_eq!(days_from_civil(0, 3, 1), -719468);
}
