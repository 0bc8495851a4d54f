use lemon_apod::date::ApodDate;
use lemon_apod::pictures::{alike, distance, group, has_detail, Fingerprint, MAX_DISTANCE, PHASH_BYTES};

fn hash(byte: u8) -> Vec<u8> {
    vec![byte; PHASH_BYTES]
}

fn print(date: &str, url: Option<&str>, phash: Option<Vec<u8>>) -> Fingerprint {
    Fingerprint { date: date.parse().unwrap(), media_url: url.map(str::to_owned), phash }
}

fn iso(d: ApodDate) -> String {
    d.to_iso()
}

#[test]
fn a_flipped_bit_is_still_the_same_picture_but_a_flipped_byte_is_not() {
    let mut near = hash(0);
    near[3] = 0b0000_0001;
    let mut far = hash(0);
    far[3] = 0b1111_1111;

    assert_eq!(distance(&hash(0), &near), 1);
    assert!(alike(&hash(0), &near, MAX_DISTANCE));
    assert_eq!(distance(&hash(0), &far), 8);
    assert!(alike(&hash(0), &far, MAX_DISTANCE));

    far[4] = 0b0000_0001;
    assert!(!alike(&hash(0), &far, MAX_DISTANCE));
}

#[test]
fn hashes_of_different_lengths_are_never_alike() {
    assert!(!alike(&hash(0), &[0, 0], MAX_DISTANCE));
    assert_eq!(distance(&hash(0), &[0, 0]), u32::MAX);
}

#[test]
fn a_hash_with_no_shape_in_it_is_not_worth_matching_on() {
    assert!(!has_detail(&hash(0)), "a flat colour");
    assert!(!has_detail(&hash(0xff)), "and its inverse");
    assert!(has_detail(&hash(0b0101_0101)));

    let mut sparse = hash(0);
    sparse[0] = 0b0000_0011;
    assert!(!has_detail(&sparse), "two bits of 256 is not a picture");
    sparse[0] = 0b0000_1111;
    assert!(has_detail(&sparse), "a night shot has this little and no less");
}

#[test]
fn two_featureless_thumbnails_are_not_the_same_picture() {
    let groups = group(&[
        print("2020-12-27", Some("latte.jpg"), Some(hash(0))),
        print("2020-04-22", Some("twilight.jpg"), Some(hash(0))),
        print("2020-12-30", Some("conjunction.jpg"), Some(hash(0))),
    ]);
    assert!(groups.is_empty());
}

#[test]
fn a_picture_that_ran_once_is_not_a_group() {
    let groups = group(&[
        print("2020-01-01", Some("a.jpg"), Some(hash(1))),
        print("2020-01-02", Some("b.jpg"), Some(hash(2))),
    ]);
    assert!(groups.is_empty());
}

#[test]
fn a_still_moved_to_a_new_folder_groups_on_its_hash() {
    let groups = group(&[
        print("2019-09-20", Some("image/1909/saturn.jpg"), Some(hash(7))),
        print("2021-09-11", Some("image/2109/saturn.jpg"), Some(hash(7))),
    ]);
    assert_eq!(groups.len(), 1);
    assert_eq!(groups[0].dates.len(), 2);
    assert_eq!(iso(groups[0].id()), "2019-09-20");
}

#[test]
fn a_rerun_video_groups_on_its_url_however_its_poster_frame_came_out() {
    let groups = group(&[
        print("2020-07-19", Some("lro.mp4"), Some(hash(0b0101_0101))),
        print("2025-10-04", Some("lro.mp4"), Some(hash(0b1010_1010))),
    ]);
    assert_eq!(groups.len(), 1);
    assert_eq!(groups[0].dates.len(), 2);
}

#[test]
fn one_picture_reached_by_either_edge_is_one_group() {
    let groups = group(&[
        print("2020-01-01", Some("same.mp4"), Some(hash(1))),
        print("2020-06-01", Some("same.mp4"), Some(hash(2))),
        print("2021-01-01", Some("moved.mp4"), Some(hash(2))),
    ]);
    assert_eq!(groups.len(), 1);
    assert_eq!(groups[0].dates.len(), 3);
    assert_eq!(iso(groups[0].id()), "2020-01-01");
}

#[test]
fn an_entry_with_nothing_to_compare_stands_alone() {
    let groups = group(&[
        print("2020-01-01", None, None),
        print("2020-01-02", None, None),
        print("2020-01-03", Some(""), None),
    ]);
    assert!(groups.is_empty());
}

#[test]
fn groups_come_back_in_date_order_however_the_rows_arrived() {
    let groups = group(&[
        print("2024-05-05", Some("b.jpg"), Some(hash(2))),
        print("2020-02-02", Some("a.jpg"), Some(hash(1))),
        print("2022-03-03", Some("b.jpg"), Some(hash(2))),
        print("2021-01-01", Some("a.jpg"), Some(hash(1))),
    ]);
    let ids: Vec<String> = groups.iter().map(|g| iso(g.id())).collect();
    assert_eq!(ids, vec!["2020-02-02", "2022-03-03"]);
    assert_eq!(iso(groups[0].dates[1]), "2021-01-01");
}

#[test]
fn entries_sharing_a_url_are_one_group_and_an_entry_with_nothing_to_match_is_in_none() {
    let prints = vec![
        print("2001-01-05", Some("https://a/x.jpg"), None),
        print("2001-01-02", None, None),
        print("2001-01-01", Some("https://a/x.jpg"), None),
        print("2001-01-03", Some(""), None),
    ];
    let groups = group(&prints);
    assert_eq!(groups.len(), 1);
    let days: Vec<String> = groups[0].dates.iter().map(|d| iso(*d)).collect();
    assert_eq!(days, vec!["2001-01-01".to_owned(), "2001-01-05".to_owned()]);
}

#[test]
fn the_distance_is_symmetric_and_zero_from_itself_and_alike_means_near_enough() {
    let mut near = hash(0);
    near[5] = 0b1011_0000;
    assert_eq!(distance(&hash(0), &near), distance(&near, &hash(0)));
    assert_eq!(distance(&near, &near), 0);
    assert_eq!(alike(&hash(0), &near, 3), distance(&hash(0), &near) <= 3);
    assert_eq!(alike(&hash(0), &near, 2), distance(&hash(0), &near) <= 2);
}
