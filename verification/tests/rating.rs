use lemon_apod::date::ApodDate;
use lemon_apod::rating::{
    mirror, slot, Category, Draw, Grouping, Outcome, Pairing, Progress, Rng, Stage, VoterId,
    VOTER_ID_BYTES,
};

const POOL: u64 = 9_582;

#[test]
fn a_category_survives_a_round_trip_through_its_name() {
    for category in Category::all() {
        assert_eq!(category.as_str().parse::<Category>().unwrap(), category);
    }
    assert!("impressive".parse::<Category>().is_err());
    assert!("".parse::<Category>().is_err());
}

#[test]
fn the_whole_funnel_costs_about_ninety_thousand_votes() {
    let progress = Progress::of(POOL, 0);
    assert_eq!(progress.total, 47_910 + 25_000 + 15_000);
    assert_eq!(progress.stage, Stage::Screen);
    assert_eq!(progress.target, 47_910, "the whole archive, ten deep");
}

#[test]
fn each_stage_reports_its_own_share_rather_than_the_running_total() {
    let screening = Progress::of(POOL, 12_400);
    assert_eq!(screening.stage, Stage::Screen);
    assert_eq!((screening.done, screening.target), (12_400, 47_910));

    let contending = Progress::of(POOL, 50_000);
    assert_eq!(contending.stage, Stage::Contend);
    assert_eq!((contending.done, contending.target), (2_090, 25_000));

    let settling = Progress::of(POOL, 80_000);
    assert_eq!(settling.stage, Stage::Settle);
    assert_eq!((settling.done, settling.target), (7_090, 15_000));
}

#[test]
fn a_finished_funnel_reads_full_and_stays_there() {
    let done = Progress::of(POOL, 500_000);
    assert_eq!(done.stage, Stage::Settled);
    assert_eq!(done.done, done.target);
    assert_eq!(done.votes, 500_000);
    assert_eq!(done.stage.as_str(), "settled");
}

#[test]
fn a_small_pool_does_not_ask_for_more_depth_than_it_has_pictures_for() {
    let progress = Progress::of(20, 0);
    assert_eq!(progress.target, 100, "twenty pictures, ten deep");
    assert_eq!(progress.total, 100 + 20 * 50 + 20 * 300);
}

#[test]
fn an_empty_pool_is_finished_rather_than_dividing_by_nothing() {
    let progress = Progress::of(0, 0);
    assert_eq!(progress.total, 0);
    assert_eq!(progress.stage, Stage::Settled);
}

#[test]
fn the_shares_come_out_near_seventy_twenty_five_and_five() {
    let mut counts = [0; 3];
    for seed in 0..10_000u64 {
        let roll = Rng::new(seed).next();
        match Pairing::pick(roll, true) {
            Pairing::Informative => counts[0] += 1,
            Pairing::Uniform => counts[1] += 1,
            Pairing::Probe => counts[2] += 1,
        }
    }
    assert!((6_700..7_300).contains(&counts[0]), "{counts:?}");
    assert!((2_300..2_700).contains(&counts[1]), "{counts:?}");
    assert!((400..600).contains(&counts[2]), "{counts:?}");
}

#[test]
fn a_voter_with_nothing_to_repeat_gets_an_informative_pair_instead() {
    let mut probes = 0;
    for seed in 0..1_000u64 {
        if Pairing::pick(Rng::new(seed).next(), false) == Pairing::Probe {
            probes += 1;
        }
    }
    assert_eq!(probes, 0, "a repeat needs a history to repeat from");
}

#[test]
fn a_voter_id_does_not_write_itself_out_in_full_in_a_log_line() {
    let id = VoterId::new([0xab; VOTER_ID_BYTES]);
    let shown = id.debug_label();
    assert!(!shown.contains(&id.to_hex()), "{shown}");
    assert!(shown.starts_with("voter:ab"), "{shown}");
}

#[test]
fn a_voter_id_reads_back_from_its_hex() {
    let mut bytes = [0u8; VOTER_ID_BYTES];
    for (i, b) in bytes.iter_mut().enumerate() {
        *b = (i * 17) as u8;
    }
    let id = VoterId::new(bytes);
    let hex = id.to_hex();
    assert_eq!(hex.len(), 32);
    assert_eq!(hex, "00112233445566778899aabbccddeeff");
    assert!(VoterId::from_hex(&hex) == Some(id));
    assert!(VoterId::from_hex(&hex.to_uppercase()) == Some(id));
    assert!(VoterId::from_hex("00").is_none());
    assert!(VoterId::from_hex(&"zz".repeat(16)).is_none());
    assert!(VoterId::from_blob(&bytes) == Some(id));
    assert!(VoterId::from_blob(&bytes[..3]).is_none());
    assert_eq!(id.bytes(), &bytes[..]);
}

#[test]
fn outcomes_read_and_mirror() {
    for o in [Outcome::Left, Outcome::Right, Outcome::Tie] {
        assert_eq!(o.as_str().parse::<Outcome>().unwrap(), o);
        assert_eq!(mirror(mirror(o)), o);
    }
    assert_eq!(mirror(Outcome::Left), Outcome::Right);
    assert!("draw".parse::<Outcome>().is_err());
}

#[test]
fn a_grouping_maps_entries_to_their_picture() {
    let a = ApodDate::from_days(10);
    let b = ApodDate::from_days(20);
    let c = ApodDate::from_days(30);
    let grouping = Grouping::new(vec![(b, a), (c, a), (c, b)]);
    assert_eq!(grouping.group(b), a);
    assert_eq!(grouping.group(c), b, "a later pair wins");
    assert_eq!(grouping.group(a), a, "an entry nobody grouped is its own picture");
    assert!(!grouping.is_empty());
    assert!(Grouping::new(Vec::new()).is_empty());
}

#[test]
fn a_draw_holds_its_two_pictures() {
    let draw = Draw { left: ApodDate::from_days(1), right: ApodDate::from_days(2), pairing: Pairing::Uniform };
    assert!(draw.holds(ApodDate::from_days(1)) && draw.holds(ApodDate::from_days(2)));
    assert!(!draw.holds(ApodDate::from_days(3)));
    assert_eq!(Pairing::Probe.as_str(), "probe");
}

#[test]
fn a_picture_has_one_slot() {
    let mut pictures = Vec::new();
    assert_eq!(slot(&mut pictures, ApodDate::from_days(5)), 0);
    assert_eq!(slot(&mut pictures, ApodDate::from_days(7)), 1);
    assert_eq!(slot(&mut pictures, ApodDate::from_days(5)), 0);
    assert_eq!(pictures.len(), 2);
    let mut rng = Rng::new(1);
    assert_eq!(rng.below(0), 0);
    assert!(rng.below(3) < 3);
}

#[test]
fn thirty_two_lowercase_hex_digits_read_back_as_themselves_and_nothing_else_reads_at_all() {
    let text = "0123456789abcdeffedcba9876543210";
    let id = VoterId::from_hex(text).expect("a well-formed id");
    assert_eq!(id.to_hex(), text);
    assert!(VoterId::from_hex(&"z".repeat(32)).is_none());
    assert!(VoterId::from_hex(&"a".repeat(31)).is_none());
    assert!(VoterId::from_hex(&"a".repeat(33)).is_none());
}

#[test]
fn every_category_is_listed_once_in_order() {
    assert_eq!(Category::ALL, [Category::Beautiful, Category::Fascinating]);
    assert_eq!(Category::all(), Category::ALL.to_vec());
}
