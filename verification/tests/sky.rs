use lemon_apod::sky::{capitalized, thousands};

#[test]
fn thousands_groups_the_way_a_reader_expects() {
    assert_eq!(thousands(0), "0");
    assert_eq!(thousands(999), "999");
    assert_eq!(thousands(1_000), "1,000");
    assert_eq!(thousands(384_400), "384,400");
    assert_eq!(thousands(1_234_567), "1,234,567");
    assert_eq!(thousands(-1_000), "-1,000");
}

#[test]
fn a_word_is_capitalised_by_its_first_letter() {
    assert_eq!(capitalized("spring"), "Spring");
    assert_eq!(capitalized(""), "");
    assert_eq!(capitalized("ßa"), "SSa");
}

use lemon_apod::sky::{eclipsed, timeline_of, EventKind, SkyEvent, DAY_NANOS, HOUR_NANOS};

fn ev(title: &str, at: i64) -> SkyEvent {
    SkyEvent { kind: EventKind::Moon, title: title.into(), detail: None, at }
}

#[test]
fn the_timeline_is_ordered_ahead_of_now_and_within_the_horizon() {
    let now = 1_000 * DAY_NANOS;
    let events = vec![
        ev("late", now + 3 * DAY_NANOS),
        ev("past", now - 1),
        ev("now", now),
        ev("early", now + DAY_NANOS),
        ev("edge", now + 400 * DAY_NANOS),
        ev("beyond", now + 400 * DAY_NANOS + 1),
    ];
    let out = timeline_of(now, events);
    let titles: Vec<&str> = out.iter().map(|e| e.title.as_str()).collect();
    assert_eq!(titles, vec!["early", "late", "edge"]);
}

#[test]
fn the_timeline_keeps_the_first_ten_and_ties_in_the_order_given() {
    let now = 0;
    let mut events: Vec<SkyEvent> = (0..15).rev().map(|k| ev(&format!("e{k}"), (k + 1) * HOUR_NANOS)).collect();
    events.push(ev("tie", 2 * HOUR_NANOS));
    let out = timeline_of(now, events);
    let titles: Vec<&str> = out.iter().map(|e| e.title.as_str()).collect();
    assert_eq!(titles, vec!["e0", "e1", "tie", "e2", "e3", "e4", "e5", "e6", "e7", "e8"]);
}

#[test]
fn an_eclipse_within_the_hour_masks_the_phase() {
    let eclipses = vec![10 * HOUR_NANOS];
    assert!(eclipsed(10 * HOUR_NANOS + HOUR_NANOS - 1, &eclipses));
    assert!(!eclipsed(11 * HOUR_NANOS, &eclipses));
    assert!(!eclipsed(0, &vec![]));
}
