use lemon_apod::date::ApodDate;
use lemon_apod::apod::model::ClozePiece;
use lemon_apod::games::{cloze, hash64, word_hash, ClozeToken, Deal};
use std::collections::HashSet;

#[test]
fn a_day_deals_the_same_puzzle_every_time_and_a_different_one_per_game() {
    let day: ApodDate = "2026-08-08".parse().unwrap();
    let pool: Vec<i32> = (0..500).collect();

    let first = Deal::daily("date", day).take(&pool, 5);
    let again = Deal::daily("date", day).take(&pool, 5);
    assert_eq!(first, again);

    let other_game = Deal::daily("words", day).take(&pool, 5);
    let other_day = Deal::daily("date", day.next()).take(&pool, 5);
    assert_ne!(first, other_game);
    assert_ne!(first, other_day);
}

#[test]
fn a_deal_never_hands_out_the_same_entry_twice() {
    let pool: Vec<i32> = (0..10).collect();
    let drawn = Deal::from_seed(7).take(&pool, 6);
    assert_eq!(drawn.len(), 6);
    assert_eq!(drawn.iter().collect::<HashSet<_>>().len(), 6);
}

#[test]
fn asking_for_more_than_there_is_gives_what_there_is() {
    let pool = [1, 2, 3];
    assert_eq!(Deal::from_seed(1).take(&pool, 10).len(), 3);
    assert!(Deal::from_seed(1).take::<i32>(&[], 5).is_empty());
    assert_eq!(Deal::from_seed(1).below(0), None);
}

#[test]
fn a_shuffle_keeps_every_item_and_is_reproducible() {
    let mut one = [1, 2, 3, 4, 5, 6, 7, 8];
    let mut two = one;
    Deal::from_seed(42).shuffle(&mut one);
    Deal::from_seed(42).shuffle(&mut two);

    assert_eq!(one, two);
    assert_ne!(one, [1, 2, 3, 4, 5, 6, 7, 8], "it did shuffle");
    assert_eq!(one.iter().sum::<i32>(), 36);
}

#[test]
fn the_word_hash_is_a_fixed_value_the_frontend_can_reproduce() {
    assert_eq!(hash64(b""), 0xcbf2_9ce4_8422_2325);
    assert_eq!(hash64(b"nebula"), 0x9c5e_5908_3fbc_0ee6);
    assert_eq!(word_hash(0, "nebula"), "2da88849e7af2686");
    assert_eq!(word_hash(1, "nebula"), "9e82832964457621");
}

#[test]
fn a_salt_changes_every_hash() {
    assert_ne!(word_hash(1, "nebula"), word_hash(2, "nebula"));
}

#[test]
fn a_deal_remembers_the_seed_it_started_from() {
    let deal = Deal::from_seed(3);
    let same = Deal::from_seed(3);
    assert_eq!(deal.seed(), same.seed());
    let mut d = Deal::from_seed(3);
    let pick = d.below(10).unwrap();
    assert!(pick < 10);
    assert_ne!(d.seed(), deal.seed(), "a draw moves the deal on");
}

fn gap(s: &str) -> ClozeToken {
    ClozeToken::Gap(s.to_owned())
}

fn word(s: &str) -> ClozeToken {
    ClozeToken::Word(s.to_owned(), Some(s.to_lowercase()))
}

fn number(s: &str) -> ClozeToken {
    ClozeToken::Word(s.to_owned(), None)
}

fn given(words: &[&str]) -> Vec<String> {
    words.iter().map(|w| (*w).to_owned()).collect()
}

#[test]
fn redaction_holds_back_the_words_and_keeps_everything_else() {
    let title = vec![word("The"), gap(" "), word("Crab"), gap(" "), word("Nebula")];
    let text = vec![
        word("The"), gap(" "), word("crab"), gap(" "), word("is"), gap(" "), number("6,500"),
        gap(" "), word("light-years"), gap(" "), word("away"), gap(". "), word("The"), gap(" "),
        word("nebula"), gap(" "), word("glows"), gap("!"),
    ];
    let puzzle = cloze(&title, &text, &given(&["the", "is", "away"]), 0);

    let shown: String = puzzle
        .text
        .iter()
        .map(|piece| match piece {
            ClozePiece::Shown { s } => s.clone(),
            ClozePiece::Hidden { n, .. } => "_".repeat(*n),
        })
        .collect();
    assert_eq!(shown, "The ____ is 6,500 ___________ away. The ______ _____!");
    assert_eq!(puzzle.hidden, 6);
    assert_eq!(puzzle.distinct, 4);
    assert_eq!(puzzle.salt, "0");
}

#[test]
fn the_same_word_hashes_the_same_however_it_was_written() {
    let title = vec![word("Nebula")];
    let text = vec![
        word("A"), gap(" "), word("NEBULA"), gap(" "), word("and"), gap(" "), word("a"), gap(" "),
        word("nebula"), gap("."),
    ];
    let puzzle = cloze(&title, &text, &given(&["a", "and"]), 99);
    let hashes: Vec<&String> = puzzle
        .text
        .iter()
        .chain(&puzzle.title)
        .filter_map(|piece| match piece {
            ClozePiece::Hidden { h, .. } => Some(h),
            ClozePiece::Shown { .. } => None,
        })
        .collect();
    assert_eq!(hashes.len(), 3);
    assert!(hashes.windows(2).all(|pair| pair[0] == pair[1]));
    assert_eq!(*hashes[0], word_hash(99, "nebula"));
    assert_eq!(puzzle.salt, "63");
    assert_eq!(puzzle.distinct, 1);
}
