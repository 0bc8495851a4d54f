use lemon_apod::apod::SchemaError;
use lemon_apod::games::Deal;
use lemon_apod::rating::Standing;

#[test]
fn an_unmigrated_file_says_to_start_the_archiver() {
    let e = SchemaError::Unmigrated { path: "apod.db".to_owned() };
    assert_eq!(
        e.message(),
        "apod.db has never been migrated. The archiver creates and migrates it; start the archiver first"
    );
}

#[test]
fn a_newer_file_says_to_upgrade_and_an_older_one_to_migrate() {
    let newer = SchemaError::Unsupported { path: "a.db".to_owned(), found: 9 };
    assert_eq!(
        newer.message(),
        "a.db is at schema version 9, but this build needs 6 to 6. \
         The database is newer than this binary; upgrade it."
    );
    let older = SchemaError::Unsupported { path: "a.db".to_owned(), found: -2 };
    assert_eq!(
        older.message(),
        "a.db is at schema version -2, but this build needs 6 to 6. \
         The database is older than this binary; run the archiver to migrate it."
    );
}

#[test]
fn a_fresh_standing_has_nothing_behind_it() {
    let s = Standing::default();
    assert_eq!(s.votes, 0);
    assert!(s.avoid.is_empty());
    assert!(s.probe.is_none());
}

#[test]
fn two_loose_deals_in_a_row_differ() {
    assert_ne!(Deal::loose(0).seed(), Deal::loose(1).seed());
}
