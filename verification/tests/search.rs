use lemon_apod::apod::model::Filters;
use lemon_apod::apod::read::{Param, Snippet};
use lemon_apod::apod::search::{keyword_list, search_hits, search_plan, SearchRow, SearchStep};
use lemon_apod::date::ApodDate;
use lemon_apod::entry::ApodSummary;
use lemon_apod::media::{Media, MediaKind};

fn no_filters() -> Filters {
    Filters { from: None, to: None, kind: None, copyright: None }
}

#[test]
fn a_blank_query_is_a_listing_and_an_empty_one_finds_nothing() {
    assert!(matches!(search_plan("   ", &no_filters(), false, 0, 10, 16), SearchStep::Listing));
    assert!(matches!(search_plan("-hubble", &no_filters(), false, 0, 10, 16), SearchStep::Nothing));
}

#[test]
fn a_search_binds_the_query_then_the_page() {
    let plan = match search_plan("nebula", &no_filters(), true, 20, 10, 500) {
        SearchStep::Run(p) => p,
        _ => panic!("expected a plan"),
    };
    assert_eq!(plan.count_params, vec![Param::Text(r#""nebula"*"#.into())]);
    assert_eq!(
        plan.select_params,
        vec![Param::Text(r#""nebula"*"#.into()), Param::Int(10), Param::Int(20)]
    );
    assert!(plan.count_sql.starts_with("SELECT COUNT(*) FROM entries_fts"));
    assert!(plan.count_sql.ends_with("WHERE entries_fts MATCH ?"));
    assert!(plan.select_sql.starts_with("SELECT entries.date_id, entries.title, entries.has_copyright,"));
    assert!(plan.select_sql.contains("'…', 64)"), "the snippet length is capped at 64");
    assert!(plan.select_sql.ends_with("ORDER BY entries.date_id DESC LIMIT ? OFFSET ?"));
    let relevance = match search_plan("nebula", &no_filters(), false, 0, 10, 0) {
        SearchStep::Run(p) => p,
        _ => panic!("expected a plan"),
    };
    assert!(relevance.select_sql.contains("'…', 1)"), "and raised to at least 1");
    assert!(relevance.select_sql.contains("ORDER BY bm25(entries_fts, 10.0, 1.0, 2.0, 5.0) ASC"));
}

#[test]
fn a_stored_keyword_list_reads_as_words() {
    assert_eq!(keyword_list(r#"["crab","nebula","m1"]"#), "crab, nebula, m1");
    assert_eq!(keyword_list(r#"["crab", "nebula"]"#), r#"crab", "nebula"#, "only a bare comma between quotes separates");
    assert_eq!(keyword_list(r#"[]"#), "");
    assert_eq!(keyword_list(r#"  ["a","","b"]  "#), "a, b");
}

fn summary() -> ApodSummary {
    ApodSummary {
        date: ApodDate::from_days(10),
        title: "Crab".into(),
        media: Media::new(MediaKind::ImageJpg, None, None),
        has_copyright: false,
        picture: None,
    }
}

#[test]
fn a_hit_says_where_it_matched_and_renders_only_those_parts() {
    let rows = vec![SearchRow {
        summary: summary(),
        snippet: "the \u{2}crab\u{3} glows".into(),
        title: "Crab".into(),
        credit: Some("Jane \u{2}Crab\u{3}".into()),
        keywords: Some(r#"["moon","sun"]"#.into()),
    }];
    let hits = search_hits(rows, &Snippet::Html);
    assert_eq!(hits.len(), 1);
    let h = &hits[0];
    assert!(!h.matched.title && h.matched.explanation && h.matched.credit && !h.matched.keywords);
    assert_eq!(h.snippet, "the <mark>crab</mark> glows");
    assert_eq!(h.credit.as_deref(), Some("Jane <mark>Crab</mark>"));
    assert_eq!(h.keywords, None);
    assert_eq!(h.entry.title, "Crab");
}

use lemon_apod::apod::insight::{word_key, words_plan};
use lemon_apod::apod::model::{Order, WordFilters, WordOrder};

#[test]
fn a_word_listing_binds_its_filters_in_order() {
    let filters = WordFilters { query: Some("  neb* ".into()), min_total: Some(5), max_total: None };
    let plan = words_plan(&filters, WordOrder::Entries, Order::Desc, 40, 20);
    assert_eq!(plan.count_sql, "SELECT COUNT(*) FROM words WHERE 1 = 1 AND word LIKE ? ESCAPE '\\' AND total >= ?");
    assert_eq!(plan.count_params, vec![Param::Text("neb%".into()), Param::Int(5)]);
    assert!(plan.select_sql.ends_with("ORDER BY entries DESC, word ASC LIMIT ? OFFSET ?"));
    assert_eq!(
        plan.select_params,
        vec![Param::Text("neb%".into()), Param::Int(5), Param::Int(20), Param::Int(40)]
    );
    let blank = WordFilters { query: Some("   ".into()), min_total: None, max_total: Some(9) };
    let plan = words_plan(&blank, WordOrder::Alphabetical, Order::Asc, 0, 10);
    assert_eq!(plan.count_sql, "SELECT COUNT(*) FROM words WHERE 1 = 1 AND total <= ?");
    assert!(plan.select_sql.contains("ORDER BY word ASC"));
}

#[test]
fn a_word_is_looked_up_trimmed_and_in_lowercase() {
    assert_eq!(word_key("  Nebula\n"), "nebula");
    assert_eq!(word_key("ÉTOILE"), "étoile");
}
