use lemon_apod::apod::catalogue::{contains, escape_like};
use lemon_apod::apod::credits::{having, like, searching};
use lemon_apod::apod::insight::{lookup, pattern};
use lemon_apod::apod::model::{
    Changed, CreditOrder, Filters, ObjectOrder, Order, PictureFilters, PictureOrder, ResourceFilters,
    ResourceOrder,
};
use lemon_apod::apod::objects::{matching_objects, where_clause};
use lemon_apod::apod::read::{push_filters, to_dates, Param, Snippet, MATCH_CLOSE, MATCH_OPEN};
use lemon_apod::contributor::Kind;
use lemon_apod::date::ApodDate;
use lemon_apod::media::KindFilter;

#[test]
fn a_typed_wildcard_is_searched_for_rather_than_matched_with() {
    assert_eq!(contains("100%"), "%100\\%%");
    assert_eq!(contains("a_b"), "%a\\_b%");
    assert_eq!(contains("back\\slash"), "%back\\\\slash%");
    assert_eq!(escape_like("plain"), "plain");
}

#[test]
fn a_trailing_star_asks_for_a_prefix() {
    assert_eq!(pattern("neb*"), "neb%");
    assert_eq!(pattern("neb"), "%neb%");
    assert_eq!(pattern("50%*"), "50\\%%");
}

#[test]
fn escapes_snippet_content_before_adding_marks() {
    let raw = format!("5 < 7 {MATCH_OPEN}nebula{MATCH_CLOSE} <script>");
    assert_eq!(Snippet::Html.render(&raw), "5 &lt; 7 <mark>nebula</mark> &lt;script&gt;");
}

#[test]
fn renders_snippets_for_consumers_that_are_not_browsers() {
    let raw = format!("a {MATCH_OPEN}nebula{MATCH_CLOSE} b");
    assert_eq!(
        Snippet::Delimited { open: "**".into(), close: "**".into() }.render(&raw),
        "a **nebula** b"
    );
    assert_eq!(Snippet::Plain.render(&raw), "a nebula b");
}

#[test]
fn a_plain_snippet_leaves_markup_characters_as_the_author_wrote_them() {
    let raw = format!("5 < 7 {MATCH_OPEN}x{MATCH_CLOSE}");
    assert_eq!(Snippet::Plain.render(&raw), "5 < 7 x");
}

#[test]
fn a_year_nobody_counted_is_zero() {
    let counts = [(2020, 5), (2021, 7), (2020, 9)];
    assert_eq!(lookup(&counts, 2021), 7);
    assert_eq!(lookup(&counts, 2020), 5, "the first count for a year is the one read");
    assert_eq!(lookup(&counts, 1999), 0);
}

#[test]
fn entry_filters_add_one_placeholder_per_value() {
    let mut sql = String::from("WHERE 1");
    let mut params = Vec::new();
    let filters = Filters {
        from: Some(ApodDate::from_days(3)),
        to: None,
        kind: Some("youtube,vimeo".parse::<KindFilter>().unwrap()),
        copyright: Some(true),
    };
    assert!(!filters.is_empty());
    push_filters(&mut sql, &mut params, &filters);
    assert_eq!(
        sql,
        "WHERE 1 AND entries.date_id >= ? AND entries.media_kind IN (?, ?) AND entries.has_copyright = ?"
    );
    assert_eq!(
        params,
        vec![
            Param::Int(3),
            Param::Text("youtube".into()),
            Param::Text("vimeo".into()),
            Param::Int(1)
        ]
    );
    assert!(Filters::default().is_empty());
}

#[test]
fn resource_filters_search_three_columns_with_one_pattern() {
    let mut sql = String::new();
    let mut params = Vec::new();
    let filters = ResourceFilters {
        query: Some("  50% ".into()),
        host: Some("Example.COM".into()),
        min_refs: Some(2),
        credited: Some(false),
    };
    lemon_apod::apod::catalogue::push_filters(&mut sql, &mut params, &filters);
    assert!(sql.starts_with(" AND r.host = ? AND r.refs >= ? AND r.credited = 0 AND (r.key LIKE ?"));
    assert_eq!(params[0], Param::Text("example.com".into()));
    assert_eq!(params[1], Param::Int(2));
    assert_eq!(params[2], Param::Text("%50\\%%".into()));
    assert_eq!(params.len(), 5);
    assert_eq!(
        lemon_apod::apod::catalogue::ordering(ResourceOrder::Label, Order::Asc),
        "r.label IS NULL, r.label COLLATE NOCASE ASC, r.key ASC"
    );
}

#[test]
fn picture_filters_and_orderings() {
    let mut sql = String::new();
    let mut params = Vec::new();
    let filters = PictureFilters { query: Some("moon".into()), min_appearances: None, retitled: Some(true) };
    lemon_apod::apod::reuse::push_filters(&mut sql, &mut params, &filters);
    assert!(sql.ends_with(" AND g.titles > 1"));
    assert_eq!(params, vec![Param::Text("%moon%".into())]);
    assert_eq!(
        lemon_apod::apod::reuse::ordering(PictureOrder::Span, Order::Desc),
        "g.last_id - g.first_id DESC, g.picture_group ASC"
    );
}

#[test]
fn contributor_and_object_listings_compose_their_clauses() {
    assert_eq!(searching(false), "");
    assert!(searching(true).starts_with("WHERE (c.contributor LIKE ?1"));
    assert_eq!(having(Some(Kind::Group)), "HAVING kind = 'group'");
    assert_eq!(having(None), "");
    assert_eq!(like(None), "");
    assert_eq!(like(Some("a_b")), "%a\\_b%");
    assert_eq!(where_clause(false, true), "WHERE catalog = ?2");
    assert_eq!(matching_objects(false, false), "");
    assert_eq!(
        matching_objects(false, true),
        "WHERE object IN (SELECT object FROM entry_objects WHERE catalog = ?2)"
    );
    assert_eq!("latest".parse::<CreditOrder>(), Ok(CreditOrder::Latest));
    assert_eq!(CreditOrder::Name.sql(), "label COLLATE NOCASE ASC, id ASC");
    assert_eq!("designation".parse::<ObjectOrder>(), Ok(ObjectOrder::Designation));
    assert!("size".parse::<ObjectOrder>().is_err());
    assert_eq!(to_dates(vec![0, 5]), vec![ApodDate::start(), ApodDate::from_days(5)]);
    assert!(Changed { file: true, ..Changed::default() }.any());
    assert!(!Changed::default().any());
}
