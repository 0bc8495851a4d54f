//! Search patterns and lookups for the archive's statistics.
use vstd::prelude::*;
use crate::apod::catalogue::{contains, escape_like, like_escaped};
use crate::text::{chars_of, push_char, push_str, string_of, slice_chars, trim, trim_chars};
use crate::apod::model::{Order, WordFilters, WordOrder};
use crate::apod::read::{param_views, Param, ParamView};

verus! {

/// The `LIKE` pattern of a word query: a prefix when it ends in `*`, else a substring.
pub open spec fn word_pattern(query: Seq<char>) -> Seq<char> {
    if query.len() > 0 && query.last() == '*' {
        like_escaped(query.drop_last()) + seq!['%']
    } else {
        seq!['%'] + like_escaped(query) + seq!['%']
    }
}

pub fn pattern(query: &str) -> (p: String)
    ensures
        p@ == word_pattern(query@),
{
    let v = chars_of(query);
    if v.len() > 0 && v[v.len() - 1] == '*' {
        let n = v.len() - 1;
        let prefix = string_of(&slice_chars(&v, 0, n));
        assert(prefix@ =~= query@.drop_last());
        let mut out = escape_like(prefix.as_str());
        push_char(&mut out, '%');
        out
    } else {
        contains(query)
    }
}

/// The count of the first entry for `year`, or 0.
pub open spec fn count_for(counts: Seq<(i32, i64)>, year: i32) -> i64
    decreases counts.len(),
{
    if counts.len() == 0 {
        0
    } else if counts[0].0 == year {
        counts[0].1
    } else {
        count_for(counts.skip(1), year)
    }
}

pub fn lookup(counts: &[(i32, i64)], year: i32) -> (n: i64)
    ensures
        n == count_for(counts@, year),
{
    let mut i: usize = 0;
    assert(counts@.skip(0) =~= counts@);
    while i < counts.len()
        invariant
            i <= counts@.len(),
            count_for(counts@, year) == count_for(counts@.skip(i as int), year),
        decreases counts.len() - i,
    {
        let (at, count) = counts[i];
        if at == year {
            return count;
        }
        assert(counts@.skip(i as int).skip(1) =~= counts@.skip(i + 1));
        i = i + 1;
    }
    0
}

/// The ordering of a word listing.
pub open spec fn word_ordering(order: WordOrder, direction: Order) -> Seq<char> {
    match (order, direction) {
        (WordOrder::Total, Order::Desc) => "total DESC, word ASC"@,
        (WordOrder::Total, Order::Asc) => "total ASC, word ASC"@,
        (WordOrder::Entries, Order::Desc) => "entries DESC, word ASC"@,
        (WordOrder::Entries, Order::Asc) => "entries ASC, word ASC"@,
        (WordOrder::Alphabetical, Order::Desc) => "word DESC"@,
        (WordOrder::Alphabetical, Order::Asc) => "word ASC"@,
    }
}

/// The conditions a word listing is narrowed by, and the values they bind: the query as a
/// pattern when it is not blank, then the least and the most uses.
pub open spec fn word_where(f: WordFilters) -> (Seq<char>, Seq<ParamView>) {
    let q = match f.query {
        Some(q) if trim(q@).len() > 0 => (
            " AND word LIKE ? ESCAPE '\\'"@,
            seq![ParamView::Text(word_pattern(trim(q@)))],
        ),
        _ => (Seq::empty(), Seq::empty()),
    };
    let lo = match f.min_total {
        Some(n) => (" AND total >= ?"@, seq![ParamView::Int(n as int)]),
        None => (Seq::empty(), Seq::empty()),
    };
    let hi = match f.max_total {
        Some(n) => (" AND total <= ?"@, seq![ParamView::Int(n as int)]),
        None => (Seq::empty(), Seq::empty()),
    };
    ("WHERE 1 = 1"@ + q.0 + lo.0 + hi.0, q.1 + lo.1 + hi.1)
}

/// A listing ready to run: how to count its rows and how to read a page of them, each with the
/// values it binds.
pub struct ListingPlan {
    pub count_sql: String,
    pub count_params: Vec<Param>,
    pub select_sql: String,
    pub select_params: Vec<Param>,
}

pub open spec fn words_plan_of(
    f: WordFilters,
    order: WordOrder,
    direction: Order,
    offset: usize,
    limit: usize,
) -> (Seq<char>, Seq<ParamView>, Seq<char>, Seq<ParamView>) {
    let w = word_where(f);
    (
        "SELECT COUNT(*) FROM words "@ + w.0,
        w.1,
        "SELECT word, total, entries FROM words "@ + w.0 + " ORDER BY "@ + word_ordering(order, direction)
            + " LIMIT ? OFFSET ?"@,
        w.1 + seq![ParamView::Int((limit as i64) as int), ParamView::Int((offset as i64) as int)],
    )
}

/// Plans a listing of the words used in the archive.
pub fn words_plan(
    filters: &WordFilters,
    order: WordOrder,
    direction: Order,
    offset: usize,
    limit: usize,
) -> (p: ListingPlan)
    ensures
        (p.count_sql@, param_views(p.count_params@), p.select_sql@, param_views(p.select_params@))
            == words_plan_of(*filters, order, direction, offset, limit),
{
    let mut where_clause = String::new();
    push_str(&mut where_clause, "WHERE 1 = 1");
    let mut params: Vec<Param> = Vec::new();
    let mut count_params: Vec<Param> = Vec::new();
    let ghost w = word_where(*filters);
    match &filters.query {
        Some(q) => {
            let tv = trim_chars(&chars_of(q.as_str()));
            let t = string_of(&tv);
            if tv.len() > 0 {
                push_str(&mut where_clause, " AND word LIKE ? ESCAPE '\\'");
                params.push(Param::Text(pattern(t.as_str())));
                count_params.push(Param::Text(pattern(t.as_str())));
            }
        },
        None => {},
    }
    match filters.min_total {
        Some(n) => {
            push_str(&mut where_clause, " AND total >= ?");
            params.push(Param::Int(n));
            count_params.push(Param::Int(n));
        },
        None => {},
    }
    match filters.max_total {
        Some(n) => {
            push_str(&mut where_clause, " AND total <= ?");
            params.push(Param::Int(n));
            count_params.push(Param::Int(n));
        },
        None => {},
    }
    assert(where_clause@ =~= w.0);
    assert(param_views(params@) =~= w.1);
    assert(param_views(count_params@) =~= w.1);
    let mut count_sql = String::new();
    push_str(&mut count_sql, "SELECT COUNT(*) FROM words ");
    push_str(&mut count_sql, where_clause.as_str());
    let ordering = match (order, direction) {
        (WordOrder::Total, Order::Desc) => "total DESC, word ASC",
        (WordOrder::Total, Order::Asc) => "total ASC, word ASC",
        (WordOrder::Entries, Order::Desc) => "entries DESC, word ASC",
        (WordOrder::Entries, Order::Asc) => "entries ASC, word ASC",
        (WordOrder::Alphabetical, Order::Desc) => "word DESC",
        (WordOrder::Alphabetical, Order::Asc) => "word ASC",
    };
    let mut select_sql = String::new();
    push_str(&mut select_sql, "SELECT word, total, entries FROM words ");
    push_str(&mut select_sql, where_clause.as_str());
    push_str(&mut select_sql, " ORDER BY ");
    push_str(&mut select_sql, ordering);
    push_str(&mut select_sql, " LIMIT ? OFFSET ?");
    let ghost pv = param_views(params@);
    params.push(Param::Int(limit as i64));
    params.push(Param::Int(offset as i64));
    assert(param_views(params@) =~= pv + seq![
        ParamView::Int((limit as i64) as int),
        ParamView::Int((offset as i64) as int),
    ]);
    ListingPlan { count_sql, count_params, select_sql, select_params: params }
}

/// The key a word is looked up by: trimmed, in lowercase.
pub open spec fn word_key_of(word: Seq<char>) -> Seq<char> {
    crate::object::lowercased(trim(word))
}

pub fn word_key(word: &str) -> (k: String)
    ensures
        k@ == word_key_of(word@),
{
    crate::object::lowercase(string_of(&trim_chars(&chars_of(word))).as_str())
}

} // verus!
