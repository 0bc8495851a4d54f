//! How resource listings are searched and ordered in SQL.
use vstd::prelude::*;
use crate::apod::model::{Order, ResourceFilters, ResourceOrder};
use crate::apod::read::{Param, ParamView, param_views};
use crate::date::ApodDate;
use crate::text::{
    chars_of, lower_all, lower_chars, push_char, push_str, replace, replaced, string_of, trim,
    trim_chars,
};

verus! {

/// `query` with the characters `LIKE` treats specially escaped by a backslash.
pub open spec fn like_escaped(query: Seq<char>) -> Seq<char> {
    replaced(replaced(replaced(query, "\\"@, "\\\\"@), "%"@, "\\%"@), "_"@, "\\_"@)
}

/// Escapes `query` so that `LIKE ... ESCAPE '\'` matches it literally.
pub fn escape_like(query: &str) -> (out: String)
    ensures
        out@ == like_escaped(query@),
{
    proof {
        reveal_strlit("\\");
        reveal_strlit("%");
        reveal_strlit("_");
    }
    let a = replace(query, "\\", "\\\\");
    let b = replace(a.as_str(), "%", "\\%");
    replace(b.as_str(), "_", "\\_")
}

/// A `LIKE` pattern matching text that contains `query`.
pub fn contains(query: &str) -> (out: String)
    ensures
        out@ == seq!['%'] + like_escaped(query@) + seq!['%'],
{
    let mut out = String::new();
    push_char(&mut out, '%');
    push_str(&mut out, escape_like(query).as_str());
    push_char(&mut out, '%');
    out
}

/// The date of a stored day number.
pub fn days(value: i64) -> (d: ApodDate)
    ensures
        d@ == value as i32,
{
    ApodDate::from_days(value as i32)
}

pub open spec fn resource_ordering(order: ResourceOrder, direction: Order) -> Seq<char> {
    match (order, direction) {
        (ResourceOrder::Refs, Order::Desc) => "r.refs DESC, r.entries DESC, r.id ASC"@,
        (ResourceOrder::Refs, Order::Asc) => "r.refs ASC, r.entries ASC, r.id ASC"@,
        (ResourceOrder::Entries, Order::Desc) => "r.entries DESC, r.refs DESC, r.id ASC"@,
        (ResourceOrder::Entries, Order::Asc) => "r.entries ASC, r.refs ASC, r.id ASC"@,
        (ResourceOrder::First, Order::Desc) => "r.first_id DESC, r.id ASC"@,
        (ResourceOrder::First, Order::Asc) => "r.first_id ASC, r.id ASC"@,
        (ResourceOrder::Last, Order::Desc) => "r.last_id DESC, r.id ASC"@,
        (ResourceOrder::Last, Order::Asc) => "r.last_id ASC, r.id ASC"@,
        (ResourceOrder::Address, Order::Desc) => "r.key DESC"@,
        (ResourceOrder::Address, Order::Asc) => "r.key ASC"@,
        (ResourceOrder::Label, Order::Desc) => "r.label IS NULL, r.label COLLATE NOCASE DESC, r.key ASC"@,
        (ResourceOrder::Label, Order::Asc) => "r.label IS NULL, r.label COLLATE NOCASE ASC, r.key ASC"@,
    }
}

/// The `ORDER BY` terms of a resource listing.
pub fn ordering(order: ResourceOrder, direction: Order) -> (s: &'static str)
    ensures
        s@ == resource_ordering(order, direction),
{
    match (order, direction) {
        (ResourceOrder::Refs, Order::Desc) => "r.refs DESC, r.entries DESC, r.id ASC",
        (ResourceOrder::Refs, Order::Asc) => "r.refs ASC, r.entries ASC, r.id ASC",
        (ResourceOrder::Entries, Order::Desc) => "r.entries DESC, r.refs DESC, r.id ASC",
        (ResourceOrder::Entries, Order::Asc) => "r.entries ASC, r.refs ASC, r.id ASC",
        (ResourceOrder::First, Order::Desc) => "r.first_id DESC, r.id ASC",
        (ResourceOrder::First, Order::Asc) => "r.first_id ASC, r.id ASC",
        (ResourceOrder::Last, Order::Desc) => "r.last_id DESC, r.id ASC",
        (ResourceOrder::Last, Order::Asc) => "r.last_id ASC, r.id ASC",
        (ResourceOrder::Address, Order::Desc) => "r.key DESC",
        (ResourceOrder::Address, Order::Asc) => "r.key ASC",
        (ResourceOrder::Label, Order::Desc) => "r.label IS NULL, r.label COLLATE NOCASE DESC, r.key ASC",
        (ResourceOrder::Label, Order::Asc) => "r.label IS NULL, r.label COLLATE NOCASE ASC, r.key ASC",
    }
}

/// The search text of a resource filter, when it has any once trimmed.
pub open spec fn resource_query(f: ResourceFilters) -> Option<Seq<char>> {
    match f.query {
        Some(q) => if trim(q@).len() > 0 {
            Some(trim(q@))
        } else {
            None
        },
        None => None,
    }
}

/// The text a resource search adds.
pub open spec fn resource_search_sql() -> Seq<char> {
    " AND (r.key LIKE ? ESCAPE '\\' OR r.label LIKE ? ESCAPE '\\'
              OR r.id IN (SELECT resource_id FROM entry_resources
                           WHERE anchor LIKE ? ESCAPE '\\'))"@
}

/// The clause the filters of a resource listing add.
pub open spec fn resource_filter_sql(f: ResourceFilters) -> Seq<char> {
    (if f.host is Some {
        " AND r.host = ?"@
    } else {
        Seq::empty()
    }) + (if f.min_refs is Some {
        " AND r.refs >= ?"@
    } else {
        Seq::empty()
    }) + (match f.credited {
        Some(true) => " AND r.credited > 0"@,
        Some(false) => " AND r.credited = 0"@,
        None => Seq::empty(),
    }) + (if resource_query(f) is Some {
        resource_search_sql()
    } else {
        Seq::empty()
    })
}

/// The values the filters of a resource listing bind, in placeholder order.
pub open spec fn resource_filter_params(f: ResourceFilters) -> Seq<ParamView> {
    (match f.host {
        Some(h) => seq![ParamView::Text(lower_all(h@))],
        None => Seq::empty(),
    }) + (match f.min_refs {
        Some(n) => seq![ParamView::Int(n as int)],
        None => Seq::empty(),
    }) + (match resource_query(f) {
        Some(q) => {
            let p = seq!['%'] + like_escaped(q) + seq!['%'];
            seq![ParamView::Text(p), ParamView::Text(p), ParamView::Text(p)]
        },
        None => Seq::empty(),
    })
}

/// Adds the conditions of `filters` to a resource listing's `WHERE` clause.
pub fn push_filters(sql: &mut String, params: &mut Vec<Param>, filters: &ResourceFilters)
    ensures
        final(sql)@ == old(sql)@ + resource_filter_sql(*filters),
        param_views(final(params)@) == param_views(old(params)@) + resource_filter_params(
            *filters,
        ),
{
    let ghost s0 = sql@;
    let ghost p0 = param_views(params@);
    if let Some(host) = &filters.host {
        push_str(sql, " AND r.host = ?");
        let lowered = string_of(&lower_chars(&chars_of(host.as_str())));
        let ghost b = params@;
        params.push(Param::Text(lowered));
        assert(param_views(params@) =~= param_views(b).push(ParamView::Text(lower_all(host@))));
    }
    let ghost s1 = sql@;
    let ghost p1 = param_views(params@);
    if let Some(min_refs) = filters.min_refs {
        push_str(sql, " AND r.refs >= ?");
        let ghost b = params@;
        params.push(Param::Int(min_refs));
        assert(param_views(params@) =~= param_views(b).push(ParamView::Int(min_refs as int)));
    }
    let ghost s2 = sql@;
    let ghost p2 = param_views(params@);
    if let Some(credited) = filters.credited {
        push_str(sql, if credited {
            " AND r.credited > 0"
        } else {
            " AND r.credited = 0"
        });
    }
    let ghost s3 = sql@;
    let ghost p3 = param_views(params@);
    let query = match &filters.query {
        Some(q) => Some(trim_chars(&chars_of(q.as_str()))),
        None => None,
    };
    if let Some(q) = query {
        if q.len() > 0 {
            push_str(
                sql,
                " AND (r.key LIKE ? ESCAPE '\\' OR r.label LIKE ? ESCAPE '\\'
              OR r.id IN (SELECT resource_id FROM entry_resources
                           WHERE anchor LIKE ? ESCAPE '\\'))",
            );
            let text = string_of(&q);
            let pattern = contains(text.as_str());
            let ghost b = params@;
            params.push(Param::Text(pattern.clone()));
            params.push(Param::Text(pattern.clone()));
            params.push(Param::Text(pattern));
            assert(param_views(params@) =~= param_views(b) + seq![
                ParamView::Text(pattern@),
                ParamView::Text(pattern@),
                ParamView::Text(pattern@),
            ]);
        }
    }
    let ghost f = *filters;
    assert(sql@ =~= s0 + resource_filter_sql(f));
    assert(p1 =~= p0 + (match f.host {
        Some(h) => seq![ParamView::Text(lower_all(h@))],
        None => Seq::<ParamView>::empty(),
    }));
    assert(p2 =~= p1 + (match f.min_refs {
        Some(n) => seq![ParamView::Int(n as int)],
        None => Seq::<ParamView>::empty(),
    }));
    assert(param_views(params@) =~= p0 + resource_filter_params(f));
}

} // verus!
