//! How listings of pictures that ran more than once are filtered and ordered in SQL.
use vstd::prelude::*;
use crate::apod::catalogue::{escape_like, like_escaped};
use crate::apod::model::{Order, PictureFilters, PictureOrder};
use crate::apod::read::{Param, ParamView, param_views};
use crate::entry::{Credit, joined};
use crate::text::{chars_of, push_char, push_str, string_of, trim, trim_chars};

verus! {

/// The search text of a picture filter, when it has any once trimmed.
pub open spec fn picture_query(f: PictureFilters) -> Option<Seq<char>> {
    match f.query {
        Some(q) => if trim(q@).len() > 0 {
            Some(trim(q@))
        } else {
            None
        },
        None => None,
    }
}

/// The clause the filters of a picture listing add.
pub open spec fn picture_filter_sql(f: PictureFilters) -> Seq<char> {
    (if picture_query(f) is Some {
        " AND EXISTS (SELECT 1 FROM entries r WHERE r.picture_group = g.picture_group AND r.title LIKE ? ESCAPE '\\')"@
    } else {
        Seq::empty()
    }) + (if f.min_appearances is Some {
        " AND g.shown >= ?"@
    } else {
        Seq::empty()
    }) + (match f.retitled {
        Some(true) => " AND g.titles > 1"@,
        Some(false) => " AND g.titles = 1"@,
        None => Seq::empty(),
    })
}

/// The values the filters of a picture listing bind, in placeholder order.
pub open spec fn picture_filter_params(f: PictureFilters) -> Seq<ParamView> {
    (match picture_query(f) {
        Some(q) => seq![ParamView::Text(seq!['%'] + like_escaped(q) + seq!['%'])],
        None => Seq::empty(),
    }) + (match f.min_appearances {
        Some(n) => seq![ParamView::Int(n as int)],
        None => Seq::empty(),
    })
}

/// Adds the conditions of `filters` to a picture listing's `WHERE` clause.
pub fn push_filters(where_clause: &mut String, params: &mut Vec<Param>, filters: &PictureFilters)
    ensures
        final(where_clause)@ == old(where_clause)@ + picture_filter_sql(*filters),
        param_views(final(params)@) == param_views(old(params)@) + picture_filter_params(*filters),
{
    let ghost s0 = where_clause@;
    let ghost p0 = param_views(params@);
    let query = match &filters.query {
        Some(q) => Some(trim_chars(&chars_of(q.as_str()))),
        None => None,
    };
    if let Some(q) = query {
        if q.len() > 0 {
            push_str(
                where_clause,
                " AND EXISTS (SELECT 1 FROM entries r WHERE r.picture_group = g.picture_group AND r.title LIKE ? ESCAPE '\\')",
            );
            let mut pattern = String::new();
            push_char(&mut pattern, '%');
            push_str(&mut pattern, escape_like(string_of(&q).as_str()).as_str());
            push_char(&mut pattern, '%');
            let ghost b = params@;
            assert(pattern@ =~= seq!['%'] + like_escaped(q@) + seq!['%']);
            params.push(Param::Text(pattern));
            assert(param_views(params@) =~= param_views(b).push(ParamView::Text(pattern@)));
            assert(picture_query(*filters) == Some(q@));
        }
    }
    let ghost p1 = param_views(params@);
    if let Some(min) = filters.min_appearances {
        push_str(where_clause, " AND g.shown >= ?");
        let ghost b = params@;
        params.push(Param::Int(min));
        assert(param_views(params@) =~= param_views(b).push(ParamView::Int(min as int)));
    }
    match filters.retitled {
        Some(true) => push_str(where_clause, " AND g.titles > 1"),
        Some(false) => push_str(where_clause, " AND g.titles = 1"),
        None => {},
    }
    let ghost f = *filters;
    assert(p1 =~= p0 + (match picture_query(f) {
        Some(q) => seq![ParamView::Text(seq!['%'] + like_escaped(q) + seq!['%'])],
        None => Seq::<ParamView>::empty(),
    }));
    assert(where_clause@ =~= s0 + picture_filter_sql(f));
    assert(param_views(params@) =~= p0 + picture_filter_params(f));
}

pub open spec fn picture_column(order: PictureOrder) -> Seq<char> {
    match order {
        PictureOrder::Appearances => "g.shown"@,
        PictureOrder::First => "g.first_id"@,
        PictureOrder::Last => "g.last_id"@,
        PictureOrder::Span => "g.last_id - g.first_id"@,
        PictureOrder::Title => "e.title COLLATE NOCASE"@,
    }
}

pub open spec fn direction_word(direction: Order) -> Seq<char> {
    match direction {
        Order::Asc => "ASC"@,
        Order::Desc => "DESC"@,
    }
}

/// The `ORDER BY` terms of a picture listing, ties broken by the picture.
pub fn ordering(order: PictureOrder, direction: Order) -> (s: String)
    ensures
        s@ == picture_column(order) + seq![' '] + direction_word(direction)
            + ", g.picture_group ASC"@,
{
    let sort = match direction {
        Order::Asc => "ASC",
        Order::Desc => "DESC",
    };
    let column = match order {
        PictureOrder::Appearances => "g.shown",
        PictureOrder::First => "g.first_id",
        PictureOrder::Last => "g.last_id",
        PictureOrder::Span => "g.last_id - g.first_id",
        PictureOrder::Title => "e.title COLLATE NOCASE",
    };
    let mut s = String::new();
    push_str(&mut s, column);
    push_char(&mut s, ' ');
    push_str(&mut s, sort);
    push_str(&mut s, ", g.picture_group ASC");
    s
}

/// One credit as a line: `role: text`.
pub open spec fn credit_line(c: Credit) -> Seq<char> {
    c.role@ + ": "@ + c.text@
}

pub open spec fn credit_lines(cs: Seq<Credit>) -> Seq<Seq<char>> {
    cs.map_values(|c: Credit| credit_line(c))
}

/// The credits of an entry as one block, a line per role.
pub fn credit_block(credits: Vec<Credit>) -> (s: String)
    ensures
        s@ == joined(credit_lines(credits@), "\n"@),
{
    let ghost lines = credit_lines(credits@);
    let mut s = String::new();
    let mut i: usize = 0;
    while i < credits.len()
        invariant
            i <= credits@.len(),
            lines == credit_lines(credits@),
            s@ == joined(lines.take(i as int), "\n"@),
        decreases credits.len() - i,
    {
        assert(lines.take(i + 1).drop_last() =~= lines.take(i as int));
        let ghost before = s@;
        if i > 0 {
            push_str(&mut s, "\n");
        }
        push_str(&mut s, credits[i].role.as_str());
        push_str(&mut s, ": ");
        push_str(&mut s, credits[i].text.as_str());
        i = i + 1;
        assert(lines.take(i as int).last() == credit_line(credits@[i - 1]));
        if i > 1 {
            assert(s@ =~= before + "\n"@ + credit_line(credits@[i - 1]));
        } else {
            assert(s@ =~= credit_line(credits@[i - 1]));
        }
    }
    assert(lines.take(i as int) =~= lines);
    s
}

} // verus!
