//! How search snippets are rendered, and how entry listings are filtered in SQL.
use vstd::prelude::*;
use crate::apod::model::Filters;
use crate::date::ApodDate;
use crate::media::{KindFilter, MediaKind, kind_name};
use crate::text::{push_str, replace, replaced};

verus! {

/// What the full-text index writes before a match.
pub const MATCH_OPEN: &'static str = "\u{2}";

/// What the full-text index writes after a match.
pub const MATCH_CLOSE: &'static str = "\u{3}";

/// How a search snippet's matches are shown.
#[derive(Debug, Clone, PartialEq, Eq)]
pub enum Snippet {
    /// Escaped for HTML, matches in `<mark>`.
    Html,
    /// Matches between the given markers, text as it is.
    Delimited { open: String, close: String },
    /// Text as it is, matches unmarked.
    Plain,
}

/// What a snippet renders `raw` to.
pub open spec fn rendered_snippet(snippet: Snippet, raw: Seq<char>) -> Seq<char> {
    match snippet {
        Snippet::Html => replaced(
            replaced(
                replaced(replaced(replaced(raw, "&"@, "&amp;"@), "<"@, "&lt;"@), ">"@, "&gt;"@),
                MATCH_OPEN@,
                "<mark>"@,
            ),
            MATCH_CLOSE@,
            "</mark>"@,
        ),
        Snippet::Delimited { open, close } => replaced(
            replaced(raw, MATCH_OPEN@, open@),
            MATCH_CLOSE@,
            close@,
        ),
        Snippet::Plain => replaced(replaced(raw, MATCH_OPEN@, ""@), MATCH_CLOSE@, ""@),
    }
}

impl Default for Snippet {
    fn default() -> (s: Snippet)
        ensures
            s == Snippet::Html,
    {
        Snippet::Html
    }
}

impl Snippet {
    /// Renders a snippet the index marked up with its match markers.
    pub fn render(&self, raw: &str) -> (out: String)
        ensures
            out@ == rendered_snippet(*self, raw@),
    {
        proof {
            reveal_strlit("&");
            reveal_strlit("<");
            reveal_strlit(">");
            reveal_strlit("\u{2}");
            reveal_strlit("\u{3}");
        }
        match self {
            Snippet::Html => {
                let a = replace(raw, "&", "&amp;");
                let b = replace(a.as_str(), "<", "&lt;");
                let c = replace(b.as_str(), ">", "&gt;");
                let d = replace(c.as_str(), MATCH_OPEN, "<mark>");
                replace(d.as_str(), MATCH_CLOSE, "</mark>")
            },
            Snippet::Delimited { open, close } => {
                let a = replace(raw, MATCH_OPEN, open.as_str());
                replace(a.as_str(), MATCH_CLOSE, close.as_str())
            },
            Snippet::Plain => {
                let a = replace(raw, MATCH_OPEN, "");
                replace(a.as_str(), MATCH_CLOSE, "")
            },
        }
    }
}

/// A value bound to a placeholder of a query.
#[derive(Debug, Clone, PartialEq, Eq)]
pub enum Param {
    Int(i64),
    Text(String),
}

/// A bound value as plain data.
pub enum ParamView {
    Int(int),
    Text(Seq<char>),
}

pub open spec fn param_view(p: Param) -> ParamView {
    match p {
        Param::Int(n) => ParamView::Int(n as int),
        Param::Text(s) => ParamView::Text(s@),
    }
}

pub open spec fn param_views(ps: Seq<Param>) -> Seq<ParamView> {
    ps.map_values(|p: Param| param_view(p))
}

/// The dates of stored day numbers.
pub fn to_dates(days: Vec<i64>) -> (dates: Vec<ApodDate>)
    ensures
        dates@.len() == days@.len(),
        forall|k: int| 0 <= k < days@.len() ==> #[trigger] dates@[k]@ == days@[k] as i32,
{
    let mut dates: Vec<ApodDate> = Vec::new();
    let mut i: usize = 0;
    while i < days.len()
        invariant
            i <= days@.len(),
            dates@.len() == i,
            forall|k: int| 0 <= k < i ==> #[trigger] dates@[k]@ == days@[k] as i32,
        decreases days.len() - i,
    {
        dates.push(ApodDate::from_days(days[i] as i32));
        i = i + 1;
    }
    dates
}

/// `n` placeholders, comma-separated.
pub open spec fn placeholders(n: nat) -> Seq<char>
    decreases n,
{
    if n == 0 {
        Seq::empty()
    } else if n == 1 {
        "?"@
    } else {
        placeholders((n - 1) as nat) + ", ?"@
    }
}

/// The names of kinds, as bound values.
pub open spec fn kind_params(ks: Seq<MediaKind>) -> Seq<ParamView> {
    ks.map_values(|m: MediaKind| ParamView::Text(kind_name(m)))
}

pub open spec fn bound_sql(d: Option<ApodDate>, clause: Seq<char>) -> Seq<char> {
    if d is Some {
        clause
    } else {
        Seq::empty()
    }
}

pub open spec fn bound_params(d: Option<ApodDate>) -> Seq<ParamView> {
    match d {
        Some(d) => seq![ParamView::Int(d@ as int)],
        None => Seq::empty(),
    }
}

pub open spec fn kinds_sql(k: Option<KindFilter>) -> Seq<char> {
    match k {
        Some(k) => " AND entries.media_kind IN ("@ + placeholders(k@.len()) + ")"@,
        None => Seq::empty(),
    }
}

pub open spec fn kinds_params(k: Option<KindFilter>) -> Seq<ParamView> {
    match k {
        Some(k) => kind_params(k@),
        None => Seq::empty(),
    }
}

pub open spec fn copyright_sql(c: Option<bool>) -> Seq<char> {
    if c is Some {
        " AND entries.has_copyright = ?"@
    } else {
        Seq::empty()
    }
}

pub open spec fn copyright_params(c: Option<bool>) -> Seq<ParamView> {
    match c {
        Some(c) => seq![ParamView::Int(if c { 1int } else { 0int })],
        None => Seq::empty(),
    }
}

fn push_bound(sql: &mut String, params: &mut Vec<Param>, d: Option<ApodDate>, clause: &str)
    ensures
        final(sql)@ == old(sql)@ + bound_sql(d, clause@),
        param_views(final(params)@) == param_views(old(params)@) + bound_params(d),
{
    if let Some(d) = d {
        push_str(sql, clause);
        params.push(Param::Int(d.days() as i64));
        assert(param_views(params@) =~= param_views(old(params)@) + bound_params(Some(d)));
    } else {
        assert(sql@ =~= old(sql)@ + bound_sql(d, clause@));
        assert(param_views(params@) =~= param_views(old(params)@) + bound_params(d));
    }
}

fn push_kinds(sql: &mut String, params: &mut Vec<Param>, kind: &Option<KindFilter>)
    ensures
        final(sql)@ == old(sql)@ + kinds_sql(*kind),
        param_views(final(params)@) == param_views(old(params)@) + kinds_params(*kind),
{
    if let Some(kinds) = kind {
        let ks = kinds.kinds();
        push_str(sql, " AND entries.media_kind IN (");
        let ghost sql_open = sql@;
        let ghost p_open = param_views(params@);
        let mut i: usize = 0;
        assert(kind_params(ks@.take(0)) =~= Seq::<ParamView>::empty());
        while i < ks.len()
            invariant
                i <= ks@.len(),
                sql@ == sql_open + placeholders(i as nat),
                param_views(params@) == p_open + kind_params(ks@.take(i as int)),
            decreases ks.len() - i,
        {
            let ghost before = params@;
            if i == 0 {
                push_str(sql, "?");
            } else {
                push_str(sql, ", ?");
            }
            let name = ks[i].as_str().to_owned();
            params.push(Param::Text(name));
            assert(param_views(params@) =~= param_views(before).push(ParamView::Text(name@)));
            assert(kind_params(ks@.take(i + 1)) =~= kind_params(ks@.take(i as int)).push(
                ParamView::Text(kind_name(ks@[i as int])),
            ));
            i = i + 1;
            assert(param_views(params@) =~= p_open + kind_params(ks@.take(i as int)));
        }
        push_str(sql, ")");
        assert(ks@.take(i as int) =~= ks@);
    } else {
        assert(sql@ =~= old(sql)@ + kinds_sql(*kind));
        assert(param_views(params@) =~= param_views(old(params)@) + kinds_params(*kind));
    }
}

fn push_copyright(sql: &mut String, params: &mut Vec<Param>, copyright: Option<bool>)
    ensures
        final(sql)@ == old(sql)@ + copyright_sql(copyright),
        param_views(final(params)@) == param_views(old(params)@) + copyright_params(copyright),
{
    if let Some(c) = copyright {
        push_str(sql, " AND entries.has_copyright = ?");
        params.push(Param::Int(if c { 1 } else { 0 }));
        assert(param_views(params@) =~= param_views(old(params)@) + copyright_params(copyright));
    } else {
        assert(sql@ =~= old(sql)@ + copyright_sql(copyright));
        assert(param_views(params@) =~= param_views(old(params)@) + copyright_params(copyright));
    }
}

/// The clause the filters of an entry listing add.
pub open spec fn entry_filter_sql(f: Filters) -> Seq<char> {
    bound_sql(f.from, " AND entries.date_id >= ?"@) + bound_sql(f.to, " AND entries.date_id <= ?"@)
        + kinds_sql(f.kind) + copyright_sql(f.copyright)
}

/// The values the filters of an entry listing bind, in placeholder order.
pub open spec fn entry_filter_params(f: Filters) -> Seq<ParamView> {
    bound_params(f.from) + bound_params(f.to) + kinds_params(f.kind) + copyright_params(
        f.copyright,
    )
}

/// Adds the conditions of `filters` to a `WHERE` clause, and their values to `params`.
pub fn push_filters(sql: &mut String, params: &mut Vec<Param>, filters: &Filters)
    ensures
        final(sql)@ == old(sql)@ + entry_filter_sql(*filters),
        param_views(final(params)@) == param_views(old(params)@) + entry_filter_params(*filters),
{
    push_bound(sql, params, filters.from, " AND entries.date_id >= ?");
    push_bound(sql, params, filters.to, " AND entries.date_id <= ?");
    push_kinds(sql, params, &filters.kind);
    push_copyright(sql, params, filters.copyright);
    assert(sql@ =~= old(sql)@ + entry_filter_sql(*filters));
    assert(param_views(params@) =~= param_views(old(params)@) + entry_filter_params(*filters));
}

} // verus!
