//! Full-text search, apart from running its SQL: what to run, and what the rows it brings back
//! make for a reader.
use vstd::prelude::*;
use crate::apod::model::Filters;
use crate::apod::read::{
    entry_filter_params, entry_filter_sql, param_views, push_filters, rendered_snippet, Param,
    ParamView, Snippet, MATCH_OPEN,
};
use crate::entry::{joined, ApodSummary, Matched, SearchHit};
use crate::query::{fts, fts_query};
use crate::text::{
    contains_chars, decimal, has_seq, push_decimal, push_str, chars_of, find_first_seq, push_range, slice_chars, strip_char, strip_lead, strip_trail,
    strip_both, string_of, trim, trim_chars,
};

verus! {

/// `s` cut at every occurrence of `p`, left to right (`str::split` with a pattern).
pub open spec fn split_seq(s: Seq<char>, p: Seq<char>) -> Seq<Seq<char>>
    decreases s.len(),
{
    let i = first_occurrence_at(s, p);
    if p.len() == 0 || i < 0 || i + p.len() > s.len() {
        seq![s]
    } else {
        seq![s.take(i)] + split_seq(s.skip(i + p.len()), p)
    }
}

pub open spec fn first_occurrence_at(s: Seq<char>, p: Seq<char>) -> int {
    crate::text::first_occurrence(s, p)
}

/// Cuts `v` at every occurrence of `p`.
pub fn split_chars(v: &Vec<char>, p: &Vec<char>) -> (out: Vec<Vec<char>>)
    requires
        p@.len() > 0,
    ensures
        out@.map_values(|w: Vec<char>| w@) == split_seq(v@, p@),
{
    let mut out: Vec<Vec<char>> = Vec::new();
    let mut rest = slice_chars(v, 0, v.len());
    assert(rest@ =~= v@);
    assert(out@.map_values(|w: Vec<char>| w@) + split_seq(rest@, p@) =~= split_seq(v@, p@));
    loop
        invariant
            p@.len() > 0,
            out@.map_values(|w: Vec<char>| w@) + split_seq(rest@, p@) == split_seq(v@, p@),
        decreases rest@.len(),
    {
        match find_first_seq(&rest, p) {
            None => {
                let ghost before = out@;
                out.push(rest);
                assert(out@.map_values(|w: Vec<char>| w@) =~= before.map_values(|w: Vec<char>| w@)
                    + split_seq(rest@, p@));
                return out;
            },
            Some(i) => {
                let rl = rest.len();
                assert(i + p@.len() <= rl);
                let head = slice_chars(&rest, 0, i);
                let tail = slice_chars(&rest, i + p.len(), rl);
                assert(head@ =~= rest@.take(i as int));
                assert(tail@ =~= rest@.skip(i + p@.len()));
                let ghost before = out@;
                out.push(head);
                assert(out@.map_values(|w: Vec<char>| w@) =~= before.map_values(|w: Vec<char>| w@)
                    + seq![head@]);
                rest = tail;
            },
        }
    }
}

/// Parts joined with `sep` between each.
pub fn join_chars(parts: &Vec<Vec<char>>, sep: &Vec<char>) -> (out: String)
    ensures
        out@ == joined(parts@.map_values(|w: Vec<char>| w@), sep@),
{
    let ghost pv = parts@.map_values(|w: Vec<char>| w@);
    let mut out = String::new();
    let mut k: usize = 0;
    assert(pv.take(0) =~= Seq::<Seq<char>>::empty());
    while k < parts.len()
        invariant
            k <= parts@.len(),
            pv == parts@.map_values(|w: Vec<char>| w@),
            out@ == joined(pv.take(k as int), sep@),
        decreases parts.len() - k,
    {
        let ghost before = out@;
        if k > 0 {
            push_range(&mut out, sep, 0, sep.len());
            assert(sep@.subrange(0, sep@.len() as int) =~= sep@);
        }
        push_range(&mut out, &parts[k], 0, parts[k].len());
        assert(parts@[k as int]@.subrange(0, parts@[k as int]@.len() as int) =~= pv[k as int]);
        assert(pv.take(k + 1).drop_last() =~= pv.take(k as int));
        if k == 0 {
            assert(out@ =~= pv.take(1)[0]);
        } else {
            assert(out@ =~= joined(pv.take(k as int), sep@) + sep@ + pv[k as int]);
        }
        k = k + 1;
    }
    assert(pv.take(k as int) =~= pv);
    out
}

/// The words of a stored keyword list: each cut at `","`, trimmed of whitespace and quotes,
/// the empty ones left out.
pub open spec fn keyword_words(parts: Seq<Seq<char>>) -> Seq<Seq<char>>
    decreases parts.len(),
{
    if parts.len() == 0 {
        Seq::empty()
    } else {
        let w = strip_both(trim(parts.last()), '"');
        let r = keyword_words(parts.drop_last());
        if w.len() > 0 {
            r.push(w)
        } else {
            r
        }
    }
}

/// A stored keyword list (`["a","b"]`) as the words a reader sees, `a, b`.
pub open spec fn keyword_text(raw: Seq<char>) -> Seq<char> {
    let inner = strip_trail(strip_lead(trim(raw), '['), ']');
    joined(keyword_words(split_seq(inner, "\",\""@)), ", "@)
}

fn strip_lead_chars(v: &Vec<char>, c: char) -> (out: Vec<char>)
    ensures
        out@ == strip_lead(v@, c),
{
    let mut start: usize = 0;
    assert(v@.skip(0) =~= v@);
    while start < v.len() && v[start] == c
        invariant
            start <= v@.len(),
            strip_lead(v@, c) == strip_lead(v@.skip(start as int), c),
        decreases v.len() - start,
    {
        assert(v@.skip(start as int).skip(1) =~= v@.skip(start + 1));
        start = start + 1;
    }
    let out = slice_chars(v, start, v.len());
    assert(out@ =~= v@.skip(start as int));
    out
}

fn strip_trail_chars(v: &Vec<char>, c: char) -> (out: Vec<char>)
    ensures
        out@ == strip_trail(v@, c),
{
    let mut end: usize = v.len();
    assert(v@.take(end as int) =~= v@);
    while end > 0 && v[end - 1] == c
        invariant
            end <= v@.len(),
            strip_trail(v@, c) == strip_trail(v@.take(end as int), c),
        decreases end,
    {
        assert(v@.take(end as int).drop_last() =~= v@.take(end - 1));
        end = end - 1;
    }
    let out = slice_chars(v, 0, end);
    assert(out@ =~= v@.take(end as int));
    out
}

/// A stored keyword list as the words a reader sees.
pub fn keyword_list(raw: &str) -> (out: String)
    ensures
        out@ == keyword_text(raw@),
{
    let inner = strip_trail_chars(&strip_lead_chars(&trim_chars(&chars_of(raw)), '['), ']');
    let sep = chars_of("\",\"");
    proof {
        reveal_strlit("\",\"");
    }
    let parts = split_chars(&inner, &sep);
    let ghost pv = parts@.map_values(|w: Vec<char>| w@);
    let mut words: Vec<Vec<char>> = Vec::new();
    let mut k: usize = 0;
    assert(pv.take(0) =~= Seq::<Seq<char>>::empty());
    while k < parts.len()
        invariant
            k <= parts@.len(),
            pv == parts@.map_values(|w: Vec<char>| w@),
            words@.map_values(|w: Vec<char>| w@) == keyword_words(pv.take(k as int)),
        decreases parts.len() - k,
    {
        let w = strip_char(&trim_chars(&parts[k]), '"');
        assert(pv.take(k + 1).drop_last() =~= pv.take(k as int));
        assert(pv.take(k + 1).last() == parts@[k as int]@);
        if w.len() > 0 {
            let ghost before = words@;
            words.push(w);
            assert(words@.map_values(|w: Vec<char>| w@) =~= before.map_values(|w: Vec<char>| w@).push(
                w@,
            ));
        }
        k = k + 1;
    }
    assert(pv.take(k as int) =~= pv);
    join_chars(&words, &chars_of(", "))
}

/// The columns a listing reads of an entry.
pub const SUMMARY_COLUMNS: &'static str = "date_id, title, has_copyright, media_kind, media_url, media_hd_url, thumb_path, thumb_width, thumb_height, picture_group";

/// The summary columns, each read from the entries table of a join.
pub open spec fn prefixed_columns() -> Seq<char> {
    joined(split_seq(SUMMARY_COLUMNS@, ", "@).map_values(|c: Seq<char>| "entries."@ + c), ", "@)
}

fn prefixed_summary_columns() -> (out: String)
    ensures
        out@ == prefixed_columns(),
{
    let sep = chars_of(", ");
    proof {
        reveal_strlit(", ");
    }
    let cols = split_chars(&chars_of(SUMMARY_COLUMNS), &sep);
    let ghost cv = cols@.map_values(|w: Vec<char>| w@);
    let prefix = chars_of("entries.");
    let mut named: Vec<Vec<char>> = Vec::new();
    let mut k: usize = 0;
    while k < cols.len()
        invariant
            k <= cols@.len(),
            cv == cols@.map_values(|w: Vec<char>| w@),
            prefix@ == "entries."@,
            named@.map_values(|w: Vec<char>| w@) == cv.take(k as int).map_values(
                |c: Seq<char>| "entries."@ + c,
            ),
        decreases cols.len() - k,
    {
        let mut w = slice_chars(&prefix, 0, prefix.len());
        let mut j: usize = 0;
        assert(w@ =~= prefix@);
        while j < cols[k].len()
            invariant
                k < cols@.len(),
                j <= cols@[k as int]@.len(),
                w@ == prefix@ + cols@[k as int]@.take(j as int),
            decreases cols@[k as int]@.len() - j,
        {
            w.push(cols[k][j]);
            assert(cols@[k as int]@.take(j + 1) =~= cols@[k as int]@.take(j as int).push(cols@[k as int]@[j as int]));
            j = j + 1;
        }
        assert(cols@[k as int]@.take(j as int) =~= cols@[k as int]@);
        assert(cv[k as int] == cols@[k as int]@);
        assert(w@ == "entries."@ + cv[k as int]);
        let ghost before = named@;
        named.push(w);
        assert(named@ == before.push(w));
        assert(named@.map_values(|w: Vec<char>| w@) =~= before.map_values(|w: Vec<char>| w@).push(w@));
        assert(cv.take(k + 1) =~= cv.take(k as int).push(cv[k as int]));
        assert(cv.take(k + 1).map_values(|c: Seq<char>| "entries."@ + c) =~= cv.take(k as int).map_values(
            |c: Seq<char>| "entries."@ + c,
        ).push("entries."@ + cv[k as int]));
        k = k + 1;
    }
    assert(cv.take(k as int) =~= cv);
    join_chars(&named, &sep)
}

/// How results are ordered: newest first, or by relevance, a title hit weighing most.
pub open spec fn search_ordering(by_date: bool) -> Seq<char> {
    if by_date {
        "entries.date_id DESC"@
    } else {
        "bm25(entries_fts, 10.0, 1.0, 2.0, 5.0) ASC"@
    }
}

/// How many tokens a snippet may run to: what was asked, kept within 1 to 64.
pub open spec fn snippet_tokens_of(asked: usize) -> int {
    if asked < 1 {
        1
    } else if asked > 64 {
        64
    } else {
        asked as int
    }
}

/// A search, ready to run: how to count its matches and how to read a page of them, each with
/// the values it binds.
pub struct SearchPlan {
    pub count_sql: String,
    pub count_params: Vec<Param>,
    pub select_sql: String,
    pub select_params: Vec<Param>,
}

/// What a search does: list by the filters alone when the query is blank, find nothing when
/// the query has nothing to match, or run a plan.
pub enum SearchStep {
    Listing,
    Nothing,
    Run(SearchPlan),
}

pub open spec fn match_where(filters: Filters) -> Seq<char> {
    "WHERE entries_fts MATCH ?"@ + entry_filter_sql(filters)
}

pub open spec fn count_sql_of(filters: Filters) -> Seq<char> {
    "SELECT COUNT(*) FROM entries_fts JOIN entries ON entries.date_id = entries_fts.rowid "@
        + match_where(filters)
}

pub open spec fn select_sql_of(filters: Filters, by_date: bool, tokens: usize) -> Seq<char> {
    "SELECT "@ + prefixed_columns() + ", snippet(entries_fts, 1, char(2), char(3), '\u{2026}', "@
        + decimal(snippet_tokens_of(tokens) as nat)
        + "), highlight(entries_fts, 0, char(2), char(3)), highlight(entries_fts, 2, char(2), char(3)), highlight(entries_fts, 3, char(2), char(3)) FROM entries_fts JOIN entries ON entries.date_id = entries_fts.rowid "@
        + match_where(filters) + " ORDER BY "@ + search_ordering(by_date) + " LIMIT ? OFFSET ?"@
}

/// A plan as plain values: its count SQL and values, its select SQL and values.
pub type PlanView = (Seq<char>, Seq<ParamView>, Seq<char>, Seq<ParamView>);

/// What a search runs: `None` for a listing, `Some(None)` for nothing to find.
pub open spec fn search_plan_of(
    raw: Seq<char>,
    filters: Filters,
    by_date: bool,
    offset: usize,
    limit: usize,
    tokens: usize,
) -> Option<Option<PlanView>> {
    if trim(raw).len() == 0 {
        None
    } else {
        match fts(raw) {
            None => Some(None),
            Some(q) => {
                let params = seq![ParamView::Text(q)] + entry_filter_params(filters);
                Some(
                    Some(
                        (
                            count_sql_of(filters),
                            params,
                            select_sql_of(filters, by_date, tokens),
                            params + seq![
                                ParamView::Int((limit as i64) as int),
                                ParamView::Int((offset as i64) as int),
                            ],
                        ),
                    ),
                )
            },
        }
    }
}

pub open spec fn step_view(s: SearchStep) -> Option<Option<PlanView>> {
    match s {
        SearchStep::Listing => None,
        SearchStep::Nothing => Some(None),
        SearchStep::Run(p) => Some(
            Some((p.count_sql@, param_views(p.count_params@), p.select_sql@, param_views(p.select_params@))),
        ),
    }
}

/// Plans a search of `query`, narrowed by `filters`, a page of `limit` from `offset`, snippets
/// of `snippet_tokens`.
pub fn search_plan(
    query: &str,
    filters: &Filters,
    by_date: bool,
    offset: usize,
    limit: usize,
    snippet_tokens: usize,
) -> (r: SearchStep)
    ensures
        step_view(r) == search_plan_of(query@, *filters, by_date, offset, limit, snippet_tokens),
{
    if trim_chars(&chars_of(query)).len() == 0 {
        return SearchStep::Listing;
    }
    let q = match fts_query(query) {
        Some(q) => q,
        None => return SearchStep::Nothing,
    };
    let mut where_clause = String::new();
    push_str(&mut where_clause, "WHERE entries_fts MATCH ?");
    let mut params: Vec<Param> = Vec::new();
    params.push(Param::Text(q));
    assert(param_views(params@) =~= seq![ParamView::Text(fts(query@)->0)]);
    push_filters(&mut where_clause, &mut params, filters);
    let mut count_sql = String::new();
    push_str(&mut count_sql, "SELECT COUNT(*) FROM entries_fts JOIN entries ON entries.date_id = entries_fts.rowid ");
    push_str(&mut count_sql, where_clause.as_str());
    let tokens: u64 = if snippet_tokens < 1 {
        1
    } else if snippet_tokens > 64 {
        64
    } else {
        snippet_tokens as u64
    };
    let ordering = if by_date {
        "entries.date_id DESC"
    } else {
        "bm25(entries_fts, 10.0, 1.0, 2.0, 5.0) ASC"
    };
    let mut select_sql = String::new();
    push_str(&mut select_sql, "SELECT ");
    push_str(&mut select_sql, prefixed_summary_columns().as_str());
    push_str(&mut select_sql, ", snippet(entries_fts, 1, char(2), char(3), '\u{2026}', ");
    push_decimal(&mut select_sql, tokens);
    push_str(&mut select_sql, "), highlight(entries_fts, 0, char(2), char(3)), highlight(entries_fts, 2, char(2), char(3)), highlight(entries_fts, 3, char(2), char(3)) FROM entries_fts JOIN entries ON entries.date_id = entries_fts.rowid ");
    push_str(&mut select_sql, where_clause.as_str());
    push_str(&mut select_sql, " ORDER BY ");
    push_str(&mut select_sql, ordering);
    push_str(&mut select_sql, " LIMIT ? OFFSET ?");
    let count_params = copy_params(&params);
    let ghost pv = param_views(params@);
    params.push(Param::Int(limit as i64));
    params.push(Param::Int(offset as i64));
    assert(param_views(params@) =~= pv + seq![
        ParamView::Int((limit as i64) as int),
        ParamView::Int((offset as i64) as int),
    ]);
    assert(select_sql@ =~= select_sql_of(*filters, by_date, snippet_tokens));
    assert(count_sql@ =~= count_sql_of(*filters));
    SearchStep::Run(SearchPlan { count_sql, count_params, select_sql, select_params: params })
}

fn copy_params(ps: &Vec<Param>) -> (out: Vec<Param>)
    ensures
        param_views(out@) == param_views(ps@),
{
    let mut out: Vec<Param> = Vec::new();
    let mut k: usize = 0;
    while k < ps.len()
        invariant
            k <= ps@.len(),
            param_views(out@) == param_views(ps@).take(k as int),
        decreases ps.len() - k,
    {
        let p = match &ps[k] {
            Param::Int(n) => Param::Int(*n),
            Param::Text(t) => Param::Text(string_of(&chars_of(t.as_str()))),
        };
        assert(crate::apod::read::param_view(p) == crate::apod::read::param_view(ps@[k as int]));
        let ghost before = out@;
        out.push(p);
        assert(out@ == before.push(p));
        assert(param_views(out@) =~= param_views(before).push(crate::apod::read::param_view(p)));
        assert(param_views(ps@).take(k + 1) =~= param_views(ps@).take(k as int).push(
            crate::apod::read::param_view(ps@[k as int]),
        ));
        k = k + 1;
    }
    assert(param_views(ps@).take(k as int) =~= param_views(ps@));
    out
}

/// One row of a search, as the query reads it: the entry's summary, the explanation's snippet,
/// and the title, credits and keywords with their matches marked.
pub struct SearchRow {
    pub summary: ApodSummary,
    pub snippet: String,
    pub title: String,
    pub credit: Option<String>,
    pub keywords: Option<String>,
}

/// Whether a text the index highlighted holds a match.
pub open spec fn marked(t: Seq<char>) -> bool {
    has_seq(t, MATCH_OPEN@)
}

pub open spec fn opt_marked(t: Option<String>) -> bool {
    match t {
        Some(s) => marked(s@),
        None => false,
    }
}

/// Where a row matched.
pub open spec fn matched_of(row: SearchRow) -> Matched {
    Matched {
        title: marked(row.title@),
        explanation: marked(row.snippet@),
        credit: opt_marked(row.credit),
        keywords: opt_marked(row.keywords),
    }
}

pub open spec fn text_or_empty(t: Option<String>) -> Seq<char> {
    match t {
        Some(s) => s@,
        None => Seq::empty(),
    }
}

pub open spec fn rendered_opt(o: Option<String>) -> Option<Seq<char>> {
    match o {
        Some(s) => Some(s@),
        None => None,
    }
}

/// A hit is what a row makes: its summary, its snippet rendered, where it matched, and its
/// credits and keywords rendered where they matched.
pub open spec fn hit_of_row(h: SearchHit, row: SearchRow, snippet: Snippet) -> bool {
    let m = matched_of(row);
    &&& h.entry == row.summary
    &&& h.snippet@ == rendered_snippet(snippet, row.snippet@)
    &&& h.matched == m
    &&& rendered_opt(h.credit) == if m.credit {
        Some(rendered_snippet(snippet, text_or_empty(row.credit)))
    } else {
        None
    }
    &&& rendered_opt(h.keywords) == if m.keywords {
        Some(rendered_snippet(snippet, keyword_text(text_or_empty(row.keywords))))
    } else {
        None
    }
}

fn is_marked(t: &str) -> (b: bool)
    ensures
        b == marked(t@),
{
    contains_chars(&chars_of(t), &chars_of(MATCH_OPEN))
}

fn hit_from_row(row: SearchRow, snippet: &Snippet) -> (h: SearchHit)
    ensures
        hit_of_row(h, row, *snippet),
{
    let ghost r = row;
    let SearchRow { summary, snippet: snip, title, credit, keywords } = row;
    let credit_hit = match &credit {
        Some(c) => is_marked(c.as_str()),
        None => false,
    };
    let keywords_hit = match &keywords {
        Some(k) => is_marked(k.as_str()),
        None => false,
    };
    let matched = Matched {
        title: is_marked(title.as_str()),
        explanation: is_marked(snip.as_str()),
        credit: credit_hit,
        keywords: keywords_hit,
    };
    let credit_text = if credit_hit {
        match &credit {
            Some(c) => Some(snippet.render(c.as_str())),
            None => Some(snippet.render("")),
        }
    } else {
        None
    };
    let keyword_text_out = if keywords_hit {
        match &keywords {
            Some(k) => Some(snippet.render(keyword_list(k.as_str()).as_str())),
            None => Some(snippet.render(keyword_list("").as_str())),
        }
    } else {
        None
    };
    SearchHit {
        entry: summary,
        snippet: snippet.render(snip.as_str()),
        matched,
        credit: credit_text,
        keywords: keyword_text_out,
    }
}

/// What the rows a search read make for a reader, one hit per row, in order.
pub fn search_hits(rows: Vec<SearchRow>, snippet: &Snippet) -> (hits: Vec<SearchHit>)
    ensures
        hits@.len() == rows@.len(),
        forall|k: int| 0 <= k < rows@.len() ==> hit_of_row(#[trigger] hits@[k], rows@[k], *snippet),
{
    let ghost all = rows@;
    let mut rest = rows;
    let mut hits: Vec<SearchHit> = Vec::new();
    while rest.len() > 0
        invariant
            hits@.len() + rest@.len() == all.len(),
            rest@ == all.skip(hits@.len() as int),
            forall|k: int| 0 <= k < hits@.len() ==> hit_of_row(#[trigger] hits@[k], all[k], *snippet),
        decreases rest@.len(),
    {
        let ghost n = hits@.len();
        let row = rest.remove(0);
        assert(row == all[n as int]);
        let h = hit_from_row(row, snippet);
        hits.push(h);
        assert(rest@ =~= all.skip(hits@.len() as int));
    }
    hits
}

} // verus!
