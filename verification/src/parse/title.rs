//! An entry's title, from its page or from the modern record's rendered title.
use vstd::prelude::*;
use crate::date::{ApodDate, CE_TO_UNIX, START_EPOCH_DAY, chrono_parsed};
use crate::html::{DomItem, NodeView, collapse, collapsed, items_view, parse_fragment, parsed_fragment, str_views};
use crate::parse::credit::{all_role_words, is_all_role_words};
use crate::parse::dom::{find_below, find_named, index_views, named_below, named_between, root_element, root_from, text_below};
use crate::parse::inner_text;
use crate::pattern::{captures, captures_of, captures_view, find_first, group_of, group_present, group_text, groups_in, has_group, is_match, matches_somewhere, span_end, span_start, spans_view, without_first};
use crate::quality::teaser_label_pattern;
use crate::text::{
    chars_eq, chars_of, find_last_seq, last_occurrence, lower_all, lower_chars, push_str,
    skip_space, slice_chars, starts_with, starts_with_chars, string_of, trim_start,
};

verus! {

/// A credit that ran into the title, and everything after it.
pub open spec fn trailing_credit_pattern() -> Seq<char> {
    "(?i)\\s*\\bcredits?\\b.*$"@
}

fn trailing_credit_pattern_text() -> (p: &'static str)
    ensures
        p@ == trailing_credit_pattern(),
{
    "(?i)\\s*\\bcredits?\\b.*$"
}

fn teaser_label_pattern_text() -> (p: &'static str)
    ensures
        p@ == teaser_label_pattern(),
{
    "(?i)^tomorrow['\\u{2019}]s\\s+picture\\b"
}

/// The date the modern record's title starts with, and the separator after it.
pub open spec fn modern_prefix_pattern() -> Seq<char> {
    "^(\\d{4})\\s+([A-Za-z]+)(?:\\s+(\\d{1,2}))?\\s*[\\u{2013}\\u{2014}-]\\s*"@
}

fn modern_prefix_pattern_text() -> (p: &'static str)
    ensures
        p@ == modern_prefix_pattern(),
{
    "^(\\d{4})\\s+([A-Za-z]+)(?:\\s+(\\d{1,2}))?\\s*[\\u{2013}\\u{2014}-]\\s*"
}

/// What the site prints in bold that is never a title.
pub open spec fn boilerplate() -> Seq<Seq<char>> {
    seq!["astronomy picture of the day"@, "astronomy picture of the day archive"@, "discover the cosmos!"@]
}

/// A title candidate without a credit that ran into it, whitespace collapsed.
pub open spec fn cleaned(raw: Seq<char>) -> Seq<char> {
    collapsed(without_first(raw, trailing_credit_pattern()))
}

/// Whether a candidate can be a title: not empty, not overlong, not the site's banner, not the
/// next day's teaser label, not a run of role words.
pub open spec fn plausible(c: Seq<char>) -> bool {
    &&& c.len() > 0
    &&& c.len() < 300
    &&& !boilerplate().contains(lower_all(c))
    &&& !matches_somewhere(teaser_label_pattern(), c)
    &&& !all_role_words(c)
}

fn clean(raw: &str) -> (c: String)
    ensures
        c@ == cleaned(raw@),
{
    proof {
        reveal_strlit("");
    }
    let without = match find_first(trailing_credit_pattern_text(), raw) {
        Some((a, b)) => crate::original::splice(raw, a, b, ""),
        None => string_of(&chars_of(raw)),
    };
    collapse(without.as_str())
}

fn is_plausible(c: &str) -> (b: bool)
    ensures
        b == plausible(c@),
{
    let v = chars_of(c);
    if v.len() == 0 || v.len() >= 300 {
        return false;
    }
    let low = lower_chars(&v);
    let banners = vec![
        "astronomy picture of the day", "astronomy picture of the day archive",
        "discover the cosmos!",
    ];
    assert(str_views(banners@) =~= boilerplate());
    let mut k: usize = 0;
    while k < banners.len()
        invariant
            k <= banners@.len(),
            str_views(banners@) == boilerplate(),
            low@ == lower_all(c@),
            forall|j: int| 0 <= j < k ==> boilerplate()[j] != lower_all(c@),
        decreases banners.len() - k,
    {
        if chars_eq(&low, &chars_of(banners[k])) {
            assert(boilerplate()[k as int] == lower_all(c@));
            return false;
        }
        k = k + 1;
    }
    assert(!boilerplate().contains(lower_all(c@)));
    !is_match(teaser_label_pattern_text(), c) && !is_all_role_words(c)
}

/// The first plausible title among the bold elements `bs`, from the `k`th on.
pub open spec fn first_plausible(items: Seq<(int, NodeView)>, bs: Seq<int>, k: int) -> Option<Seq<char>>
    decreases bs.len() - k,
{
    if k < 0 || k >= bs.len() {
        None
    } else {
        let c = cleaned(inner_text(items, bs[k]));
        if plausible(c) {
            Some(c)
        } else {
            first_plausible(items, bs, k + 1)
        }
    }
}

/// The title from the `center` blocks tried in `order`, from the `k`th on.
pub open spec fn center_title(items: Seq<(int, NodeView)>, centers: Seq<int>, order: Seq<int>, k: int) -> Option<Seq<char>>
    decreases order.len() - k,
{
    if k < 0 || k >= order.len() {
        None
    } else {
        let idx = order[k];
        let found = if 0 <= idx < centers.len() {
            first_plausible(items, named_below(items, centers[idx], "b"@), 0)
        } else {
            None
        };
        match found {
            Some(t) => Some(t),
            None => center_title(items, centers, order, k + 1),
        }
    }
}

/// The order the `center` blocks are tried in: the one a page of `n` of them most likely holds
/// its title in (the first of two, else the second), then all of them.
pub open spec fn center_order(n: int) -> Seq<int> {
    seq![if n == 2 { 0int } else { 1int }] + Seq::new(n as nat, |i: int| i)
}

/// The title in bold in the page's `center` blocks.
pub open spec fn from_center_of(items: Seq<(int, NodeView)>) -> Option<Seq<char>> {
    let centers = named_between(items, "center"@, 0, items.len() as int);
    if centers.len() == 0 {
        None
    } else {
        center_title(items, centers, center_order(centers.len() as int), 0)
    }
}

/// The page's `title` element, its whitespace collapsed, unless that leaves nothing.
pub open spec fn raw_title_of(items: Seq<(int, NodeView)>) -> Option<Seq<char>> {
    let ts = named_between(items, "title"@, 0, items.len() as int);
    if ts.len() == 0 {
        None
    } else {
        let t = collapsed(inner_text(items, ts[0]));
        if t.len() == 0 {
            None
        } else {
            Some(t)
        }
    }
}

/// The title the `title` element gives: what follows its last ` - `, if that is plausible.
pub open spec fn title_tag_of(items: Seq<(int, NodeView)>) -> Option<Seq<char>> {
    match raw_title_of(items) {
        None => None,
        Some(raw) => {
            let i = last_occurrence(raw, " - "@);
            let c = cleaned(
                if i < 0 {
                    raw
                } else {
                    raw.skip(i + 3)
                },
            );
            if plausible(c) {
                Some(c)
            } else {
                None
            }
        },
    }
}

/// A page's title: from its `center` blocks, else from its `title` element.
pub open spec fn title_of(items: Seq<(int, NodeView)>) -> Option<Seq<char>> {
    match from_center_of(items) {
        Some(t) => if t.len() > 0 {
            Some(t)
        } else {
            None
        },
        None => match title_tag_of(items) {
            Some(t) => if t.len() > 0 {
                Some(t)
            } else {
                None
            },
            None => None,
        },
    }
}

fn from_bolds(items: &Vec<DomItem>, bs: &Vec<usize>) -> (r: Option<String>)
    requires
        forall|k: int| 0 <= k < bs@.len() ==> #[trigger] bs@[k] < items@.len(),
    ensures
        match r {
            Some(t) => first_plausible(items_view(items@), index_views(bs@), 0) == Some(t@),
            None => first_plausible(items_view(items@), index_views(bs@), 0) is None,
        },
{
    let ghost iv = items_view(items@);
    let ghost bv = index_views(bs@);
    let mut k: usize = 0;
    while k < bs.len()
        invariant
            k <= bs@.len(),
            iv == items_view(items@),
            bv == index_views(bs@),
            forall|m: int| 0 <= m < bs@.len() ==> #[trigger] bs@[m] < items@.len(),
            first_plausible(iv, bv, 0) == first_plausible(iv, bv, k as int),
        decreases bs.len() - k,
    {
        let c = clean(text_below(items, bs[k]).as_str());
        if is_plausible(c.as_str()) {
            return Some(c);
        }
        k = k + 1;
    }
    None
}

/// The title in bold in the page's `center` blocks.
pub fn from_center(items: &Vec<DomItem>) -> (r: Option<String>)
    ensures
        match r {
            Some(t) => from_center_of(items_view(items@)) == Some(t@),
            None => from_center_of(items_view(items@)) is None,
        },
{
    let ghost iv = items_view(items@);
    let centers = find_named(items, "center", 0, items.len());
    let ghost cv = index_views(centers@);
    let n = centers.len();
    if n == 0 {
        return None;
    }
    let ghost order = center_order(n as int);
    let preferred: usize = if n == 2 {
        0
    } else {
        1
    };
    if preferred < n {
        let bs = find_below(items, centers[preferred], "b");
        match from_bolds(items, &bs) {
            Some(t) => return Some(t),
            None => {},
        }
    }
    let mut idx: usize = 0;
    while idx < n
        invariant
            idx <= n,
            n == centers@.len(),
            n > 0,
            iv == items_view(items@),
            cv == index_views(centers@),
            cv == named_between(iv, "center"@, 0, items@.len() as int),
            forall|m: int| 0 <= m < centers@.len() ==> #[trigger] centers@[m] < items@.len(),
            order == center_order(n as int),
            order.len() == n + 1,
            forall|m: int| 1 <= m <= n ==> #[trigger] order[m] == m - 1,
            center_title(iv, cv, order, 0) == center_title(iv, cv, order, idx + 1),
        decreases n - idx,
    {
        assert(order[idx + 1] == idx);
        let bs = find_below(items, centers[idx], "b");
        match from_bolds(items, &bs) {
            Some(t) => return Some(t),
            None => {},
        }
        idx = idx + 1;
    }
    None
}

/// A page's `title` element, its whitespace collapsed, unless that leaves nothing.
pub fn raw_title(items: &Vec<DomItem>) -> (r: Option<String>)
    ensures
        match r {
            Some(t) => raw_title_of(items_view(items@)) == Some(t@),
            None => raw_title_of(items_view(items@)) is None,
        },
{
    let ts = find_named(items, "title", 0, items.len());
    if ts.len() == 0 {
        return None;
    }
    let t = collapse(text_below(items, ts[0]).as_str());
    if chars_of(t.as_str()).len() == 0 {
        None
    } else {
        Some(t)
    }
}

fn from_title_tag(items: &Vec<DomItem>) -> (r: Option<String>)
    ensures
        match r {
            Some(t) => title_tag_of(items_view(items@)) == Some(t@),
            None => title_tag_of(items_view(items@)) is None,
        },
{
    let raw = match raw_title(items) {
        Some(r) => r,
        None => return None,
    };
    let v = chars_of(raw.as_str());
    let sep = chars_of(" - ");
    proof {
        reveal_strlit(" - ");
    }
    let n = v.len();
    let piece = match find_last_seq(&v, &sep) {
        Some(i) => {
            let p = slice_chars(&v, i + 3, n);
            assert(v@.subrange(i + 3, v@.len() as int) =~= v@.skip(i + 3));
            string_of(&p)
        },
        None => raw,
    };
    let c = clean(piece.as_str());
    if is_plausible(c.as_str()) {
        Some(c)
    } else {
        None
    }
}

/// A page's title.
pub fn parse(items: &Vec<DomItem>) -> (r: Option<String>)
    ensures
        match r {
            Some(t) => title_of(items_view(items@)) == Some(t@),
            None => title_of(items_view(items@)) is None,
        },
{
    let found = match from_center(items) {
        Some(t) => Some(t),
        None => from_title_tag(items),
    };
    match found {
        Some(t) => if chars_of(t.as_str()).len() > 0 {
            Some(t)
        } else {
            None
        },
        None => None,
    }
}

/// The modern record's title: the date it starts with, where it names a day, and the title.
pub struct ModernTitle {
    pub date: Option<ApodDate>,
    pub title: String,
}

/// The date a title's prefix names, as a day number from 0001-01-01, and the title after it.
pub open spec fn modern_of(rendered: Seq<char>) -> (Option<int>, Seq<char>) {
    let items = parsed_fragment(rendered);
    let text = match root_from(items, 0) {
        Some(r) => inner_text(items, r),
        None => Seq::empty(),
    };
    let decoded = collapsed(text);
    let body = if starts_with(decoded, "APOD:"@) {
        trim_start(decoded.skip(5))
    } else {
        decoded
    };
    let caps = captures_of(modern_prefix_pattern(), body);
    if caps.len() == 0 {
        (None, body)
    } else {
        let g = caps[0];
        let day = if has_group(g, 3) {
            chrono_parsed(
                group_text(body, g, 1) + " "@ + group_text(body, g, 2) + " "@ + group_text(body, g, 3),
                "%Y %B %d"@,
            )
        } else {
            None
        };
        (day, body.skip(span_end(g[0])))
    }
}

pub open spec fn modern_view(m: ModernTitle) -> (Option<int>, Seq<char>) {
    (
        match m.date {
            Some(d) => Some(d@ + START_EPOCH_DAY + CE_TO_UNIX),
            None => None,
        },
        m.title@,
    )
}

/// Reads the modern record's rendered title: its entities decoded, its date prefix read off.
pub fn modern(rendered: &str) -> (m: ModernTitle)
    ensures
        modern_view(m) == modern_of(rendered@),
{
    let items = parse_fragment(rendered);
    let text = match root_element(&items) {
        Some(r) => text_below(&items, r),
        None => String::new(),
    };
    let decoded = chars_of(collapse(text.as_str()).as_str());
    let prefix = chars_of("APOD:");
    proof {
        reveal_strlit("APOD:");
    }
    let body = if starts_with_chars(&decoded, &prefix) {
        let at = skip_space(&decoded, 5);
        assert(decoded@.subrange(5, decoded@.len() as int) =~= decoded@.skip(5));
        assert(decoded@.subrange(at as int, decoded@.len() as int) =~= trim_start(decoded@.skip(5)));
        slice_chars(&decoded, at, decoded.len())
    } else {
        decoded
    };
    let bs = string_of(&body);
    let caps = captures(modern_prefix_pattern_text(), bs.as_str());
    let ghost cv = captures_view(caps@);
    if caps.len() == 0 {
        return ModernTitle { date: None, title: bs };
    }
    let g = &caps[0];
    assert(cv[0] == spans_view(g@));
    assert(groups_in(spans_view(g@), body@.len() as int)) by {
        assert forall|k: int|
            0 <= k < spans_view(g@).len() && (#[trigger] spans_view(g@)[k]) is Some implies 0
                <= span_start(spans_view(g@)[k]) <= span_end(spans_view(g@)[k]) <= body@.len() by {
            assert(cv[0][k] is Some);
        }
    }
    let date = if group_present(g, 3) {
        let mut s = string_of(&group_of(&body, g, 1));
        push_str(&mut s, " ");
        push_str(&mut s, string_of(&group_of(&body, g, 2)).as_str());
        push_str(&mut s, " ");
        push_str(&mut s, string_of(&group_of(&body, g, 3)).as_str());
        ApodDate::parse_with(s.as_str(), "%Y %B %d")
    } else {
        None
    };
    assert(spans_view(g@)[0] == crate::pattern::span_view(g@[0]));
    let end = match g[0] {
        Some((_, b)) => b,
        None => 0,
    };
    let title = slice_chars(&body, end, body.len());
    assert(body@.subrange(end as int, body@.len() as int) =~= body@.skip(end as int));
    ModernTitle { date, title: string_of(&title) }
}

} // verus!
