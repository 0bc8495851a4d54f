//! Serving an entry's original page: the archived HTML made safe and pointed at the archive, or,
//! for a date nothing was archived for, a page rebuilt from the record.
use vstd::prelude::*;
use std::fmt::Write;
use crate::date::{
    ApodDate, CE_TO_UNIX, START_EPOCH_DAY, chrono_formatted, chrono_parsed, date_format, in_range,
    iso_of, legacy_digits,
};
use crate::entry::{Credit, decommissioned, is_decommissioned, joined};
use crate::decode::{decode_html, decoded_html};
use crate::media::{MediaKind, image_kind, video_kind};
use crate::entry::ApodEntry;
use crate::html::{escape, escaped};
use crate::pattern::{captures, captures_of, captures_view, find_first, first_at, gap_start, group_of, group_present, group_text, groups_in, has_group, remove_all, span_end, span_start, span_view, spans_view, well_placed, without_all, without_first};
use crate::text::{
    before_any, chars_of, is_ascii_alnum, lower_all, push_range, push_str, slice_chars,
    starts_with, starts_with_chars, string_of, take_before_any, trim, trim_chars,
    first_occurrence, find_first_seq, is_one_of, decimal, push_decimal,
};

verus! {

/// APOD's home page.
pub const APOD_HOME: &'static str = "https://science.nasa.gov/apod/";

/// Who APOD credits for itself today.
pub const AUTHORS: [&'static str; 4] = [
    "Jerry Bonnell",
    "Cecilia Chirenti",
    "Robert Nemiroff",
    "Keighley Rockcliffe",
];

/// The service line APOD carries today.
pub const SERVICE_LINE: &'static str = "ASD at NASA / GSFC, NASA Science Activation & Michigan Tech. U.";

/// The name of the service.
pub const NAME: &'static str = "Astronomy Picture of the Day";

/// How wide a page laid out for a display copy shows the picture, in pixels.
pub const DISPLAY_WIDTH: u32 = 1024;

/// What this site calls itself.
pub const SITE: &'static str = "APOD Archive";

/// The style every served page carries.
pub const STYLE: &'static str = r#"<style>
html{color-scheme:light}
body:not([bgcolor]):not(.apod-recon){background:#fff;color:#000}
.apod-frame{font-family:system-ui,-apple-system,"Segoe UI",sans-serif;line-height:1.45;
margin:0 0 1rem;text-align:left}
.apod-frame p{margin:.15rem 0}
.apod-frame-archived{display:flex;flex-wrap:wrap;align-items:baseline;gap:.15rem 1rem;
font-size:.78rem;padding:.35rem .6rem;border:1px solid #dcdfe8;border-radius:.35rem;
background:#f5f6fa;color:#5f647a}
.apod-frame-archived a{color:#3a53c4}
.apod-frame-recon{font-size:.9rem;padding:.7rem 1rem;border-radius:.5rem;
background:#4a2f05;color:#ffeccc}
.apod-frame-recon a{color:#ffc978}
.apod-frame-links{display:flex;flex-wrap:wrap;gap:.15rem 1rem}
.apod-frame-links a{white-space:nowrap}
.apod-frame-foot{display:block;margin-top:1.5rem}
img{max-width:100%;height:auto}
body{overflow-wrap:break-word}
@media(max-width:40rem){table,pre{display:block;max-width:100%;overflow-x:auto}}
.apod-recon{background:#f4f4ff;color:#000;font-family:Georgia,"Times New Roman",serif;
margin:0;padding:1rem}
.apod-page{max-width:52rem;margin:0 auto;text-align:center}
.apod-masthead{font-size:1.6rem;font-weight:400;margin:.5rem 0}
.apod-when{margin:.5rem 0}
.apod-title{font-size:1.15rem;margin:1rem 0 .5rem}
.apod-shot{margin:1rem 0}
.apod-note{font-size:.9rem;color:#333}
.apod-explanation{text-align:left;margin:1.5rem 0;line-height:1.5}
.apod-foot{font-size:.85rem}
.apod-recon a{color:#00f}
.apod-recon a:visited{color:#7f0f9f}
</style>
"#;

/// Where the legacy site served its entry pages, over the years and hosts.
pub open spec fn page_prefixes() -> Seq<Seq<char>> {
    seq![
        "https://apod.nasa.gov/apod/"@,
        "http://apod.nasa.gov/apod/"@,
        "https://www.apod.nasa.gov/apod/"@,
        "http://www.apod.nasa.gov/apod/"@,
        "https://antwrp.gsfc.nasa.gov/apod/"@,
        "http://antwrp.gsfc.nasa.gov/apod/"@,
    ]
}

fn page_prefix_list() -> (ps: Vec<&'static str>)
    ensures
        crate::html::str_views(ps@) == page_prefixes(),
{
    let ps = vec![
        "https://apod.nasa.gov/apod/",
        "http://apod.nasa.gov/apod/",
        "https://www.apod.nasa.gov/apod/",
        "http://www.apod.nasa.gov/apod/",
        "https://antwrp.gsfc.nasa.gov/apod/",
        "http://antwrp.gsfc.nasa.gov/apod/",
    ];
    assert(crate::html::str_views(ps@) =~= page_prefixes());
    ps
}

/// What follows the first of `ps` (from the `k`th on) that `s` starts with.
pub open spec fn after_prefix(s: Seq<char>, ps: Seq<Seq<char>>, k: int) -> Option<Seq<char>>
    decreases ps.len() - k,
{
    if k < 0 || k >= ps.len() {
        None
    } else if starts_with(s, ps[k]) {
        Some(s.skip(ps[k].len() as int))
    } else {
        after_prefix(s, ps, k + 1)
    }
}

/// The day of the archive an absolute URL is the entry page of: a page of the legacy site
/// named for a date, queries and fragments aside, on or after the first day.
pub open spec fn legacy_day(absolute: Seq<char>) -> Option<int> {
    match after_prefix(absolute, page_prefixes(), 0) {
        None => None,
        Some(rest) => {
            let name = before_any(rest, seq!['?', '#']);
            if name.contains('/') {
                None
            } else {
                match legacy_digits(name) {
                    None => None,
                    Some(ds) => match chrono_parsed(ds, "%y%m%d"@) {
                        None => None,
                        Some(n) => if n - START_EPOCH_DAY - CE_TO_UNIX >= 0 {
                            Some(n - START_EPOCH_DAY - CE_TO_UNIX)
                        } else {
                            None
                        },
                    },
                }
            }
        },
    }
}

/// The entry a URL of the legacy site is the page of.
pub fn legacy_entry(absolute: &str) -> (d: Option<ApodDate>)
    ensures
        match legacy_day(absolute@) {
            Some(n) => d matches Some(d) && d@ == n && in_range(d),
            None => d is None,
        },
{
    let v = chars_of(absolute);
    let ps = page_prefix_list();
    let mut k: usize = 0;
    while k < ps.len() && !starts_with_chars(&v, &chars_of(ps[k]))
        invariant
            k <= ps@.len(),
            crate::html::str_views(ps@) == page_prefixes(),
            v@ == absolute@,
            after_prefix(absolute@, page_prefixes(), 0) == after_prefix(absolute@, page_prefixes(), k as int),
        decreases ps.len() - k,
    {
        assert(ps@[k as int]@ == page_prefixes()[k as int]);
        k = k + 1;
    }
    if k == ps.len() {
        return None;
    }
    let p = chars_of(ps[k]);
    assert(p@ == page_prefixes()[k as int]);
    let rest = slice_chars(&v, p.len(), v.len());
    assert(v@.subrange(p@.len() as int, v@.len() as int) =~= v@.skip(p@.len() as int));
    let stops = vec!['?', '#'];
    assert(stops@ =~= seq!['?', '#']);
    let name = take_before_any(&rest, &stops);
    if is_one_of('/', &name) {
        return None;
    }
    let ns = string_of(&name);
    match ApodDate::from_legacy_filename(ns.as_str()) {
        Some(d) => {
            if d.days() >= 0 {
                Some(d)
            } else {
                None
            }
        },
        None => None,
    }
}

/// A character an entity's name is made of.
pub open spec fn entity_char(c: char) -> bool {
    is_ascii_alnum(c) || c == '#'
}

/// The `&` at `i` opens an entity: one to eight name characters, then `;`.
pub open spec fn opens_entity(s: Seq<char>, i: int) -> bool {
    let rest = s.skip(i + 1);
    let j = first_occurrence(rest, seq![';']);
    1 <= j <= 8 && forall|k: int| 0 <= k < j ==> entity_char(#[trigger] rest[k])
}

/// How the character at `i` is written inside a quoted attribute: an `&` that opens an entity
/// stays as it is, any other becomes `&amp;`, and `"` becomes `&quot;`.
pub open spec fn attr_piece(s: Seq<char>, i: int) -> Seq<char> {
    if s[i] == '&' {
        if opens_entity(s, i) {
            seq!['&']
        } else {
            "&amp;"@
        }
    } else if s[i] == '"' {
        "&quot;"@
    } else {
        seq![s[i]]
    }
}

pub open spec fn attr_escaped_upto(s: Seq<char>, k: int) -> Seq<char>
    decreases k,
{
    if k <= 0 {
        Seq::empty()
    } else {
        attr_escaped_upto(s, k - 1) + attr_piece(s, k - 1)
    }
}

/// A URL written for a quoted attribute, the entities it already holds left alone.
pub open spec fn attr_escaped(s: Seq<char>) -> Seq<char> {
    attr_escaped_upto(s, s.len() as int)
}

/// Whether the `&` at `i` opens an entity.
fn entity_at(v: &Vec<char>, i: usize) -> (b: bool)
    requires
        i < v@.len(),
    ensures
        b == opens_entity(v@, i as int),
{
    let n = v.len();
    let rest = slice_chars(v, i + 1, n);
    assert(rest@ =~= v@.skip(i + 1));
    let semi = vec![';'];
    assert(semi@ =~= seq![';']);
    let j = match find_first_seq(&rest, &semi) {
        Some(j) => j,
        None => return false,
    };
    if j < 1 || j > 8 {
        return false;
    }
    let mut k: usize = 0;
    while k < j
        invariant
            k <= j <= rest@.len(),
            1 <= j <= 8,
            rest@ == v@.skip(i + 1),
            j == first_occurrence(rest@, seq![';']),
            forall|m: int| 0 <= m < k ==> entity_char(#[trigger] rest@[m]),
        decreases j - k,
    {
        let c = rest[k];
        if !(('0' <= c && c <= '9') || ('A' <= c && c <= 'Z') || ('a' <= c && c <= 'z') || c == '#') {
            assert(!entity_char(rest@[k as int]));
            return false;
        }
        k = k + 1;
    }
    true
}

/// Writes a URL for a quoted attribute, leaving the entities it already holds alone.
pub fn escape_attr(url: &str) -> (out: String)
    ensures
        out@ == attr_escaped(url@),
{
    let v = chars_of(url);
    let mut out = String::new();
    let mut i: usize = 0;
    while i < v.len()
        invariant
            i <= v@.len(),
            v@ == url@,
            out@ == attr_escaped_upto(v@, i as int),
        decreases v.len() - i,
    {
        let c = v[i];
        let ghost prev = out@;
        if c == '&' {
            if entity_at(&v, i) {
                crate::text::push_char(&mut out, '&');
            } else {
                push_str(&mut out, "&amp;");
            }
        } else if c == '"' {
            push_str(&mut out, "&quot;");
        } else {
            crate::text::push_char(&mut out, c);
        }
        assert(out@ == prev + attr_piece(v@, i as int));
        i = i + 1;
    }
    out
}

/// `h` with the characters `from..to` replaced by `with`.
pub open spec fn spliced(h: Seq<char>, from: int, to: int, with: Seq<char>) -> Seq<char> {
    h.take(from) + with + h.skip(to)
}

/// Replaces the characters `from..to` of `h` with `with`.
pub fn splice(h: &str, from: usize, to: usize, with: &str) -> (out: String)
    requires
        from <= to <= h@.len(),
    ensures
        out@ == spliced(h@, from as int, to as int, with@),
{
    let v = chars_of(h);
    let mut out = String::new();
    push_range(&mut out, &v, 0, from);
    push_str(&mut out, with);
    push_range(&mut out, &v, to, v.len());
    assert(v@.subrange(0, from as int) =~= v@.take(from as int));
    assert(v@.subrange(to as int, v@.len() as int) =~= v@.skip(to as int));
    out
}

/// Whether a link names a scheme this archive does not serve (`mailto:`, `javascript:`): a
/// colon before any `/`, `?` or `#`, after something other than `http` or `https`.
pub open spec fn foreign_scheme(t: Seq<char>) -> bool {
    let at = first_occurrence(t, seq![':']);
    let head = t.take(at);
    &&& at >= 0
    &&& !head.contains('/') && !head.contains('?') && !head.contains('#')
    &&& lower_all(head) != "http"@
    &&& lower_all(head) != "https"@
}

/// A link made absolute against the legacy site.
pub open spec fn absolute_of(t: Seq<char>) -> Seq<char> {
    if starts_with(t, "http://"@) || starts_with(t, "https://"@) {
        t
    } else if starts_with(t, "//"@) {
        "https://"@ + t.skip(2)
    } else if starts_with(t, "/"@) {
        "https://apod.nasa.gov/"@ + t.skip(1)
    } else {
        "https://apod.nasa.gov/apod/"@ + t
    }
}

/// Where a link of an archived page should point, given where the entry's legacy media was and
/// where its media is now; `None` to leave the link as the page wrote it. Another day's entry
/// page points at this archive's copy of it; the entry's own legacy media at its current home;
/// a relative link at the legacy site it was relative to.
pub open spec fn target_of(raw: Seq<char>, legacy_media: Option<Seq<char>>, media: Option<Seq<char>>) -> Option<Seq<char>> {
    let t = trim(raw);
    if t.len() == 0 || t[0] == '#' || foreign_scheme(t) {
        None
    } else {
        let a = absolute_of(t);
        match legacy_day(a) {
            Some(n) => Some("/"@ + crate::date::iso_text(crate::date::day_ymd(n + START_EPOCH_DAY)) + "/original"@),
            None => if legacy_media == Some(a) && media is Some {
                Some(escaped(media.unwrap()))
            } else if a != t {
                Some(attr_escaped(a))
            } else {
                None
            },
        }
    }
}

/// What a page is served as.
#[derive(Debug, Clone, Copy, PartialEq, Eq)]
pub enum Form {
    Archived,
    Reconstruction,
}

/// An entry's original page, and where this archive is served from.
pub struct Original<'a> {
    pub entry: &'a ApodEntry,
    pub public_url: &'a str,
    /// When the page was fetched, in seconds since the Unix epoch.
    pub fetched_at: Option<i64>,
}

pub open spec fn str_opt(o: Option<String>) -> Option<Seq<char>> {
    match o {
        Some(s) => Some(s@),
        None => None,
    }
}

impl<'a> Original<'a> {
    /// Where a link of the archived page should point.
    pub fn target(&self, raw: &str) -> (r: Option<String>)
        ensures
            str_opt(r) == target_of(raw@, str_opt(self.entry.legacy_media_url), str_opt(self.entry.media.url)),
    {
        let t = trim_chars(&chars_of(raw));
        if t.len() == 0 || t[0] == '#' {
            return None;
        }
        if foreign(&t) {
            return None;
        }
        let a = absolute(&t);
        let ghost av = a@;
        let abs = string_of(&a);
        match legacy_entry(abs.as_str()) {
            Some(date) => {
                let mut out = String::new();
                push_str(&mut out, "/");
                push_str(&mut out, date.to_iso().as_str());
                push_str(&mut out, "/original");
                return Some(out);
            },
            None => {},
        }
        match &self.entry.legacy_media_url {
            Some(l) => {
                if crate::text::str_eq(l.as_str(), abs.as_str()) {
                    match &self.entry.media.url {
                        Some(origin) => return Some(escape(origin.as_str())),
                        None => {},
                    }
                }
            },
            None => {},
        }
        if crate::text::chars_eq(&a, &t) {
            None
        } else {
            Some(escape_attr(abs.as_str()))
        }
    }
}

fn foreign(t: &Vec<char>) -> (b: bool)
    ensures
        b == foreign_scheme(t@),
{
    let colon = vec![':'];
    assert(colon@ =~= seq![':']);
    let at = match find_first_seq(t, &colon) {
        Some(at) => at,
        None => return false,
    };
    let head = slice_chars(t, 0, at);
    assert(head@ =~= t@.take(at as int));
    if is_one_of('/', &head) || is_one_of('?', &head) || is_one_of('#', &head) {
        return false;
    }
    let low = crate::text::lower_chars(&head);
    !crate::text::is_text(&low, "http") && !crate::text::is_text(&low, "https")
}

fn absolute(t: &Vec<char>) -> (a: Vec<char>)
    ensures
        a@ == absolute_of(t@),
{
    if starts_with_chars(t, &chars_of("http://")) || starts_with_chars(t, &chars_of("https://")) {
        return crate::text::copy_chars(t);
    }
    let mut out = String::new();
    proof {
        reveal_strlit("//");
        reveal_strlit("/");
    }
    if starts_with_chars(t, &chars_of("//")) {
        push_str(&mut out, "https://");
        push_range(&mut out, t, 2, t.len());
        assert(t@.subrange(2, t@.len() as int) =~= t@.skip(2));
    } else if starts_with_chars(t, &chars_of("/")) {
        push_str(&mut out, "https://apod.nasa.gov/");
        push_range(&mut out, t, 1, t.len());
        assert(t@.subrange(1, t@.len() as int) =~= t@.skip(1));
    } else {
        push_str(&mut out, "https://apod.nasa.gov/apod/");
        push_range(&mut out, t, 0, t.len());
        assert(t@.subrange(0, t@.len() as int) =~= t@);
    }
    chars_of(out.as_str())
}

/// An `href` or `src` attribute and its value, quoted either way or not at all.
pub open spec fn url_attr_pattern() -> Seq<char> {
    "(?is)\\b(href|src)\\s*=\\s*(?:\"([^\"]*)\"|'([^']*)'|([^\\s>]+))"@
}

fn url_attr_pattern_text() -> (p: &'static str)
    ensures
        p@ == url_attr_pattern(),
{
    "(?is)\\b(href|src)\\s*=\\s*(?:\"([^\"]*)\"|'([^']*)'|([^\\s>]+))"
}

/// What an attribute match is replaced with: `name="target"` where its value has a target,
/// else the match as it was.
pub open spec fn attr_replacement(
    h: Seq<char>,
    groups: Seq<Option<(int, int)>>,
    legacy_media: Option<Seq<char>>,
    media: Option<Seq<char>>,
) -> Seq<char> {
    let whole = group_text(h, groups, 0);
    let raw = if has_group(groups, 2) {
        Some(group_text(h, groups, 2))
    } else if has_group(groups, 3) {
        Some(group_text(h, groups, 3))
    } else if has_group(groups, 4) {
        Some(group_text(h, groups, 4))
    } else {
        None
    };
    match raw {
        None => whole,
        Some(r) => match target_of(r, legacy_media, media) {
            Some(u) => group_text(h, groups, 1) + "=\""@ + u + "\""@,
            None => whole,
        },
    }
}

/// The first `k` matches replaced, with the text before each of them.
pub open spec fn rewritten_upto(
    h: Seq<char>,
    caps: Seq<Seq<Option<(int, int)>>>,
    k: int,
    legacy_media: Option<Seq<char>>,
    media: Option<Seq<char>>,
) -> Seq<char>
    decreases k,
{
    if k <= 0 {
        Seq::empty()
    } else {
        rewritten_upto(h, caps, k - 1, legacy_media, media) + h.subrange(
            gap_start(caps, k - 1),
            span_start(caps[k - 1][0]),
        ) + attr_replacement(h, caps[k - 1], legacy_media, media)
    }
}

/// An archived page's HTML with each link pointed where it should point.
pub open spec fn rewritten(h: Seq<char>, legacy_media: Option<Seq<char>>, media: Option<Seq<char>>) -> Seq<char> {
    let caps = captures_of(url_attr_pattern(), h);
    rewritten_upto(h, caps, caps.len() as int, legacy_media, media) + h.skip(
        gap_start(caps, caps.len() as int),
    )
}

impl<'a> Original<'a> {
    /// Points every link of an archived page's HTML where it should point.
    pub fn rewrite_urls(&self, html: &str) -> (out: String)
        ensures
            out@ == rewritten(html@, str_opt(self.entry.legacy_media_url), str_opt(self.entry.media.url)),
    {
        let ghost lm = str_opt(self.entry.legacy_media_url);
        let ghost mu = str_opt(self.entry.media.url);
        let v = chars_of(html);
        let caps = captures(url_attr_pattern_text(), html);
        let ghost cv = captures_view(caps@);
        let mut out = String::new();
        let mut at: usize = 0;
        let mut k: usize = 0;
        while k < caps.len()
            invariant
                k <= caps@.len(),
                v@ == html@,
                cv == captures_view(caps@),
                cv == captures_of(url_attr_pattern(), html@),
                well_placed(cv, html@.len()),
                lm == str_opt(self.entry.legacy_media_url),
                mu == str_opt(self.entry.media.url),
                at == gap_start(cv, k as int),
                at <= v@.len(),
                out@ == rewritten_upto(v@, cv, k as int, lm, mu),
            decreases caps.len() - k,
        {
            let groups = &caps[k];
            assert(cv[k as int] == spans_view(groups@));
            assert(cv[k as int][0] == span_view(groups@[0]));
            let (a, b) = match groups[0] {
                Some(g) => g,
                None => (0, 0),
            };
            proof {
                if k > 0 {
                    assert(span_end(cv[k - 1][0]) <= span_start(cv[k as int][0]));
                }
                assert(groups_in(spans_view(groups@), v@.len() as int)) by {
                    assert forall|g: int|
                        0 <= g < spans_view(groups@).len() && (#[trigger] spans_view(groups@)[g]) is Some implies 0
                            <= span_start(spans_view(groups@)[g]) <= span_end(spans_view(groups@)[g])
                            <= v@.len() by {
                        assert(cv[k as int][g] is Some);
                    }
                }
            }
            push_range(&mut out, &v, at, a);
            let whole = group_of(&v, groups, 0);
            let raw = if group_present(groups, 2) {
                Some(group_of(&v, groups, 2))
            } else if group_present(groups, 3) {
                Some(group_of(&v, groups, 3))
            } else if group_present(groups, 4) {
                Some(group_of(&v, groups, 4))
            } else {
                None
            };
            let replacement = match raw {
                None => string_of(&whole),
                Some(r) => match self.target(string_of(&r).as_str()) {
                    Some(u) => {
                        let mut rep = string_of(&group_of(&v, groups, 1));
                        push_str(&mut rep, "=\"");
                        push_str(&mut rep, u.as_str());
                        push_str(&mut rep, "\"");
                        rep
                    },
                    None => string_of(&whole),
                },
            };
            push_str(&mut out, replacement.as_str());
            at = b;
            k = k + 1;
        }
        push_range(&mut out, &v, at, v.len());
        assert(v@.subrange(at as int, v@.len() as int) =~= v@.skip(at as int));
        out
    }
}

/// When a date is written out in full, day first (`12 August 2025`).
pub open spec fn day_first(d: ApodDate) -> Seq<char> {
    match chrono_formatted(d@ + START_EPOCH_DAY + CE_TO_UNIX, "%-d %B %Y"@) {
        Some(t) => t,
        None => Seq::empty(),
    }
}

/// A date written out in full, year first (`2025 January 31`), as APOD heads its pages.
pub open spec fn year_first(d: ApodDate) -> Seq<char> {
    match chrono_formatted(d@ + START_EPOCH_DAY + CE_TO_UNIX, "%Y %B %-d"@) {
        Some(t) => t,
        None => Seq::empty(),
    }
}

fn day_first_text(d: ApodDate) -> (t: String)
    requires
        in_range(d),
    ensures
        t@ == day_first(d),
{
    proof {
        reveal_strlit("%-d %B %Y");
        reveal_with_fuel(date_format, 10);
    }
    d.format("%-d %B %Y")
}

fn year_first_text(d: ApodDate) -> (t: String)
    requires
        in_range(d),
    ensures
        t@ == year_first(d),
{
    proof {
        reveal_strlit("%Y %B %-d");
        reveal_with_fuel(date_format, 10);
    }
    d.format("%Y %B %-d")
}

/// What chrono writes, with `fmt`, for the moment `seconds` after the Unix epoch in UTC; `None`
/// when chrono holds no such moment or cannot write the format.
pub uninterp spec fn stamped(seconds: int, fmt: Seq<char>) -> Option<Seq<char>>;

/// chrono's `DateTime::from_timestamp(seconds, 0)` written with `format(fmt)`.
#[verifier::external_body]
fn stamp_text(seconds: i64, fmt: &str) -> (r: Option<String>)
    ensures
        str_opt(r) == stamped(seconds as int, fmt@),
{
    let when = chrono::DateTime::from_timestamp(seconds, 0)?;
    let mut out = String::new();
    write!(out, "{}", when.format(fmt)).ok()?;
    Some(out)
}

/// Whether a kind of media shows in the page itself.
pub open spec fn renders_inline(k: MediaKind) -> bool {
    image_kind(k)
}

/// The page's title.
pub open spec fn title_of(e: ApodEntry, form: Form) -> Seq<char> {
    match form {
        Form::Archived => "Archived: "@ + e.title@ + " (APOD "@ + iso_of(e.date) + ")"@,
        Form::Reconstruction => "Reconstruction: "@ + e.title@ + " (APOD "@ + iso_of(e.date) + ")"@,
    }
}

/// The page's description.
pub open spec fn description_of(e: ApodEntry, form: Form) -> Seq<char> {
    match form {
        Form::Archived => "The page NASA's "@ + NAME@ + " served on "@ + iso_of(e.date)
            + ", as it was archived, with its links resolved."@,
        Form::Reconstruction => "A reconstruction of NASA's "@ + NAME@ + " for "@ + iso_of(e.date)
            + ", generated from NASA's own record because no original page was archived for this date."@,
    }
}

/// The picture a share card shows: the media itself where it shows inline from a host that
/// still serves it, else the thumbnail under the archive's address.
pub open spec fn share_of(e: ApodEntry, public_url: Seq<char>) -> Option<Seq<char>> {
    let m = e.media;
    if renders_inline(m.kind) && (m.url matches Some(u) && !decommissioned(u@)) {
        str_opt(m.url)
    } else {
        match m.thumb_url {
            Some(p) => Some(public_url + p@),
            None => None,
        }
    }
}

/// The style that caps the picture to the size the page was laid out for, where the page's
/// own picture was replaced by its full-resolution origin.
pub open spec fn cap_of(e: ApodEntry) -> Seq<char> {
    match (e.media.url, e.legacy_media_url) {
        (Some(origin), Some(_)) => "<style>img[src=\""@ + escaped(origin@) + "\"]{max-width:min(100%,"@
            + decimal(DISPLAY_WIDTH as nat) + "px)!important}</style>\n"@,
        _ => Seq::empty(),
    }
}

/// The tags a share card is made of.
pub open spec fn share_tags(share: Option<Seq<char>>) -> Seq<char> {
    match share {
        Some(image) => "<meta name=\"twitter:card\" content=\"summary_large_image\">\n<meta property=\"og:image\" content=\""@
            + escaped(image) + "\">\n<meta name=\"twitter:image\" content=\""@ + escaped(image) + "\">\n"@,
        None => "<meta name=\"twitter:card\" content=\"summary\">\n"@,
    }
}

/// The head of a served page: what it is, where it lives, that it is not to be indexed, its
/// share card, its style.
pub open spec fn head_of(e: ApodEntry, public_url: Seq<char>, form: Form) -> Seq<char> {
    let t = escaped(title_of(e, form));
    let d = escaped(description_of(e, form));
    let canonical = escaped(public_url + "/"@ + iso_of(e.date));
    let url = escaped(public_url + "/"@ + iso_of(e.date) + "/original"@);
    "<title>"@ + t + "</title>\n<meta name=\"viewport\" content=\"width=device-width, initial-scale=1\">\n<meta name=\"robots\" content=\"noindex, follow\">\n<link rel=\"canonical\" href=\""@
        + canonical + "\">\n<meta name=\"description\" content=\""@ + d
        + "\">\n<meta property=\"og:type\" content=\"article\">\n<meta property=\"og:title\" content=\""@
        + t + "\">\n<meta property=\"og:description\" content=\""@ + d
        + "\">\n<meta property=\"og:url\" content=\""@ + url
        + "\">\n<meta property=\"og:site_name\" content=\""@ + SITE@ + "\">\n"@ + share_tags(
        share_of(e, public_url),
    ) + STYLE@ + cap_of(e)
}

impl<'a> Original<'a> {
    fn title(&self, form: Form) -> (t: String)
        requires
            in_range(self.entry.date),
        ensures
            t@ == title_of(*self.entry, form),
    {
        let mut t = String::new();
        match form {
            Form::Archived => push_str(&mut t, "Archived: "),
            Form::Reconstruction => push_str(&mut t, "Reconstruction: "),
        }
        push_str(&mut t, self.entry.title.as_str());
        push_str(&mut t, " (APOD ");
        push_str(&mut t, self.entry.date.to_iso().as_str());
        push_str(&mut t, ")");
        t
    }

    fn description(&self, form: Form) -> (t: String)
        requires
            in_range(self.entry.date),
        ensures
            t@ == description_of(*self.entry, form),
    {
        let mut t = String::new();
        let iso = self.entry.date.to_iso();
        match form {
            Form::Archived => {
                push_str(&mut t, "The page NASA's ");
                push_str(&mut t, NAME);
                push_str(&mut t, " served on ");
                push_str(&mut t, iso.as_str());
                push_str(&mut t, ", as it was archived, with its links resolved.");
            },
            Form::Reconstruction => {
                push_str(&mut t, "A reconstruction of NASA's ");
                push_str(&mut t, NAME);
                push_str(&mut t, " for ");
                push_str(&mut t, iso.as_str());
                push_str(
                    &mut t,
                    ", generated from NASA's own record because no original page was archived for this date.",
                );
            },
        }
        t
    }

    fn share_image(&self) -> (r: Option<String>)
        ensures
            str_opt(r) == share_of(*self.entry, self.public_url@),
    {
        let m = &self.entry.media;
        let usable = m.kind.is_image() && match &m.url {
            Some(u) => !is_decommissioned(u.as_str()),
            None => false,
        };
        if usable {
            m.url.clone()
        } else {
            match &m.thumb_url {
                Some(p) => {
                    let mut out = String::new();
                    push_str(&mut out, self.public_url);
                    push_str(&mut out, p.as_str());
                    Some(out)
                },
                None => None,
            }
        }
    }

    fn display_cap(&self) -> (t: String)
        ensures
            t@ == cap_of(*self.entry),
    {
        let mut t = String::new();
        match (&self.entry.media.url, &self.entry.legacy_media_url) {
            (Some(origin), Some(_)) => {
                push_str(&mut t, "<style>img[src=\"");
                push_str(&mut t, escape(origin.as_str()).as_str());
                push_str(&mut t, "\"]{max-width:min(100%,");
                push_decimal(&mut t, DISPLAY_WIDTH as u64);
                push_str(&mut t, "px)!important}</style>\n");
            },
            _ => {},
        }
        t
    }

    fn head(&self, form: Form) -> (t: String)
        requires
            in_range(self.entry.date),
        ensures
            t@ == head_of(*self.entry, self.public_url@, form),
    {
        let title = escape(self.title(form).as_str());
        let description = escape(self.description(form).as_str());
        let iso = self.entry.date.to_iso();
        let mut c = String::new();
        push_str(&mut c, self.public_url);
        push_str(&mut c, "/");
        push_str(&mut c, iso.as_str());
        let canonical = escape(c.as_str());
        push_str(&mut c, "/original");
        let url = escape(c.as_str());
        let mut t = String::new();
        push_str(&mut t, "<title>");
        push_str(&mut t, title.as_str());
        push_str(
            &mut t,
            "</title>\n<meta name=\"viewport\" content=\"width=device-width, initial-scale=1\">\n<meta name=\"robots\" content=\"noindex, follow\">\n<link rel=\"canonical\" href=\"",
        );
        push_str(&mut t, canonical.as_str());
        push_str(&mut t, "\">\n<meta name=\"description\" content=\"");
        push_str(&mut t, description.as_str());
        push_str(
            &mut t,
            "\">\n<meta property=\"og:type\" content=\"article\">\n<meta property=\"og:title\" content=\"",
        );
        push_str(&mut t, title.as_str());
        push_str(&mut t, "\">\n<meta property=\"og:description\" content=\"");
        push_str(&mut t, description.as_str());
        push_str(&mut t, "\">\n<meta property=\"og:url\" content=\"");
        push_str(&mut t, url.as_str());
        push_str(&mut t, "\">\n<meta property=\"og:site_name\" content=\"");
        push_str(&mut t, SITE);
        push_str(&mut t, "\">\n");
        match self.share_image() {
            Some(image) => {
                let img = escape(image.as_str());
                push_str(
                    &mut t,
                    "<meta name=\"twitter:card\" content=\"summary_large_image\">\n<meta property=\"og:image\" content=\"",
                );
                push_str(&mut t, img.as_str());
                push_str(&mut t, "\">\n<meta name=\"twitter:image\" content=\"");
                push_str(&mut t, img.as_str());
                push_str(&mut t, "\">\n");
            },
            None => push_str(&mut t, "<meta name=\"twitter:card\" content=\"summary\">\n"),
        }
        push_str(&mut t, STYLE);
        push_str(&mut t, self.display_cap().as_str());
        t
    }
}

/// The links of the frame: this entry in the archive, and on APOD where APOD still has it.
pub open spec fn links_of(e: ApodEntry) -> Seq<char> {
    let (official, label) = if !decommissioned(e.source_url@) {
        (e.source_url@, "This entry on APOD"@)
    } else {
        (APOD_HOME@, "APOD's home"@)
    };
    "<a href=\"/"@ + iso_of(e.date) + "\">This entry on the archive</a><a href=\""@ + escaped(official)
        + "\" rel=\"noopener\" target=\"_blank\">"@ + label + "</a>"@
}

/// When the copy was taken, as the frame says it.
pub open spec fn fetched_of(fetched_at: Option<i64>) -> Seq<char> {
    match fetched_at {
        Some(t) => match stamped(t as int, "%-d %B %Y"@) {
            Some(w) => ", fetched "@ + escaped(w),
            None => Seq::empty(),
        },
        None => Seq::empty(),
    }
}

/// The banner a served page opens with: what it is, and where to go instead.
pub open spec fn frame_of(e: ApodEntry, fetched_at: Option<i64>, form: Form) -> Seq<char> {
    let date = escaped(day_first(e.date));
    match form {
        Form::Archived => "<div class=\"apod-frame apod-frame-archived\" role=\"note\"><span class=\"apod-frame-lead\">Archived copy of "@
            + date + fetched_of(fetched_at) + "</span><span class=\"apod-frame-links\">"@ + links_of(e)
            + "</span></div>\n"@,
        Form::Reconstruction => "<div class=\"apod-frame apod-frame-recon\" role=\"note\">\n<p class=\"apod-frame-lead\"><b>This is a reconstruction, not an archived page.</b> No original HTML was archived for "@
            + date + ", so this was generated from NASA's own record of the "@ + NAME@
            + ".</p>\n<p class=\"apod-frame-links\">"@ + links_of(e) + "</p>\n</div>\n"@,
    }
}

/// The line a reconstruction ends with.
pub open spec fn footer_of(e: ApodEntry) -> Seq<char> {
    "<p class=\"apod-frame apod-frame-recon apod-frame-foot\">Generated by "@ + SITE@
        + " from NASA's record of the "@ + NAME@ + " for "@ + escaped(day_first(e.date))
        + ". Nothing above was archived from <code>apod.nasa.gov</code>.</p>"@
}

/// The media of a reconstruction: the picture, linked to its best version, or for what does
/// not show inline its thumbnail, what it is and a link to it.
pub open spec fn media_block_of(e: ApodEntry) -> Seq<char> {
    let m = e.media;
    let alt = escaped(
        match e.alt {
            Some(a) => a@,
            None => e.title@,
        },
    );
    match m.url {
        None => Seq::empty(),
        Some(url) => if renders_inline(m.kind) {
            let best = match m.hd_url {
                Some(h) => h@,
                None => url@,
            };
            "<p class=\"apod-shot\"><a href=\""@ + escaped(best) + "\"><img src=\""@ + escaped(url@)
                + "\" alt=\""@ + alt + "\"></a></p>"@
        } else {
            let poster = match m.thumb_url {
                Some(t) => "<img src=\""@ + escaped(t@) + "\" alt=\""@ + alt + "\">"@,
                None => Seq::empty(),
            };
            let note = if video_kind(m.kind) {
                "This entry is a video. It plays on the platform hosting it."@
            } else {
                "This entry is an interactive piece rather than a picture."@
            };
            "<p class=\"apod-shot\">"@ + poster + "</p>\n<p class=\"apod-note\">"@ + note
                + " <a href=\""@ + escaped(url@) + "\" rel=\"noopener\">Open the original</a>.</p>"@
        },
    }
}

impl<'a> Original<'a> {
    fn frame(&self, form: Form) -> (t: String)
        requires
            in_range(self.entry.date),
        ensures
            t@ == frame_of(*self.entry, self.fetched_at, form),
    {
        let date = escape(day_first_text(self.entry.date).as_str());
        let mut links = String::new();
        push_str(&mut links, "<a href=\"/");
        push_str(&mut links, self.entry.date.to_iso().as_str());
        push_str(&mut links, "\">This entry on the archive</a><a href=\"");
        match self.entry.official_url() {
            Some(url) => {
                push_str(&mut links, escape(url).as_str());
                push_str(&mut links, "\" rel=\"noopener\" target=\"_blank\">");
                push_str(&mut links, "This entry on APOD");
            },
            None => {
                push_str(&mut links, escape(APOD_HOME).as_str());
                push_str(&mut links, "\" rel=\"noopener\" target=\"_blank\">");
                push_str(&mut links, "APOD's home");
            },
        }
        push_str(&mut links, "</a>");
        let mut t = String::new();
        match form {
            Form::Archived => {
                push_str(
                    &mut t,
                    "<div class=\"apod-frame apod-frame-archived\" role=\"note\"><span class=\"apod-frame-lead\">Archived copy of ",
                );
                push_str(&mut t, date.as_str());
                match self.fetched_at {
                    Some(secs) => match stamp_text(secs, "%-d %B %Y") {
                        Some(when) => {
                            push_str(&mut t, ", fetched ");
                            push_str(&mut t, escape(when.as_str()).as_str());
                        },
                        None => {},
                    },
                    None => {},
                }
                push_str(&mut t, "</span><span class=\"apod-frame-links\">");
                push_str(&mut t, links.as_str());
                push_str(&mut t, "</span></div>\n");
            },
            Form::Reconstruction => {
                push_str(
                    &mut t,
                    "<div class=\"apod-frame apod-frame-recon\" role=\"note\">\n<p class=\"apod-frame-lead\"><b>This is a reconstruction, not an archived page.</b> No original HTML was archived for ",
                );
                push_str(&mut t, date.as_str());
                push_str(&mut t, ", so this was generated from NASA's own record of the ");
                push_str(&mut t, NAME);
                push_str(&mut t, ".</p>\n<p class=\"apod-frame-links\">");
                push_str(&mut t, links.as_str());
                push_str(&mut t, "</p>\n</div>\n");
            },
        }
        t
    }

    fn footer_label(&self) -> (t: String)
        requires
            in_range(self.entry.date),
        ensures
            t@ == footer_of(*self.entry),
    {
        let mut t = String::new();
        push_str(&mut t, "<p class=\"apod-frame apod-frame-recon apod-frame-foot\">Generated by ");
        push_str(&mut t, SITE);
        push_str(&mut t, " from NASA's record of the ");
        push_str(&mut t, NAME);
        push_str(&mut t, " for ");
        push_str(&mut t, escape(day_first_text(self.entry.date).as_str()).as_str());
        push_str(&mut t, ". Nothing above was archived from <code>apod.nasa.gov</code>.</p>");
        t
    }

    fn media_block(&self) -> (t: String)
        ensures
            t@ == media_block_of(*self.entry),
    {
        let m = &self.entry.media;
        let alt = match &self.entry.alt {
            Some(a) => escape(a.as_str()),
            None => escape(self.entry.title.as_str()),
        };
        let url = match &m.url {
            Some(u) => u,
            None => return String::new(),
        };
        let mut t = String::new();
        if m.kind.is_image() {
            let best = match &m.hd_url {
                Some(h) => h.as_str(),
                None => url.as_str(),
            };
            push_str(&mut t, "<p class=\"apod-shot\"><a href=\"");
            push_str(&mut t, escape(best).as_str());
            push_str(&mut t, "\"><img src=\"");
            push_str(&mut t, escape(url.as_str()).as_str());
            push_str(&mut t, "\" alt=\"");
            push_str(&mut t, alt.as_str());
            push_str(&mut t, "\"></a></p>");
            return t;
        }
        push_str(&mut t, "<p class=\"apod-shot\">");
        match &m.thumb_url {
            Some(thumb) => {
                push_str(&mut t, "<img src=\"");
                push_str(&mut t, escape(thumb.as_str()).as_str());
                push_str(&mut t, "\" alt=\"");
                push_str(&mut t, alt.as_str());
                push_str(&mut t, "\">");
            },
            None => {},
        }
        push_str(&mut t, "</p>\n<p class=\"apod-note\">");
        if m.kind.is_video() {
            push_str(&mut t, "This entry is a video. It plays on the platform hosting it.");
        } else {
            push_str(&mut t, "This entry is an interactive piece rather than a picture.");
        }
        push_str(&mut t, " <a href=\"");
        push_str(&mut t, escape(url.as_str()).as_str());
        push_str(&mut t, "\" rel=\"noopener\">Open the original</a>.</p>");
        t
    }
}

/// A script, with its contents or self-closed.
pub open spec fn script_pattern() -> Seq<char> {
    "(?is)<script\\b[^>]*>.*?</script\\s*>|<script\\b[^>]*/>"@
}

/// A title element.
pub open spec fn title_pattern() -> Seq<char> {
    "(?is)<title\\b[^>]*>.*?</title\\s*>"@
}

/// The end of the head.
pub open spec fn head_close_pattern() -> Seq<char> {
    "(?i)</head\\s*>"@
}

/// The start of the body.
pub open spec fn body_open_pattern() -> Seq<char> {
    "(?is)<body\\b[^>]*>"@
}

fn script_pattern_text() -> (p: &'static str)
    ensures
        p@ == script_pattern(),
{
    "(?is)<script\\b[^>]*>.*?</script\\s*>|<script\\b[^>]*/>"
}

fn title_pattern_text() -> (p: &'static str)
    ensures
        p@ == title_pattern(),
{
    "(?is)<title\\b[^>]*>.*?</title\\s*>"
}

fn head_close_pattern_text() -> (p: &'static str)
    ensures
        p@ == head_close_pattern(),
{
    "(?i)</head\\s*>"
}

fn body_open_pattern_text() -> (p: &'static str)
    ensures
        p@ == body_open_pattern(),
{
    "(?is)<body\\b[^>]*>"
}

/// An archived page as served: its scripts gone, its links pointed where they should, its title
/// replaced by the archive's head, and the frame at the top of its body.
pub open spec fn archived_of(e: ApodEntry, public_url: Seq<char>, fetched_at: Option<i64>, bytes: Seq<u8>) -> Seq<char> {
    let decoded = decoded_html(bytes).0;
    let stripped = without_all(decoded, script_pattern());
    let rw = rewritten(stripped, str_opt(e.legacy_media_url), str_opt(e.media.url));
    let titled = without_first(rw, title_pattern());
    let head = head_of(e, public_url, Form::Archived);
    let with_head = match first_at(titled, head_close_pattern()) {
        Some((a, _)) => spliced(titled, a, a, head),
        None => "<head>"@ + head + "</head>\n"@ + titled,
    };
    let frame = frame_of(e, fetched_at, Form::Archived);
    let at = match first_at(with_head, body_open_pattern()) {
        Some((_, b)) => Some(b),
        None => match first_at(with_head, head_close_pattern()) {
            Some((_, b)) => Some(b),
            None => None,
        },
    };
    match at {
        Some(a) => spliced(with_head, a, a, frame),
        None => frame + with_head,
    }
}

/// One credit of a reconstruction.
pub open spec fn credit_line(c: Credit, legacy_media: Option<Seq<char>>, media: Option<Seq<char>>) -> Seq<char> {
    "<p class=\"apod-credit\"><b>"@ + escaped(c.role@) + ":</b> "@ + rewritten(c.html@, legacy_media, media) + "</p>"@
}

pub open spec fn credit_lines(cs: Seq<Credit>, legacy_media: Option<Seq<char>>, media: Option<Seq<char>>) -> Seq<Seq<char>> {
    cs.map_values(|c: Credit| credit_line(c, legacy_media, media))
}

/// Tomorrow's teaser, where the record has one.
pub open spec fn teaser_of(e: ApodEntry) -> Seq<char> {
    match e.tomorrow_teaser {
        Some(t) => "<p class=\"apod-teaser\"><b>Tomorrow's picture:</b> "@ + escaped(t@) + "</p>"@,
        None => Seq::empty(),
    }
}

/// The authors and editors credited: the record's, or the ones APOD credits today.
pub open spec fn authors_of(e: ApodEntry) -> Seq<char> {
    if e.authors@.len() == 0 {
        joined(crate::html::str_views(AUTHORS@), ", "@)
    } else {
        joined(e.authors@.map_values(|a: String| a@), ", "@)
    }
}

/// A page rebuilt from the record, for a date nothing was archived for.
pub open spec fn reconstruction_of(e: ApodEntry, public_url: Seq<char>, fetched_at: Option<i64>) -> Seq<char> {
    let lm = str_opt(e.legacy_media_url);
    let mu = str_opt(e.media.url);
    "<!doctype html>\n<html lang=\"en\">\n<head>\n<meta charset=\"utf-8\">\n"@
        + head_of(e, public_url, Form::Reconstruction) + "</head>\n<body class=\"apod-recon\">\n"@
        + frame_of(e, fetched_at, Form::Reconstruction)
        + "\n<main class=\"apod-page\">\n<h1 class=\"apod-masthead\">"@ + NAME@
        + "</h1>\n<p class=\"apod-when\">"@ + escaped(year_first(e.date)) + "</p>\n"@
        + media_block_of(e) + "\n<h2 class=\"apod-title\">"@ + escaped(e.title@) + "</h2>\n"@
        + joined(credit_lines(e.credits@, lm, mu), "\n"@)
        + "\n<div class=\"apod-explanation\"><b>Explanation:</b> "@ + rewritten(
        e.explanation_html@,
        lm,
        mu,
    ) + "</div>\n"@ + teaser_of(e)
        + "\n<hr>\n<footer class=\"apod-foot\">\n<p><b>Authors &amp; editors:</b> "@
        + authors_of(e) + "</p>\n<p><b>A service of:</b> "@ + escaped(SERVICE_LINE@)
        + "</p>\n</footer>\n</main>\n"@ + footer_of(e) + "\n</body>\n</html>\n"@
}

impl<'a> Original<'a> {
    /// The credits of a reconstruction, one line each.
    fn credit_block(&self) -> (credits: String)
        ensures
            credits@ == joined(
                credit_lines(
                    self.entry.credits@,
                    str_opt(self.entry.legacy_media_url),
                    str_opt(self.entry.media.url),
                ),
                "\n"@,
            ),
    {
        let e = self.entry;
        let ghost lm = str_opt(e.legacy_media_url);
        let ghost mu = str_opt(e.media.url);
        let ghost lines = credit_lines(e.credits@, lm, mu);
        let mut credits = String::new();
        let mut i: usize = 0;
        while i < e.credits.len()
            invariant
                i <= e.credits@.len(),
                lm == str_opt(e.legacy_media_url),
                mu == str_opt(e.media.url),
                lines == credit_lines(e.credits@, lm, mu),
                e == self.entry,
                credits@ == joined(lines.take(i as int), "\n"@),
            decreases e.credits.len() - i,
        {
            assert(lines.take(i + 1).drop_last() =~= lines.take(i as int));
            if i > 0 {
                push_str(&mut credits, "\n");
            }
            let c = &e.credits[i];
            push_str(&mut credits, "<p class=\"apod-credit\"><b>");
            push_str(&mut credits, escape(c.role.as_str()).as_str());
            push_str(&mut credits, ":</b> ");
            push_str(&mut credits, self.rewrite_urls(c.html.as_str()).as_str());
            push_str(&mut credits, "</p>");
            i = i + 1;
        }
        assert(lines.take(i as int) =~= lines);
        credits
    }
}

/// The authors and editors a reconstruction credits.
fn authors_text(e: &ApodEntry) -> (authors: String)
    ensures
        authors@ == authors_of(*e),
{
    let mut authors = String::new();
    if e.authors.len() == 0 {
        let ghost names = crate::html::str_views(AUTHORS@);
        let mut k: usize = 0;
        while k < 4
            invariant
                k <= 4,
                names == crate::html::str_views(AUTHORS@),
                names.len() == 4,
                authors@ == joined(names.take(k as int), ", "@),
            decreases 4 - k,
        {
            assert(names.take(k + 1).drop_last() =~= names.take(k as int));
            if k > 0 {
                push_str(&mut authors, ", ");
            }
            push_str(&mut authors, AUTHORS[k]);
            k = k + 1;
        }
        assert(names.take(k as int) =~= names);
    } else {
        let ghost names = e.authors@.map_values(|a: String| a@);
        let mut k: usize = 0;
        while k < e.authors.len()
            invariant
                k <= e.authors@.len(),
                names == e.authors@.map_values(|a: String| a@),
                authors@ == joined(names.take(k as int), ", "@),
            decreases e.authors.len() - k,
        {
            assert(names.take(k + 1).drop_last() =~= names.take(k as int));
            if k > 0 {
                push_str(&mut authors, ", ");
            }
            push_str(&mut authors, e.authors[k].as_str());
            k = k + 1;
        }
        assert(names.take(k as int) =~= names);
    }
    authors
}

impl<'a> Original<'a> {
    /// The archived page, made safe and pointed at the archive.
    pub fn archived(&self, bytes: &[u8]) -> (page: String)
        requires
            in_range(self.entry.date),
        ensures
            page@ == archived_of(*self.entry, self.public_url@, self.fetched_at, bytes@),
    {
        let (decoded, _) = decode_html(bytes);
        let stripped = remove_all(script_pattern_text(), decoded.as_str());
        let rewritten = self.rewrite_urls(stripped.as_str());
        let titled = match find_first(title_pattern_text(), rewritten.as_str()) {
            Some((a, b)) => splice(rewritten.as_str(), a, b, ""),
            None => rewritten,
        };
        proof {
            reveal_strlit("");
        }
        let head = self.head(Form::Archived);
        let with_head = match find_first(head_close_pattern_text(), titled.as_str()) {
            Some((a, _)) => splice(titled.as_str(), a, a, head.as_str()),
            None => {
                let mut w = String::new();
                push_str(&mut w, "<head>");
                push_str(&mut w, head.as_str());
                push_str(&mut w, "</head>\n");
                push_str(&mut w, titled.as_str());
                w
            },
        };
        let frame = self.frame(Form::Archived);
        let at = match find_first(body_open_pattern_text(), with_head.as_str()) {
            Some((_, b)) => Some(b),
            None => match find_first(head_close_pattern_text(), with_head.as_str()) {
                Some((_, b)) => Some(b),
                None => None,
            },
        };
        match at {
            Some(a) => splice(with_head.as_str(), a, a, frame.as_str()),
            None => {
                let mut page = frame;
                push_str(&mut page, with_head.as_str());
                page
            },
        }
    }

    /// A page rebuilt from the record.
    pub fn reconstructed(&self) -> (page: String)
        requires
            in_range(self.entry.date),
        ensures
            page@ == reconstruction_of(*self.entry, self.public_url@, self.fetched_at),
    {
        let e = self.entry;
        let credits = self.credit_block();
        let authors = authors_text(e);
        let mut page = String::new();
        push_str(&mut page, "<!doctype html>\n<html lang=\"en\">\n<head>\n<meta charset=\"utf-8\">\n");
        push_str(&mut page, self.head(Form::Reconstruction).as_str());
        push_str(&mut page, "</head>\n<body class=\"apod-recon\">\n");
        push_str(&mut page, self.frame(Form::Reconstruction).as_str());
        push_str(&mut page, "\n<main class=\"apod-page\">\n<h1 class=\"apod-masthead\">");
        push_str(&mut page, NAME);
        push_str(&mut page, "</h1>\n<p class=\"apod-when\">");
        push_str(&mut page, escape(year_first_text(e.date).as_str()).as_str());
        push_str(&mut page, "</p>\n");
        push_str(&mut page, self.media_block().as_str());
        push_str(&mut page, "\n<h2 class=\"apod-title\">");
        push_str(&mut page, escape(e.title.as_str()).as_str());
        push_str(&mut page, "</h2>\n");
        push_str(&mut page, credits.as_str());
        push_str(&mut page, "\n<div class=\"apod-explanation\"><b>Explanation:</b> ");
        push_str(&mut page, self.rewrite_urls(e.explanation_html.as_str()).as_str());
        push_str(&mut page, "</div>\n");
        match &e.tomorrow_teaser {
            Some(t) => {
                push_str(&mut page, "<p class=\"apod-teaser\"><b>Tomorrow's picture:</b> ");
                push_str(&mut page, escape(t.as_str()).as_str());
                push_str(&mut page, "</p>");
            },
            None => {},
        }
        push_str(&mut page, "\n<hr>\n<footer class=\"apod-foot\">\n<p><b>Authors &amp; editors:</b> ");
        push_str(&mut page, authors.as_str());
        push_str(&mut page, "</p>\n<p><b>A service of:</b> ");
        push_str(&mut page, escape(SERVICE_LINE).as_str());
        push_str(&mut page, "</p>\n</footer>\n</main>\n");
        push_str(&mut page, self.footer_label().as_str());
        push_str(&mut page, "\n</body>\n</html>\n");
        page
    }
}

} // verus!
