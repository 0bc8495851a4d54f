//! Reading an archived page.
use vstd::prelude::*;
use crate::html::{DomItem, NodeKind, NodeView, end_of, items_view, node_view, subtree_end, text_between, text_of};
use crate::text::is_text;
use crate::text::chars_of;
use crate::date::{ApodDate, in_range, source_url_of};
use crate::decode::{decode_html, decoded_html};
use crate::entry::{ApodEntry, Provenance};
use crate::media::opt_view;
use crate::resource::{parse_url, url_parts};

pub mod credit;
pub mod dom;
pub mod title;
pub mod explanation;
pub mod meta;
pub mod media;

verus! {

/// The elements a block of the page can be found in: `p`, `td`, `div`, `center` and `body`.
pub open spec fn container_node(n: NodeView) -> bool {
    match n {
        NodeView::Element(name, _, _) => name == "p"@ || name == "td"@ || name == "div"@ || name
            == "center"@ || name == "body"@,
        _ => false,
    }
}

/// The text of everything below node `i`.
pub open spec fn inner_text(items: Seq<(int, NodeView)>, i: int) -> Seq<char> {
    text_between(items, i + 1, subtree_end(items, i, i + 1))
}

/// How many bytes a character takes in UTF-8.
pub open spec fn utf8_width(c: char) -> nat {
    if (c as u32) < 0x80 {
        1
    } else if (c as u32) < 0x800 {
        2
    } else if (c as u32) < 0x10000 {
        3
    } else {
        4
    }
}

/// How many bytes a text takes in UTF-8.
pub open spec fn byte_len(t: Seq<char>) -> nat
    decreases t.len(),
{
    if t.len() == 0 {
        0
    } else {
        byte_len(t.drop_last()) + utf8_width(t.last())
    }
}

/// The UTF-8 length of a text, in bytes.
pub fn utf8_len(t: &str) -> (n: u128)
    ensures
        n == byte_len(t@),
{
    let v = chars_of(t);
    let mut n: u128 = 0;
    let mut i: usize = 0;
    while i < v.len()
        invariant
            i <= v@.len(),
            n == byte_len(v@.take(i as int)),
            n <= 4 * i,
        decreases v.len() - i,
    {
        assert(v@.take(i + 1).drop_last() =~= v@.take(i as int));
        let c = v[i];
        let w: u128 = if (c as u32) < 0x80 {
            1
        } else if (c as u32) < 0x800 {
            2
        } else if (c as u32) < 0x10000 {
            3
        } else {
            4
        };
        n = n + w;
        i = i + 1;
    }
    assert(v@.take(i as int) =~= t@);
    n
}

/// Among the first `k` nodes, the container whose text satisfies `p` and is shortest in bytes;
/// the first such, where several are equally short.
pub open spec fn tightest(items: Seq<(int, NodeView)>, p: spec_fn(Seq<char>) -> bool, k: int) -> Option<int>
    decreases k,
{
    if k <= 0 {
        None
    } else {
        let r = tightest(items, p, k - 1);
        let i = k - 1;
        if container_node(items[i].1) && p(inner_text(items, i)) {
            match r {
                Some(j) => if byte_len(inner_text(items, i)) < byte_len(inner_text(items, j)) {
                    Some(i)
                } else {
                    r
                },
                None => Some(i),
            }
        } else {
            r
        }
    }
}

/// The container a page's block is read from: the tightest of them whose text satisfies `p`.
pub open spec fn container_of(items: Seq<(int, NodeView)>, p: spec_fn(Seq<char>) -> bool) -> Option<int> {
    tightest(items, p, items.len() as int)
}

proof fn lemma_tightest_bounds(items: Seq<(int, NodeView)>, p: spec_fn(Seq<char>) -> bool, k: int)
    ensures
        tightest(items, p, k) matches Some(j) ==> 0 <= j < k && container_node(items[j].1)
            && p(inner_text(items, j)),
    decreases k,
{
    if k > 0 {
        lemma_tightest_bounds(items, p, k - 1);
    }
}

/// Whether a node is one of the containers.
fn is_container(kind: &NodeKind) -> (b: bool)
    ensures
        b == container_node(node_view(*kind)),
{
    match kind {
        NodeKind::Element { name, .. } => {
            let n = chars_of(name.as_str());
            is_text(&n, "p") || is_text(&n, "td") || is_text(&n, "div") || is_text(&n, "center")
                || is_text(&n, "body")
        },
        _ => false,
    }
}

/// The tightest container whose text `matches` accepts. Tightest, because older pages wrap the
/// whole entry in one table cell and the smallest match carries the least surrounding noise.
pub fn find_container<F: Fn(&str) -> bool>(
    items: &Vec<DomItem>,
    matches: F,
    Ghost(p): Ghost<spec_fn(Seq<char>) -> bool>,
) -> (r: Option<usize>)
    requires
        forall|t: &str| #[trigger] matches.requires((t,)),
        forall|t: &str, b: bool| #[trigger] matches.ensures((t,), b) ==> b == p(t@),
    ensures
        r matches Some(i) ==> Some(i as int) == container_of(items_view(items@), p),
        r is None ==> container_of(items_view(items@), p) is None,
        r matches Some(i) ==> i < items@.len(),
{
    let ghost iv = items_view(items@);
    let mut best: Option<usize> = None;
    let mut best_len: u128 = 0;
    let mut i: usize = 0;
    while i < items.len()
        invariant
            i <= items@.len(),
            iv == items_view(items@),
            forall|t: &str| #[trigger] matches.requires((t,)),
            forall|t: &str, b: bool| #[trigger] matches.ensures((t,), b) ==> b == p(t@),
            best matches Some(j) ==> Some(j as int) == tightest(iv, p, i as int) && j < i
                && best_len == byte_len(inner_text(iv, j as int)),
            best is None ==> tightest(iv, p, i as int) is None,
        decreases items.len() - i,
    {
        assert(iv[i as int] == (items@[i as int].depth as int, node_view(items@[i as int].kind)));
        if is_container(&items[i].kind) {
            let e = end_of(items, i);
            let t = text_of(items, i + 1, e);
            let ok = matches(t.as_str());
            assert(t@ == inner_text(iv, i as int));
            assert(ok == p(inner_text(iv, i as int)));
            if ok {
                let n = utf8_len(t.as_str());
                match best {
                    Some(_) => {
                        if n < best_len {
                            best = Some(i);
                            best_len = n;
                        }
                    },
                    None => {
                        best = Some(i);
                        best_len = n;
                    },
                }
            }
        }
        i = i + 1;
    }
    best
}

/// Where a text of `l` bytes goes among containers listed tightest first: after every one no
/// longer than it, from the `k`th on.
pub open spec fn first_longer(ranked: Seq<(int, nat)>, l: nat, k: int) -> int
    decreases ranked.len() - k,
{
    if k < 0 || k >= ranked.len() {
        ranked.len() as int
    } else if ranked[k].1 > l {
        k
    } else {
        first_longer(ranked, l, k + 1)
    }
}

/// Among the first `k` nodes, the containers whose text satisfies `p`, tightest first and, where
/// two are as tight, in document order; each with the length of its text in bytes.
pub open spec fn ranked_upto(items: Seq<(int, NodeView)>, p: spec_fn(Seq<char>) -> bool, k: int) -> Seq<(int, nat)>
    decreases k,
{
    if k <= 0 {
        Seq::empty()
    } else {
        let r = ranked_upto(items, p, k - 1);
        let i = k - 1;
        if container_node(items[i].1) && p(inner_text(items, i)) {
            let l = byte_len(inner_text(items, i));
            r.insert(first_longer(r, l, 0), (i, l))
        } else {
            r
        }
    }
}

/// The containers whose text satisfies `p`, tightest first.
pub open spec fn containers_of(items: Seq<(int, NodeView)>, p: spec_fn(Seq<char>) -> bool) -> Seq<int> {
    ranked_upto(items, p, items.len() as int).map_values(|c: (int, nat)| c.0)
}

pub open spec fn ranked_view(v: Seq<(usize, u128)>) -> Seq<(int, nat)> {
    v.map_values(|c: (usize, u128)| (c.0 as int, c.1 as nat))
}

proof fn lemma_first_longer_bound(ranked: Seq<(int, nat)>, l: nat, k: int)
    requires
        0 <= k <= ranked.len(),
    ensures
        k <= first_longer(ranked, l, k) <= ranked.len(),
    decreases ranked.len() - k,
{
    if k < ranked.len() {
        lemma_first_longer_bound(ranked, l, k + 1);
    }
}

/// The containers whose text `matches` accepts, tightest first.
pub fn containers<F: Fn(&str) -> bool>(
    items: &Vec<DomItem>,
    matches: F,
    Ghost(p): Ghost<spec_fn(Seq<char>) -> bool>,
) -> (r: Vec<usize>)
    requires
        forall|t: &str| #[trigger] matches.requires((t,)),
        forall|t: &str, b: bool| #[trigger] matches.ensures((t,), b) ==> b == p(t@),
    ensures
        r@.map_values(|i: usize| i as int) == containers_of(items_view(items@), p),
        forall|k: int| 0 <= k < r@.len() ==> #[trigger] r@[k] < items@.len(),
{
    let ghost iv = items_view(items@);
    let mut ranked: Vec<(usize, u128)> = Vec::new();
    let mut i: usize = 0;
    while i < items.len()
        invariant
            i <= items@.len(),
            iv == items_view(items@),
            forall|t: &str| #[trigger] matches.requires((t,)),
            forall|t: &str, b: bool| #[trigger] matches.ensures((t,), b) ==> b == p(t@),
            ranked_view(ranked@) == ranked_upto(iv, p, i as int),
            forall|k: int| 0 <= k < ranked@.len() ==> #[trigger] ranked@[k].0 < i,
        decreases items.len() - i,
    {
        assert(iv[i as int] == (items@[i as int].depth as int, node_view(items@[i as int].kind)));
        if is_container(&items[i].kind) {
            let e = end_of(items, i);
            let t = text_of(items, i + 1, e);
            let ok = matches(t.as_str());
            assert(t@ == inner_text(iv, i as int));
            if ok {
                let n = utf8_len(t.as_str());
                let ghost rv = ranked_view(ranked@);
                let mut at: usize = 0;
                proof {
                    lemma_first_longer_bound(rv, n as nat, 0);
                }
                while at < ranked.len() && ranked[at].1 <= n
                    invariant
                        at <= ranked@.len(),
                        rv == ranked_view(ranked@),
                        first_longer(rv, n as nat, 0) == first_longer(rv, n as nat, at as int),
                    decreases ranked.len() - at,
                {
                    at = at + 1;
                }
                ranked.insert(at, (i, n));
                assert(ranked_view(ranked@) =~= rv.insert(at as int, (i as int, n as nat)));
            }
        }
        i = i + 1;
    }
    let mut out: Vec<usize> = Vec::new();
    let mut k: usize = 0;
    while k < ranked.len()
        invariant
            k <= ranked@.len(),
            ranked_view(ranked@) == ranked_upto(iv, p, items@.len() as int),
            forall|m: int| 0 <= m < ranked@.len() ==> #[trigger] ranked@[m].0 < items@.len(),
            out@.len() == k,
            forall|m: int| 0 <= m < k ==> #[trigger] out@[m] == ranked@[m].0,
            forall|m: int| 0 <= m < out@.len() ==> #[trigger] out@[m] < items@.len(),
        decreases ranked.len() - k,
    {
        out.push(ranked[k].0);
        k = k + 1;
    }
    assert(out@.map_values(|j: usize| j as int) =~= ranked_view(ranked@).map_values(|c: (int, nat)| c.0));
    out
}

/// Why a page could not be read as an entry.
#[derive(Debug, Clone, Copy, PartialEq, Eq)]
pub enum ParseError {
    TitleNotFound,
    ExplanationNotFound,
}

impl ParseError {
    /// What went wrong, as a sentence.
    pub fn message(self) -> (s: &'static str)
        ensures
            s@ == match self {
                ParseError::TitleNotFound => "no title found"@,
                ParseError::ExplanationNotFound => "no explanation found"@,
            },
    {
        match self {
            ParseError::TitleNotFound => "no title found",
            ParseError::ExplanationNotFound => "no explanation found",
        }
    }
}

/// The address a date's page is read against: where the legacy site served it, or the site's
/// root where that does not parse as a URL.
pub open spec fn page_base_of(date: ApodDate) -> Seq<char> {
    if url_parts(source_url_of(date)) is Some {
        source_url_of(date)
    } else {
        crate::APOD_BASE_URL@
    }
}

fn page_base(date: ApodDate) -> (b: String)
    requires
        in_range(date),
    ensures
        b@ == page_base_of(date),
{
    let s = date.source_url();
    if parse_url(s.as_str()).is_some() {
        s
    } else {
        crate::APOD_BASE_URL.to_owned()
    }
}

/// Whether an entry is the one read from a page, given what each part of the page gave.
pub open spec fn read_entry(
    e: ApodEntry,
    date: ApodDate,
    items: Seq<(int, NodeView)>,
    title: Seq<char>,
    explanation: (Seq<char>, Seq<char>),
) -> bool {
    let base = page_base_of(date);
    let credits = credit::parsed_credits(items, base, title);
    let (first, rest) = media::page_media(items, base);
    &&& e.date == date
    &&& e.title@ == title
    &&& opt_view(e.title_raw) == title::raw_title_of(items)
    &&& e.explanation_html@ == explanation.0
    &&& e.explanation_text@ == explanation.1
    &&& credit::credit_views(e.credits@) == match credits {
        Some(c) => c.0,
        None => Seq::empty(),
    }
    &&& e.has_copyright == (credits matches Some(c) && c.1)
    &&& opt_view(e.license_url) == match credits {
        Some(c) => c.2,
        None => None,
    }
    &&& opt_view(e.tomorrow_teaser) == meta::teaser_of(items)
    &&& meta::strings_view(e.keywords@) == meta::keywords_of(items)
    &&& media::media_spec(e.media) == first && media::bare(e.media)
    &&& media::media_specs(e.extra_media@) == rest
    &&& forall|k: int| 0 <= k < e.extra_media@.len() ==> media::bare(#[trigger] e.extra_media@[k])
    &&& e.legacy_media_url is None
    &&& e.alt is None
    &&& e.authors@.len() == 0
    &&& e.provenance == Provenance::LegacyOnly
    &&& e.source_url@ == source_url_of(date)
    &&& e.picture is None
}

/// What reading a parsed page gives: the entry, or why there is none.
pub open spec fn page_read(r: Result<ApodEntry, ParseError>, date: ApodDate, items: Seq<(int, NodeView)>) -> bool {
    match title::title_of(items) {
        None => r == Err::<ApodEntry, ParseError>(ParseError::TitleNotFound),
        Some(t) => match explanation::explanation_of(items, page_base_of(date)) {
            None => r == Err::<ApodEntry, ParseError>(ParseError::ExplanationNotFound),
            Some(x) => r matches Ok(e) && read_entry(e, date, items, t, x),
        },
    }
}

/// Reads a parsed page as the entry of `date`.
pub fn parse_items(date: ApodDate, items: &Vec<DomItem>) -> (r: Result<ApodEntry, ParseError>)
    requires
        in_range(date),
    ensures
        page_read(r, date, items_view(items@)),
{
    let base = page_base(date);
    let title = match title::parse(items) {
        Some(t) => t,
        None => return Err(ParseError::TitleNotFound),
    };
    let explanation = match explanation::parse(items, base.as_str()) {
        Some(x) => x,
        None => return Err(ParseError::ExplanationNotFound),
    };
    let credits = credit::parse(items, base.as_str(), title.as_str());
    let (media, extra_media) = media::parse(items, base.as_str());
    let ghost iv = items_view(items@);
    let ghost t = title@;
    let ghost x = (explanation.html@, explanation.text@);
    let ghost cv = credit::opt_credits_view(credits);
    assert(cv == credit::parsed_credits(iv, page_base_of(date), t));
    let (segments, has_copyright, license_url) = match credits {
        Some(c) => (c.segments, c.has_copyright, c.license_url),
        None => (Vec::new(), false, None),
    };
    assert(credit::credit_views(segments@) == match cv {
        Some(c) => c.0,
        None => Seq::empty(),
    });
    assert(has_copyright == (cv matches Some(c) && c.1));
    assert(opt_view(license_url) == match cv {
        Some(c) => c.2,
        None => None,
    });
    let e = ApodEntry {
        date,
        title,
        title_raw: title::raw_title(items),
        explanation_html: explanation.html,
        explanation_text: explanation.text,
        credits: segments,
        has_copyright,
        license_url,
        tomorrow_teaser: meta::tomorrow_teaser(items),
        keywords: meta::keywords(items),
        media,
        extra_media,
        legacy_media_url: None,
        alt: None,
        authors: Vec::new(),
        provenance: Provenance::LegacyOnly,
        source_url: date.source_url(),
        picture: None,
    };
    assert(e.title@ == t);
    assert(opt_view(e.title_raw) == title::raw_title_of(iv));
    assert(opt_view(e.tomorrow_teaser) == meta::teaser_of(iv));
    assert(e.authors@.len() == 0);
    assert(media::media_spec(e.media) == media::page_media(iv, page_base_of(date)).0);
    assert(media::media_specs(e.extra_media@) == media::page_media(iv, page_base_of(date)).1);
    assert(meta::strings_view(e.keywords@) == meta::keywords_of(iv));
    assert(e.source_url@ == source_url_of(date));
    assert(read_entry(e, date, iv, t, x));
    Ok(e)
}

/// Reads a page's HTML as the entry of `date`.
pub fn parse_page(date: ApodDate, raw: &str) -> (r: Result<ApodEntry, ParseError>)
    requires
        in_range(date),
    ensures
        page_read(r, date, crate::html::parsed_document(raw@)),
{
    let items = crate::html::parse_document(raw);
    parse_items(date, &items)
}

/// Reads a page's bytes, in whatever encoding they are in, as the entry of `date`.
pub fn parse_bytes(date: ApodDate, bytes: &[u8]) -> (r: Result<ApodEntry, ParseError>)
    requires
        in_range(date),
    ensures
        page_read(r, date, crate::html::parsed_document(decoded_html(bytes@).0)),
{
    let (text, _) = decode_html(bytes);
    parse_page(date, text.as_str())
}

} // verus!
