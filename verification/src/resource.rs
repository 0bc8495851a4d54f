//! The resources an entry links out to: every web page its explanation and credits link,
//! gathered so that one page linked several ways is one resource.
use vstd::prelude::*;
use crate::entry::ApodEntry;
use crate::html::{collapse, collapsed, str_views};
use crate::pattern::{captures, captures_of, captures_view, group_of, group_text, groups_in, is_match, matches_somewhere, remove_all, span_end, span_start, spans_view, well_placed, without_all};
use crate::text::{chars_eq, chars_of, decimal, find_last, is_text, last_index, lower_all, lower_chars, push_decimal, push_str, replace, replaced, slice_chars, starts_with, starts_with_chars, string_of, strip_trail_set, strip_trailing};

verus! {

/// The scheme of a plain web link.
pub const HTTP: &'static str = "http";

/// The scheme of a secure web link.
pub const HTTPS: &'static str = "https";

/// A URL's parts, as the url crate reads them.
pub struct UrlParts {
    pub scheme: String,
    pub host: Option<String>,
    /// The port, when it is not the scheme's default.
    pub port: Option<u16>,
    pub path: String,
    pub query: Option<String>,
}

pub open spec fn opt_chars(o: Option<String>) -> Option<Seq<char>> {
    match o {
        Some(s) => Some(s@),
        None => None,
    }
}

/// A URL's parts as plain values: scheme, host, port, path and query.
pub type UrlView = (Seq<char>, Option<Seq<char>>, Option<u16>, Seq<char>, Option<Seq<char>>);

pub open spec fn parts_view(p: UrlParts) -> UrlView {
    (p.scheme@, opt_chars(p.host), p.port, p.path@, opt_chars(p.query))
}

/// What the url crate reads `s` as: its scheme, host, port (unless the default), path and
/// query; `None` when `s` is not an absolute URL.
pub uninterp spec fn url_parts(s: Seq<char>) -> Option<UrlView>;

/// The url crate's `Url::parse`, taken apart into `scheme()`, `host_str()`, `port()`,
/// `path()` and `query()`.
#[verifier::external_body]
pub(crate) fn parse_url(s: &str) -> (r: Option<UrlParts>)
    ensures
        match r {
            Some(p) => url_parts(s@) == Some(parts_view(p)),
            None => url_parts(s@) is None,
        },
{
    let url = url::Url::parse(s).ok()?;
    Some(UrlParts {
        scheme: url.scheme().to_owned(),
        host: url.host_str().map(str::to_owned),
        port: url.port(),
        path: url.path().to_owned(),
        query: url.query().map(str::to_owned),
    })
}

/// One resource an entry links to.
#[derive(Debug, Clone, PartialEq, Eq)]
pub struct Link {
    /// The address without its scheme or fragment, and without a trailing slash: what makes two
    /// links the same resource.
    pub key: String,
    pub scheme: String,
    /// The host, without a leading `www.`.
    pub host: String,
    /// The text of the first link to it.
    pub anchor: String,
    /// Whether a credit links to it.
    pub in_credit: bool,
    /// How many links to it there are.
    pub count: u32,
}

/// A resource as plain values: key, scheme, host, anchor, whether credited, count.
pub type LinkView = (Seq<char>, Seq<char>, Seq<char>, Seq<char>, bool, u32);

pub open spec fn link_view(l: Link) -> LinkView {
    (l.key@, l.scheme@, l.host@, l.anchor@, l.in_credit, l.count)
}

pub open spec fn link_views(ls: Seq<Link>) -> Seq<LinkView> {
    ls.map_values(|l: Link| link_view(l))
}

/// The address of a resource: its scheme, `://` and its key.
pub open spec fn url_of(scheme: Seq<char>, key: Seq<char>) -> Seq<char> {
    scheme + "://"@ + key
}

/// The address of a resource.
pub fn url(scheme: &str, key: &str) -> (u: String)
    ensures
        u@ == url_of(scheme@, key@),
{
    let mut u = String::new();
    push_str(&mut u, scheme);
    push_str(&mut u, "://");
    push_str(&mut u, key);
    u
}

impl Link {
    /// The address of this resource.
    pub fn url(&self) -> (u: String)
        ensures
            u@ == url_of(self.scheme@, self.key@),
    {
        url(self.scheme.as_str(), self.key.as_str())
    }
}

/// HTML's four entities of markup turned back into their characters, `&amp;` last.
pub open spec fn unescaped(s: Seq<char>) -> Seq<char> {
    replaced(replaced(replaced(replaced(s, "&lt;"@, "<"@), "&gt;"@, ">"@), "&quot;"@, "\""@), "&amp;"@, "&"@)
}

pub fn unescape(raw: &str) -> (out: String)
    ensures
        out@ == unescaped(raw@),
{
    proof {
        reveal_strlit("&lt;");
        reveal_strlit("&gt;");
        reveal_strlit("&quot;");
        reveal_strlit("&amp;");
    }
    let a = replace(raw, "&lt;", "<");
    let b = replace(a.as_str(), "&gt;", ">");
    let c = replace(b.as_str(), "&quot;", "\"");
    replace(c.as_str(), "&amp;", "&")
}

/// The extensions of pictures, recordings and other media.
pub open spec fn media_extensions() -> Seq<Seq<char>> {
    seq![
        "jpg"@, "jpeg"@, "png"@, "gif"@, "bmp"@, "tif"@, "tiff"@, "svg"@, "webp"@, "ico"@, "mp4"@,
        "m4v"@, "mov"@, "avi"@, "wmv"@, "mpg"@, "mpeg"@, "flv"@, "swf"@, "webm"@, "mp3"@, "wav"@,
        "ogg"@, "m4a"@,
    ]
}

fn media_extension_list() -> (v: Vec<&'static str>)
    ensures
        str_views(v@) == media_extensions(),
{
    let v = vec![
        "jpg", "jpeg", "png", "gif", "bmp", "tif", "tiff", "svg", "webp", "ico", "mp4", "m4v",
        "mov", "avi", "wmv", "mpg", "mpeg", "flv", "swf", "webm", "mp3", "wav", "ogg", "m4a",
    ];
    assert(str_views(v@) =~= media_extensions());
    v
}

/// A path to media: its extension, after its last `.`, is one of a picture or a recording.
pub open spec fn media_path(path: Seq<char>) -> bool {
    let i = last_index(path, '.');
    i >= 0 && media_extensions().contains(lower_all(path.skip(i + 1)))
}

/// Whether `w` is one of `list`.
fn one_of(w: &Vec<char>, list: &Vec<&str>) -> (b: bool)
    ensures
        b == str_views(list@).contains(w@),
{
    let mut i: usize = 0;
    while i < list.len()
        invariant
            i <= list@.len(),
            forall|j: int| 0 <= j < i ==> str_views(list@)[j] != w@,
        decreases list.len() - i,
    {
        if chars_eq(w, &chars_of(list[i])) {
            assert(str_views(list@)[i as int] == w@);
            return true;
        }
        i = i + 1;
    }
    false
}

pub fn is_media(path: &str) -> (b: bool)
    ensures
        b == media_path(path@),
{
    let v = chars_of(path);
    let n = v.len();
    match find_last(&v, '.') {
        Some(i) => {
            let ext = lower_chars(&slice_chars(&v, i + 1, n));
            assert(v@.subrange(i + 1, v@.len() as int) =~= v@.skip(i + 1));
            one_of(&ext, &media_extension_list())
        },
        None => false,
    }
}

/// The hosts APOD itself is served from.
pub open spec fn apod_hosts() -> Seq<Seq<char>> {
    seq!["apod.nasa.gov"@, "antwrp.gsfc.nasa.gov"@]
}

/// The parts of APOD's site that are its own furniture, not something an entry refers to.
pub open spec fn apod_furniture() -> Seq<Seq<char>> {
    seq![
        "/apod/lib/"@, "/apod/calendar/"@, "/apod/archivepix"@, "/apod/archive"@, "/apod/index"@,
        "/cgi-bin/"@, "/lib/"@,
    ]
}

/// An entry page of APOD's.
pub open spec fn entry_page_pattern() -> Seq<char> {
    "(?i)/ap\\d{6}\\.html$"@
}

fn entry_page_pattern_text() -> (p: &'static str)
    ensures
        p@ == entry_page_pattern(),
{
    "(?i)/ap\\d{6}\\.html$"
}

/// A link to APOD's own pages: its home, an entry, or its furniture.
pub open spec fn furniture(host: Seq<char>, path: Seq<char>) -> bool {
    &&& apod_hosts().contains(host)
    &&& {
        ||| path == "/"@
        ||| path == "/apod"@
        ||| matches_somewhere(entry_page_pattern(), path)
        ||| exists|k: int| 0 <= k < apod_furniture().len() && starts_with(lower_all(path), #[trigger] apod_furniture()[k])
    }
}

pub fn is_apod_furniture(host: &str, path: &str) -> (b: bool)
    ensures
        b == furniture(host@, path@),
{
    let hosts = vec!["apod.nasa.gov", "antwrp.gsfc.nasa.gov"];
    assert(str_views(hosts@) =~= apod_hosts());
    if !one_of(&chars_of(host), &hosts) {
        return false;
    }
    let p = chars_of(path);
    if is_text(&p, "/") || is_text(&p, "/apod") {
        return true;
    }
    if is_match(entry_page_pattern_text(), path) {
        return true;
    }
    let low = lower_chars(&p);
    let prefixes = vec![
        "/apod/lib/", "/apod/calendar/", "/apod/archivepix", "/apod/archive", "/apod/index",
        "/cgi-bin/", "/lib/",
    ];
    assert(str_views(prefixes@) =~= apod_furniture());
    let mut k: usize = 0;
    while k < prefixes.len()
        invariant
            k <= prefixes@.len(),
            str_views(prefixes@) == apod_furniture(),
            apod_hosts().contains(host@),
            low@ == lower_all(path@),
            forall|j: int| 0 <= j < k ==> !starts_with(lower_all(path@), #[trigger] apod_furniture()[j]),
        decreases prefixes.len() - k,
    {
        assert(apod_furniture()[k as int] == prefixes@[k as int]@);
        if starts_with_chars(&low, &chars_of(prefixes[k])) {
            assert(starts_with(lower_all(path@), apod_furniture()[k as int]));
            return true;
        }
        k = k + 1;
    }
    false
}

/// A tag.
pub open spec fn tag_pattern() -> Seq<char> {
    "<[^>]*>"@
}

/// A link with its text.
pub open spec fn anchor_pattern() -> Seq<char> {
    "(?s)<a href=\"([^\"]*)\">(.*?)</a>"@
}

fn tag_pattern_text() -> (p: &'static str)
    ensures
        p@ == tag_pattern(),
{
    "<[^>]*>"
}

fn anchor_pattern_text() -> (p: &'static str)
    ensures
        p@ == anchor_pattern(),
{
    "(?s)<a href=\"([^\"]*)\">(.*?)</a>"
}

/// `host` without a leading `www.`.
pub open spec fn without_www(host: Seq<char>) -> Seq<char> {
    if starts_with(host, "www."@) {
        host.skip(4)
    } else {
        host
    }
}

/// The resource a link is to, as the link names it: `None` for what is not a web page on a
/// named host, for media, and for APOD's own pages. The path loses its trailing slashes (all of
/// it a lone `/`), the host its trailing dots and its capitals.
pub open spec fn link_of(href: Seq<char>, anchor_html: Seq<char>, in_credit: bool) -> Option<LinkView> {
    match url_parts(unescaped(href)) {
        None => None,
        Some((scheme, host0, port, path0, query)) => if scheme != "http"@ && scheme != "https"@ {
            None
        } else {
            match host0 {
                None => None,
                Some(h) => {
                    let host = lower_all(strip_trail_set(h, seq!['.']));
                    let trimmed = strip_trail_set(path0, seq!['/']);
                    let path = if trimmed.len() == 0 {
                        "/"@
                    } else {
                        trimmed
                    };
                    if host.len() == 0 || media_path(path) || furniture(host, path) {
                        None
                    } else {
                        let authority = match port {
                            Some(n) => host + ":"@ + decimal(n as nat),
                            None => host,
                        };
                        let q = match query {
                            Some(q) => "?"@ + q,
                            None => Seq::empty(),
                        };
                        Some(
                            (
                                authority + path + q,
                                scheme,
                                without_www(host),
                                collapsed(unescaped(without_all(anchor_html, tag_pattern()))),
                                in_credit,
                                1u32,
                            ),
                        )
                    }
                },
            }
        },
    }
}

/// The resource a link is to.
pub fn link(href: &str, anchor_html: &str, in_credit: bool) -> (r: Option<Link>)
    ensures
        match r {
            Some(l) => link_of(href@, anchor_html@, in_credit) == Some(link_view(l)),
            None => link_of(href@, anchor_html@, in_credit) is None,
        },
{
    let url = match parse_url(unescape(href).as_str()) {
        Some(u) => u,
        None => return None,
    };
    let s = chars_of(url.scheme.as_str());
    if !is_text(&s, "http") && !is_text(&s, "https") {
        return None;
    }
    let h = match &url.host {
        Some(h) => h,
        None => return None,
    };
    let dot = vec!['.'];
    assert(dot@ =~= seq!['.']);
    let host = lower_chars(&strip_trailing(&chars_of(h.as_str()), &dot));
    let slash = vec!['/'];
    assert(slash@ =~= seq!['/']);
    let trimmed = strip_trailing(&chars_of(url.path.as_str()), &slash);
    let path = if trimmed.len() == 0 {
        "/".to_owned()
    } else {
        string_of(&trimmed)
    };
    let host_s = string_of(&host);
    if host.len() == 0 || is_media(path.as_str()) || is_apod_furniture(host_s.as_str(), path.as_str()) {
        return None;
    }
    let mut key = string_of(&host);
    match url.port {
        Some(n) => {
            push_str(&mut key, ":");
            push_decimal(&mut key, n as u64);
        },
        None => {},
    }
    push_str(&mut key, path.as_str());
    match &url.query {
        Some(q) => {
            push_str(&mut key, "?");
            push_str(&mut key, q.as_str());
        },
        None => {},
    }
    proof {
        reveal_strlit("www.");
    }
    let www = chars_of("www.");
    let bare = if starts_with_chars(&host, &www) {
        let b = slice_chars(&host, 4, host.len());
        assert(host@.subrange(4, host@.len() as int) =~= host@.skip(4));
        b
    } else {
        host
    };
    let anchor = collapse(unescape(remove_all(tag_pattern_text(), anchor_html).as_str()).as_str());
    Some(Link {
        key,
        scheme: url.scheme,
        host: string_of(&bare),
        anchor,
        in_credit,
        count: 1,
    })
}

/// Where the resource with `key` stands among `found`, or -1.
pub open spec fn key_index(found: Seq<LinkView>, key: Seq<char>) -> int
    decreases found.len(),
{
    if found.len() == 0 {
        -1
    } else if key_index(found.drop_last(), key) >= 0 {
        key_index(found.drop_last(), key)
    } else if found.last().0 == key {
        found.len() - 1
    } else {
        -1
    }
}

/// One more link to a resource: counted and, where it is credited or secure, marked so if the
/// resource is known; else the resource added.
pub open spec fn absorb(found: Seq<LinkView>, l: LinkView) -> Seq<LinkView> {
    let i = key_index(found, l.0);
    if i < 0 {
        found.push(l)
    } else {
        let seen = found[i];
        found.update(
            i,
            (
                seen.0,
                if l.1 == "https"@ {
                    l.1
                } else {
                    seen.1
                },
                seen.2,
                seen.3,
                seen.4 || l.4,
                if seen.5 < u32::MAX {
                    (seen.5 + 1) as u32
                } else {
                    seen.5
                },
            ),
        )
    }
}

/// The resources of the links of one block of HTML, in order.
pub open spec fn block_links(html: Seq<char>, in_credit: bool) -> Seq<Option<LinkView>> {
    captures_of(anchor_pattern(), html).map_values(
        |c: Seq<Option<(int, int)>>| link_of(group_text(html, c, 1), group_text(html, c, 2), in_credit),
    )
}

/// `found` with the first `k` of `ls` absorbed.
pub open spec fn absorb_upto(found: Seq<LinkView>, ls: Seq<Option<LinkView>>, k: int) -> Seq<LinkView>
    decreases k,
{
    if k <= 0 {
        found
    } else {
        let f = absorb_upto(found, ls, k - 1);
        match ls[k - 1] {
            Some(l) => absorb(f, l),
            None => f,
        }
    }
}

pub open spec fn absorb_block(found: Seq<LinkView>, html: Seq<char>, in_credit: bool) -> Seq<LinkView> {
    let ls = block_links(html, in_credit);
    absorb_upto(found, ls, ls.len() as int)
}

/// `found` with the links of the first `k` credits absorbed.
pub open spec fn absorb_credits(found: Seq<LinkView>, e: ApodEntry, k: int) -> Seq<LinkView>
    decreases k,
{
    if k <= 0 {
        found
    } else {
        absorb_block(absorb_credits(found, e, k - 1), e.credits@[k - 1].html@, true)
    }
}

/// Every resource an entry links to, from its explanation and then its credits, in the order
/// first linked. A count stops at `u32::MAX`.
pub open spec fn links_of(e: ApodEntry) -> Seq<LinkView> {
    absorb_credits(absorb_block(Seq::empty(), e.explanation_html@, false), e, e.credits@.len() as int)
}

/// No key appears twice.
pub open spec fn distinct_keys(found: Seq<LinkView>) -> bool {
    forall|i: int, j: int| 0 <= i < j < found.len() ==> found[i].0 != found[j].0
}

proof fn lemma_key_index(found: Seq<LinkView>, key: Seq<char>)
    ensures
        key_index(found, key) < found.len(),
        key_index(found, key) >= 0 ==> found[key_index(found, key)].0 == key,
        key_index(found, key) < 0 ==> forall|i: int| 0 <= i < found.len() ==> found[i].0 != key,
        forall|i: int| 0 <= i < found.len() && found[i].0 == key ==> 0 <= key_index(found, key) <= i,
    decreases found.len(),
{
    if found.len() > 0 {
        lemma_key_index(found.drop_last(), key);
        assert forall|i: int| 0 <= i < found.len() - 1 implies found[i] == found.drop_last()[i] by {}
    }
}

proof fn lemma_absorb_distinct(found: Seq<LinkView>, l: LinkView)
    requires
        distinct_keys(found),
    ensures
        distinct_keys(absorb(found, l)),
{
    lemma_key_index(found, l.0);
}

proof fn lemma_absorb_upto_distinct(found: Seq<LinkView>, ls: Seq<Option<LinkView>>, k: int)
    requires
        distinct_keys(found),
    ensures
        distinct_keys(absorb_upto(found, ls, k)),
    decreases k,
{
    if k > 0 {
        lemma_absorb_upto_distinct(found, ls, k - 1);
        match ls[k - 1] {
            Some(l) => lemma_absorb_distinct(absorb_upto(found, ls, k - 1), l),
            None => {},
        }
    }
}

proof fn lemma_absorb_credits_distinct(found: Seq<LinkView>, e: ApodEntry, k: int)
    requires
        distinct_keys(found),
    ensures
        distinct_keys(absorb_credits(found, e, k)),
    decreases k,
{
    if k > 0 {
        lemma_absorb_credits_distinct(found, e, k - 1);
        let f = absorb_credits(found, e, k - 1);
        let ls = block_links(e.credits@[k - 1].html@, true);
        lemma_absorb_upto_distinct(f, ls, ls.len() as int);
    }
}

/// One resource is listed once, however many links there are to it and however they spell it.
pub proof fn law_one_resource_once(e: ApodEntry)
    ensures
        distinct_keys(links_of(e)),
{
    let ls = block_links(e.explanation_html@, false);
    lemma_absorb_upto_distinct(Seq::empty(), ls, ls.len() as int);
    lemma_absorb_credits_distinct(absorb_block(Seq::empty(), e.explanation_html@, false), e, e.credits@.len() as int);
}

/// Absorbs one more link into `found`.
fn absorb_link(found: &mut Vec<Link>, l: Link)
    ensures
        link_views(final(found)@) == absorb(link_views(old(found)@), link_view(l)),
{
    let ghost fv = link_views(found@);
    let mut i: usize = 0;
    proof {
        lemma_key_index(fv, l.key@);
    }
    while i < found.len()
        invariant
            i <= found@.len(),
            fv == link_views(found@),
            found@ == old(found)@,
            forall|j: int| 0 <= j < i ==> fv[j].0 != l.key@,
        decreases found.len() - i,
    {
        if chars_eq(&chars_of(found[i].key.as_str()), &chars_of(l.key.as_str())) {
            proof {
                lemma_key_index(fv, l.key@);
                assert(fv[i as int].0 == l.key@);
                assert(key_index(fv, l.key@) == i);
            }
            let secure = is_text(&chars_of(l.scheme.as_str()), "https");
            let ghost seen = fv[i as int];
            let old_link = &found[i];
            let mut entry = Link {
                key: old_link.key.clone(),
                scheme: old_link.scheme.clone(),
                host: old_link.host.clone(),
                anchor: old_link.anchor.clone(),
                in_credit: old_link.in_credit,
                count: old_link.count,
            };
            assert(link_view(entry) == seen);
            if entry.count < u32::MAX {
                entry.count = entry.count + 1;
            }
            entry.in_credit = entry.in_credit || l.in_credit;
            if secure {
                entry.scheme = l.scheme;
            }
            found.set(i, entry);
            assert(link_views(found@) =~= absorb(fv, link_view(l)));
            return;
        }
        i = i + 1;
    }
    found.push(l);
    assert(link_views(found@) =~= absorb(fv, link_view(l)));
}

/// Absorbs the links of one block of HTML.
fn absorb_html(found: &mut Vec<Link>, html: &str, in_credit: bool)
    ensures
        link_views(final(found)@) == absorb_block(link_views(old(found)@), html@, in_credit),
{
    let v = chars_of(html);
    let caps = captures(anchor_pattern_text(), html);
    let ghost cv = captures_view(caps@);
    let ghost ls = block_links(html@, in_credit);
    let ghost start = link_views(found@);
    let mut k: usize = 0;
    while k < caps.len()
        invariant
            k <= caps@.len(),
            v@ == html@,
            cv == captures_view(caps@),
            cv == captures_of(anchor_pattern(), html@),
            ls == block_links(html@, in_credit),
            ls.len() == caps@.len(),
            well_placed(cv, html@.len()),
            link_views(found@) == absorb_upto(start, ls, k as int),
        decreases caps.len() - k,
    {
        assert(cv[k as int] == spans_view(caps@[k as int]@));
        assert(groups_in(spans_view(caps@[k as int]@), v@.len() as int)) by {
            assert forall|g: int|
                0 <= g < spans_view(caps@[k as int]@).len() && (#[trigger] spans_view(caps@[k as int]@)[g]) is Some
                implies 0 <= span_start(spans_view(caps@[k as int]@)[g]) <= span_end(
                spans_view(caps@[k as int]@)[g],
            ) <= v@.len() by {
                assert(cv[k as int][g] is Some);
            }
        }
        let href = string_of(&group_of(&v, &caps[k], 1));
        let text = string_of(&group_of(&v, &caps[k], 2));
        match link(href.as_str(), text.as_str(), in_credit) {
            Some(l) => absorb_link(found, l),
            None => {},
        }
        k = k + 1;
    }
}

/// Every resource an entry links to, in the order first linked.
pub fn links(entry: &ApodEntry) -> (found: Vec<Link>)
    ensures
        link_views(found@) == links_of(*entry),
{
    let mut found: Vec<Link> = Vec::new();
    assert(link_views(found@) =~= Seq::<LinkView>::empty());
    absorb_html(&mut found, entry.explanation_html.as_str(), false);
    let ghost first = link_views(found@);
    let mut k: usize = 0;
    while k < entry.credits.len()
        invariant
            k <= entry.credits@.len(),
            first == absorb_block(Seq::empty(), entry.explanation_html@, false),
            link_views(found@) == absorb_credits(first, *entry, k as int),
        decreases entry.credits.len() - k,
    {
        absorb_html(&mut found, entry.credits[k].html.as_str(), true);
        k = k + 1;
    }
    found
}

/// The extensions of pictures, recordings and animations, as a link's path may end in them.
pub open spec fn picture_or_recording(e: Seq<char>) -> bool {
    ||| e == "jpg"@
    ||| e == "jpeg"@
    ||| e == "png"@
    ||| e == "gif"@
    ||| e == "bmp"@
    ||| e == "tif"@
    ||| e == "tiff"@
    ||| e == "svg"@
    ||| e == "webp"@
    ||| e == "ico"@
    ||| e == "mp4"@
    ||| e == "m4v"@
    ||| e == "mov"@
    ||| e == "avi"@
    ||| e == "wmv"@
    ||| e == "mpg"@
    ||| e == "mpeg"@
    ||| e == "flv"@
    ||| e == "swf"@
    ||| e == "webm"@
    ||| e == "mp3"@
    ||| e == "wav"@
    ||| e == "ogg"@
    ||| e == "m4a"@
}

proof fn lemma_last_dot(s: Seq<char>, j: int)
    requires
        0 <= j < s.len(),
        s[j] == '.',
        forall|k: int| j < k < s.len() ==> s[k] != '.',
    ensures
        last_index(s, '.') == j,
    decreases s.len(),
{
    if s.len() - 1 > j {
        lemma_last_dot(s.drop_last(), j);
    }
}

/// A link whose path ends in the extension of a picture, a recording or an animation, in any
/// case, is media: it is never catalogued as a resource, whatever else it is.
pub proof fn law_media_is_never_a_resource(
    href: Seq<char>,
    anchor_html: Seq<char>,
    in_credit: bool,
    parts: UrlView,
    e: Seq<char>,
)
    requires
        url_parts(unescaped(href)) == Some(parts),
        picture_or_recording(e),
        ({
            let path = strip_trail_set(parts.3, seq!['/']);
            path.len() > e.len() && lower_all(path.skip(path.len() - e.len() - 1)) == seq!['.'] + e
        }),
    ensures
        link_of(href, anchor_html, in_credit) is None,
{
    let path = strip_trail_set(parts.3, seq!['/']);
    let j = path.len() - e.len() - 1;
    let tail = path.skip(j);
    assert(lower_all(tail)[0] == '.');
    assert(lower_all(tail)[0] == crate::text::lower(tail[0]));
    assert(path[j] == tail[0]);
    proof_ext_letters(e);
    assert forall|k: int| j < k < path.len() implies path[k] != '.' by {
        assert(lower_all(tail)[k - j] == crate::text::lower(path[k]));
        assert((seq!['.'] + e)[k - j] == e[k - j - 1]);
    }
    lemma_last_dot(path, j);
    assert(path.skip(j + 1) =~= tail.skip(1));
    assert forall|k: int| 0 <= k < e.len() implies lower_all(path.skip(j + 1))[k] == e[k] by {
        assert(lower_all(path.skip(j + 1))[k] == crate::text::lower(path[j + 1 + k]));
        assert(lower_all(tail)[k + 1] == crate::text::lower(tail[k + 1]));
        assert((seq!['.'] + e)[k + 1] == e[k]);
    }
    assert(lower_all(path.skip(j + 1)) =~= e);
    let m = media_extensions();
    assert(m.contains(e)) by {
        if e == "jpg"@ { assert(m[0] == e); }
        if e == "jpeg"@ { assert(m[1] == e); }
        if e == "png"@ { assert(m[2] == e); }
        if e == "gif"@ { assert(m[3] == e); }
        if e == "bmp"@ { assert(m[4] == e); }
        if e == "tif"@ { assert(m[5] == e); }
        if e == "tiff"@ { assert(m[6] == e); }
        if e == "svg"@ { assert(m[7] == e); }
        if e == "webp"@ { assert(m[8] == e); }
        if e == "ico"@ { assert(m[9] == e); }
        if e == "mp4"@ { assert(m[10] == e); }
        if e == "m4v"@ { assert(m[11] == e); }
        if e == "mov"@ { assert(m[12] == e); }
        if e == "avi"@ { assert(m[13] == e); }
        if e == "wmv"@ { assert(m[14] == e); }
        if e == "mpg"@ { assert(m[15] == e); }
        if e == "mpeg"@ { assert(m[16] == e); }
        if e == "flv"@ { assert(m[17] == e); }
        if e == "swf"@ { assert(m[18] == e); }
        if e == "webm"@ { assert(m[19] == e); }
        if e == "mp3"@ { assert(m[20] == e); }
        if e == "wav"@ { assert(m[21] == e); }
        if e == "ogg"@ { assert(m[22] == e); }
        if e == "m4a"@ { assert(m[23] == e); }
    }
    assert(media_path(path));
}

proof fn proof_ext_letters(e: Seq<char>)
    requires
        picture_or_recording(e),
    ensures
        forall|k: int| 0 <= k < e.len() ==> e[k] != '.',
{
    reveal_strlit("jpg");
    reveal_strlit("jpeg");
    reveal_strlit("png");
    reveal_strlit("gif");
    reveal_strlit("bmp");
    reveal_strlit("tif");
    reveal_strlit("tiff");
    reveal_strlit("svg");
    reveal_strlit("webp");
    reveal_strlit("ico");
    reveal_strlit("mp4");
    reveal_strlit("m4v");
    reveal_strlit("mov");
    reveal_strlit("avi");
    reveal_strlit("wmv");
    reveal_strlit("mpg");
    reveal_strlit("mpeg");
    reveal_strlit("flv");
    reveal_strlit("swf");
    reveal_strlit("webm");
    reveal_strlit("mp3");
    reveal_strlit("wav");
    reveal_strlit("ogg");
    reveal_strlit("m4a");
}

} // verus!
