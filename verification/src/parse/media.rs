//! What an entry shows: its picture, video or embed, with the full-resolution picture it links.
use vstd::prelude::*;
use crate::html::{DomItem, NodeKind, NodeView, end_of, items_view, node_view, resolve_url, resolved, subtree_end};
use crate::media::{Media, MediaKind, image_kind, kind_of_embed, kind_of_url, opt_view};
use crate::parse::dom::{
    ancestor, attr, attr_at, find_below, index_views, is_named, named_at, named_below, root_element,
    root_from,
};
use crate::text::{
    before_any, chars_of, contains_chars, has_seq, is_text, lower_all, lower_chars, occurs_at,
    starts_with, starts_with_chars, string_of, take_before_any,
};

verus! {

/// What a media element shows, as plain values: its kind, its URL and its full-resolution URL.
pub type MediaSpec = (MediaKind, Option<Seq<char>>, Option<Seq<char>>);

pub open spec fn media_spec(m: Media) -> MediaSpec {
    (m.kind, opt_view(m.url), opt_view(m.hd_url))
}

/// A media value as parsing makes it: no thumbnail yet.
pub open spec fn bare(m: Media) -> bool {
    m.thumb_path is None && m.thumb_url is None && m.thumb_width is None && m.thumb_height is None
}

pub open spec fn media_specs(ms: Seq<Media>) -> Seq<MediaSpec> {
    ms.map_values(|m: Media| media_spec(m))
}

/// A link resolved against the page, if it is a web address.
pub open spec fn http_url_of(base: Seq<char>, href: Seq<char>) -> Option<Seq<char>> {
    match resolved(base, href) {
        Some(u) => if starts_with(u, "http"@) {
            Some(u)
        } else {
            None
        },
        None => None,
    }
}

fn http_url(base: &str, href: &str) -> (r: Option<String>)
    ensures
        opt_view(r) == http_url_of(base@, href@),
{
    proof {
        reveal_strlit("http");
    }
    match resolve_url(base, href) {
        Some(u) => if starts_with_chars(&chars_of(u.as_str()), &chars_of("http")) {
            Some(u)
        } else {
            None
        },
        None => None,
    }
}

/// A link to a full-resolution picture: a picture under an `/image/` folder.
pub open spec fn image_link(url: Seq<char>) -> bool {
    image_kind(kind_of_url(url)) && has_seq(url, "/image/"@)
}

fn is_image_link(url: &str) -> (b: bool)
    ensures
        b == image_link(url@),
{
    MediaKind::from_url(url).is_image() && contains_chars(&chars_of(url), &chars_of("/image/"))
}

/// The `href` of node `k`, if it is an element with one.
pub open spec fn href_at(items: Seq<(int, NodeView)>, k: int) -> Option<Seq<char>> {
    if 0 <= k < items.len() {
        match items[k].1 {
            NodeView::Element(_, h, _) => h,
            _ => None,
        }
    } else {
        None
    }
}

fn href_of(kind: &NodeKind) -> (r: Option<String>)
    ensures
        match node_view(*kind) {
            NodeView::Element(_, h, _) => opt_view(r) == h,
            _ => r is None,
        },
{
    match kind {
        NodeKind::Element { href, .. } => match href {
            Some(h) => Some(h.clone()),
            None => None,
        },
        _ => None,
    }
}

/// Node `k` is a link to a full-resolution picture; the picture's URL.
pub open spec fn image_anchor(items: Seq<(int, NodeView)>, k: int, base: Seq<char>) -> Option<Seq<char>> {
    if named_at(items, k, "a"@) {
        match href_at(items, k) {
            Some(h) => match http_url_of(base, h) {
                Some(u) => if image_link(u) {
                    Some(u)
                } else {
                    None
                },
                None => None,
            },
            None => None,
        }
    } else {
        None
    }
}

fn image_anchor_at(items: &Vec<DomItem>, k: usize, base: &str) -> (r: Option<String>)
    requires
        k < items@.len(),
    ensures
        opt_view(r) == image_anchor(items_view(items@), k as int, base@),
{
    let ghost iv = items_view(items@);
    assert(iv[k as int] == (items@[k as int].depth as int, node_view(items@[k as int].kind)));
    if !is_named(&items[k].kind, "a") {
        return None;
    }
    match href_of(&items[k].kind) {
        Some(h) => match http_url(base, h.as_str()) {
            Some(u) => if is_image_link(u.as_str()) {
                Some(u)
            } else {
                None
            },
            None => None,
        },
        None => None,
    }
}

/// The nearest of the ancestors of node `j` among the first `k + 1` nodes that links a
/// full-resolution picture.
pub open spec fn ancestor_link(items: Seq<(int, NodeView)>, j: int, base: Seq<char>, k: int) -> Option<Seq<char>>
    decreases k + 1,
{
    if k < 0 {
        None
    } else if ancestor(items, k, j) && image_anchor(items, k, base) is Some {
        image_anchor(items, k, base)
    } else {
        ancestor_link(items, j, base, k - 1)
    }
}

/// The first link to a full-resolution picture among the nodes `bs`, from the `k`th on.
pub open spec fn first_image_anchor(items: Seq<(int, NodeView)>, bs: Seq<int>, base: Seq<char>, k: int) -> Option<Seq<char>>
    decreases bs.len() - k,
{
    if k < 0 || k >= bs.len() {
        None
    } else if image_anchor(items, bs[k], base) is Some {
        image_anchor(items, bs[k], base)
    } else {
        first_image_anchor(items, bs, base, k + 1)
    }
}

/// The full-resolution picture of the picture at `j`: what an enclosing link links, or, for the
/// page's first media, the first such link anywhere under `root`.
pub open spec fn hd_of(items: Seq<(int, NodeView)>, root: int, j: int, base: Seq<char>, primary: bool) -> Option<Seq<char>> {
    match ancestor_link(items, j, base, j - 1) {
        Some(u) => Some(u),
        None => if primary {
            first_image_anchor(items, named_below(items, root, "a"@), base, 0)
        } else {
            None
        },
    }
}

fn hd_link(items: &Vec<DomItem>, root: usize, j: usize, base: &str, primary: bool) -> (r: Option<String>)
    requires
        root < items@.len(),
        j < items@.len(),
    ensures
        opt_view(r) == hd_of(items_view(items@), root as int, j as int, base@, primary),
{
    let ghost iv = items_view(items@);
    let mut k = j;
    while k > 0
        invariant
            k <= j < items@.len(),
            iv == items_view(items@),
            ancestor_link(iv, j as int, base@, j - 1) == ancestor_link(iv, j as int, base@, k - 1),
        decreases k,
    {
        let a = k - 1;
        if end_of(items, a) > j {
            match image_anchor_at(items, a, base) {
                Some(u) => return Some(u),
                None => {},
            }
        }
        k = k - 1;
    }
    if !primary {
        return None;
    }
    let anchors = find_below(items, root, "a");
    let ghost av = index_views(anchors@);
    let mut m: usize = 0;
    while m < anchors.len()
        invariant
            m <= anchors@.len(),
            iv == items_view(items@),
            av == index_views(anchors@),
            av == named_below(iv, root as int, "a"@),
            primary,
            ancestor_link(iv, j as int, base@, j - 1) is None,
            forall|q: int| 0 <= q < anchors@.len() ==> #[trigger] anchors@[q] < items@.len(),
            first_image_anchor(iv, av, base@, 0) == first_image_anchor(iv, av, base@, m as int),
        decreases anchors.len() - m,
    {
        match image_anchor_at(items, anchors[m], base) {
            Some(u) => return Some(u),
            None => {},
        }
        m = m + 1;
    }
    None
}

/// Whether node `j` is one of the elements media is shown by.
pub open spec fn media_node(items: Seq<(int, NodeView)>, j: int) -> bool {
    named_at(items, j, "img"@) || named_at(items, j, "iframe"@) || named_at(items, j, "video"@)
        || named_at(items, j, "embed"@) || named_at(items, j, "object"@)
}

/// The media elements among the nodes `lo` up to `hi`, in document order.
pub open spec fn media_between(items: Seq<(int, NodeView)>, lo: int, hi: int) -> Seq<int>
    decreases hi - lo,
{
    if hi <= lo {
        Seq::empty()
    } else if media_node(items, hi - 1) {
        media_between(items, lo, hi - 1).push(hi - 1)
    } else {
        media_between(items, lo, hi - 1)
    }
}

/// The `src` of the first `source` with one among `ss`, from the `k`th on.
pub open spec fn first_src(items: Seq<(int, NodeView)>, ss: Seq<int>, k: int) -> Option<Seq<char>>
    decreases ss.len() - k,
{
    if k < 0 || k >= ss.len() {
        None
    } else if attr_at(items, ss[k], "src"@) is Some {
        attr_at(items, ss[k], "src"@)
    } else {
        first_src(items, ss, k + 1)
    }
}

/// Whether some of `es`, from the `k`th on, has a `src`.
pub open spec fn any_src(items: Seq<(int, NodeView)>, es: Seq<int>, k: int) -> bool
    decreases es.len() - k,
{
    if k < 0 || k >= es.len() {
        false
    } else {
        attr_at(items, es[k], "src"@) is Some || any_src(items, es, k + 1)
    }
}

/// A `param` that names what a plugin plays: named `movie` or `filename`, in any case, with a
/// value.
pub open spec fn plays_param(items: Seq<(int, NodeView)>, k: int) -> bool {
    &&& attr_at(items, k, "name"@) matches Some(n) && (lower_all(n) == "movie"@ || lower_all(n) == "filename"@)
    &&& attr_at(items, k, "value"@) is Some
}

/// The value of the first of `ps`, from the `k`th on, that names what a plugin plays.
pub open spec fn first_plays(items: Seq<(int, NodeView)>, ps: Seq<int>, k: int) -> Option<Seq<char>>
    decreases ps.len() - k,
{
    if k < 0 || k >= ps.len() {
        None
    } else if plays_param(items, ps[k]) {
        attr_at(items, ps[k], "value"@)
    } else {
        first_plays(items, ps, k + 1)
    }
}

/// The media an element shows, given the kind its URL makes it.
pub open spec fn shown(url: Option<Seq<char>>, kind: spec_fn(Seq<char>) -> MediaKind) -> Option<MediaSpec> {
    match url {
        Some(u) => Some((kind(u), Some(u), None)),
        None => None,
    }
}

pub open spec fn url_kind() -> spec_fn(Seq<char>) -> MediaKind {
    |u: Seq<char>| kind_of_url(u)
}

pub open spec fn embed_kind() -> spec_fn(Seq<char>) -> MediaKind {
    |u: Seq<char>| kind_of_embed(u)
}

/// What the media element at `j` shows: a picture with its full-resolution link where that
/// differs from it, a frame, a video, an embed, or what an old plugin object plays.
pub open spec fn media_at(items: Seq<(int, NodeView)>, root: int, j: int, base: Seq<char>, primary: bool) -> Option<MediaSpec> {
    let src = match attr_at(items, j, "src"@) {
        Some(s) => http_url_of(base, s),
        None => None,
    };
    if named_at(items, j, "img"@) {
        match src {
            Some(url) => {
                let hd = match hd_of(items, root, j, base, primary) {
                    Some(h) => if h != url {
                        Some(h)
                    } else {
                        None
                    },
                    None => None,
                };
                Some((kind_of_url(url), Some(url), hd))
            },
            None => None,
        }
    } else if named_at(items, j, "iframe"@) || named_at(items, j, "embed"@) {
        shown(src, embed_kind())
    } else if named_at(items, j, "video"@) {
        let s = match attr_at(items, j, "src"@) {
            Some(s) => Some(s),
            None => first_src(items, named_below(items, j, "source"@), 0),
        };
        shown(
            match s {
                Some(s) => http_url_of(base, s),
                None => None,
            },
            url_kind(),
        )
    } else if named_at(items, j, "object"@) && !any_src(items, named_below(items, j, "embed"@), 0) {
        shown(
            match first_plays(items, named_below(items, j, "param"@), 0) {
                Some(v) => http_url_of(base, v),
                None => None,
            },
            embed_kind(),
        )
    } else {
        None
    }
}

/// The media of the media elements `ms`, from the first `k`, that show something.
pub open spec fn found_upto(items: Seq<(int, NodeView)>, root: int, ms: Seq<int>, base: Seq<char>, k: int) -> Seq<MediaSpec>
    decreases k,
{
    if k <= 0 {
        Seq::empty()
    } else {
        let prev = found_upto(items, root, ms, base, k - 1);
        match media_at(items, root, ms[k - 1], base, k - 1 == 0) {
            Some(m) => if m.1 is Some || m.2 is Some {
                prev.push(m)
            } else {
                prev
            },
            None => prev,
        }
    }
}

/// Whether `t` is one of the ASCII-whitespace-separated tokens of `c`.
pub open spec fn has_token(c: Seq<char>, t: Seq<char>) -> bool {
    exists|i: int|
        #![trigger occurs_at(c, t, i)]
        occurs_at(c, t, i) && (i == 0 || ascii_space(c[i - 1])) && (i + t.len() == c.len()
            || ascii_space(c[i + t.len()]))
}

pub open spec fn ascii_space(c: char) -> bool {
    c == ' ' || c == '\t' || c == '\n' || c == '\u{c}' || c == '\r'
}

/// Node `j` is a link to a status inside a quoted tweet.
pub open spec fn tweet_link(items: Seq<(int, NodeView)>, j: int) -> bool {
    &&& named_at(items, j, "a"@)
    &&& href_at(items, j) matches Some(h) && has_seq(h, "/status/"@)
    &&& exists|k: int|
        #![trigger ancestor(items, k, j)]
        ancestor(items, k, j) && named_at(items, k, "blockquote"@) && (attr_at(items, k, "class"@) matches Some(c)
            && has_token(c, "twitter-tweet"@))
}

/// The first of `ns`, from the `k`th on, that links a quoted tweet's status.
pub open spec fn first_tweet(items: Seq<(int, NodeView)>, ns: Seq<int>, k: int) -> Option<int>
    decreases ns.len() - k,
{
    if k < 0 || k >= ns.len() {
        None
    } else if tweet_link(items, ns[k]) {
        Some(ns[k])
    } else {
        first_tweet(items, ns, k + 1)
    }
}

/// A quoted tweet standing in for media the archive never kept: the status it links, without its
/// query.
pub open spec fn tweet_of(items: Seq<(int, NodeView)>, root: int, base: Seq<char>) -> Option<MediaSpec> {
    match first_tweet(items, named_below(items, root, "a"@), 0) {
        None => None,
        Some(j) => match http_url_of(base, href_at(items, j).unwrap()) {
            Some(u) => Some((MediaKind::Embed, Some(before_any(u, seq!['?'])), None)),
            None => None,
        },
    }
}

/// The media under `root`: the first, and the rest.
pub open spec fn media_in(items: Seq<(int, NodeView)>, root: int, base: Seq<char>) -> (MediaSpec, Seq<MediaSpec>) {
    let ms = media_between(items, root + 1, subtree_end(items, root, root + 1));
    let found = found_upto(items, root, ms, base, ms.len() as int);
    let all = if found.len() == 0 {
        match tweet_of(items, root, base) {
            Some(t) => seq![t],
            None => Seq::empty(),
        }
    } else {
        found
    };
    if all.len() == 0 {
        ((MediaKind::NoMedia, None, None), Seq::empty())
    } else {
        (all[0], all.skip(1))
    }
}

/// A page's media: the first, and the rest.
pub open spec fn page_media(items: Seq<(int, NodeView)>, base: Seq<char>) -> (MediaSpec, Seq<MediaSpec>) {
    match root_from(items, 0) {
        Some(r) => media_in(items, r, base),
        None => ((MediaKind::NoMedia, None, None), Seq::empty()),
    }
}

pub open spec fn opt_media(r: Option<Media>) -> Option<MediaSpec> {
    match r {
        Some(m) => Some(media_spec(m)),
        None => None,
    }
}

fn is_media_node(kind: &NodeKind) -> (b: bool)
    ensures
        b == (node_view(*kind) matches NodeView::Element(n, _, _) && (n == "img"@ || n == "iframe"@
            || n == "video"@ || n == "embed"@ || n == "object"@)),
{
    is_named(kind, "img") || is_named(kind, "iframe") || is_named(kind, "video") || is_named(kind, "embed")
        || is_named(kind, "object")
}

/// The media elements among the nodes `lo` up to `hi`.
fn find_media(items: &Vec<DomItem>, lo: usize, hi: usize) -> (out: Vec<usize>)
    requires
        lo <= hi <= items@.len(),
    ensures
        index_views(out@) == media_between(items_view(items@), lo as int, hi as int),
        forall|k: int| 0 <= k < out@.len() ==> lo <= #[trigger] out@[k] < hi,
{
    let ghost iv = items_view(items@);
    let mut out: Vec<usize> = Vec::new();
    let mut j = lo;
    while j < hi
        invariant
            lo <= j <= hi <= items@.len(),
            iv == items_view(items@),
            index_views(out@) == media_between(iv, lo as int, j as int),
            forall|k: int| 0 <= k < out@.len() ==> lo <= #[trigger] out@[k] < j,
        decreases hi - j,
    {
        assert(iv[j as int] == (items@[j as int].depth as int, node_view(items@[j as int].kind)));
        if is_media_node(&items[j].kind) {
            let ghost before = index_views(out@);
            out.push(j);
            assert(index_views(out@) =~= before.push(j as int));
        }
        j = j + 1;
    }
    out
}

/// The `src` of the first `source` with one below node `j`.
fn source_src(items: &Vec<DomItem>, j: usize) -> (r: Option<String>)
    requires
        j < items@.len(),
    ensures
        opt_view(r) == first_src(items_view(items@), named_below(items_view(items@), j as int, "source"@), 0),
{
    let ghost iv = items_view(items@);
    let ss = find_below(items, j, "source");
    let ghost sv = index_views(ss@);
    let mut k: usize = 0;
    while k < ss.len()
        invariant
            k <= ss@.len(),
            iv == items_view(items@),
            sv == index_views(ss@),
            sv == named_below(iv, j as int, "source"@),
            forall|q: int| 0 <= q < ss@.len() ==> #[trigger] ss@[q] < items@.len(),
            first_src(iv, sv, 0) == first_src(iv, sv, k as int),
        decreases ss.len() - k,
    {
        let i = ss[k];
        assert(iv[i as int] == (items@[i as int].depth as int, node_view(items@[i as int].kind)));
        match attr(&items[i].kind, "src") {
            Some(v) => return Some(v),
            None => {},
        }
        k = k + 1;
    }
    None
}

/// Whether some `embed` below node `j` has a `src`.
fn embed_with_src(items: &Vec<DomItem>, j: usize) -> (b: bool)
    requires
        j < items@.len(),
    ensures
        b == any_src(items_view(items@), named_below(items_view(items@), j as int, "embed"@), 0),
{
    let ghost iv = items_view(items@);
    let es = find_below(items, j, "embed");
    let ghost ev = index_views(es@);
    let mut k: usize = 0;
    while k < es.len()
        invariant
            k <= es@.len(),
            iv == items_view(items@),
            ev == index_views(es@),
            ev == named_below(iv, j as int, "embed"@),
            forall|q: int| 0 <= q < es@.len() ==> #[trigger] es@[q] < items@.len(),
            any_src(iv, ev, 0) == any_src(iv, ev, k as int),
        decreases es.len() - k,
    {
        let i = es[k];
        assert(iv[i as int] == (items@[i as int].depth as int, node_view(items@[i as int].kind)));
        if attr(&items[i].kind, "src").is_some() {
            return true;
        }
        k = k + 1;
    }
    false
}

/// The value of the first `param` below node `j` that names what a plugin plays.
fn plays_value(items: &Vec<DomItem>, j: usize) -> (r: Option<String>)
    requires
        j < items@.len(),
    ensures
        opt_view(r) == first_plays(items_view(items@), named_below(items_view(items@), j as int, "param"@), 0),
{
    let ghost iv = items_view(items@);
    let ps = find_below(items, j, "param");
    let ghost pv = index_views(ps@);
    let mut k: usize = 0;
    while k < ps.len()
        invariant
            k <= ps@.len(),
            iv == items_view(items@),
            pv == index_views(ps@),
            pv == named_below(iv, j as int, "param"@),
            forall|q: int| 0 <= q < ps@.len() ==> #[trigger] ps@[q] < items@.len(),
            first_plays(iv, pv, 0) == first_plays(iv, pv, k as int),
        decreases ps.len() - k,
    {
        let i = ps[k];
        assert(iv[i as int] == (items@[i as int].depth as int, node_view(items@[i as int].kind)));
        let named = match attr(&items[i].kind, "name") {
            Some(n) => {
                let low = lower_chars(&chars_of(n.as_str()));
                is_text(&low, "movie") || is_text(&low, "filename")
            },
            None => false,
        };
        if named {
            match attr(&items[i].kind, "value") {
                Some(v) => return Some(v),
                None => {},
            }
        }
        k = k + 1;
    }
    None
}

fn shown_as(url: Option<String>, embed: bool) -> (r: Option<Media>)
    ensures
        opt_media(r) == shown(opt_view(url), if embed { embed_kind() } else { url_kind() }),
        r matches Some(m) ==> bare(m),
{
    match url {
        Some(u) => {
            let kind = if embed {
                MediaKind::from_embed_url(u.as_str())
            } else {
                MediaKind::from_url(u.as_str())
            };
            Some(Media::new(kind, Some(u), None))
        },
        None => None,
    }
}

/// What the media element at `j` shows.
fn from_element(items: &Vec<DomItem>, root: usize, j: usize, base: &str, primary: bool) -> (r: Option<Media>)
    requires
        root < items@.len(),
        j < items@.len(),
    ensures
        opt_media(r) == media_at(items_view(items@), root as int, j as int, base@, primary),
        r matches Some(m) ==> bare(m),
{
    let ghost iv = items_view(items@);
    assert(iv[j as int] == (items@[j as int].depth as int, node_view(items@[j as int].kind)));
    let kind = &items[j].kind;
    let src = match attr(kind, "src") {
        Some(s) => http_url(base, s.as_str()),
        None => None,
    };
    if is_named(kind, "img") {
        match src {
            Some(url) => {
                let hd = match hd_link(items, root, j, base, primary) {
                    Some(h) => if crate::text::str_eq(h.as_str(), url.as_str()) {
                        None
                    } else {
                        Some(h)
                    },
                    None => None,
                };
                let k = MediaKind::from_url(url.as_str());
                Some(Media::new(k, Some(url), hd))
            },
            None => None,
        }
    } else if is_named(kind, "iframe") || is_named(kind, "embed") {
        shown_as(src, true)
    } else if is_named(kind, "video") {
        let s = match attr(kind, "src") {
            Some(s) => Some(s),
            None => source_src(items, j),
        };
        let url = match s {
            Some(s) => http_url(base, s.as_str()),
            None => None,
        };
        shown_as(url, false)
    } else if is_named(kind, "object") && !embed_with_src(items, j) {
        let url = match plays_value(items, j) {
            Some(v) => http_url(base, v.as_str()),
            None => None,
        };
        shown_as(url, true)
    } else {
        None
    }
}

fn is_ascii_space(c: char) -> (b: bool)
    ensures
        b == ascii_space(c),
{
    c == ' ' || c == '\t' || c == '\n' || c == '\u{c}' || c == '\r'
}

pub open spec fn token_at(c: Seq<char>, t: Seq<char>, m: int) -> bool {
    occurs_at(c, t, m) && (m == 0 || ascii_space(c[m - 1])) && (m + t.len() == c.len() || ascii_space(
        c[m + t.len()],
    ))
}

fn is_token_at(c: &Vec<char>, t: &Vec<char>, i: usize) -> (b: bool)
    requires
        i <= c@.len(),
    ensures
        b == token_at(c@, t@, i as int),
{
    let n = c.len();
    if !crate::text::matches_at(c, i, t) {
        return false;
    }
    assert(i + t@.len() <= n);
    let before = i == 0 || is_ascii_space(c[i - 1]);
    let after = i + t.len() == c.len() || is_ascii_space(c[i + t.len()]);
    before && after
}

/// Whether `t` is one of the whitespace-separated tokens of `c`.
fn token_in(c: &Vec<char>, t: &Vec<char>) -> (b: bool)
    ensures
        b == has_token(c@, t@),
{
    let mut i: usize = 0;
    while i < c.len()
        invariant
            i <= c@.len(),
            forall|m: int| 0 <= m < i ==> !token_at(c@, t@, m),
        decreases c.len() - i,
    {
        if is_token_at(c, t, i) {
            assert(occurs_at(c@, t@, i as int));
            return true;
        }
        i = i + 1;
    }
    if is_token_at(c, t, i) {
        assert(occurs_at(c@, t@, i as int));
        return true;
    }
    proof {
        assert forall|m: int| !(occurs_at(c@, t@, m) && (m == 0 || ascii_space(c@[m - 1])) && (m
            + t@.len() == c@.len() || ascii_space(c@[m + t@.len()]))) by {
            if occurs_at(c@, t@, m) {
                assert(m <= c@.len());
                assert(!token_at(c@, t@, m));
            }
        }
    }
    false
}

/// Whether node `j` has an ancestor that is a quoted tweet.
fn in_tweet(items: &Vec<DomItem>, j: usize) -> (b: bool)
    requires
        j < items@.len(),
    ensures
        b == exists|k: int|
            #![trigger ancestor(items_view(items@), k, j as int)]
            ancestor(items_view(items@), k, j as int) && named_at(items_view(items@), k, "blockquote"@)
                && (attr_at(items_view(items@), k, "class"@) matches Some(c) && has_token(c, "twitter-tweet"@)),
{
    let ghost iv = items_view(items@);
    let token = chars_of("twitter-tweet");
    let mut k: usize = 0;
    while k < j
        invariant
            k <= j < items@.len(),
            iv == items_view(items@),
            token@ == "twitter-tweet"@,
            forall|m: int|
                0 <= m < k ==> !(ancestor(iv, m, j as int) && named_at(iv, m, "blockquote"@) && (attr_at(
                    iv,
                    m,
                    "class"@,
                ) matches Some(c) && has_token(c, "twitter-tweet"@))),
        decreases j - k,
    {
        assert(iv[k as int] == (items@[k as int].depth as int, node_view(items@[k as int].kind)));
        if end_of(items, k) > j && is_named(&items[k].kind, "blockquote") {
            match attr(&items[k].kind, "class") {
                Some(c) => {
                    if token_in(&chars_of(c.as_str()), &token) {
                        assert(ancestor(iv, k as int, j as int));
                        return true;
                    }
                },
                None => {},
            }
        }
        k = k + 1;
    }
    false
}

/// A quoted tweet under `root` standing in for media the archive never kept.
fn tweet(items: &Vec<DomItem>, root: usize, base: &str) -> (r: Option<Media>)
    requires
        root < items@.len(),
    ensures
        opt_media(r) == tweet_of(items_view(items@), root as int, base@),
        r matches Some(m) ==> bare(m),
{
    let ghost iv = items_view(items@);
    let anchors = find_below(items, root, "a");
    let ghost av = index_views(anchors@);
    let status = chars_of("/status/");
    let mut k: usize = 0;
    while k < anchors.len()
        invariant
            k <= anchors@.len(),
            iv == items_view(items@),
            av == index_views(anchors@),
            av == named_below(iv, root as int, "a"@),
            status@ == "/status/"@,
            forall|q: int| 0 <= q < anchors@.len() ==> #[trigger] anchors@[q] < items@.len(),
            first_tweet(iv, av, 0) == first_tweet(iv, av, k as int),
        decreases anchors.len() - k,
    {
        let j = anchors[k];
        assert(iv[j as int] == (items@[j as int].depth as int, node_view(items@[j as int].kind)));
        let link = match href_of(&items[j].kind) {
            Some(h) => if is_named(&items[j].kind, "a") && contains_chars(&chars_of(h.as_str()), &status)
                && in_tweet(items, j) {
                Some(h)
            } else {
                None
            },
            None => None,
        };
        match link {
            Some(h) => {
                assert(tweet_link(iv, j as int));
                assert(first_tweet(iv, av, k as int) == Some(j as int));
                return match http_url(base, h.as_str()) {
                    Some(u) => {
                        let q = vec!['?'];
                        assert(q@ =~= seq!['?']);
                        let stripped = take_before_any(&chars_of(u.as_str()), &q);
                        Some(Media::new(MediaKind::Embed, Some(string_of(&stripped)), None))
                    },
                    None => None,
                };
            },
            None => {},
        }
        k = k + 1;
    }
    None
}

/// The media under `root`: the first, and the rest.
pub fn parse_in(items: &Vec<DomItem>, root: usize, base: &str) -> (r: (Media, Vec<Media>))
    requires
        root < items@.len(),
    ensures
        (media_spec(r.0), media_specs(r.1@)) == media_in(items_view(items@), root as int, base@),
        bare(r.0),
        forall|k: int| 0 <= k < r.1@.len() ==> bare(#[trigger] r.1@[k]),
{
    let ghost iv = items_view(items@);
    let e = end_of(items, root);
    let ms = find_media(items, root + 1, e);
    let ghost mv = index_views(ms@);
    let mut found: Vec<Media> = Vec::new();
    let mut k: usize = 0;
    while k < ms.len()
        invariant
            k <= ms@.len(),
            iv == items_view(items@),
            mv == index_views(ms@),
            root < items@.len(),
            forall|q: int| 0 <= q < ms@.len() ==> #[trigger] ms@[q] < items@.len(),
            media_specs(found@) == found_upto(iv, root as int, mv, base@, k as int),
            forall|q: int| 0 <= q < found@.len() ==> bare(#[trigger] found@[q]),
        decreases ms.len() - k,
    {
        match from_element(items, root, ms[k], base, k == 0) {
            Some(m) => {
                if !m.is_empty() {
                    let ghost before = media_specs(found@);
                    found.push(m);
                    assert(media_specs(found@) =~= before.push(media_spec(m)));
                }
            },
            None => {},
        }
        k = k + 1;
    }
    if found.len() == 0 {
        match tweet(items, root, base) {
            Some(t) => {
                found.push(t);
                assert(media_specs(found@) =~= seq![media_spec(t)]);
            },
            None => {},
        }
    }
    if found.len() == 0 {
        return (Media::new(MediaKind::NoMedia, None, None), Vec::new());
    }
    let ghost all = media_specs(found@);
    let first = found.remove(0);
    assert(media_specs(found@) =~= all.skip(1));
    (first, found)
}

/// A page's media: the first, and the rest.
pub fn parse(items: &Vec<DomItem>, base: &str) -> (r: (Media, Vec<Media>))
    ensures
        (media_spec(r.0), media_specs(r.1@)) == page_media(items_view(items@), base@),
        bare(r.0),
        forall|k: int| 0 <= k < r.1@.len() ==> bare(#[trigger] r.1@[k]),
{
    match root_element(items) {
        Some(root) => parse_in(items, root, base),
        None => (Media::new(MediaKind::NoMedia, None, None), Vec::new()),
    }
}

} // verus!
