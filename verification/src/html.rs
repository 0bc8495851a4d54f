//! Sanitizing HTML: escaping text, collapsing whitespace, resolving links.
use vstd::prelude::*;
use crate::entry::joined;
use crate::pattern::{Span, captures, captures_of, captures_view, span_end, span_view};
use crate::text::{chars_of, is_space, is_text, is_whitespace, lower_all, lower_chars, push_char, push_str, replace, replaced, string_of, trim, trim_chars, trim_start, trim_end, skip_space, skip_space_back, slice_chars, first_occurrence, first_occurrence_from, occurs_at, find_first_seq};

verus! {

/// What `escape` writes for one character.
pub open spec fn escaped_char(c: char) -> Seq<char> {
    if c == '&' {
        "&amp;"@
    } else if c == '<' {
        "&lt;"@
    } else if c == '>' {
        "&gt;"@
    } else if c == '\'' {
        "&#39;"@
    } else if c == '"' {
        "&quot;"@
    } else {
        seq![c]
    }
}

/// `s` with every character HTML gives a meaning escaped.
pub open spec fn escaped(s: Seq<char>) -> Seq<char>
    decreases s.len(),
{
    if s.len() == 0 {
        Seq::empty()
    } else {
        escaped(s.drop_last()) + escaped_char(s.last())
    }
}

/// What `escape_text` writes for one character.
pub open spec fn text_escaped_char(c: char) -> Seq<char> {
    if c == '&' {
        "&amp;"@
    } else if c == '<' {
        "&lt;"@
    } else if c == '>' {
        "&gt;"@
    } else {
        seq![c]
    }
}

/// `s` with the characters that start markup escaped; quotes kept.
pub open spec fn text_escaped(s: Seq<char>) -> Seq<char>
    decreases s.len(),
{
    if s.len() == 0 {
        Seq::empty()
    } else {
        text_escaped(s.drop_last()) + text_escaped_char(s.last())
    }
}

/// Escaped text opens and closes no markup: it holds no `<` and no `>`, whatever it was made
/// from.
pub proof fn law_escaped_text_is_inert(s: Seq<char>)
    ensures
        forall|k: int| 0 <= k < text_escaped(s).len() ==> #[trigger] text_escaped(s)[k] != '<'
            && text_escaped(s)[k] != '>',
    decreases s.len(),
{
    if s.len() > 0 {
        law_escaped_text_is_inert(s.drop_last());
        reveal_strlit("&amp;");
        reveal_strlit("&lt;");
        reveal_strlit("&gt;");
        let head = text_escaped(s.drop_last());
        let tail = text_escaped_char(s.last());
        assert forall|k: int| 0 <= k < text_escaped(s).len() implies #[trigger] text_escaped(s)[k]
            != '<' && text_escaped(s)[k] != '>' by {
            if k >= head.len() {
                assert(text_escaped(s)[k] == tail[k - head.len()]);
            } else {
                assert(text_escaped(s)[k] == head[k]);
            }
        }
    }
}

/// An escaped attribute value cannot leave its quotes or open markup: it holds no `<`, `>`,
/// `"` or `'`.
pub proof fn law_escaped_value_is_inert(s: Seq<char>)
    ensures
        forall|k: int| 0 <= k < escaped(s).len() ==> {
            let c = #[trigger] escaped(s)[k];
            c != '<' && c != '>' && c != '"' && c != '\''
        },
    decreases s.len(),
{
    if s.len() > 0 {
        law_escaped_value_is_inert(s.drop_last());
        reveal_strlit("&amp;");
        reveal_strlit("&lt;");
        reveal_strlit("&gt;");
        reveal_strlit("&#39;");
        reveal_strlit("&quot;");
        let head = escaped(s.drop_last());
        let tail = escaped_char(s.last());
        assert forall|k: int| 0 <= k < escaped(s).len() implies {
            let c = #[trigger] escaped(s)[k];
            c != '<' && c != '>' && c != '"' && c != '\''
        } by {
            if k >= head.len() {
                assert(escaped(s)[k] == tail[k - head.len()]);
            } else {
                assert(escaped(s)[k] == head[k]);
            }
        }
    }
}

/// Escapes text for use anywhere in HTML, attribute values included.
pub fn escape(raw: &str) -> (out: String)
    ensures
        out@ == escaped(raw@),
{
    let v = chars_of(raw);
    let mut out = String::new();
    let mut i: usize = 0;
    while i < v.len()
        invariant
            i <= v@.len(),
            out@ == escaped(v@.take(i as int)),
        decreases v.len() - i,
    {
        assert(v@.take(i + 1).drop_last() =~= v@.take(i as int));
        let c = v[i];
        if c == '&' {
            push_str(&mut out, "&amp;");
        } else if c == '<' {
            push_str(&mut out, "&lt;");
        } else if c == '>' {
            push_str(&mut out, "&gt;");
        } else if c == '\'' {
            push_str(&mut out, "&#39;");
        } else if c == '"' {
            push_str(&mut out, "&quot;");
        } else {
            push_char(&mut out, c);
            assert(out@ =~= escaped(v@.take(i as int)) + seq![c]);
        }
        i = i + 1;
    }
    assert(v@.take(i as int) =~= v@);
    out
}

/// Escapes text for use between tags.
pub fn escape_text(raw: &str) -> (out: String)
    ensures
        out@ == text_escaped(raw@),
{
    let v = chars_of(raw);
    let mut out = String::new();
    let mut i: usize = 0;
    while i < v.len()
        invariant
            i <= v@.len(),
            out@ == text_escaped(v@.take(i as int)),
        decreases v.len() - i,
    {
        assert(v@.take(i + 1).drop_last() =~= v@.take(i as int));
        let c = v[i];
        if c == '&' {
            push_str(&mut out, "&amp;");
        } else if c == '<' {
            push_str(&mut out, "&lt;");
        } else if c == '>' {
            push_str(&mut out, "&gt;");
        } else {
            push_char(&mut out, c);
            assert(out@ =~= text_escaped(v@.take(i as int)) + seq![c]);
        }
        i = i + 1;
    }
    assert(v@.take(i as int) =~= v@);
    out
}

/// Escapes text for use in a double-quoted attribute value.
pub fn escape_attr(raw: &str) -> (out: String)
    ensures
        out@ == replaced(text_escaped(raw@), "\""@, "&quot;"@),
{
    proof {
        reveal_strlit("\"");
    }
    replace(escape_text(raw).as_str(), "\"", "&quot;")
}

/// The words of `s`: its runs of characters that are not whitespace.
pub open spec fn words(s: Seq<char>) -> Seq<Seq<char>>
    decreases s.len(),
{
    if s.len() == 0 {
        Seq::empty()
    } else {
        let w = words(s.drop_last());
        let c = s.last();
        if is_space(c) {
            w
        } else if s.len() >= 2 && !is_space(s[s.len() - 2]) {
            w.update(w.len() - 1, w.last().push(c))
        } else {
            w.push(seq![c])
        }
    }
}

/// `s` with its whitespace collapsed: its words, one space between each.
pub open spec fn collapsed(s: Seq<char>) -> Seq<char> {
    joined(words(s), seq![' '])
}

proof fn lemma_words_nonempty(s: Seq<char>)
    ensures
        s.len() > 0 && !is_space(s.last()) ==> words(s).len() > 0,
    decreases s.len(),
{
    if s.len() > 0 {
        lemma_words_nonempty(s.drop_last());
    }
}

/// Collapses every run of whitespace to one space, and drops it at either end.
pub fn collapse(raw: &str) -> (out: String)
    ensures
        out@ == collapsed(raw@),
{
    let v = chars_of(raw);
    let mut out = String::new();
    let mut i: usize = 0;
    let mut in_word = false;
    let mut started = false;
    while i < v.len()
        invariant
            i <= v@.len(),
            out@ == joined(words(v@.take(i as int)), seq![' ']),
            in_word == (i > 0 && !is_space(v@[i - 1])),
            started == (words(v@.take(i as int)).len() > 0),
        decreases v.len() - i,
    {
        let ghost prefix = v@.take(i as int);
        let ghost w = words(prefix);
        assert(v@.take(i + 1).drop_last() =~= prefix);
        let c = v[i];
        if is_whitespace(c) {
            in_word = false;
        } else {
            if in_word {
                proof {
                    lemma_words_nonempty(prefix);
                    assert(prefix.last() == v@[i - 1]);
                    let u = w.update(w.len() - 1, w.last().push(c));
                    if w.len() >= 2 {
                        assert(u.drop_last() =~= w.drop_last());
                    }
                }
                push_char(&mut out, c);
            } else {
                if started {
                    push_char(&mut out, ' ');
                }
                let ghost mid = out@;
                push_char(&mut out, c);
                proof {
                    let u = w.push(seq![c]);
                    assert(u.drop_last() =~= w);
                    if w.len() == 0 {
                        assert(out@ =~= seq![c]);
                    }
                }
            }
            in_word = true;
            started = true;
        }
        i = i + 1;
        assert(v@.take(i as int).last() == c);
    }
    assert(v@.take(i as int) =~= v@);
    out
}

/// What the url crate makes of `href` relative to `base`: its scheme and the whole URL,
/// or `None` when either does not parse.
pub uninterp spec fn url_joined(base: Seq<char>, href: Seq<char>) -> Option<(Seq<char>, Seq<char>)>;

/// The url crate's `Url::parse(base)` then `join(href)`, as the scheme and the URL's text.
#[verifier::external_body]
fn join_url(base: &str, href: &str) -> (r: Option<(String, String)>)
    ensures
        match r {
            Some((scheme, url)) => url_joined(base@, href@) == Some((scheme@, url@)),
            None => url_joined(base@, href@) is None,
        },
{
    let joined = url::Url::parse(base).ok()?.join(href).ok()?;
    Some((joined.scheme().to_owned(), joined.into()))
}

/// The absolute URL a link points at, for the schemes a page may link to.
pub open spec fn resolved(base: Seq<char>, href: Seq<char>) -> Option<Seq<char>> {
    let h = trim(href);
    if h.len() == 0 || h[0] == '#' {
        None
    } else {
        match url_joined(base, h) {
            Some((scheme, url)) => if scheme == "http"@ || scheme == "https"@ || scheme
                == "mailto"@ {
                Some(url)
            } else {
                None
            },
            None => None,
        }
    }
}

/// Resolves a link against the page it is on; `None` for a fragment, an empty link, or a
/// scheme other than http, https and mailto.
pub fn resolve_url(base: &str, href: &str) -> (r: Option<String>)
    ensures
        match r {
            Some(u) => resolved(base@, href@) == Some(u@),
            None => resolved(base@, href@) is None,
        },
{
    let h = trim_chars(&chars_of(href));
    if h.len() == 0 || h[0] == '#' {
        return None;
    }
    match join_url(base, string_of(&h).as_str()) {
        Some((scheme, url)) => {
            let s = chars_of(scheme.as_str());
            if is_text(&s, "http") || is_text(&s, "https") || is_text(&s, "mailto") {
                Some(url)
            } else {
                None
            }
        },
        None => None,
    }
}

/// Inline HTML and the same content as plain text.
#[derive(Debug, Clone, Default, PartialEq, Eq)]
pub struct Fragment {
    pub html: String,
    pub text: String,
}

impl Fragment {
    /// Whether there is nothing but whitespace in it.
    pub fn is_empty(&self) -> (b: bool)
        ensures
            b == (trim(self.text@).len() == 0),
    {
        trim_chars(&chars_of(self.text.as_str())).len() == 0
    }
}

/// One node of a parsed page, as plain values.
#[derive(Debug, Clone, PartialEq, Eq)]
pub enum NodeKind {
    Text(String),
    /// An element: its name, its `href` if it has one, and all its attributes.
    Element { name: String, href: Option<String>, attrs: Vec<(String, String)> },
    Other,
}

/// A node and how deep it sits: the document is a list of these in document order, each
/// node's children right after it, one level deeper.
#[derive(Debug, Clone, PartialEq, Eq)]
pub struct DomItem {
    pub depth: usize,
    pub kind: NodeKind,
}

/// A node as plain data.
pub enum NodeView {
    Text(Seq<char>),
    Element(Seq<char>, Option<Seq<char>>, Seq<(Seq<char>, Seq<char>)>),
    Other,
}

/// Attributes as plain data.
pub open spec fn attrs_view(attrs: Seq<(String, String)>) -> Seq<(Seq<char>, Seq<char>)> {
    attrs.map_values(|a: (String, String)| (a.0@, a.1@))
}

pub open spec fn node_view(k: NodeKind) -> NodeView {
    match k {
        NodeKind::Text(t) => NodeView::Text(t@),
        NodeKind::Element { name, href, attrs } => NodeView::Element(
            name@,
            match href {
                Some(h) => Some(h@),
                None => None,
            },
            attrs_view(attrs@),
        ),
        NodeKind::Other => NodeView::Other,
    }
}

pub open spec fn items_view(items: Seq<DomItem>) -> Seq<(int, NodeView)> {
    items.map_values(|i: DomItem| (i.depth as int, node_view(i.kind)))
}

/// What scraper makes of a page: its nodes in document order, with their depths.
pub uninterp spec fn parsed_document(raw: Seq<char>) -> Seq<(int, NodeView)>;

/// scraper's `Html::parse_document`, its tree listed in document order, each node with the
/// number of its ancestors, its text, or its element name, `href` and attributes.
#[verifier::external_body]
pub fn parse_document(raw: &str) -> (items: Vec<DomItem>)
    ensures
        items_view(items@) == parsed_document(raw@),
{
    let doc = scraper::Html::parse_document(raw);
    doc.tree.root().descendants().map(|node| DomItem {
        depth: node.ancestors().count(),
        kind: match node.value() {
            scraper::Node::Text(text) => NodeKind::Text(text.to_string()),
            scraper::Node::Element(el) => NodeKind::Element {
                name: el.name().to_owned(),
                href: el.attr("href").map(str::to_owned),
                attrs: el.attrs().map(|(k, v)| (k.to_owned(), v.to_owned())).collect(),
            },
            _ => NodeKind::Other,
        },
    }).collect()
}

/// What scraper makes of a fragment of HTML: its nodes in document order, with their depths.
pub uninterp spec fn parsed_fragment(raw: Seq<char>) -> Seq<(int, NodeView)>;

/// scraper's `Html::parse_fragment`, listed as `parse_document` lists a page.
#[verifier::external_body]
pub fn parse_fragment(raw: &str) -> (items: Vec<DomItem>)
    ensures
        items_view(items@) == parsed_fragment(raw@),
{
    let doc = scraper::Html::parse_fragment(raw);
    doc.tree.root().descendants().map(|node| DomItem {
        depth: node.ancestors().count(),
        kind: match node.value() {
            scraper::Node::Text(text) => NodeKind::Text(text.to_string()),
            scraper::Node::Element(el) => NodeKind::Element {
                name: el.name().to_owned(),
                href: el.attr("href").map(str::to_owned),
                attrs: el.attrs().map(|(k, v)| (k.to_owned(), v.to_owned())).collect(),
            },
            _ => NodeKind::Other,
        },
    }).collect()
}

/// An inline tag kept from the page: how it opens and how it closes.
#[derive(Debug, Clone, PartialEq, Eq)]
pub struct Tag {
    pub open: String,
    pub close: String,
}

/// A run of flattened text: where it lies in the text (in characters), the tags open around
/// it (as positions in the list of tags), and how many line breaks came right before it.
#[derive(Debug, Clone, PartialEq, Eq)]
pub struct Piece {
    pub start: usize,
    pub end: usize,
    pub stack: Vec<usize>,
    pub breaks: usize,
}

pub struct PieceView {
    pub start: int,
    pub end: int,
    pub stack: Seq<usize>,
    pub breaks: int,
}

pub open spec fn piece_view(p: Piece) -> PieceView {
    PieceView { start: p.start as int, end: p.end as int, stack: p.stack@, breaks: p.breaks as int }
}

pub open spec fn pieces_view(ps: Seq<Piece>) -> Seq<PieceView> {
    ps.map_values(|p: Piece| piece_view(p))
}

pub open spec fn tags_view(ts: Seq<Tag>) -> Seq<(Seq<char>, Seq<char>)> {
    ts.map_values(|t: Tag| (t.open@, t.close@))
}

/// Where flattening stands: the text so far, its pieces and tags, the tags open now, the
/// elements open now (their depth and whether they opened a tag), whether a space is owed
/// before the next text, the line breaks owed, and the depth of an element being skipped.
pub struct BuildView {
    pub text: Seq<char>,
    pub pieces: Seq<PieceView>,
    pub tags: Seq<(Seq<char>, Seq<char>)>,
    pub stack: Seq<usize>,
    pub frames: Seq<(usize, bool)>,
    pub pending_space: bool,
    pub pending_breaks: int,
    pub skip: Option<usize>,
}

/// What a run of text does to the flattening: whitespace alone owes a space; other text is
/// added with its whitespace collapsed, after a space if one is owed, as a piece of its own.
pub open spec fn text_step(v: BuildView, raw: Seq<char>) -> BuildView {
    if raw.len() == 0 {
        v
    } else if trim(raw).len() == 0 {
        BuildView { pending_space: true, ..v }
    } else {
        let owed = v.pending_space || is_space(raw[0]);
        let t1 = if owed && v.text.len() > 0 {
            v.text.push(' ')
        } else {
            v.text
        };
        let t2 = t1 + collapsed(raw);
        BuildView {
            text: t2,
            pieces: v.pieces.push(
                PieceView {
                    start: t1.len() as int,
                    end: t2.len() as int,
                    stack: v.stack,
                    breaks: v.pending_breaks,
                },
            ),
            pending_space: is_space(raw.last()),
            pending_breaks: 0,
            ..v
        }
    }
}

/// The inline tags kept.
pub open spec fn allowed_tag(name: Seq<char>) -> bool {
    name == "a"@ || name == "b"@ || name == "i"@ || name == "em"@ || name == "strong"@ || name
        == "sup"@ || name == "sub"@
}

/// The elements dropped with everything in them.
pub open spec fn skipped_tag(name: Seq<char>) -> bool {
    name == "script"@ || name == "style"@ || name == "noscript"@ || name == "iframe"@ || name
        == "head"@
}

/// The elements that stand apart from the text around them.
pub open spec fn block_tag(name: Seq<char>) -> bool {
    name == "p"@ || name == "div"@ || name == "td"@ || name == "tr"@ || name == "table"@ || name
        == "center"@ || name == "li"@ || name == "ul"@ || name == "ol"@ || name == "h1"@ || name
        == "h2"@ || name == "h3"@ || name == "h4"@ || name == "h5"@ || name == "h6"@ || name
        == "blockquote"@ || name == "hr"@
}

/// The tag an element keeps: a link that resolves to one of the allowed schemes, or another
/// allowed tag as it is.
pub open spec fn tag_for(name: Seq<char>, href: Option<Seq<char>>, base: Seq<char>) -> Option<
    (Seq<char>, Seq<char>),
> {
    if !allowed_tag(name) {
        None
    } else if name == "a"@ {
        match href {
            None => None,
            Some(h) => match resolved(base, h) {
                None => None,
                Some(u) => Some(
                    (
                        "<a href=\""@ + replaced(text_escaped(u), "\""@, "&quot;"@) + "\">"@,
                        "</a>"@,
                    ),
                ),
            },
        }
    } else {
        Some(("<"@ + name + ">"@, "</"@ + name + ">"@))
    }
}

/// What an element does as it opens: skipped ones start a skip, a line break owes a break and a
/// space, block elements owe a space, kept tags open.
pub open spec fn open_step(
    v: BuildView,
    depth: usize,
    name: Seq<char>,
    href: Option<Seq<char>>,
    base: Seq<char>,
) -> BuildView {
    let n = lower_all(name);
    if skipped_tag(n) {
        BuildView { skip: Some(depth), ..v }
    } else if n == "br"@ {
        BuildView {
            pending_breaks: v.pending_breaks + 1,
            pending_space: true,
            frames: v.frames.push((depth, false)),
            ..v
        }
    } else {
        let spaced = v.pending_space || block_tag(n);
        match tag_for(n, href, base) {
            Some(t) => BuildView {
                tags: v.tags.push(t),
                stack: v.stack.push(v.tags.len() as usize),
                frames: v.frames.push((depth, true)),
                pending_space: spaced,
                ..v
            },
            None => BuildView {
                frames: v.frames.push((depth, false)),
                pending_space: spaced,
                ..v
            },
        }
    }
}

/// Closes the elements open at `depth` or deeper, closing the tags they opened.
pub open spec fn close_to(v: BuildView, depth: usize) -> BuildView
    decreases v.frames.len(),
{
    if v.frames.len() > 0 && v.frames.last().0 >= depth {
        let opened = v.frames.last().1;
        close_to(
            BuildView {
                frames: v.frames.drop_last(),
                stack: if opened && v.stack.len() > 0 {
                    v.stack.drop_last()
                } else {
                    v.stack
                },
                ..v
            },
            depth,
        )
    } else {
        v
    }
}

/// What one node does to the flattening.
pub open spec fn item_step(v: BuildView, item: (int, NodeView), base: Seq<char>) -> BuildView {
    let depth = item.0 as usize;
    let c = close_to(v, depth);
    match c.skip {
        Some(s) if depth > s => c,
        _ => {
            let c2 = BuildView { skip: None, ..c };
            match item.1 {
                NodeView::Text(t) => text_step(c2, t),
                NodeView::Element(name, href, _) => open_step(c2, depth, name, href, base),
                NodeView::Other => c2,
            }
        },
    }
}

/// The flattening of the nodes `from` up to `to`.
pub open spec fn built(items: Seq<(int, NodeView)>, from: int, to: int, base: Seq<char>) -> BuildView
    decreases to - from,
{
    if to <= from {
        BuildView {
            text: Seq::empty(),
            pieces: Seq::empty(),
            tags: Seq::empty(),
            stack: Seq::empty(),
            frames: Seq::empty(),
            pending_space: false,
            pending_breaks: 0,
            skip: None,
        }
    } else {
        item_step(built(items, from, to - 1, base), items[to - 1], base)
    }
}

/// Flattening a page's nodes into text and pieces.
struct Builder {
    base: String,
    text: String,
    pieces: Vec<Piece>,
    tags: Vec<Tag>,
    stack: Vec<usize>,
    frames: Vec<(usize, bool)>,
    pending_space: bool,
    pending_breaks: usize,
    skip: Option<usize>,
}

impl Builder {
    spec fn view(&self) -> BuildView {
        BuildView {
            text: self.text@,
            pieces: pieces_view(self.pieces@),
            tags: tags_view(self.tags@),
            stack: self.stack@,
            frames: self.frames@,
            pending_space: self.pending_space,
            pending_breaks: self.pending_breaks as int,
            skip: self.skip,
        }
    }

    /// Adds a run of text.
    fn text(&mut self, raw: &str)
        ensures
            final(self).view() == text_step(old(self).view(), raw@),
            final(self).base == old(self).base,
            final(self).tags@ == old(self).tags@,
            final(self).stack@ == old(self).stack@,
            final(self).pending_breaks <= old(self).pending_breaks,
            old(self).text@.len() <= final(self).text@.len(),
            final(self).pieces@.len() >= old(self).pieces@.len(),
            forall|k: int|
                0 <= k < old(self).pieces@.len() ==> #[trigger] final(self).pieces@[k] == old(
                    self,
                ).pieces@[k],
            forall|k: int|
                old(self).pieces@.len() <= k < final(self).pieces@.len() ==> {
                    let p = #[trigger] final(self).pieces@[k];
                    p.start <= p.end <= final(self).text@.len() && p.stack@ == old(self).stack@
                },
    {
        let v = chars_of(raw);
        if v.len() == 0 {
            return;
        }
        if trim_chars(&v).len() == 0 {
            self.pending_space = true;
            return;
        }
        if is_whitespace(v[0]) {
            self.pending_space = true;
        }
        let ghost t0 = self.text@;
        if self.pending_space && self.text.as_str().is_empty() == false {
            push_char(&mut self.text, ' ');
        }
        let start = chars_of(self.text.as_str()).len();
        self.pending_space = is_whitespace(v[v.len() - 1]);
        push_str(&mut self.text, collapse(raw).as_str());
        let end = chars_of(self.text.as_str()).len();
        let breaks = self.pending_breaks;
        self.pending_breaks = 0;
        let ghost before = self.pieces@;
        self.pieces.push(Piece { start, end, stack: self.stack.clone(), breaks });
        assert(pieces_view(self.pieces@) =~= pieces_view(before).push(piece_view(self.pieces@.last())));
    }

    /// The tag an allowed element keeps.
    fn tag(&self, name: &Vec<char>, href: Option<&String>) -> (t: Option<Tag>)
        ensures
            match t {
                Some(t) => tag_for(
                    name@,
                    match href {
                        Some(h) => Some(h@),
                        None => None,
                    },
                    self.base@,
                ) == Some((t.open@, t.close@)),
                None => tag_for(
                    name@,
                    match href {
                        Some(h) => Some(h@),
                        None => None,
                    },
                    self.base@,
                ) is None,
            },
    {
        let allowed = is_text(name, "a") || is_text(name, "b") || is_text(name, "i") || is_text(
            name,
            "em",
        ) || is_text(name, "strong") || is_text(name, "sup") || is_text(name, "sub");
        if !allowed {
            return None;
        }
        if is_text(name, "a") {
            let h = match href {
                Some(h) => h,
                None => {
                    return None;
                },
            };
            return match resolve_url(self.base.as_str(), h.as_str()) {
                Some(u) => {
                    let mut open = String::new();
                    push_str(&mut open, "<a href=\"");
                    push_str(&mut open, escape_attr(u.as_str()).as_str());
                    push_str(&mut open, "\">");
                    Some(Tag { open, close: "</a>".to_owned() })
                },
                None => None,
            };
        }
        let mut open = String::new();
        push_char(&mut open, '<');
        push_str(&mut open, string_of(name).as_str());
        push_char(&mut open, '>');
        let mut close = String::new();
        push_str(&mut close, "</");
        push_str(&mut close, string_of(name).as_str());
        push_char(&mut close, '>');
        proof {
            reveal_strlit("<");
            reveal_strlit(">");
            reveal_strlit("</");
        }
        assert(open@ =~= "<"@ + name@ + ">"@);
        assert(close@ =~= "</"@ + name@ + ">"@);
        Some(Tag { open, close })
    }

    /// Opens an element.
    fn element(&mut self, depth: usize, name: &str, href: Option<&String>)
        requires
            old(self).pending_breaks < usize::MAX,
            old(self).tags@.len() < usize::MAX,
        ensures
            final(self).view() == open_step(
                old(self).view(),
                depth,
                name@,
                match href {
                    Some(h) => Some(h@),
                    None => None,
                },
                old(self).base@,
            ),
            final(self).base == old(self).base,
            final(self).text@ == old(self).text@,
            final(self).pieces@ == old(self).pieces@,
            final(self).pending_breaks <= old(self).pending_breaks + 1,
            old(self).tags@.len() <= final(self).tags@.len() <= old(self).tags@.len() + 1,
            forall|m: int|
                0 <= m < final(self).stack@.len() ==> #[trigger] final(self).stack@[m]
                    < final(self).tags@.len() || (m < old(self).stack@.len()
                    && final(self).stack@[m] == old(self).stack@[m]),
    {
        let n = lower_chars(&chars_of(name));
        if is_text(&n, "script") || is_text(&n, "style") || is_text(&n, "noscript") || is_text(
            &n,
            "iframe",
        ) || is_text(&n, "head") {
            self.skip = Some(depth);
            return;
        }
        if is_text(&n, "br") {
            self.pending_breaks = self.pending_breaks + 1;
            self.pending_space = true;
            self.frames.push((depth, false));
            return;
        }
        if is_block(&n) {
            self.pending_space = true;
        }
        match self.tag(&n, href) {
            Some(t) => {
                let id = self.tags.len();
                let ghost before = self.tags@;
                self.tags.push(t);
                assert(tags_view(self.tags@) =~= tags_view(before).push((t.open@, t.close@)));
                self.stack.push(id);
                self.frames.push((depth, true));
            },
            None => {
                self.frames.push((depth, false));
            },
        }
    }

    /// Closes the elements open at `depth` or deeper.
    fn close_to(&mut self, depth: usize)
        ensures
            final(self).view() == close_to(old(self).view(), depth),
            final(self).base == old(self).base,
            final(self).text@ == old(self).text@,
            final(self).pieces@ == old(self).pieces@,
            final(self).tags@ == old(self).tags@,
            final(self).pending_breaks == old(self).pending_breaks,
            final(self).stack@.len() <= old(self).stack@.len(),
            forall|m: int|
                0 <= m < final(self).stack@.len() ==> #[trigger] final(self).stack@[m] == old(
                    self,
                ).stack@[m],
        decreases old(self).frames@.len(),
    {
        if self.frames.len() > 0 && self.frames[self.frames.len() - 1].0 >= depth {
            let (_, opened) = self.frames.pop().unwrap();
            if opened && self.stack.len() > 0 {
                self.stack.pop();
            }
            self.close_to(depth);
        }
    }
}

fn is_block(n: &Vec<char>) -> (b: bool)
    ensures
        b == block_tag(n@),
{
    is_text(n, "p") || is_text(n, "div") || is_text(n, "td") || is_text(n, "tr") || is_text(
        n,
        "table",
    ) || is_text(n, "center") || is_text(n, "li") || is_text(n, "ul") || is_text(n, "ol")
        || is_text(n, "h1") || is_text(n, "h2") || is_text(n, "h3") || is_text(n, "h4") || is_text(
        n,
        "h5",
    ) || is_text(n, "h6") || is_text(n, "blockquote") || is_text(n, "hr")
}

/// A page's element flattened into whitespace-normalised text, plus enough structure to
/// rebuild well-formed inline HTML for any range of that text.
pub struct Flat {
    text: String,
    chars: Vec<char>,
    pieces: Vec<Piece>,
    tags: Vec<Tag>,
}

impl Flat {
    /// The text, its pieces and its tags.
    pub closed spec fn text_view(&self) -> Seq<char> {
        self.text@
    }

    pub closed spec fn pieces_of(&self) -> Seq<PieceView> {
        pieces_view(self.pieces@)
    }

    pub closed spec fn tags_of(&self) -> Seq<(Seq<char>, Seq<char>)> {
        tags_view(self.tags@)
    }

    #[verifier::type_invariant]
    closed spec fn well_formed(self) -> bool {
        &&& self.chars@ == self.text@
        &&& forall|k: int|
            0 <= k < self.pieces@.len() ==> {
                let p = #[trigger] self.pieces@[k];
                &&& p.start <= p.end <= self.text@.len()
                &&& forall|m: int| 0 <= m < p.stack@.len() ==> #[trigger] p.stack@[m] < self.tags@.len()
            }
    }
}

/// The flattening of the nodes `from` up to `to` of a page whose address is `base`.
pub open spec fn flattened(items: Seq<(int, NodeView)>, from: int, to: int, base: Seq<char>) -> (
    Seq<char>,
    Seq<PieceView>,
    Seq<(Seq<char>, Seq<char>)>,
) {
    let b = built(items, from, to, base);
    (b.text, b.pieces, b.tags)
}

/// A tag pair of one of the kept inline elements: its closing tag names the element, and its
/// opening tag starts with the same name.
pub open spec fn kept_pair(t: (Seq<char>, Seq<char>)) -> bool {
    exists|n: Seq<char>|
        #[trigger] allowed_tag(n) && t.1 == "</"@ + n + ">"@ && t.0.len() > n.len() && t.0.take(
            n.len() + 1 as int,
        ) == "<"@ + n
}

proof fn lemma_close_keeps_tags(v: BuildView, depth: usize)
    ensures
        close_to(v, depth).tags == v.tags,
        close_to(v, depth).skip == v.skip,
    decreases v.frames.len(),
{
    if v.frames.len() > 0 && v.frames.last().0 >= depth {
        let opened = v.frames.last().1;
        lemma_close_keeps_tags(
            BuildView {
                frames: v.frames.drop_last(),
                stack: if opened && v.stack.len() > 0 {
                    v.stack.drop_last()
                } else {
                    v.stack
                },
                ..v
            },
            depth,
        );
    }
}

proof fn lemma_tag_for_kept(n: Seq<char>, href: Option<Seq<char>>, base: Seq<char>)
    requires
        tag_for(n, href, base) is Some,
    ensures
        kept_pair(tag_for(n, href, base)->0),
{
    reveal_strlit("<a href=\"");
    reveal_strlit("a");
    reveal_strlit("<");
    reveal_strlit("</");
    reveal_strlit(">");
    reveal_strlit("\">");
    reveal_strlit("</a>");
    let t = tag_for(n, href, base)->0;
    assert(allowed_tag(n));
    if n == "a"@ {
        let u = resolved(base, href->0)->0;
        assert(t.0 == "<a href=\""@ + replaced(text_escaped(u), "\""@, "&quot;"@) + "\">"@);
        assert(t.0.take(2) =~= "<"@ + n);
        assert(t.1 =~= "</"@ + n + ">"@);
    } else {
        assert(t.0 =~= "<"@ + n + ">"@);
        assert(t.0.take(n.len() + 1 as int) =~= "<"@ + n);
    }
}

/// Only the kept inline elements leave tags in a flattening: whatever else a page holds, a
/// script or a style among it, becomes no tag at all.
pub proof fn law_only_inline_tags_survive(items: Seq<(int, NodeView)>, from: int, to: int, base: Seq<char>)
    ensures
        forall|k: int| 0 <= k < flattened(items, from, to, base).2.len() ==> kept_pair(
            #[trigger] flattened(items, from, to, base).2[k],
        ),
    decreases to - from,
{
    if to > from {
        law_only_inline_tags_survive(items, from, to - 1, base);
        let v = built(items, from, to - 1, base);
        let item = items[to - 1];
        let depth = item.0 as usize;
        lemma_close_keeps_tags(v, depth);
        let c = close_to(v, depth);
        let c2 = BuildView { skip: None, ..c };
        let after = built(items, from, to, base);
        assert forall|k: int| 0 <= k < after.tags.len() implies kept_pair(#[trigger] after.tags[k]) by {
            if k < v.tags.len() {
                assert(kept_pair(flattened(items, from, to - 1, base).2[k]));
            }
            match item.1 {
                NodeView::Element(name, href, _) => {
                    let n = lower_all(name);
                    if k == v.tags.len() && tag_for(n, href, base) is Some {
                        lemma_tag_for_kept(n, href, base);
                    }
                },
                _ => {},
            }
        }
    }
}

/// Flattens the nodes `from` up to `to` (the inside of one element, typically).
pub fn flatten(items: &Vec<DomItem>, from: usize, to: usize, base: &str) -> (flat: Flat)
    requires
        from <= to <= items@.len(),
    ensures
        (flat.text_view(), flat.pieces_of(), flat.tags_of()) == flattened(
            items_view(items@),
            from as int,
            to as int,
            base@,
        ),
{
    let ghost iv = items_view(items@);
    let mut b = Builder {
        base: base.to_owned(),
        text: String::new(),
        pieces: Vec::new(),
        tags: Vec::new(),
        stack: Vec::new(),
        frames: Vec::new(),
        pending_space: false,
        pending_breaks: 0,
        skip: None,
    };
    assert(b.view() == built(iv, from as int, from as int, base@)) by {
        assert(pieces_view(b.pieces@) =~= Seq::<PieceView>::empty());
        assert(tags_view(b.tags@) =~= Seq::<(Seq<char>, Seq<char>)>::empty());
    }
    let mut j = from;
    while j < to
        invariant
            from <= j <= to <= items@.len(),
            iv == items_view(items@),
            b.base@ == base@,
            b.view() == built(iv, from as int, j as int, base@),
            b.pending_breaks <= j,
            b.tags@.len() <= j,
            forall|k: int| 0 <= k < b.pieces@.len() ==> {
                let p = #[trigger] b.pieces@[k];
                &&& p.start <= p.end <= b.text@.len()
                &&& forall|m: int| 0 <= m < p.stack@.len() ==> #[trigger] p.stack@[m] < b.tags@.len()
            },
            forall|m: int| 0 <= m < b.stack@.len() ==> #[trigger] b.stack@[m] < b.tags@.len(),
        decreases to - j,
    {
        let item = &items[j];
        assert(iv[j as int] == (item.depth as int, node_view(item.kind)));
        let d = item.depth;
        b.close_to(d);
        let skipping = match b.skip {
            Some(s) => d > s,
            None => false,
        };
        if !skipping {
            b.skip = None;
            match &item.kind {
                NodeKind::Text(t) => b.text(t.as_str()),
                NodeKind::Element { name, href, .. } => b.element(d, name.as_str(), href.as_ref()),
                NodeKind::Other => {},
            }
        }
        j = j + 1;
    }
    let chars = chars_of(b.text.as_str());
    Flat { text: b.text, chars, pieces: b.pieces, tags: b.tags }
}

/// The closing tags of `open[from..]`, innermost first.
pub open spec fn closes(tags: Seq<(Seq<char>, Seq<char>)>, open: Seq<usize>, from: int) -> Seq<char>
    decreases open.len() - from,
{
    if open.len() <= from || open.len() == 0 {
        Seq::empty()
    } else {
        tags[open.last() as int].1 + closes(tags, open.drop_last(), from)
    }
}

/// The opening tags of `stack[from..]`, outermost first.
pub open spec fn opens(tags: Seq<(Seq<char>, Seq<char>)>, stack: Seq<usize>, from: int) -> Seq<char>
    decreases stack.len() - from,
{
    if stack.len() <= from || stack.len() == 0 {
        Seq::empty()
    } else {
        opens(tags, stack.drop_last(), from) + tags[stack.last() as int].0
    }
}

/// How many leading tags two stacks share, counting from `k`.
pub open spec fn shared_from(a: Seq<usize>, b: Seq<usize>, k: int) -> int
    decreases a.len() - k,
{
    if 0 <= k < a.len() && k < b.len() && a[k] == b[k] {
        shared_from(a, b, k + 1)
    } else {
        k
    }
}

/// How many leading tags two stacks share.
pub open spec fn shared(a: Seq<usize>, b: Seq<usize>) -> int {
    shared_from(a, b, 0)
}

/// Rebuilding a range: the HTML and text so far, the tags open, and where the last piece ended.
pub struct SliceView {
    pub html: Seq<char>,
    pub text: Seq<char>,
    pub open: Seq<usize>,
    pub prev: Option<int>,
}

pub open spec fn max_int(a: int, b: int) -> int {
    if a >= b {
        a
    } else {
        b
    }
}

pub open spec fn min_int(a: int, b: int) -> int {
    if a <= b {
        a
    } else {
        b
    }
}

/// The range `lo..hi` of the text rebuilt from its first `k` pieces: each piece's part of the
/// range, after closing the tags it does not share with the piece before, a line break if it
/// follows some, a space where the text has one between them, and its own tags opened.
pub open spec fn sliced_upto(
    text: Seq<char>,
    pieces: Seq<PieceView>,
    tags: Seq<(Seq<char>, Seq<char>)>,
    lo: int,
    hi: int,
    k: int,
) -> SliceView
    decreases k,
{
    if k <= 0 {
        SliceView { html: Seq::empty(), text: Seq::empty(), open: Seq::empty(), prev: None }
    } else {
        let s = sliced_upto(text, pieces, tags, lo, hi, k - 1);
        let p = pieces[k - 1];
        let start = max_int(p.start, lo);
        let end = min_int(p.end, hi);
        if start >= end {
            s
        } else {
            let c = shared(s.open, p.stack);
            let h1 = s.html + closes(tags, s.open, c);
            let (h2, t2) = match s.prev {
                Some(prev) => {
                    let hb = h1 + if p.breaks > 0 {
                        "<br>"@
                    } else {
                        Seq::empty()
                    };
                    if prev < start {
                        (hb + seq![' '], s.text + seq![' '])
                    } else {
                        (hb, s.text)
                    }
                },
                None => (h1, s.text),
            };
            let part = text.subrange(start, end);
            SliceView {
                html: h2 + opens(tags, p.stack, c) + text_escaped(part),
                text: t2 + part,
                open: p.stack,
                prev: Some(end),
            }
        }
    }
}

/// `lo..hi` shrunk to its first and last characters that are not whitespace.
pub open spec fn trimmed_range(text: Seq<char>, lo: int, hi: int) -> (int, int) {
    let part = text.subrange(lo, hi);
    let start = lo + (part.len() - trim_start(part).len());
    let end = hi - (part.len() - trim_end(part).len());
    (start, max_int(end, start))
}

/// The range `lo..hi` of a flattened text, trimmed to whole words, rebuilt as inline HTML and
/// plain text.
pub open spec fn sliced(
    text: Seq<char>,
    pieces: Seq<PieceView>,
    tags: Seq<(Seq<char>, Seq<char>)>,
    lo: int,
    hi: int,
) -> (Seq<char>, Seq<char>) {
    let (a, b) = trimmed_range(text, lo, hi);
    let s = sliced_upto(text, pieces, tags, a, b, pieces.len() as int);
    (s.html + closes(tags, s.open, 0), s.text)
}

/// How many leading tags two stacks share.
fn common_prefix(open: &Vec<usize>, stack: &Vec<usize>) -> (n: usize)
    ensures
        n == shared(open@, stack@),
        n <= open@.len() && n <= stack@.len(),
{
    let mut n: usize = 0;
    while n < open.len() && n < stack.len() && open[n] == stack[n]
        invariant
            n <= open@.len(),
            n <= stack@.len(),
            shared(open@, stack@) == shared_from(open@, stack@, n as int),
        decreases open.len() - n,
    {
        n = n + 1;
    }
    n
}

/// The first of `needles` to occur in `hay`: where it starts, at the earliest.
pub open spec fn earliest(hay: Seq<char>, needles: Seq<Seq<char>>) -> Option<int>
    decreases needles.len(),
{
    if needles.len() == 0 {
        None
    } else {
        let rest = earliest(hay, needles.drop_last());
        let i = first_occurrence(hay, needles.last());
        if i < 0 {
            rest
        } else {
            match rest {
                Some(r) => Some(min_int(r, i)),
                None => Some(i),
            }
        }
    }
}

/// Where the first of `needles` appears in the text at or after `from`, ignoring ASCII case,
/// or the end of the text.
pub open spec fn stop_point(text: Seq<char>, from: int, needles: Seq<Seq<char>>) -> int {
    if needles.len() == 0 {
        text.len() as int
    } else {
        match earliest(lower_all(text.skip(from)), needles) {
            Some(h) => from + h,
            None => text.len() as int,
        }
    }
}

/// Where the first piece after `from` that follows at least `breaks` line breaks starts, or the
/// end of the text.
pub open spec fn break_after(text: Seq<char>, pieces: Seq<PieceView>, from: int, breaks: int, k: int) -> int
    decreases pieces.len() - k,
{
    if k < 0 || k >= pieces.len() {
        text.len() as int
    } else if pieces[k].breaks >= breaks && pieces[k].start > from {
        pieces[k].start
    } else {
        break_after(text, pieces, from, breaks, k + 1)
    }
}

pub open spec fn str_views(s: Seq<&str>) -> Seq<Seq<char>> {
    s.map_values(|x: &str| x@)
}

/// Where the first of `stop_at` appears in `chars` at or after `from`, ignoring ASCII case, or
/// the end. The needles are lowercase, and lowering ASCII keeps every position.
pub fn stop_in(chars: &Vec<char>, from: usize, stop_at: &[&str]) -> (at: usize)
    requires
        from <= chars@.len(),
    ensures
        at == stop_point(chars@, from as int, str_views(stop_at@)),
        from <= at <= chars@.len(),
{
    let n = chars.len();
    if stop_at.len() == 0 {
        return n;
    }
    let hay = lower_chars(&slice_chars(chars, from, n));
    assert(chars@.subrange(from as int, n as int) =~= chars@.skip(from as int));
    let ghost needles = str_views(stop_at@);
    let mut best: Option<usize> = None;
    let mut i: usize = 0;
    while i < stop_at.len()
        invariant
            i <= stop_at@.len(),
            needles == str_views(stop_at@),
            hay@ == lower_all(chars@.skip(from as int)),
            hay@.len() == n - from,
            n == chars@.len(),
            from <= n,
            match best {
                Some(h) => earliest(hay@, needles.take(i as int)) == Some(h as int) && h <= hay@.len(),
                None => earliest(hay@, needles.take(i as int)) is None,
            },
        decreases stop_at.len() - i,
    {
        assert(needles.take(i + 1).drop_last() =~= needles.take(i as int));
        let needle = chars_of(stop_at[i]);
        match find_first_seq(&hay, &needle) {
            Some(h) => {
                best = match best {
                    Some(b) => if h < b {
                        Some(h)
                    } else {
                        Some(b)
                    },
                    None => Some(h),
                };
            },
            None => {},
        }
        i = i + 1;
    }
    assert(needles.take(i as int) =~= needles);
    match best {
        Some(h) => from + h,
        None => n,
    }
}

/// What part of a flattened element to keep: everything after the first match of a pattern,
/// up to the first of some phrases, and before a run of line breaks.
pub struct Options<'a> {
    /// A regular expression the kept part follows; the whole text when there is none.
    pub start_after: Option<&'a str>,
    /// Phrases, lowercase, the kept part stops before.
    pub stop_at: &'a [&'a str],
    /// Stop where this many line breaks run together.
    pub stop_after_breaks: Option<usize>,
}

impl<'a> Default for Options<'a> {
    /// Keeps the whole element.
    fn default() -> (o: Self)
        ensures
            o.start_after is None,
            o.stop_at@.len() == 0,
            o.stop_after_breaks is None,
    {
        let none: &'a [&'a str] = &[];
        Options { start_after: None, stop_at: none, stop_after_breaks: None }
    }
}

/// The range of a flattened text that the options keep; `None` when the start pattern does not
/// occur.
pub open spec fn window_of(
    text: Seq<char>,
    pieces: Seq<PieceView>,
    start_after: Option<Seq<char>>,
    stops: Seq<Seq<char>>,
    breaks: Option<usize>,
) -> Option<(int, int)> {
    let start = match start_after {
        Some(pat) => {
            let caps = captures_of(pat, text);
            if caps.len() == 0 {
                None
            } else {
                Some(span_end(caps[0][0]))
            }
        },
        None => Some(0int),
    };
    match start {
        None => None,
        Some(a) => {
            let stop = stop_point(text, a, stops);
            let stop2 = match breaks {
                Some(b) => min_int(stop, break_after(text, pieces, a, b as int, 0)),
                None => stop,
            };
            Some((a, stop2))
        },
    }
}

impl Flat {
    /// The flattened text.
    pub fn text(&self) -> (t: &str)
        ensures
            t@ == self.text_view(),
    {
        self.text.as_str()
    }

    /// Shrinks a range to its first and last characters that are not whitespace.
    fn trim(&self, lo: usize, hi: usize) -> (r: (usize, usize))
        requires
            lo <= hi <= self.text_view().len(),
        ensures
            (r.0 as int, r.1 as int) == trimmed_range(self.text_view(), lo as int, hi as int),
            lo <= r.0 <= r.1 <= hi,
    {
        proof {
            use_type_invariant(self);
        }
        let part = slice_chars(&self.chars, lo, hi);
        let a = skip_space(&part, 0);
        let e = skip_space_back(&part, 0, part.len());
        assert(part@.subrange(0, part@.len() as int) =~= part@);
        let start = lo + a;
        let end = lo + e;
        if end < start {
            (start, start)
        } else {
            (start, end)
        }
    }

    /// Writes the closing tags of the open tags past `keep`, innermost first.
    fn close_tags(&self, html: &mut String, open: &mut Vec<usize>, keep: usize)
        requires
            forall|m: int| 0 <= m < old(open)@.len() ==> #[trigger] old(open)@[m] < self.tags@.len(),
        ensures
            final(html)@ == old(html)@ + closes(self.tags_of(), old(open)@, keep as int),
            final(open)@ == if old(open)@.len() <= keep {
                old(open)@
            } else {
                old(open)@.take(keep as int)
            },
        decreases old(open)@.len(),
    {
        if open.len() > keep {
            let id = open.pop().unwrap();
            assert(tags_view(self.tags@)[id as int] == (self.tags@[id as int].open@, self.tags@[id as int].close@));
            push_str(html, self.tags[id].close.as_str());
            self.close_tags(html, open, keep);
            assert(old(open)@.drop_last().take(keep as int) =~= old(open)@.take(keep as int));
        }
    }

    /// Writes the opening tags of `stack` from `from` on, outermost first.
    fn open_tags(&self, html: &mut String, stack: &Vec<usize>, from: usize)
        requires
            forall|m: int| 0 <= m < stack@.len() ==> #[trigger] stack@[m] < self.tags@.len(),
        ensures
            final(html)@ == old(html)@ + opens(self.tags_of(), stack@, from as int),
    {
        let mut i = from;
        if i > stack.len() {
            i = stack.len();
        }
        assert(opens(self.tags_of(), stack@.take(i as int), from as int) =~= Seq::<char>::empty());
        while i < stack.len()
            invariant
                from <= i <= stack@.len() || (i == stack@.len() && from > stack@.len()),
                forall|m: int| 0 <= m < stack@.len() ==> #[trigger] stack@[m] < self.tags@.len(),
                html@ == old(html)@ + opens(self.tags_of(), stack@.take(i as int), from as int),
            decreases stack.len() - i,
        {
            let id = stack[i];
            assert(stack@.take(i + 1).drop_last() =~= stack@.take(i as int));
            assert(tags_view(self.tags@)[id as int] == (self.tags@[id as int].open@, self.tags@[id as int].close@));
            push_str(html, self.tags[id].open.as_str());
            i = i + 1;
            assert(html@ =~= old(html)@ + opens(self.tags_of(), stack@.take(i as int), from as int));
        }
        assert(stack@.take(i as int) =~= stack@);
    }

    /// Rebuilds a range of the text, trimmed to whole words, as inline HTML and plain text.
    pub fn slice(&self, lo: usize, hi: usize) -> (f: Fragment)
        requires
            lo <= hi <= self.text_view().len(),
        ensures
            (f.html@, f.text@) == sliced(self.text_view(), self.pieces_of(), self.tags_of(), lo as int, hi as int),
    {
        proof {
            use_type_invariant(self);
        }
        let (a, b) = self.trim(lo, hi);
        let ghost text = self.text_view();
        let ghost pieces = self.pieces_of();
        let ghost tags = self.tags_of();
        let mut html = String::new();
        let mut plain = String::new();
        let mut open: Vec<usize> = Vec::new();
        let mut prev: Option<usize> = None;
        let mut k: usize = 0;
        while k < self.pieces.len()
            invariant
                self.chars@ == self.text@,
                text == self.text_view(),
                pieces == self.pieces_of(),
                tags == self.tags_of(),
                a <= b <= text.len(),
                k <= self.pieces@.len(),
                forall|j: int| 0 <= j < self.pieces@.len() ==> {
                    let p = #[trigger] self.pieces@[j];
                    &&& p.start <= p.end <= self.text@.len()
                    &&& forall|m: int| 0 <= m < p.stack@.len() ==> #[trigger] p.stack@[m] < self.tags@.len()
                },
                forall|m: int| 0 <= m < open@.len() ==> #[trigger] open@[m] < self.tags@.len(),
                ({
                    let sv = sliced_upto(text, pieces, tags, a as int, b as int, k as int);
                    &&& sv.html == html@
                    &&& sv.text == plain@
                    &&& sv.open == open@
                    &&& sv.prev == match prev {
                        Some(p) => Some(p as int),
                        None => None,
                    }
                }),
            decreases self.pieces.len() - k,
        {
            let p = &self.pieces[k];
            assert(pieces[k as int] == piece_view(*p));
            let start = if p.start > a {
                p.start
            } else {
                a
            };
            let end = if p.end < b {
                p.end
            } else {
                b
            };
            if start < end {
                let c = common_prefix(&open, &p.stack);
                self.close_tags(&mut html, &mut open, c);
                match prev {
                    Some(pe) => {
                        if p.breaks > 0 {
                            push_str(&mut html, "<br>");
                        }
                        if pe < start {
                            push_char(&mut html, ' ');
                            push_char(&mut plain, ' ');
                        }
                    },
                    None => {},
                }
                self.open_tags(&mut html, &p.stack, c);
                let part = slice_chars(&self.chars, start, end);
                let part_text = string_of(&part);
                push_str(&mut html, escape_text(part_text.as_str()).as_str());
                push_str(&mut plain, part_text.as_str());
                open = p.stack.clone();
                prev = Some(end);
                proof {
                    assert(open@ =~= p.stack@);
                }
            }
            k = k + 1;
        }
        self.close_tags(&mut html, &mut open, 0);
        assert(open@.take(0) =~= Seq::<usize>::empty());
        Fragment { html, text: plain }
    }
}

impl Flat {
    /// Where the first of `stop_at` appears at or after `from`, ignoring ASCII case, or the end
    /// of the text. The needles are lowercase, and lowering ASCII keeps every position.
    pub fn stop(&self, from: usize, stop_at: &[&str]) -> (at: usize)
        requires
            from <= self.text_view().len(),
        ensures
            at == stop_point(self.text_view(), from as int, str_views(stop_at@)),
            from <= at <= self.text_view().len(),
    {
        proof {
            use_type_invariant(self);
        }
        stop_in(&self.chars, from, stop_at)
    }

    /// Where the first piece after `from` that follows at least `breaks` line breaks starts, or
    /// the end of the text.
    fn paragraph_break(&self, from: usize, breaks: usize) -> (at: usize)
        ensures
            at == break_after(self.text_view(), self.pieces_of(), from as int, breaks as int, 0),
            from <= self.text_view().len() ==> from <= at <= self.text_view().len(),
    {
        proof {
            use_type_invariant(self);
        }
        let mut k: usize = 0;
        while k < self.pieces.len()
            invariant
                k <= self.pieces@.len(),
                self.chars@ == self.text@,
                forall|j: int| 0 <= j < self.pieces@.len() ==> {
                    let q = #[trigger] self.pieces@[j];
                    q.start <= q.end <= self.text@.len()
                },
                break_after(self.text_view(), self.pieces_of(), from as int, breaks as int, 0)
                    == break_after(self.text_view(), self.pieces_of(), from as int, breaks as int, k as int),
            decreases self.pieces.len() - k,
        {
            let p = &self.pieces[k];
            assert(self.pieces_of()[k as int] == piece_view(*p));
            assert(p.start <= p.end <= self.text@.len());
            if p.breaks >= breaks && p.start > from {
                return p.start;
            }
            k = k + 1;
        }
        assert(self.chars@.len() == self.text_view().len());
        self.chars.len()
    }

    /// The range the options select: after the start pattern's first match, up to the first
    /// stop phrase or run of line breaks.
    pub fn window(&self, opts: &Options) -> (r: Option<(usize, usize)>)
        ensures
            match r {
                Some((a, b)) => window_of(
                    self.text_view(),
                    self.pieces_of(),
                    match opts.start_after {
                        Some(p) => Some(p@),
                        None => None,
                    },
                    str_views(opts.stop_at@),
                    opts.stop_after_breaks,
                ) == Some((a as int, b as int)) && a <= b <= self.text_view().len(),
                None => window_of(
                    self.text_view(),
                    self.pieces_of(),
                    match opts.start_after {
                        Some(p) => Some(p@),
                        None => None,
                    },
                    str_views(opts.stop_at@),
                    opts.stop_after_breaks,
                ) is None,
            },
    {
        proof {
            use_type_invariant(self);
        }
        let start = match opts.start_after {
            Some(pat) => {
                let caps = captures(pat, self.text.as_str());
                if caps.len() == 0 {
                    return None;
                }
                assert(captures_view(caps@)[0] == caps@[0]@.map_values(|g: Option<Span>| span_view(g)));
                assert(caps@[0]@.len() >= 1);
                assert(captures_view(caps@)[0][0] == span_view(caps@[0]@[0]));
                match caps[0][0] {
                    Some((_, e)) => e,
                    None => {
                        return None;
                    },
                }
            },
            None => 0,
        };
        let mut stop = self.stop(start, opts.stop_at);
        if let Some(breaks) = opts.stop_after_breaks {
            let at = self.paragraph_break(start, breaks);
            if at < stop {
                stop = at;
            }
        }
        Some((start, stop))
    }
}

/// The part of the nodes `from` up to `to` that a window keeps, as sanitized HTML and plain
/// text, trimmed to whole words; `None` when the start pattern does not occur.
pub open spec fn sanitized_of(
    items: Seq<(int, NodeView)>,
    from: int,
    to: int,
    base: Seq<char>,
    start_after: Option<Seq<char>>,
    stops: Seq<Seq<char>>,
    breaks: Option<usize>,
) -> Option<(Seq<char>, Seq<char>)> {
    let (text, pieces, tags) = flattened(items, from, to, base);
    match window_of(text, pieces, start_after, stops, breaks) {
        Some((a, b)) => Some(sliced(text, pieces, tags, a, b)),
        None => None,
    }
}

pub open spec fn fragment_view(r: Option<Fragment>) -> Option<(Seq<char>, Seq<char>)> {
    match r {
        Some(f) => Some((f.html@, f.text@)),
        None => None,
    }
}

pub open spec fn pattern_view(p: Option<&str>) -> Option<Seq<char>> {
    match p {
        Some(p) => Some(p@),
        None => None,
    }
}

/// An element's inline content as sanitized HTML and plain text: the part of it the options
/// select, trimmed to whole words. `None` when the start pattern does not occur.
pub fn sanitize(items: &Vec<DomItem>, from: usize, to: usize, base: &str, opts: &Options) -> (r:
    Option<Fragment>)
    requires
        from <= to <= items@.len(),
    ensures
        fragment_view(r) == sanitized_of(
            items_view(items@),
            from as int,
            to as int,
            base@,
            pattern_view(opts.start_after),
            str_views(opts.stop_at@),
            opts.stop_after_breaks,
        ),
{
    let flat = flatten(items, from, to, base);
    match flat.window(opts) {
        Some((a, b)) => Some(flat.slice(a, b)),
        None => None,
    }
}

/// Where the part of the document below node `i` ends: the next node no deeper than it.
pub open spec fn subtree_end(items: Seq<(int, NodeView)>, i: int, j: int) -> int
    decreases items.len() - j,
{
    if j < 0 || j >= items.len() {
        items.len() as int
    } else if items[j].0 <= items[i].0 {
        j
    } else {
        subtree_end(items, i, j + 1)
    }
}

/// The text of the nodes from `from` up to `to`, run together.
pub open spec fn text_between(items: Seq<(int, NodeView)>, from: int, to: int) -> Seq<char>
    decreases to - from,
{
    if to <= from {
        Seq::empty()
    } else {
        text_between(items, from, to - 1) + match items[to - 1].1 {
            NodeView::Text(t) => t,
            _ => Seq::empty(),
        }
    }
}

/// Where the nodes below node `i` end.
pub fn end_of(items: &Vec<DomItem>, i: usize) -> (e: usize)
    requires
        i < items@.len(),
    ensures
        e == subtree_end(items_view(items@), i as int, i + 1),
        i < e <= items@.len(),
{
    let ghost iv = items_view(items@);
    let d = items[i].depth;
    let n = items.len();
    assert(i < n);
    let mut j = i + 1;
    while j < items.len()
        invariant
            i < j <= items@.len(),
            iv == items_view(items@),
            d == items@[i as int].depth,
            subtree_end(iv, i as int, i + 1) == subtree_end(iv, i as int, j as int),
        decreases items.len() - j,
    {
        assert(iv[j as int].0 == items@[j as int].depth && iv[i as int].0 == d);
        if items[j].depth <= d {
            return j;
        }
        j = j + 1;
    }
    j
}

/// The text of the nodes from `from` up to `to`.
pub fn text_of(items: &Vec<DomItem>, from: usize, to: usize) -> (t: String)
    requires
        from <= to <= items@.len(),
    ensures
        t@ == text_between(items_view(items@), from as int, to as int),
{
    let ghost iv = items_view(items@);
    let mut t = String::new();
    let mut j = from;
    while j < to
        invariant
            from <= j <= to <= items@.len(),
            iv == items_view(items@),
            t@ == text_between(iv, from as int, j as int),
        decreases to - j,
    {
        assert(iv[j as int].1 == node_view(items@[j as int].kind));
        match &items[j].kind {
            NodeKind::Text(s) => push_str(&mut t, s.as_str()),
            _ => {},
        }
        j = j + 1;
        assert(t@ =~= text_between(iv, from as int, j as int));
    }
    t
}

/// A word: some characters, none of them whitespace.
pub open spec fn word_ok(w: Seq<char>) -> bool {
    w.len() > 0 && forall|m: int| 0 <= m < w.len() ==> !is_space(#[trigger] w[m])
}

proof fn lemma_words_shape(s: Seq<char>)
    ensures
        forall|k: int| 0 <= k < words(s).len() ==> word_ok(#[trigger] words(s)[k]),
        s.len() > 0 && !is_space(s.last()) ==> words(s).len() > 0,
        (exists|i: int| 0 <= i < s.len() && !is_space(#[trigger] s[i])) ==> words(s).len() > 0,
    decreases s.len(),
{
    if s.len() > 0 {
        let t = s.drop_last();
        lemma_words_shape(t);
        let w = words(t);
        let c = s.last();
        if is_space(c) {
            if exists|i: int| 0 <= i < s.len() && !is_space(#[trigger] s[i]) {
                let i = choose|i: int| 0 <= i < s.len() && !is_space(#[trigger] s[i]);
                assert(t[i] == s[i]);
            }
        } else if s.len() >= 2 && !is_space(s[s.len() - 2]) {
            assert(t.last() == s[s.len() - 2]);
            let nw = w.last().push(c);
            assert(word_ok(nw));
            assert forall|k: int| 0 <= k < words(s).len() implies word_ok(#[trigger] words(s)[k]) by {
                if k < w.len() - 1 {
                    assert(words(s)[k] == w[k]);
                }
            }
        } else {
            assert(word_ok(seq![c]));
            assert forall|k: int| 0 <= k < words(s).len() implies word_ok(#[trigger] words(s)[k]) by {
                if k < w.len() {
                    assert(words(s)[k] == w[k]);
                }
            }
        }
    }
}

proof fn lemma_joined_ends(ws: Seq<Seq<char>>)
    requires
        ws.len() > 0,
        forall|k: int| 0 <= k < ws.len() ==> word_ok(#[trigger] ws[k]),
    ensures
        joined(ws, seq![' ']).len() > 0,
        joined(ws, seq![' '])[0] == ws[0][0],
        joined(ws, seq![' ']).last() == ws.last().last(),
    decreases ws.len(),
{
    assert(word_ok(ws[0]));
    assert(word_ok(ws.last()));
    if ws.len() > 1 {
        let init = ws.drop_last();
        assert forall|k: int| 0 <= k < init.len() implies word_ok(#[trigger] init[k]) by {
            assert(init[k] == ws[k]);
        }
        lemma_joined_ends(init);
        assert(init[0] == ws[0]);
    }
}

proof fn lemma_all_space_trims_away(s: Seq<char>)
    requires
        forall|i: int| 0 <= i < s.len() ==> is_space(#[trigger] s[i]),
    ensures
        trim_start(s).len() == 0,
    decreases s.len(),
{
    if s.len() > 0 {
        assert forall|i: int| 0 <= i < s.skip(1).len() implies is_space(#[trigger] s.skip(1)[i]) by {
            assert(s.skip(1)[i] == s[i + 1]);
        }
        lemma_all_space_trims_away(s.skip(1));
    }
}

/// Text that is not all whitespace collapses to something that starts and ends with a word.
proof fn lemma_collapsed_ends(raw: Seq<char>)
    requires
        trim(raw).len() > 0,
    ensures
        collapsed(raw).len() > 0,
        !is_space(collapsed(raw)[0]),
        !is_space(collapsed(raw).last()),
{
    if forall|i: int| 0 <= i < raw.len() ==> is_space(#[trigger] raw[i]) {
        lemma_all_space_trims_away(raw);
        assert(trim_start(raw) =~= Seq::<char>::empty());
    }
    lemma_words_shape(raw);
    let ws = words(raw);
    lemma_joined_ends(ws);
    assert(word_ok(ws[0]));
    assert(word_ok(ws.last()));
    assert(!is_space(ws[0][0]));
    assert(!is_space(ws.last()[ws.last().len() - 1]));
}

/// Two pieces in a row meet, or leave one space between them.
pub open spec fn meets(text: Seq<char>, p: PieceView, q: PieceView) -> bool {
    q.start == p.end || (q.start == p.end + 1 && text[p.end] == ' ')
}

/// The pieces of a flattening tile its text: in order, each starting and ending on a word,
/// from the first character to the last, with at most a space between two.
pub open spec fn tiled(text: Seq<char>, ps: Seq<PieceView>) -> bool {
    &&& (ps.len() == 0 <==> text.len() == 0)
    &&& ps.len() > 0 ==> ps[0].start == 0 && ps.last().end == text.len()
    &&& forall|k: int|
        0 <= k < ps.len() ==> {
            let p = #[trigger] ps[k];
            &&& 0 <= p.start < p.end <= text.len()
            &&& !is_space(text[p.start])
            &&& !is_space(text[p.end - 1])
        }
    &&& forall|k: int| 0 < k < ps.len() ==> #[trigger] meets(text, ps[k - 1], ps[k])
}

proof fn lemma_close_keeps_text(v: BuildView, depth: usize)
    ensures
        close_to(v, depth).text == v.text,
        close_to(v, depth).pieces == v.pieces,
    decreases v.frames.len(),
{
    if v.frames.len() > 0 && v.frames.last().0 >= depth {
        let opened = v.frames.last().1;
        lemma_close_keeps_text(
            BuildView {
                frames: v.frames.drop_last(),
                stack: if opened && v.stack.len() > 0 {
                    v.stack.drop_last()
                } else {
                    v.stack
                },
                ..v
            },
            depth,
        );
    }
}

proof fn lemma_text_step_tiled(v: BuildView, raw: Seq<char>)
    requires
        tiled(v.text, v.pieces),
    ensures
        tiled(text_step(v, raw).text, text_step(v, raw).pieces),
{
    if raw.len() > 0 && trim(raw).len() > 0 {
        lemma_collapsed_ends(raw);
        let owed = v.pending_space || is_space(raw[0]);
        let t1 = if owed && v.text.len() > 0 {
            v.text.push(' ')
        } else {
            v.text
        };
        let c = collapsed(raw);
        let t2 = t1 + c;
        let w = text_step(v, raw);
        assert(w.text == t2);
        let np = PieceView { start: t1.len() as int, end: t2.len() as int, stack: v.stack, breaks: v.pending_breaks };
        assert(w.pieces == v.pieces.push(np));
        assert(t2[t1.len() as int] == c[0]);
        assert(t2[t2.len() - 1] == c.last());
        assert forall|k: int| 0 <= k < w.pieces.len() implies {
            let p = #[trigger] w.pieces[k];
            &&& 0 <= p.start < p.end <= t2.len()
            &&& !is_space(t2[p.start])
            &&& !is_space(t2[p.end - 1])
        } by {
            if k < v.pieces.len() {
                let p = v.pieces[k];
                assert(w.pieces[k] == p);
                assert(t2[p.start] == v.text[p.start]);
                assert(t2[p.end - 1] == v.text[p.end - 1]);
            }
        }
        assert forall|k: int| 0 < k < w.pieces.len() implies #[trigger] meets(t2, w.pieces[k - 1], w.pieces[k]) by {
            if k < v.pieces.len() {
                assert(meets(v.text, v.pieces[k - 1], v.pieces[k]));
                assert(w.pieces[k - 1] == v.pieces[k - 1]);
                assert(w.pieces[k] == v.pieces[k]);
                assert(t2[v.pieces[k - 1].end] == v.text[v.pieces[k - 1].end]);
            } else {
                assert(w.pieces[k - 1] == v.pieces.last());
                if owed && v.text.len() > 0 {
                    assert(t2[v.text.len() as int] == ' ');
                }
            }
        }
    }
}

/// The pieces a flattening makes tile its text.
proof fn lemma_built_tiled(items: Seq<(int, NodeView)>, from: int, to: int, base: Seq<char>)
    ensures
        tiled(built(items, from, to, base).text, built(items, from, to, base).pieces),
    decreases to - from,
{
    if to > from {
        lemma_built_tiled(items, from, to - 1, base);
        let v = built(items, from, to - 1, base);
        let item = items[to - 1];
        let depth = item.0 as usize;
        lemma_close_keeps_text(v, depth);
        lemma_close_keeps_tags(v, depth);
        let c = close_to(v, depth);
        let c2 = BuildView { skip: None, ..c };
        match c.skip {
            Some(sk) if depth > sk => {},
            _ => {
                match item.1 {
                    NodeView::Text(t) => {
                        lemma_text_step_tiled(c2, t);
                    },
                    _ => {},
                }
            },
        }
    }
}

proof fn lemma_tiled_ordered(text: Seq<char>, ps: Seq<PieceView>, m: int, n: int)
    requires
        tiled(text, ps),
        0 <= m < n < ps.len(),
    ensures
        ps[m].end <= ps[n].start,
    decreases n - m,
{
    assert(meets(text, ps[n - 1], ps[n]));
    if m < n - 1 {
        lemma_tiled_ordered(text, ps, m, n - 1);
        assert(ps[n - 1].start < ps[n - 1].end);
    }
}

/// Every character of a tiled text that is not whitespace lies in one of its first `n` pieces,
/// up to where the `n`th ends.
proof fn lemma_tiled_covers(text: Seq<char>, ps: Seq<PieceView>, n: int, i: int)
    requires
        tiled(text, ps),
        0 < n <= ps.len(),
        0 <= i < ps[n - 1].end,
        !is_space(text[i]),
    ensures
        exists|j: int| 0 <= j < n && #[trigger] ps[j].start <= i < ps[j].end,
    decreases n,
{
    if i >= ps[n - 1].start {
        assert(ps[n - 1].start <= i < ps[n - 1].end);
    } else {
        assert(n > 1);
        let m = n - 1;
        assert(meets(text, ps[m - 1], ps[m]));
        lemma_tiled_covers(text, ps, n - 1, i);
        let j = choose|j: int| 0 <= j < n - 1 && #[trigger] ps[j].start <= i < ps[j].end;
        assert(ps[j].start <= i < ps[j].end);
    }
}

/// Whether a piece holds some of `lo..hi`.
pub open spec fn overlaps(p: PieceView, lo: int, hi: int) -> bool {
    max_int(p.start, lo) < min_int(p.end, hi)
}

/// Rebuilding `a..b` of a tiled text piece by piece, where `a` and `b - 1` are not
/// whitespace: after the first `k` pieces the text is the range up to where the last piece that
/// held some of it stops. Returns that piece, or -1 while none has.
proof fn lemma_sliced_text(
    text: Seq<char>,
    ps: Seq<PieceView>,
    tags: Seq<(Seq<char>, Seq<char>)>,
    a: int,
    b: int,
    k: int,
) -> (j: int)
    requires
        tiled(text, ps),
        0 <= a < b <= text.len(),
        !is_space(text[a]),
        !is_space(text[b - 1]),
        0 <= k <= ps.len(),
    ensures
        -1 <= j < k,
        j == -1 ==> sliced_upto(text, ps, tags, a, b, k).prev is None && sliced_upto(
            text,
            ps,
            tags,
            a,
            b,
            k,
        ).text.len() == 0,
        j == -1 ==> forall|m: int| 0 <= m < k ==> !overlaps(#[trigger] ps[m], a, b),
        j >= 0 ==> overlaps(ps[j], a, b) && sliced_upto(text, ps, tags, a, b, k).prev == Some(
            min_int(ps[j].end, b),
        ) && sliced_upto(text, ps, tags, a, b, k).text == text.subrange(a, min_int(ps[j].end, b)),
        j >= 0 ==> forall|m: int| j < m < k ==> !overlaps(#[trigger] ps[m], a, b),
    decreases k,
{
    if k == 0 {
        -1
    } else {
        let j0 = lemma_sliced_text(text, ps, tags, a, b, k - 1);
        let s = sliced_upto(text, ps, tags, a, b, k - 1);
        let p = ps[k - 1];
        assert(0 <= p.start < p.end <= text.len());
        if !overlaps(p, a, b) {
            j0
        } else {
            let start = max_int(p.start, a);
            let end = min_int(p.end, b);
            let part = text.subrange(start, end);
            let r = sliced_upto(text, ps, tags, a, b, k);
            if j0 == -1 {
                if k - 1 > 0 {
                    let m = k - 1;
                    let q = ps[m - 1];
                    assert(meets(text, ps[m - 1], ps[m]));
                    assert(!overlaps(q, a, b));
                    assert(q.start < q.end);
                    if q.start < b {
                        assert(a >= q.end);
                    }
                    if a < p.start {
                        assert(text[q.end] == ' ');
                    }
                } else {
                    assert(p.start == 0);
                }
                assert(start == a);
                assert(r.text =~= text.subrange(a, end));
            } else {
                assert(j0 == k - 2) by {
                    if j0 < k - 2 {
                        lemma_tiled_ordered(text, ps, j0, k - 2);
                        lemma_tiled_ordered(text, ps, k - 2, k - 1);
                        assert(ps[k - 2].start < ps[k - 2].end);
                        assert(overlaps(ps[k - 2], a, b));
                    }
                }
                let m = k - 1;
                let q = ps[m - 1];
                assert(meets(text, ps[m - 1], ps[m]));
                assert(q.end <= p.start < b);
                assert(start == p.start);
                if q.end < start {
                    assert(text[q.end] == ' ');
                    assert(r.text =~= text.subrange(a, q.end) + seq![' '] + part);
                    assert(r.text =~= text.subrange(a, end));
                } else {
                    assert(r.text =~= text.subrange(a, end));
                }
            }
            k - 1
        }
    }
}

proof fn lemma_trim_start_shape(x: Seq<char>)
    ensures
        trim_start(x).len() <= x.len(),
        trim_start(x) == x.skip(x.len() - trim_start(x).len()),
        forall|i: int| 0 <= i < x.len() - trim_start(x).len() ==> is_space(#[trigger] x[i]),
        trim_start(x).len() > 0 ==> !is_space(trim_start(x)[0]),
    decreases x.len(),
{
    if x.len() > 0 && is_space(x[0]) {
        lemma_trim_start_shape(x.skip(1));
        assert(x.skip(1).skip(x.skip(1).len() - trim_start(x.skip(1)).len()) =~= x.skip(
            x.len() - trim_start(x).len(),
        ));
        assert forall|i: int| 0 <= i < x.len() - trim_start(x).len() implies is_space(#[trigger] x[i]) by {
            if i > 0 {
                assert(x[i] == x.skip(1)[i - 1]);
            }
        }
    } else {
        assert(x.skip(0) =~= x);
    }
}

proof fn lemma_trim_end_shape(x: Seq<char>)
    ensures
        trim_end(x).len() <= x.len(),
        trim_end(x) == x.take(trim_end(x).len() as int),
        forall|i: int| trim_end(x).len() <= i < x.len() ==> is_space(#[trigger] x[i]),
        trim_end(x).len() > 0 ==> !is_space(x[trim_end(x).len() - 1]),
    decreases x.len(),
{
    if x.len() > 0 && is_space(x.last()) {
        lemma_trim_end_shape(x.drop_last());
        assert(x.drop_last().take(trim_end(x).len() as int) =~= x.take(trim_end(x).len() as int));
        assert forall|i: int| trim_end(x).len() <= i < x.len() implies is_space(#[trigger] x[i]) by {
            if i < x.len() - 1 {
                assert(x[i] == x.drop_last()[i]);
            }
        }
    } else {
        assert(x.take(x.len() as int) =~= x);
    }
}

/// A range of a text trimmed: its ends are characters that are not whitespace, and between them
/// is the range trimmed.
proof fn lemma_trimmed_range(text: Seq<char>, lo: int, hi: int)
    requires
        0 <= lo <= hi <= text.len(),
    ensures
        lo <= trimmed_range(text, lo, hi).0 <= trimmed_range(text, lo, hi).1 <= hi,
        text.subrange(trimmed_range(text, lo, hi).0, trimmed_range(text, lo, hi).1) == trim(
            text.subrange(lo, hi),
        ),
        trimmed_range(text, lo, hi).0 < trimmed_range(text, lo, hi).1 ==> !is_space(
            text[trimmed_range(text, lo, hi).0],
        ) && !is_space(text[trimmed_range(text, lo, hi).1 - 1]),
{
    let part = text.subrange(lo, hi);
    lemma_trim_start_shape(part);
    lemma_trim_end_shape(part);
    let ls = part.len() - trim_start(part).len();
    let lp = trim_end(part).len() as int;
    let (a, b) = trimmed_range(text, lo, hi);
    if trim_start(part).len() == 0 {
        assert(trim_start(part) =~= Seq::<char>::empty());
        assert(trim(part) =~= Seq::<char>::empty());
        assert(text.subrange(a, b) =~= Seq::<char>::empty());
    } else {
        assert(!is_space(part[ls]));
        assert(lp > ls) by {
            if lp <= ls {
                assert(is_space(part[ls]));
            }
        }
        let y = trim_start(part);
        lemma_trim_end_shape(y);
        let ly = trim_end(y).len() as int;
        assert(ly == lp - ls) by {
            assert(y =~= part.skip(ls));
            if ly < lp - ls {
                assert(is_space(y[lp - ls - 1]));
                assert(y[lp - ls - 1] == part[lp - 1]);
            } else if ly > lp - ls {
                assert(!is_space(y[ly - 1]));
                assert(y[ly - 1] == part[ls + ly - 1]);
                assert(is_space(part[ls + ly - 1]));
            }
        }
        assert(trim(part) =~= part.subrange(ls, lp));
        assert(text.subrange(a, b) =~= part.subrange(ls, lp));
        assert(text[a] == part[ls]);
        assert(text[b - 1] == part[lp - 1]);
    }
}

proof fn lemma_sliced_nothing(
    text: Seq<char>,
    ps: Seq<PieceView>,
    tags: Seq<(Seq<char>, Seq<char>)>,
    a: int,
    k: int,
)
    ensures
        sliced_upto(text, ps, tags, a, a, k).text.len() == 0,
    decreases k,
{
    if k > 0 {
        lemma_sliced_nothing(text, ps, tags, a, k - 1);
    }
}

/// Any range of a flattened text can be sliced back out: the text of the slice is exactly the
/// range, trimmed.
pub proof fn law_a_range_slices_back_out(
    items: Seq<(int, NodeView)>,
    from: int,
    to: int,
    base: Seq<char>,
    lo: int,
    hi: int,
)
    requires
        0 <= lo <= hi <= flattened(items, from, to, base).0.len(),
    ensures
        sliced(
            flattened(items, from, to, base).0,
            flattened(items, from, to, base).1,
            flattened(items, from, to, base).2,
            lo,
            hi,
        ).1 == trim(flattened(items, from, to, base).0.subrange(lo, hi)),
{
    let (text, ps, tags) = flattened(items, from, to, base);
    lemma_built_tiled(items, from, to, base);
    lemma_trimmed_range(text, lo, hi);
    let (a, b) = trimmed_range(text, lo, hi);
    if a == b {
        lemma_sliced_nothing(text, ps, tags, a, ps.len() as int);
        assert(text.subrange(a, b) =~= Seq::<char>::empty());
    } else {
        let j = lemma_sliced_text(text, ps, tags, a, b, ps.len() as int);
        assert(ps.len() > 0);
        lemma_tiled_covers(text, ps, ps.len() as int, b - 1);
        let c = choose|c: int| 0 <= c < ps.len() && #[trigger] ps[c].start <= b - 1 < ps[c].end;
        assert(overlaps(ps[c], a, b));
        assert(j >= 0);
        assert(c == j) by {
            if c > j {
                assert(!overlaps(ps[c], a, b));
            } else if c < j {
                lemma_tiled_ordered(text, ps, c, j);
            }
        }
    }
}

/// `s` begins with `<` and holds no other.
pub open spec fn single_mark(s: Seq<char>) -> bool {
    s.len() > 0 && s[0] == '<' && forall|m: int| 0 < m < s.len() ==> #[trigger] s[m] != '<'
}

proof fn lemma_replaced_keeps_out(s: Seq<char>, p: Seq<char>, r: Seq<char>, c: char)
    requires
        forall|i: int| 0 <= i < s.len() ==> #[trigger] s[i] != c,
        forall|i: int| 0 <= i < r.len() ==> #[trigger] r[i] != c,
    ensures
        forall|i: int| 0 <= i < replaced(s, p, r).len() ==> #[trigger] replaced(s, p, r)[i] != c,
    decreases s.len(),
{
    if p.len() == 0 || s.len() < p.len() {
    } else if s.take(p.len() as int) == p {
        let t = s.skip(p.len() as int);
        assert forall|i: int| 0 <= i < t.len() implies #[trigger] t[i] != c by {
            assert(t[i] == s[i + p.len()]);
        }
        lemma_replaced_keeps_out(t, p, r, c);
        let out = replaced(s, p, r);
        assert forall|i: int| 0 <= i < out.len() implies #[trigger] out[i] != c by {
            if i >= r.len() {
                assert(out[i] == replaced(t, p, r)[i - r.len()]);
            }
        }
    } else {
        let t = s.skip(1);
        assert forall|i: int| 0 <= i < t.len() implies #[trigger] t[i] != c by {
            assert(t[i] == s[i + 1]);
        }
        lemma_replaced_keeps_out(t, p, r, c);
        let out = replaced(s, p, r);
        assert forall|i: int| 0 <= i < out.len() implies #[trigger] out[i] != c by {
            if i >= 1 {
                assert(out[i] == replaced(t, p, r)[i - 1]);
            } else {
                assert(out[0] == s[0]);
            }
        }
    }
}

proof fn lemma_tag_for_single_mark(n: Seq<char>, href: Option<Seq<char>>, base: Seq<char>)
    requires
        tag_for(n, href, base) is Some,
    ensures
        single_mark((tag_for(n, href, base)->0).0),
        single_mark((tag_for(n, href, base)->0).1),
{
    reveal_strlit("<a href=\"");
    reveal_strlit("a");
    reveal_strlit("b");
    reveal_strlit("i");
    reveal_strlit("em");
    reveal_strlit("strong");
    reveal_strlit("sup");
    reveal_strlit("sub");
    reveal_strlit("<");
    reveal_strlit("</");
    reveal_strlit(">");
    reveal_strlit("\">");
    reveal_strlit("</a>");
    reveal_strlit("\"");
    reveal_strlit("&quot;");
    let t = tag_for(n, href, base)->0;
    assert(allowed_tag(n));
    assert(forall|m: int| 0 <= m < n.len() ==> #[trigger] n[m] != '<');
    if n == "a"@ {
        let u = resolved(base, href->0)->0;
        law_escaped_text_is_inert(u);
        let e = text_escaped(u);
        assert(forall|i: int| 0 <= i < e.len() ==> #[trigger] e[i] != '<');
        lemma_replaced_keeps_out(e, "\""@, "&quot;"@, '<');
        let q = replaced(e, "\""@, "&quot;"@);
        assert(t.0 == "<a href=\""@ + q + "\">"@);
        assert forall|m: int| 0 < m < t.0.len() implies #[trigger] t.0[m] != '<' by {
            if m >= 9 && m < 9 + q.len() {
                assert(t.0[m] == q[m - 9]);
            }
        }
        assert(t.1 =~= "</a>"@);
    } else {
        assert(t.0 =~= "<"@ + n + ">"@);
        assert(t.1 =~= "</"@ + n + ">"@);
        assert forall|m: int| 0 < m < t.0.len() implies #[trigger] t.0[m] != '<' by {
            if 1 <= m < 1 + n.len() {
                assert(t.0[m] == n[m - 1]);
            }
        }
        assert forall|m: int| 0 < m < t.1.len() implies #[trigger] t.1[m] != '<' by {
            if 2 <= m < 2 + n.len() {
                assert(t.1[m] == n[m - 2]);
            }
        }
    }
}

/// What a flattening keeps of its tags: each opening and closing tag holds `<` only where it
/// begins, and every stack, open now or recorded by a piece, names tags already kept.
pub open spec fn tags_sound(v: BuildView) -> bool {
    &&& forall|i: int| 0 <= i < v.tags.len() ==> single_mark((#[trigger] v.tags[i]).0) && single_mark(v.tags[i].1)
    &&& forall|m: int| 0 <= m < v.stack.len() ==> #[trigger] v.stack[m] < v.tags.len()
    &&& forall|k: int, m: int| 0 <= k < v.pieces.len() && 0 <= m < v.pieces[k].stack.len() ==> #[trigger] v.pieces[k].stack[m] < v.tags.len()
}

proof fn lemma_close_sound(v: BuildView, depth: usize)
    requires
        tags_sound(v),
    ensures
        tags_sound(close_to(v, depth)),
    decreases v.frames.len(),
{
    if v.frames.len() > 0 && v.frames.last().0 >= depth {
        let opened = v.frames.last().1;
        let w = BuildView {
            frames: v.frames.drop_last(),
            stack: if opened && v.stack.len() > 0 {
                v.stack.drop_last()
            } else {
                v.stack
            },
            ..v
        };
        assert forall|m: int| 0 <= m < w.stack.len() implies #[trigger] w.stack[m] < w.tags.len() by {
            assert(w.stack[m] == v.stack[m]);
        }
        lemma_close_sound(w, depth);
    }
}

proof fn lemma_built_sound(items: Seq<(int, NodeView)>, from: int, to: int, base: Seq<char>)
    ensures
        tags_sound(built(items, from, to, base)),
    decreases to - from,
{
    if to > from {
        lemma_built_sound(items, from, to - 1, base);
        let v = built(items, from, to - 1, base);
        let item = items[to - 1];
        let depth = item.0 as usize;
        lemma_close_sound(v, depth);
        let c = close_to(v, depth);
        let c2 = BuildView { skip: None, ..c };
        let after = built(items, from, to, base);
        match c.skip {
            Some(sk) if depth > sk => {},
            _ => {
                match item.1 {
                    NodeView::Text(t) => {
                        assert forall|k: int, m: int| 0 <= k < after.pieces.len() && 0 <= m < after.pieces[k].stack.len()
                            implies #[trigger] after.pieces[k].stack[m] < after.tags.len() by {
                            if k < c2.pieces.len() {
                                assert(after.pieces[k] == c2.pieces[k]);
                            }
                        }
                    },
                    NodeView::Element(name, href, _) => {
                        let n = lower_all(name);
                        if !skipped_tag(n) && n != "br"@ && tag_for(n, href, base) is Some {
                            lemma_tag_for_single_mark(n, href, base);
                            assert forall|i: int| 0 <= i < after.tags.len() implies single_mark(
                                (#[trigger] after.tags[i]).0,
                            ) && single_mark(after.tags[i].1) by {
                                if i < c2.tags.len() {
                                    assert(after.tags[i] == c2.tags[i]);
                                }
                            }
                            assert forall|m: int| 0 <= m < after.stack.len() implies #[trigger] after.stack[m]
                                < after.tags.len() by {
                                if m < c2.stack.len() {
                                    assert(after.stack[m] == c2.stack[m]);
                                }
                            }
                        }
                    },
                    NodeView::Other => {},
                }
            },
        }
    }
}

/// `h` holds `t` from position `k`.
pub open spec fn begins_at(h: Seq<char>, k: int, t: Seq<char>) -> bool {
    0 <= k && k + t.len() <= h.len() && h.subrange(k, k + t.len()) == t
}

/// At `k`, `h` begins a line break or one of the tags, opening or closing.
pub open spec fn tag_starts(h: Seq<char>, k: int, tags: Seq<(Seq<char>, Seq<char>)>) -> bool {
    ||| begins_at(h, k, "<br>"@)
    ||| exists|i: int| 0 <= i < tags.len() && (begins_at(h, k, (#[trigger] tags[i]).0) || begins_at(h, k, tags[i].1))
}

/// Every `<` in `h` begins a line break or one of the tags.
pub open spec fn marks_only(h: Seq<char>, tags: Seq<(Seq<char>, Seq<char>)>) -> bool {
    forall|k: int| 0 <= k < h.len() && #[trigger] h[k] == '<' ==> tag_starts(h, k, tags)
}

proof fn lemma_marks_concat(x: Seq<char>, y: Seq<char>, tags: Seq<(Seq<char>, Seq<char>)>)
    requires
        marks_only(x, tags),
        marks_only(y, tags),
    ensures
        marks_only(x + y, tags),
{
    let h = x + y;
    reveal_strlit("<br>");
    assert forall|k: int| 0 <= k < h.len() && #[trigger] h[k] == '<' implies tag_starts(h, k, tags) by {
        if k < x.len() {
            assert(x[k] == '<');
            assert(tag_starts(x, k, tags));
            if begins_at(x, k, "<br>"@) {
                assert(h.subrange(k, k + 4) =~= x.subrange(k, k + 4));
            } else {
                let i = choose|i: int| 0 <= i < tags.len() && (begins_at(x, k, (#[trigger] tags[i]).0) || begins_at(x, k, tags[i].1));
                let t = if begins_at(x, k, tags[i].0) { tags[i].0 } else { tags[i].1 };
                assert(h.subrange(k, k + t.len()) =~= x.subrange(k, k + t.len()));
                assert(begins_at(h, k, t));
            }
        } else {
            let j = k - x.len();
            assert(y[j] == '<');
            assert(tag_starts(y, j, tags));
            if begins_at(y, j, "<br>"@) {
                assert(h.subrange(k, k + 4) =~= y.subrange(j, j + 4));
            } else {
                let i = choose|i: int| 0 <= i < tags.len() && (begins_at(y, j, (#[trigger] tags[i]).0) || begins_at(y, j, tags[i].1));
                let t = if begins_at(y, j, tags[i].0) { tags[i].0 } else { tags[i].1 };
                assert(h.subrange(k, k + t.len()) =~= y.subrange(j, j + t.len()));
                assert(begins_at(h, k, t));
            }
        }
    }
}

proof fn lemma_marks_free(x: Seq<char>, tags: Seq<(Seq<char>, Seq<char>)>)
    requires
        forall|k: int| 0 <= k < x.len() ==> #[trigger] x[k] != '<',
    ensures
        marks_only(x, tags),
{
}

proof fn lemma_marks_tag(t: Seq<char>, tags: Seq<(Seq<char>, Seq<char>)>, i: int)
    requires
        0 <= i < tags.len(),
        t == tags[i].0 || t == tags[i].1,
        single_mark(t),
    ensures
        marks_only(t, tags),
{
    assert forall|k: int| 0 <= k < t.len() && #[trigger] t[k] == '<' implies tag_starts(t, k, tags) by {
        assert(k == 0);
        assert(t.subrange(0, t.len() as int) =~= t);
        assert(begins_at(t, 0, tags[i].0) || begins_at(t, 0, tags[i].1));
    }
}

proof fn lemma_marks_closes(tags: Seq<(Seq<char>, Seq<char>)>, open: Seq<usize>, from: int)
    requires
        forall|i: int| 0 <= i < tags.len() ==> single_mark((#[trigger] tags[i]).0) && single_mark(tags[i].1),
        forall|m: int| 0 <= m < open.len() ==> #[trigger] open[m] < tags.len(),
    ensures
        marks_only(closes(tags, open, from), tags),
    decreases open.len() - from,
{
    if open.len() <= from || open.len() == 0 {
        lemma_marks_free(closes(tags, open, from), tags);
    } else {
        let i = open.last() as int;
        assert(open[open.len() - 1] < tags.len());
        lemma_marks_tag(tags[i].1, tags, i);
        lemma_marks_closes(tags, open.drop_last(), from);
        lemma_marks_concat(tags[i].1, closes(tags, open.drop_last(), from), tags);
    }
}

proof fn lemma_marks_opens(tags: Seq<(Seq<char>, Seq<char>)>, stack: Seq<usize>, from: int)
    requires
        forall|i: int| 0 <= i < tags.len() ==> single_mark((#[trigger] tags[i]).0) && single_mark(tags[i].1),
        forall|m: int| 0 <= m < stack.len() ==> #[trigger] stack[m] < tags.len(),
    ensures
        marks_only(opens(tags, stack, from), tags),
    decreases stack.len() - from,
{
    if stack.len() <= from || stack.len() == 0 {
        lemma_marks_free(opens(tags, stack, from), tags);
    } else {
        let i = stack.last() as int;
        assert(stack[stack.len() - 1] < tags.len());
        lemma_marks_tag(tags[i].0, tags, i);
        lemma_marks_opens(tags, stack.drop_last(), from);
        lemma_marks_concat(opens(tags, stack.drop_last(), from), tags[i].0, tags);
    }
}

proof fn lemma_marks_sliced(
    text: Seq<char>,
    ps: Seq<PieceView>,
    tags: Seq<(Seq<char>, Seq<char>)>,
    lo: int,
    hi: int,
    k: int,
)
    requires
        forall|i: int| 0 <= i < tags.len() ==> single_mark((#[trigger] tags[i]).0) && single_mark(tags[i].1),
        forall|j: int, m: int| 0 <= j < ps.len() && 0 <= m < ps[j].stack.len() ==> #[trigger] ps[j].stack[m] < tags.len(),
        0 <= k <= ps.len(),
    ensures
        marks_only(sliced_upto(text, ps, tags, lo, hi, k).html, tags),
        forall|m: int| 0 <= m < sliced_upto(text, ps, tags, lo, hi, k).open.len()
            ==> #[trigger] sliced_upto(text, ps, tags, lo, hi, k).open[m] < tags.len(),
    decreases k,
{
    if k <= 0 {
        lemma_marks_free(Seq::empty(), tags);
    } else {
        lemma_marks_sliced(text, ps, tags, lo, hi, k - 1);
        let s = sliced_upto(text, ps, tags, lo, hi, k - 1);
        let p = ps[k - 1];
        let start = max_int(p.start, lo);
        let end = min_int(p.end, hi);
        if start < end {
            reveal_strlit("<br>");
            let c = shared(s.open, p.stack);
            lemma_marks_closes(tags, s.open, c);
            let h1 = s.html + closes(tags, s.open, c);
            lemma_marks_concat(s.html, closes(tags, s.open, c), tags);
            let br: Seq<char> = if p.breaks > 0 { "<br>"@ } else { Seq::empty() };
            assert(marks_only(br, tags)) by {
                if p.breaks > 0 {
                    assert forall|j: int| 0 <= j < br.len() && #[trigger] br[j] == '<' implies tag_starts(br, j, tags) by {
                        assert(j == 0);
                        assert(br.subrange(0, 4) =~= br);
                    }
                }
            }
            lemma_marks_free(seq![' '], tags);
            assert forall|m: int| 0 <= m < p.stack.len() implies #[trigger] p.stack[m] < tags.len() by {
                assert(ps[k - 1].stack[m] < tags.len());
            }
            lemma_marks_opens(tags, p.stack, c);
            let part = text.subrange(start, end);
            law_escaped_text_is_inert(part);
            lemma_marks_free(text_escaped(part), tags);
            let h2 = match s.prev {
                Some(prev) => {
                    let hb = h1 + br;
                    lemma_marks_concat(h1, br, tags);
                    if prev < start {
                        lemma_marks_concat(hb, seq![' '], tags);
                        hb + seq![' ']
                    } else {
                        hb
                    }
                },
                None => h1,
            };
            lemma_marks_concat(h2, opens(tags, p.stack, c), tags);
            lemma_marks_concat(h2 + opens(tags, p.stack, c), text_escaped(part), tags);
            assert(sliced_upto(text, ps, tags, lo, hi, k).html == h2 + opens(tags, p.stack, c) + text_escaped(part));
        }
    }
}

/// A slice of a flattening opens no markup of its own: every `<` in its HTML begins a line break
/// or one of the flattening's tags, and those are all kept inline tags.
pub proof fn law_slice_opens_only_kept_tags(
    items: Seq<(int, NodeView)>,
    from: int,
    to: int,
    base: Seq<char>,
    lo: int,
    hi: int,
)
    ensures
        marks_only(
            sliced(
                flattened(items, from, to, base).0,
                flattened(items, from, to, base).1,
                flattened(items, from, to, base).2,
                lo,
                hi,
            ).0,
            flattened(items, from, to, base).2,
        ),
        forall|k: int| 0 <= k < flattened(items, from, to, base).2.len() ==> kept_pair(
            #[trigger] flattened(items, from, to, base).2[k],
        ),
{
    let (text, ps, tags) = flattened(items, from, to, base);
    lemma_built_sound(items, from, to, base);
    law_only_inline_tags_survive(items, from, to, base);
    let (a, b) = trimmed_range(text, lo, hi);
    lemma_marks_sliced(text, ps, tags, a, b, ps.len() as int);
    let sv = sliced_upto(text, ps, tags, a, b, ps.len() as int);
    lemma_marks_closes(tags, sv.open, 0);
    lemma_marks_concat(sv.html, closes(tags, sv.open, 0), tags);
}

/// A character `escape` rewrites.
pub open spec fn markup_char(c: char) -> bool {
    c == '&' || c == '<' || c == '>' || c == '\'' || c == '"'
}

/// Text with nothing HTML gives a meaning to comes out of `escape` as it went in.
pub proof fn law_plain_text_escapes_to_itself(s: Seq<char>)
    requires
        forall|i: int| 0 <= i < s.len() ==> !markup_char(#[trigger] s[i]),
    ensures
        escaped(s) == s,
        text_escaped(s) == s,
    decreases s.len(),
{
    if s.len() > 0 {
        assert forall|i: int| 0 <= i < s.drop_last().len() implies !markup_char(#[trigger] s.drop_last()[i]) by {
            assert(s.drop_last()[i] == s[i]);
        }
        law_plain_text_escapes_to_itself(s.drop_last());
        assert(!markup_char(s[s.len() - 1]));
        assert(escaped(s) =~= s.drop_last().push(s.last()));
        assert(text_escaped(s) =~= s.drop_last().push(s.last()));
        assert(s.drop_last().push(s.last()) =~= s);
    }
}

proof fn lemma_first_occurrence_from(s: Seq<char>, p: Seq<char>, from: int)
    requires
        0 <= from <= s.len(),
    ensures
        ({
            let r = first_occurrence_from(s, p, from);
            &&& r == -1 || (from <= r <= s.len() && occurs_at(s, p, r))
            &&& forall|j: int| from <= j <= s.len() && (r == -1 || j < r) ==> !occurs_at(s, p, j)
        }),
    decreases s.len() + 1 - from,
{
    if !occurs_at(s, p, from) {
        if from < s.len() {
            lemma_first_occurrence_from(s, p, from + 1);
        } else {
            assert(first_occurrence_from(s, p, from + 1) == -1);
        }
        assert(first_occurrence_from(s, p, from) == first_occurrence_from(s, p, from + 1));
    }
}

proof fn lemma_earliest(hay: Seq<char>, needles: Seq<Seq<char>>)
    ensures
        match earliest(hay, needles) {
            Some(h) => {
                &&& 0 <= h <= hay.len()
                &&& exists|k: int| 0 <= k < needles.len() && occurs_at(hay, needles[k], h)
                &&& forall|k: int, j: int| 0 <= k < needles.len() && 0 <= j < h ==> !#[trigger] occurs_at(hay, needles[k], j)
            },
            None => forall|k: int, j: int| 0 <= k < needles.len() && 0 <= j <= hay.len() ==> !#[trigger] occurs_at(hay, needles[k], j),
        },
    decreases needles.len(),
{
    if needles.len() > 0 {
        let rest = needles.drop_last();
        lemma_earliest(hay, rest);
        lemma_first_occurrence_from(hay, needles.last(), 0);
        let i = first_occurrence(hay, needles.last());
        assert forall|k: int| 0 <= k < rest.len() implies rest[k] == needles[k] by {}
        match earliest(hay, rest) {
            Some(r) => {
                let k0 = choose|k: int| 0 <= k < rest.len() && occurs_at(hay, rest[k], r);
                assert(needles[k0] == rest[k0]);
            },
            None => {},
        }
        assert(needles[needles.len() - 1] == needles.last());
    }
}

/// Where `stop` stops: with no needles at the end of the text; otherwise at the first place at
/// or after `from` where a needle begins in the text taken in lower case (positions below
/// counted from `from`), so that no needle begins before that place, and one begins there
/// unless it is the end.
pub proof fn law_stop_is_the_first_needle(text: Seq<char>, from: int, needles: Seq<Seq<char>>)
    requires
        0 <= from <= text.len(),
    ensures
        ({
            let s = stop_point(text, from, needles);
            let hay = lower_all(text.skip(from));
            &&& needles.len() == 0 ==> s == text.len()
            &&& from <= s <= text.len()
            &&& forall|k: int, j: int| 0 <= k < needles.len() && 0 <= j < s - from ==> !#[trigger] occurs_at(hay, needles[k], j)
            &&& s < text.len() ==> exists|k: int| 0 <= k < needles.len() && occurs_at(hay, needles[k], s - from)
        }),
{
    let hay = lower_all(text.skip(from));
    lemma_earliest(hay, needles);
    assert(hay.len() == text.len() - from);
}

/// Each character of `s` written out as `f` writes it, first to last.
pub open spec fn spelled(s: Seq<char>, f: spec_fn(char) -> Seq<char>) -> Seq<char>
    decreases s.len(),
{
    if s.len() == 0 {
        Seq::empty()
    } else {
        f(s[0]) + spelled(s.skip(1), f)
    }
}

proof fn lemma_spelled_last(s: Seq<char>, f: spec_fn(char) -> Seq<char>)
    requires
        s.len() > 0,
    ensures
        spelled(s, f) == spelled(s.drop_last(), f) + f(s.last()),
    decreases s.len(),
{
    if s.len() == 1 {
        assert(s.skip(1) =~= Seq::<char>::empty());
        assert(s.drop_last() =~= Seq::<char>::empty());
        assert(spelled(s.skip(1), f) =~= Seq::<char>::empty());
        assert(spelled(s.drop_last(), f) =~= Seq::<char>::empty());
        assert(spelled(s, f) =~= f(s[0]));
        assert(spelled(s.drop_last(), f) + f(s.last()) =~= f(s.last()));
    } else {
        let t = s.skip(1);
        lemma_spelled_last(t, f);
        assert(t.drop_last() =~= s.drop_last().skip(1));
        assert(t.last() == s.last());
        assert(s.drop_last()[0] == s[0]);
        assert(spelled(s, f) =~= f(s[0]) + (spelled(t.drop_last(), f) + f(t.last())));
        assert(spelled(s.drop_last(), f) =~= f(s[0]) + spelled(s.drop_last().skip(1), f));
    }
}

/// No occurrence of `p`, an entity, can begin inside `u`: `u` holds an ampersand only as its
/// first character, and then differs from `p` at the next one.
pub open spec fn entity_clean(u: Seq<char>, p: Seq<char>) -> bool {
    forall|j: int| 0 <= j < u.len() && #[trigger] u[j] == '&' ==> j == 0 && u.len() >= 2 && u[1] != p[1]
}

proof fn lemma_replaced_past(u: Seq<char>, x: Seq<char>, p: Seq<char>, r: Seq<char>)
    requires
        p.len() >= 2,
        p[0] == '&',
        entity_clean(u, p),
    ensures
        replaced(u + x, p, r) == u + replaced(x, p, r),
    decreases u.len(),
{
    let s = u + x;
    if u.len() == 0 {
        assert(s =~= x);
        assert(u + replaced(x, p, r) =~= replaced(x, p, r));
    } else if s.len() < p.len() {
        assert(replaced(x, p, r) == x);
    } else {
        if u[0] == '&' {
            assert(s.take(p.len() as int)[1] == u[1]);
        } else {
            assert(s.take(p.len() as int)[0] == u[0]);
        }
        assert(s.take(p.len() as int) != p);
        let v = u.skip(1);
        assert forall|j: int| 0 <= j < v.len() && #[trigger] v[j] == '&' implies j == 0 && v.len() >= 2 && v[1] != p[1] by {
            assert(u[j + 1] == v[j]);
        }
        lemma_replaced_past(v, x, p, r);
        assert(s.skip(1) =~= v + x);
        assert(seq![s[0]] + (v + replaced(x, p, r)) =~= u + replaced(x, p, r));
    }
}

proof fn lemma_replace_spelled(
    s: Seq<char>,
    f: spec_fn(char) -> Seq<char>,
    g: spec_fn(char) -> Seq<char>,
    p: Seq<char>,
    r: Seq<char>,
)
    requires
        p.len() >= 2,
        p[0] == '&',
        forall|c: char|
            (#[trigger] f(c) == p && g(c) == r) || (f(c) != p && entity_clean(f(c), p) && g(c) == f(c)),
    ensures
        replaced(spelled(s, f), p, r) == spelled(s, g),
    decreases s.len(),
{
    if s.len() == 0 {
        assert(replaced(Seq::<char>::empty(), p, r) == Seq::<char>::empty());
    } else {
        let c = s[0];
        let rest = spelled(s.skip(1), f);
        lemma_replace_spelled(s.skip(1), f, g, p, r);
        if f(c) == p {
            let w = f(c) + rest;
            assert(w.take(p.len() as int) =~= p);
            assert(w.skip(p.len() as int) =~= rest);
        } else {
            lemma_replaced_past(f(c), rest, p, r);
        }
    }
}

spec fn entity_of(k: int) -> Seq<char> {
    if k == 1 {
        seq!['&', 'l', 't', ';']
    } else if k == 2 {
        seq!['&', 'g', 't', ';']
    } else if k == 3 {
        seq!['&', 'q', 'u', 'o', 't', ';']
    } else if k == 4 {
        seq!['&', '#', '3', '9', ';']
    } else {
        seq!['&', 'a', 'm', 'p', ';']
    }
}

spec fn entity_char(k: int) -> char {
    if k == 1 {
        '<'
    } else if k == 2 {
        '>'
    } else if k == 3 {
        '"'
    } else if k == 4 {
        '\''
    } else {
        '&'
    }
}

/// How a character reads once escaped and then with the first `k` of the five entities read
/// back, in the order `&lt;`, `&gt;`, `&quot;`, `&#39;`, `&amp;`.
spec fn unescaped_stage(c: char, k: int) -> Seq<char> {
    if c == '&' {
        if k >= 5 { seq![c] } else { entity_of(5) }
    } else if c == '<' {
        if k >= 1 { seq![c] } else { entity_of(1) }
    } else if c == '>' {
        if k >= 2 { seq![c] } else { entity_of(2) }
    } else if c == '"' {
        if k >= 3 { seq![c] } else { entity_of(3) }
    } else if c == '\'' {
        if k >= 4 { seq![c] } else { entity_of(4) }
    } else {
        seq![c]
    }
}

proof fn lemma_stage_step(k: int)
    requires
        1 <= k <= 5,
    ensures
        forall|c: char|
            (#[trigger] unescaped_stage(c, k - 1) == entity_of(k) && unescaped_stage(c, k) == seq![entity_char(k)])
            || (unescaped_stage(c, k - 1) != entity_of(k) && entity_clean(unescaped_stage(c, k - 1), entity_of(k))
            && unescaped_stage(c, k) == unescaped_stage(c, k - 1)),
{
    let p = entity_of(k);
    assert forall|c: char|
        (#[trigger] unescaped_stage(c, k - 1) == p && unescaped_stage(c, k) == seq![entity_char(k)])
        || (unescaped_stage(c, k - 1) != p && entity_clean(unescaped_stage(c, k - 1), p)
        && unescaped_stage(c, k) == unescaped_stage(c, k - 1)) by {
        let u = unescaped_stage(c, k - 1);
        if c == entity_char(k) {
            assert(u =~= p);
        } else {
            if u.len() == 1 {
                assert(u[0] == c);
                assert(u[0] != p[0]);
            } else {
                assert(u[0] == '&');
                assert(u[1] != p[1]);
            }
            assert(u != p);
            assert forall|j: int| 0 <= j < u.len() && #[trigger] u[j] == '&' implies j == 0 && u.len() >= 2 && u[1] != p[1] by {
            }
        }
    }
}

proof fn lemma_escaped_spelled(s: Seq<char>)
    ensures
        escaped(s) == spelled(s, |c: char| unescaped_stage(c, 0)),
    decreases s.len(),
{
    if s.len() > 0 {
        lemma_escaped_spelled(s.drop_last());
        lemma_spelled_last(s, |c: char| unescaped_stage(c, 0));
        reveal_strlit("&amp;");
        reveal_strlit("&lt;");
        reveal_strlit("&gt;");
        reveal_strlit("&#39;");
        reveal_strlit("&quot;");
        let c = s.last();
        assert(escaped_char(c) =~= unescaped_stage(c, 0));
    } else {
        assert(escaped(s) =~= spelled(s, |c: char| unescaped_stage(c, 0)));
    }
}

proof fn lemma_spelled_plain(s: Seq<char>)
    ensures
        spelled(s, |c: char| unescaped_stage(c, 5)) == s,
    decreases s.len(),
{
    if s.len() > 0 {
        lemma_spelled_plain(s.skip(1));
        assert(unescaped_stage(s[0], 5) =~= seq![s[0]]);
        assert(seq![s[0]] + s.skip(1) =~= s);
    } else {
        assert(spelled(s, |c: char| unescaped_stage(c, 5)) =~= s);
    }
}

proof fn lemma_read_back_step(s: Seq<char>, k: int)
    requires
        1 <= k <= 5,
    ensures
        replaced(spelled(s, |c: char| unescaped_stage(c, k - 1)), entity_of(k), seq![entity_char(k)])
            == spelled(s, |c: char| unescaped_stage(c, k)),
{
    lemma_stage_step(k);
    lemma_replace_spelled(
        s,
        |c: char| unescaped_stage(c, k - 1),
        |c: char| unescaped_stage(c, k),
        entity_of(k),
        seq![entity_char(k)],
    );
}

/// Escaping can be undone: reading the entities back, `&lt;`, `&gt;`, `&quot;` and `&#39;`
/// first and `&amp;` last, gives back the text that was escaped.
pub proof fn law_escape_reads_back(s: Seq<char>)
    ensures
        replaced(
            replaced(
                replaced(replaced(replaced(escaped(s), "&lt;"@, "<"@), "&gt;"@, ">"@), "&quot;"@, "\""@),
                "&#39;"@,
                "'"@,
            ),
            "&amp;"@,
            "&"@,
        ) == s,
{
    reveal_strlit("&lt;");
    reveal_strlit("<");
    reveal_strlit("&gt;");
    reveal_strlit(">");
    reveal_strlit("&quot;");
    reveal_strlit("\"");
    reveal_strlit("&#39;");
    reveal_strlit("'");
    reveal_strlit("&amp;");
    reveal_strlit("&");
    assert("&lt;"@ =~= entity_of(1));
    assert("<"@ =~= seq![entity_char(1)]);
    assert("&gt;"@ =~= entity_of(2));
    assert(">"@ =~= seq![entity_char(2)]);
    assert("&quot;"@ =~= entity_of(3));
    assert("\""@ =~= seq![entity_char(3)]);
    assert("&#39;"@ =~= entity_of(4));
    assert("'"@ =~= seq![entity_char(4)]);
    assert("&amp;"@ =~= entity_of(5));
    assert("&"@ =~= seq![entity_char(5)]);
    lemma_escaped_spelled(s);
    lemma_read_back_step(s, 1);
    lemma_read_back_step(s, 2);
    lemma_read_back_step(s, 3);
    lemma_read_back_step(s, 4);
    lemma_read_back_step(s, 5);
    lemma_spelled_plain(s);
}

} // verus!
