//! What a page says besides its entry: its keywords and the teaser for the next day.
use vstd::prelude::*;
use crate::html::{DomItem, NodeView, collapse, collapsed, items_view, stop_in, stop_point, str_views};
use crate::parse::dom::{attr, attr_at, find_named, index_views, named_between, text_below};
use crate::parse::{container_of, find_container, inner_text};
use crate::pattern::{find_first, first_at, is_match, matches_somewhere};
use crate::text::{chars_eq, chars_of, lower_all, lower_chars, slice_chars, split_on, string_of};

verus! {

/// The label of the next day's teaser.
pub open spec fn tomorrow_pattern() -> Seq<char> {
    "(?i)\\btomorrow['\u{2019}]s\\s+picture\\s*:\\s*"@
}

fn tomorrow_pattern_text() -> (p: &'static str)
    ensures
        p@ == tomorrow_pattern(),
{
    "(?i)\\btomorrow['\u{2019}]s\\s+picture\\s*:\\s*"
}

/// What a teaser stops before: the page's footer, or the pipes of the oldest pages' navigation,
/// which a picture's name never holds.
pub open spec fn teaser_stops() -> Seq<Seq<char>> {
    seq![
        "authors & editors"@, "author:"@, "nasa official:"@, "a service of:"@,
        "we keep an archive file"@, "<"@, "|"@,
    ]
}

fn teaser_stop_list() -> (v: Vec<&'static str>)
    ensures
        str_views(v@) == teaser_stops(),
{
    let v = vec![
        "authors & editors", "author:", "nasa official:", "a service of:",
        "we keep an archive file", "<", "|",
    ];
    assert(str_views(v@) =~= teaser_stops());
    v
}

/// A teaser longer than this, in characters, is not one.
pub const TEASER_MAX_CHARS: usize = 120;

/// Whether node `j` is a `meta` element whose name is `keywords`, in any case.
pub open spec fn keywords_meta(items: Seq<(int, NodeView)>, j: int) -> bool {
    attr_at(items, j, "name"@) matches Some(n) && lower_all(n) == "keywords"@
}

/// `out` with `kw` added, unless it is empty or already there in another case.
pub open spec fn add_keyword(out: Seq<Seq<char>>, kw: Seq<char>) -> Seq<Seq<char>> {
    if kw.len() == 0 || exists|k: int| 0 <= k < out.len() && lower_all(#[trigger] out[k]) == lower_all(kw) {
        out
    } else {
        out.push(kw)
    }
}

/// `out` with the first `k` of `pieces`, whitespace collapsed, added.
pub open spec fn add_pieces(out: Seq<Seq<char>>, pieces: Seq<Seq<char>>, k: int) -> Seq<Seq<char>>
    decreases k,
{
    if k <= 0 {
        out
    } else {
        add_keyword(add_pieces(out, pieces, k - 1), collapsed(pieces[k - 1]))
    }
}

/// `out` with the keywords of the first `k` of `metas` added.
pub open spec fn add_metas(items: Seq<(int, NodeView)>, out: Seq<Seq<char>>, metas: Seq<int>, k: int) -> Seq<Seq<char>>
    decreases k,
{
    if k <= 0 {
        out
    } else {
        let prev = add_metas(items, out, metas, k - 1);
        let j = metas[k - 1];
        if keywords_meta(items, j) {
            match attr_at(items, j, "content"@) {
                Some(c) => add_pieces(prev, split_on(c, ','), split_on(c, ',').len() as int),
                None => prev,
            }
        } else {
            prev
        }
    }
}

/// A page's keywords: every comma-separated keyword of its keywords `meta` elements, in order,
/// each once whatever its case.
pub open spec fn keywords_of(items: Seq<(int, NodeView)>) -> Seq<Seq<char>> {
    let metas = named_between(items, "meta"@, 0, items.len() as int);
    add_metas(items, Seq::empty(), metas, metas.len() as int)
}

pub open spec fn strings_view(v: Seq<String>) -> Seq<Seq<char>> {
    v.map_values(|s: String| s@)
}

fn add_one(out: &mut Vec<String>, kw: String)
    ensures
        strings_view(final(out)@) == add_keyword(strings_view(old(out)@), kw@),
{
    let ghost before = strings_view(out@);
    let low = lower_chars(&chars_of(kw.as_str()));
    if chars_of(kw.as_str()).len() == 0 {
        return;
    }
    let mut k: usize = 0;
    while k < out.len()
        invariant
            k <= out@.len(),
            out@ == old(out)@,
            before == strings_view(out@),
            low@ == lower_all(kw@),
            forall|m: int| 0 <= m < k ==> lower_all(#[trigger] before[m]) != lower_all(kw@),
        decreases out.len() - k,
    {
        if chars_eq(&lower_chars(&chars_of(out[k].as_str())), &low) {
            assert(lower_all(before[k as int]) == lower_all(kw@));
            return;
        }
        k = k + 1;
    }
    out.push(kw);
    assert(strings_view(out@) =~= before.push(kw@));
}

proof fn lemma_add_pieces_prefix(out: Seq<Seq<char>>, a: Seq<Seq<char>>, b: Seq<Seq<char>>, k: int)
    requires
        0 <= k <= a.len(),
        k <= b.len(),
        forall|m: int| 0 <= m < k ==> a[m] == b[m],
    ensures
        add_pieces(out, a, k) == add_pieces(out, b, k),
    decreases k,
{
    if k > 0 {
        lemma_add_pieces_prefix(out, a, b, k - 1);
    }
}

/// Adds the comma-separated keywords of `content`.
fn add_content(out: &mut Vec<String>, content: &str)
    ensures
        strings_view(final(out)@) == add_pieces(
            strings_view(old(out)@),
            split_on(content@, ','),
            split_on(content@, ',').len() as int,
        ),
{
    let v = chars_of(content);
    let ghost start = strings_view(out@);
    let mut piece: Vec<char> = Vec::new();
    let mut i: usize = 0;
    assert(v@.take(0) =~= Seq::<char>::empty());
    while i < v.len()
        invariant
            i <= v@.len(),
            v@ == content@,
            split_on(v@.take(i as int), ',').len() >= 1,
            split_on(v@.take(i as int), ',').last() == piece@,
            strings_view(out@) == add_pieces(
                start,
                split_on(v@.take(i as int), ','),
                split_on(v@.take(i as int), ',').len() - 1,
            ),
        decreases v.len() - i,
    {
        let ghost prev = split_on(v@.take(i as int), ',');
        assert(v@.take(i + 1).drop_last() =~= v@.take(i as int));
        let ghost next = split_on(v@.take(i + 1), ',');
        if v[i] == ',' {
            let word = collapse(string_of(&piece).as_str());
            add_one(out, word);
            piece = Vec::new();
            proof {
                assert(next == prev.push(Seq::empty()));
                lemma_add_pieces_prefix(start, prev, next, prev.len() - 1);
            }
        } else {
            piece.push(v[i]);
            proof {
                lemma_add_pieces_prefix(start, prev, next, prev.len() - 1);
            }
        }
        i = i + 1;
    }
    assert(v@.take(i as int) =~= content@);
    let word = collapse(string_of(&piece).as_str());
    add_one(out, word);
}

/// A page's keywords.
pub fn keywords(items: &Vec<DomItem>) -> (out: Vec<String>)
    ensures
        strings_view(out@) == keywords_of(items_view(items@)),
{
    let ghost iv = items_view(items@);
    let metas = find_named(items, "meta", 0, items.len());
    let ghost mv = index_views(metas@);
    let mut out: Vec<String> = Vec::new();
    assert(strings_view(out@) =~= Seq::<Seq<char>>::empty());
    let mut k: usize = 0;
    while k < metas.len()
        invariant
            k <= metas@.len(),
            iv == items_view(items@),
            mv == index_views(metas@),
            mv == named_between(iv, "meta"@, 0, items@.len() as int),
            forall|m: int| 0 <= m < metas@.len() ==> #[trigger] metas@[m] < items@.len(),
            strings_view(out@) == add_metas(iv, Seq::empty(), mv, k as int),
        decreases metas.len() - k,
    {
        let j = metas[k];
        assert(iv[j as int] == (items@[j as int].depth as int, crate::html::node_view(items@[j as int].kind)));
        let named_keywords = match attr(&items[j].kind, "name") {
            Some(n) => crate::text::is_text(&lower_chars(&chars_of(n.as_str())), "keywords"),
            None => false,
        };
        if named_keywords {
            match attr(&items[j].kind, "content") {
                Some(c) => add_content(&mut out, c.as_str()),
                None => {},
            }
        }
        k = k + 1;
    }
    out
}

pub open spec fn tomorrow_test() -> spec_fn(Seq<char>) -> bool {
    |t: Seq<char>| matches_somewhere(tomorrow_pattern(), t)
}

fn holds_teaser(t: &str) -> (b: bool)
    ensures
        b == matches_somewhere(tomorrow_pattern(), t@),
{
    is_match(tomorrow_pattern_text(), t)
}

/// The next day's teaser in a text: what follows its label, up to the footer or a pipe, with its
/// whitespace collapsed, if that is a name of a plausible length.
pub open spec fn teaser_in(text: Seq<char>) -> Option<Seq<char>> {
    match first_at(text, tomorrow_pattern()) {
        None => None,
        Some((_, b)) => {
            let teaser = collapsed(text.subrange(b, stop_point(text, b, teaser_stops())));
            if teaser.len() > 0 && teaser.len() <= TEASER_MAX_CHARS {
                Some(teaser)
            } else {
                None
            }
        },
    }
}

/// The next day's teaser, read from the tightest container that holds its label.
pub open spec fn teaser_of(items: Seq<(int, NodeView)>) -> Option<Seq<char>> {
    match container_of(items, tomorrow_test()) {
        None => None,
        Some(i) => teaser_in(inner_text(items, i)),
    }
}

/// The next day's teaser.
pub fn tomorrow_teaser(items: &Vec<DomItem>) -> (r: Option<String>)
    ensures
        match r {
            Some(t) => teaser_of(items_view(items@)) == Some(t@),
            None => teaser_of(items_view(items@)) is None,
        },
{
    let i = match find_container(items, holds_teaser, Ghost(tomorrow_test())) {
        Some(i) => i,
        None => return None,
    };
    let text = text_below(items, i);
    let v = chars_of(text.as_str());
    let (_, b) = match find_first(tomorrow_pattern_text(), text.as_str()) {
        Some(found) => found,
        None => return None,
    };
    let stops = teaser_stop_list();
    let end = stop_in(&v, b, stops.as_slice());
    let teaser = collapse(string_of(&slice_chars(&v, b, end)).as_str());
    let n = chars_of(teaser.as_str()).len();
    if n > 0 && n <= TEASER_MAX_CHARS {
        Some(teaser)
    } else {
        None
    }
}

} // verus!
