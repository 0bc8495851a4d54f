//! An entry's explanation: the prose after its `Explanation:` label, up to what follows it.
use vstd::prelude::*;
use crate::html::{
    DomItem, Fragment, NodeView, Options, end_of, items_view, fragment_view, sanitize, sanitized_of,
    str_views, subtree_end,
};
use crate::parse::{containers, containers_of};
use crate::pattern::{find_first, first_at, is_match, matches_somewhere};
use crate::text::{chars_of, slice_chars, string_of, trim};

verus! {

/// The label the prose follows.
pub open spec fn marker_pattern() -> Seq<char> {
    "(?i)\\bexplanation\\s*:\\s*"@
}

fn marker_pattern_text() -> (p: &'static str)
    ensures
        p@ == marker_pattern(),
{
    "(?i)\\bexplanation\\s*:\\s*"
}

/// What the prose stops before.
pub open spec fn stops() -> Seq<Seq<char>> {
    seq![
        "tomorrow's picture"@, "tomorrow\u{2019}s picture"@, "authors & editors"@, "author:"@,
        "authors:"@, "we keep an archive file"@, "nasa official:"@, "a service of:"@, "< archive"@,
    ]
}

fn stop_list() -> (v: Vec<&'static str>)
    ensures
        str_views(v@) == stops(),
{
    let v = vec![
        "tomorrow's picture", "tomorrow\u{2019}s picture", "authors & editors", "author:",
        "authors:", "we keep an archive file", "nasa official:", "a service of:", "< archive",
    ];
    assert(str_views(v@) =~= stops());
    v
}

/// How many line breaks in a row end the prose on a migrated record: a paragraph break.
pub const PARAGRAPH: usize = 2;

/// A text without the `Explanation:` label it starts with, if it starts with one.
pub open spec fn without_label(text: Seq<char>) -> Seq<char> {
    match first_at(text, marker_pattern()) {
        Some((a, b)) => if a == 0 {
            text.skip(b)
        } else {
            text
        },
        None => text,
    }
}

/// A text without the `Explanation:` label it starts with.
pub fn strip_label(text: &str) -> (out: String)
    ensures
        out@ == without_label(text@),
{
    let v = chars_of(text);
    match find_first(marker_pattern_text(), text) {
        Some((a, b)) => {
            if a == 0 {
                let rest = slice_chars(&v, b, v.len());
                assert(v@.subrange(b as int, v@.len() as int) =~= v@.skip(b as int));
                string_of(&rest)
            } else {
                string_of(&v)
            }
        },
        None => string_of(&v),
    }
}

/// Whether a fragment holds something besides whitespace.
pub open spec fn nonempty(f: Option<(Seq<char>, Seq<char>)>) -> Option<(Seq<char>, Seq<char>)> {
    match f {
        Some(fr) => if trim(fr.1).len() == 0 {
            None
        } else {
            Some(fr)
        },
        None => None,
    }
}

/// The prose inside the element at `i`, read from after its label, or from its start where it
/// has none, up to a stop phrase or a paragraph break.
pub open spec fn prose_in(items: Seq<(int, NodeView)>, i: int, base: Seq<char>) -> Option<(Seq<char>, Seq<char>)> {
    let to = subtree_end(items, i, i + 1);
    let labelled = nonempty(sanitized_of(items, i + 1, to, base, Some(marker_pattern()), stops(), Some(PARAGRAPH)));
    match labelled {
        Some(f) => Some(f),
        None => nonempty(sanitized_of(items, i + 1, to, base, None, stops(), Some(PARAGRAPH))),
    }
}

fn read(items: &Vec<DomItem>, from: usize, to: usize, base: &str, opts: &Options) -> (r: Option<Fragment>)
    requires
        from <= to <= items@.len(),
    ensures
        fragment_view(r) == nonempty(
            sanitized_of(
                items_view(items@),
                from as int,
                to as int,
                base@,
                crate::html::pattern_view(opts.start_after),
                str_views(opts.stop_at@),
                opts.stop_after_breaks,
            ),
        ),
{
    match sanitize(items, from, to, base, opts) {
        Some(f) => if f.is_empty() {
            None
        } else {
            Some(f)
        },
        None => None,
    }
}

/// Reads the prose inside an element the caller already found.
pub fn from_element(items: &Vec<DomItem>, i: usize, base: &str) -> (r: Option<Fragment>)
    requires
        i < items@.len(),
    ensures
        fragment_view(r) == prose_in(items_view(items@), i as int, base@),
{
    let e = end_of(items, i);
    let stop_at = stop_list();
    let labelled = Options {
        start_after: Some(marker_pattern_text()),
        stop_at: stop_at.as_slice(),
        stop_after_breaks: Some(PARAGRAPH),
    };
    match read(items, i + 1, e, base, &labelled) {
        Some(f) => Some(f),
        None => {
            let whole = Options { start_after: None, stop_at: stop_at.as_slice(), stop_after_breaks: Some(PARAGRAPH) };
            read(items, i + 1, e, base, &whole)
        },
    }
}

pub open spec fn marker_test() -> spec_fn(Seq<char>) -> bool {
    |t: Seq<char>| matches_somewhere(marker_pattern(), t)
}

fn holds_marker(t: &str) -> (b: bool)
    ensures
        b == matches_somewhere(marker_pattern(), t@),
{
    is_match(marker_pattern_text(), t)
}

/// The prose of the first of `cs`, from the `k`th on, that holds any after its label.
pub open spec fn first_prose(items: Seq<(int, NodeView)>, cs: Seq<int>, base: Seq<char>, k: int) -> Option<(Seq<char>, Seq<char>)>
    decreases cs.len() - k,
{
    if k < 0 || k >= cs.len() {
        None
    } else {
        let i = cs[k];
        match nonempty(
            sanitized_of(items, i + 1, subtree_end(items, i, i + 1), base, Some(marker_pattern()), stops(), None),
        ) {
            Some(f) => Some(f),
            None => first_prose(items, cs, base, k + 1),
        }
    }
}

/// A page's explanation: in the tightest container holding the label that has prose after it.
pub open spec fn explanation_of(items: Seq<(int, NodeView)>, base: Seq<char>) -> Option<(Seq<char>, Seq<char>)> {
    first_prose(items, containers_of(items, marker_test()), base, 0)
}

/// A page's explanation.
pub fn parse(items: &Vec<DomItem>, base: &str) -> (r: Option<Fragment>)
    ensures
        fragment_view(r) == explanation_of(items_view(items@), base@),
{
    let ghost iv = items_view(items@);
    let cs = containers(items, holds_marker, Ghost(marker_test()));
    let ghost cv = cs@.map_values(|i: usize| i as int);
    let stop_at = stop_list();
    let opts = Options {
        start_after: Some(marker_pattern_text()),
        stop_at: stop_at.as_slice(),
        stop_after_breaks: None,
    };
    let mut k: usize = 0;
    while k < cs.len()
        invariant
            k <= cs@.len(),
            iv == items_view(items@),
            cv == cs@.map_values(|i: usize| i as int),
            cv == containers_of(iv, marker_test()),
            forall|m: int| 0 <= m < cs@.len() ==> #[trigger] cs@[m] < items@.len(),
            opts.start_after matches Some(p) && p@ == marker_pattern(),
            str_views(opts.stop_at@) == stops(),
            opts.stop_after_breaks is None,
            first_prose(iv, cv, base@, 0) == first_prose(iv, cv, base@, k as int),
        decreases cs.len() - k,
    {
        let i = cs[k];
        assert(cv[k as int] == i);
        let e = end_of(items, i);
        match read(items, i + 1, e, base, &opts) {
            Some(f) => return Some(f),
            None => {},
        }
        k = k + 1;
    }
    None
}

} // verus!
