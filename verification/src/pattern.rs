//! Regular expressions, through the regex crate.
use vstd::prelude::*;
use crate::text::{chars_of, push_range, push_str, slice_chars, string_of};

verus! {

/// A group's span: where it starts and ends, in characters of the text searched.
pub type Span = (usize, usize);

/// What the regex crate finds for `pattern` in `text`: each successive non-overlapping match,
/// left to right, as the spans of its groups (group 0 the whole match, a group that took no part
/// absent), in character positions. Nothing when the pattern does not compile.
pub uninterp spec fn captures_of(pattern: Seq<char>, text: Seq<char>) -> Seq<Seq<Option<(int, int)>>>;

pub open spec fn span_view(s: Option<Span>) -> Option<(int, int)> {
    match s {
        Some((a, b)) => Some((a as int, b as int)),
        None => None,
    }
}

/// The groups of one match lie within a text of `len` characters.
pub open spec fn groups_in(groups: Seq<Option<(int, int)>>, len: int) -> bool {
    forall|g: int|
        0 <= g < groups.len() && (#[trigger] groups[g]) is Some ==> 0 <= span_start(groups[g])
            <= span_end(groups[g]) <= len
}

/// One match's groups as spans of integers.
pub open spec fn spans_view(v: Seq<Option<Span>>) -> Seq<Option<(int, int)>> {
    v.map_values(|g: Option<Span>| span_view(g))
}

pub open spec fn captures_view(c: Seq<Vec<Option<Span>>>) -> Seq<Seq<Option<(int, int)>>> {
    c.map_values(|groups: Vec<Option<Span>>| groups@.map_values(|g: Option<Span>| span_view(g)))
}

pub open spec fn span_start(s: Option<(int, int)>) -> int {
    match s {
        Some(p) => p.0,
        None => 0,
    }
}

pub open spec fn span_end(s: Option<(int, int)>) -> int {
    match s {
        Some(p) => p.1,
        None => 0,
    }
}

/// Every match has its whole span; spans lie within the text, each ends no earlier than it
/// starts; and the matches come in order, none overlapping the next.
pub open spec fn well_placed(caps: Seq<Seq<Option<(int, int)>>>, len: nat) -> bool {
    &&& forall|k: int| 0 <= k < caps.len() ==> #[trigger] caps[k].len() >= 1 && caps[k][0] is Some
    &&& forall|k: int, g: int|
        0 <= k < caps.len() && 0 <= g < caps[k].len() && #[trigger] caps[k][g] is Some ==> 0
            <= span_start(caps[k][g]) <= span_end(caps[k][g]) <= len
    &&& forall|k: int|
        0 <= k < caps.len() - 1 ==> span_end((#[trigger] caps[k])[0]) <= span_start(
            caps[k + 1][0],
        )
}

/// The regex crate's `Regex::new(pattern)` and `captures_iter(text)`, with byte offsets turned
/// into character positions. Claims that the result is `captures_of(pattern, text)`, and what
/// the crate documents of it: matches in order, not overlapping, inside the text.
#[verifier::external_body]
pub fn captures(pattern: &str, text: &str) -> (r: Vec<Vec<Option<Span>>>)
    ensures
        captures_view(r@) == captures_of(pattern@, text@),
        well_placed(captures_view(r@), text@.len()),
{
    let at = |byte: usize| text[..byte].chars().count();
    match regex::Regex::new(pattern) {
        Ok(re) => re
            .captures_iter(text)
            .map(|caps| caps.iter().map(|m| m.map(|m| (at(m.start()), at(m.end())))).collect())
            .collect(),
        Err(_) => Vec::new(),
    }
}

/// The text of group `g` of a match, or nothing when it took no part.
pub open spec fn group_text(h: Seq<char>, groups: Seq<Option<(int, int)>>, g: int) -> Seq<char> {
    if 0 <= g < groups.len() && groups[g] is Some {
        h.subrange(span_start(groups[g]), span_end(groups[g]))
    } else {
        Seq::empty()
    }
}

pub open spec fn has_group(groups: Seq<Option<(int, int)>>, g: int) -> bool {
    0 <= g < groups.len() && groups[g] is Some
}

/// The text of group `g` of a match.
pub fn group_of(v: &Vec<char>, groups: &Vec<Option<Span>>, g: usize) -> (t: Vec<char>)
    requires
        groups_in(spans_view(groups@), v@.len() as int),
    ensures
        t@ == group_text(v@, spans_view(groups@), g as int),
{
    if g < groups.len() {
        assert(spans_view(groups@)[g as int] == span_view(groups@[g as int]));
        match groups[g] {
            Some((a, b)) => slice_chars(v, a, b),
            None => Vec::new(),
        }
    } else {
        Vec::new()
    }
}

pub fn group_present(groups: &Vec<Option<Span>>, g: usize) -> (b: bool)
    ensures
        b == has_group(spans_view(groups@), g as int),
{
    if g < groups.len() {
        assert(spans_view(groups@)[g as int] == span_view(groups@[g as int]));
        groups[g].is_some()
    } else {
        false
    }
}

/// Where the text between matches `k - 1` and `k` starts.
pub open spec fn gap_start(caps: Seq<Seq<Option<(int, int)>>>, k: int) -> int {
    if k <= 0 {
        0
    } else {
        span_end(caps[k - 1][0])
    }
}

/// The first `k` gaps between the matches `caps` found in `h`: `h` with those matches cut out.
pub open spec fn without_upto(h: Seq<char>, caps: Seq<Seq<Option<(int, int)>>>, k: int) -> Seq<char>
    decreases k,
{
    if k <= 0 {
        Seq::empty()
    } else {
        without_upto(h, caps, k - 1) + h.subrange(gap_start(caps, k - 1), span_start(caps[k - 1][0]))
    }
}

/// `h` with every match of `pattern` cut out.
pub open spec fn without_all(h: Seq<char>, pattern: Seq<char>) -> Seq<char> {
    let caps = captures_of(pattern, h);
    without_upto(h, caps, caps.len() as int) + h.skip(gap_start(caps, caps.len() as int))
}

/// Where the first match of `pattern` in `h` starts and ends.
pub open spec fn first_at(h: Seq<char>, pattern: Seq<char>) -> Option<(int, int)> {
    let caps = captures_of(pattern, h);
    if caps.len() == 0 {
        None
    } else {
        Some((span_start(caps[0][0]), span_end(caps[0][0])))
    }
}

/// `h` with the first match of `pattern` cut out.
pub open spec fn without_first(h: Seq<char>, pattern: Seq<char>) -> Seq<char> {
    match first_at(h, pattern) {
        Some((a, b)) => h.take(a) + h.skip(b),
        None => h,
    }
}

/// Cuts every match of `pattern` out of `text`.
pub fn remove_all(pattern: &str, text: &str) -> (out: String)
    ensures
        out@ == without_all(text@, pattern@),
{
    let v = chars_of(text);
    let caps = captures(pattern, text);
    let ghost cv = captures_view(caps@);
    let mut out = String::new();
    let mut at: usize = 0;
    let mut k: usize = 0;
    while k < caps.len()
        invariant
            k <= caps@.len(),
            v@ == text@,
            cv == captures_view(caps@),
            cv == captures_of(pattern@, text@),
            well_placed(cv, text@.len()),
            at == gap_start(cv, k as int),
            at <= v@.len(),
            out@ == without_upto(v@, cv, k as int),
        decreases caps.len() - k,
    {
        assert(cv[k as int] == spans_view(caps@[k as int]@));
        assert(cv[k as int][0] == span_view(caps@[k as int]@[0]));
        let (a, b) = match caps[k][0] {
            Some(g) => g,
            None => (0, 0),
        };
        proof {
            if k > 0 {
                assert(span_end(cv[k - 1][0]) <= span_start(cv[k as int][0]));
            }
        }
        push_range(&mut out, &v, at, a);
        at = b;
        k = k + 1;
    }
    push_range(&mut out, &v, at, v.len());
    assert(v@.subrange(at as int, v@.len() as int) =~= v@.skip(at as int));
    out
}

/// Where the first match of `pattern` in `text` starts and ends.
pub fn find_first(pattern: &str, text: &str) -> (r: Option<(usize, usize)>)
    ensures
        match r {
            Some((a, b)) => first_at(text@, pattern@) == Some((a as int, b as int)) && a <= b
                <= text@.len(),
            None => first_at(text@, pattern@) is None,
        },
{
    let caps = captures(pattern, text);
    let ghost cv = captures_view(caps@);
    if caps.len() == 0 {
        return None;
    }
    assert(cv[0] == spans_view(caps@[0]@));
    assert(cv[0][0] == span_view(caps@[0]@[0]));
    match caps[0][0] {
        Some(g) => Some(g),
        None => None,
    }
}

/// Whether `pattern` matches somewhere in `text`.
pub open spec fn matches_somewhere(pattern: Seq<char>, text: Seq<char>) -> bool {
    captures_of(pattern, text).len() > 0
}

pub fn is_match(pattern: &str, text: &str) -> (b: bool)
    ensures
        b == matches_somewhere(pattern@, text@),
{
    captures(pattern, text).len() > 0
}

/// The first `k` matches that `caps` found in `h` each replaced by `with`, with the text that
/// comes before each.
pub open spec fn swapped_upto(h: Seq<char>, caps: Seq<Seq<Option<(int, int)>>>, k: int, with: Seq<char>) -> Seq<char>
    decreases k,
{
    if k <= 0 {
        Seq::empty()
    } else {
        swapped_upto(h, caps, k - 1, with) + h.subrange(gap_start(caps, k - 1), span_start(caps[k - 1][0]))
            + with
    }
}

/// `h` with every match of `pattern` replaced by the plain text `with` (`Regex::replace_all`).
pub open spec fn swapped_all(h: Seq<char>, pattern: Seq<char>, with: Seq<char>) -> Seq<char> {
    let caps = captures_of(pattern, h);
    swapped_upto(h, caps, caps.len() as int, with) + h.skip(gap_start(caps, caps.len() as int))
}

/// `h` with the first match of `pattern` replaced by the plain text `with` (`Regex::replace`).
pub open spec fn swapped_first(h: Seq<char>, pattern: Seq<char>, with: Seq<char>) -> Seq<char> {
    match first_at(h, pattern) {
        Some((a, b)) => h.take(a) + with + h.skip(b),
        None => h,
    }
}

/// Replaces every match of `pattern` in `text` by `with`, which holds no `$`.
pub fn substitute_all(pattern: &str, text: &str, with: &str) -> (out: String)
    ensures
        out@ == swapped_all(text@, pattern@, with@),
{
    let v = chars_of(text);
    let w = chars_of(with);
    let caps = captures(pattern, text);
    let ghost cv = captures_view(caps@);
    let mut out = String::new();
    let mut at: usize = 0;
    let mut k: usize = 0;
    while k < caps.len()
        invariant
            k <= caps@.len(),
            v@ == text@,
            w@ == with@,
            cv == captures_view(caps@),
            cv == captures_of(pattern@, text@),
            well_placed(cv, text@.len()),
            at == gap_start(cv, k as int),
            at <= v@.len(),
            out@ == swapped_upto(v@, cv, k as int, w@),
        decreases caps.len() - k,
    {
        assert(cv[k as int] == spans_view(caps@[k as int]@));
        assert(cv[k as int][0] == span_view(caps@[k as int]@[0]));
        let (a, b) = match caps[k][0] {
            Some(g) => g,
            None => (0, 0),
        };
        proof {
            if k > 0 {
                assert(span_end(cv[k - 1][0]) <= span_start(cv[k as int][0]));
            }
        }
        push_range(&mut out, &v, at, a);
        push_range(&mut out, &w, 0, w.len());
        assert(w@.subrange(0, w@.len() as int) =~= w@);
        at = b;
        k = k + 1;
    }
    push_range(&mut out, &v, at, v.len());
    assert(v@.subrange(at as int, v@.len() as int) =~= v@.skip(at as int));
    out
}

/// Replaces the first match of `pattern` in `text` by `with`, which holds no `$`.
pub fn substitute_first(pattern: &str, text: &str, with: &str) -> (out: String)
    ensures
        out@ == swapped_first(text@, pattern@, with@),
{
    let v = chars_of(text);
    match find_first(pattern, text) {
        Some((a, b)) => {
            let mut out = String::new();
            push_range(&mut out, &v, 0, a);
            push_str(&mut out, with);
            push_range(&mut out, &v, b, v.len());
            assert(v@.subrange(0, a as int) =~= v@.take(a as int));
            assert(v@.subrange(b as int, v@.len() as int) =~= v@.skip(b as int));
            out
        },
        None => string_of(&v),
    }
}

} // verus!
