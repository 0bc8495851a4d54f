//! Objects an entry names: how prominently it names each, how a designation's number reads, and
//! where a name stands as whole words in a text.
use vstd::prelude::*;
use vstd::string::StringSliceAdditionalSpecFns;
use crate::text::{chars_of, is_digit, str_eq, string_of};
use crate::entry::joined;
use crate::pattern::{
    captures_view, group_of, group_text, groups_in, has_group, span_end, span_start, span_view,
    spans_view, well_placed, Span,
};
use crate::text::slice_chars;

verus! {

pub const TITLE_WEIGHT: u32 = 4;

pub const EXPLANATION_WEIGHT: u32 = 2;

pub const KEYWORDS_WEIGHT: u32 = 1;

/// The most that naming an object again and again in the explanation adds.
pub const REPEAT_CAP: u32 = 3;

/// How prominently an entry's own words treat an object. Never a claim about what the picture
/// shows, which nothing in the archive can see.
#[derive(Debug, Clone, Copy, PartialEq, Eq)]
pub struct Basis {
    pub in_title: bool,
    pub in_keywords: bool,
    pub in_explanation: bool,
    pub explanation_hits: u32,
}

impl Default for Basis {
    fn default() -> (b: Basis)
        ensures
            !b.in_title && !b.in_keywords && !b.in_explanation && b.explanation_hits == 0,
    {
        Basis { in_title: false, in_keywords: false, in_explanation: false, explanation_hits: 0 }
    }
}

pub open spec fn weight(on: bool, w: u32) -> int {
    if on {
        w as int
    } else {
        0
    }
}

/// The score of a basis: a weight for each field that names the object, and one for each
/// further mention in the explanation, up to the cap.
pub open spec fn score_of(b: Basis) -> int {
    let repeats = if b.explanation_hits == 0 {
        0
    } else {
        b.explanation_hits - 1
    };
    weight(b.in_title, TITLE_WEIGHT) + weight(b.in_explanation, EXPLANATION_WEIGHT) + weight(
        b.in_keywords,
        KEYWORDS_WEIGHT,
    ) + if repeats < REPEAT_CAP {
        repeats
    } else {
        REPEAT_CAP as int
    }
}

impl Basis {
    pub fn score(self) -> (s: u32)
        ensures
            s == score_of(self),
    {
        let title: u32 = if self.in_title {
            TITLE_WEIGHT
        } else {
            0
        };
        let explanation: u32 = if self.in_explanation {
            EXPLANATION_WEIGHT
        } else {
            0
        };
        let keywords: u32 = if self.in_keywords {
            KEYWORDS_WEIGHT
        } else {
            0
        };
        let repeats = self.explanation_hits.saturating_sub(1);
        let capped = if repeats < REPEAT_CAP {
            repeats
        } else {
            REPEAT_CAP
        };
        title + explanation + keywords + capped
    }
}

/// An object an entry names, under the designation the archive files it by.
#[derive(Debug, Clone, PartialEq, Eq)]
pub struct Named {
    pub id: String,
    pub catalog: String,
    pub name: String,
    pub basis: Basis,
}

/// The value of a run of decimal digits.
pub open spec fn digits_value(s: Seq<char>) -> nat
    decreases s.len(),
{
    if s.len() == 0 {
        0
    } else {
        10 * digits_value(s.drop_last()) + ((s.last() as nat) - ('0' as nat)) as nat
    }
}

/// Where the first digit of `s` at or after `i` stands, or the end of `s`.
pub open spec fn first_digit_from(s: Seq<char>, i: int) -> int
    decreases s.len() - i,
{
    if i >= s.len() || is_digit(s[i]) {
        i
    } else {
        first_digit_from(s, i + 1)
    }
}

/// Where the run of digits that begins at `i` ends.
pub open spec fn digits_end(s: Seq<char>, i: int) -> int
    decreases s.len() - i,
{
    if i >= s.len() || !is_digit(s[i]) {
        i
    } else {
        digits_end(s, i + 1)
    }
}

/// The first run of digits in a designation, by which designations of one catalogue are
/// ordered: its value where it fits in 32 bits, and 0 where there is none or it does not fit.
pub open spec fn number_of(id: Seq<char>) -> nat {
    let start = first_digit_from(id, 0);
    let run = id.subrange(start, digits_end(id, start));
    if run.len() == 0 || digits_value(run) > u32::MAX {
        0
    } else {
        digits_value(run)
    }
}

proof fn lemma_first_digit(s: Seq<char>, i: int)
    requires
        0 <= i <= s.len(),
    ensures
        i <= first_digit_from(s, i) <= s.len(),
        first_digit_from(s, i) < s.len() ==> is_digit(s[first_digit_from(s, i)]),
        forall|j: int| i <= j < first_digit_from(s, i) ==> !is_digit(#[trigger] s[j]),
    decreases s.len() - i,
{
    if i < s.len() && !is_digit(s[i]) {
        lemma_first_digit(s, i + 1);
    }
}

proof fn lemma_digits_end(s: Seq<char>, i: int)
    requires
        0 <= i <= s.len(),
    ensures
        i <= digits_end(s, i) <= s.len(),
        digits_end(s, i) < s.len() ==> !is_digit(s[digits_end(s, i)]),
        forall|j: int| i <= j < digits_end(s, i) ==> is_digit(#[trigger] s[j]),
    decreases s.len() - i,
{
    if i < s.len() && is_digit(s[i]) {
        lemma_digits_end(s, i + 1);
    }
}

proof fn lemma_digits_grow(s: Seq<char>, c: char)
    requires
        is_digit(c),
    ensures
        digits_value(s.push(c)) == 10 * digits_value(s) + ((c as nat) - ('0' as nat)),
        digits_value(s.push(c)) >= digits_value(s),
{
    assert(s.push(c).drop_last() =~= s);
}

/// The number in a designation, as [`number_of`] says.
pub fn number(id: &str) -> (n: u32)
    ensures
        n == number_of(id@),
{
    let cs = chars_of(id);
    let ghost s = id@;
    let mut i: usize = 0;
    proof {
        lemma_first_digit(s, 0);
    }
    while i < cs.len() && !(cs[i] >= '0' && cs[i] <= '9')
        invariant
            cs@ == s,
            0 <= i <= first_digit_from(s, 0),
            first_digit_from(s, 0) <= s.len(),
            first_digit_from(s, 0) < s.len() ==> is_digit(s[first_digit_from(s, 0)]),
            forall|j: int| 0 <= j < first_digit_from(s, 0) ==> !is_digit(#[trigger] s[j]),
        decreases cs.len() - i,
    {
        i = i + 1;
    }
    assert(i == first_digit_from(s, 0)) by {
        if i < first_digit_from(s, 0) {
            assert(!is_digit(s[i as int]));
        }
    }
    let start = i;
    proof {
        lemma_digits_end(s, start as int);
    }
    let mut value: u64 = 0;
    let mut fits = true;
    while i < cs.len() && cs[i] >= '0' && cs[i] <= '9'
        invariant
            cs@ == s,
            start == first_digit_from(s, 0),
            start <= i <= digits_end(s, start as int),
            digits_end(s, start as int) <= s.len(),
            digits_end(s, start as int) < s.len() ==> !is_digit(s[digits_end(s, start as int)]),
            forall|j: int| start <= j < digits_end(s, start as int) ==> is_digit(#[trigger] s[j]),
            fits ==> value == digits_value(s.subrange(start as int, i as int)),
            fits ==> value <= u32::MAX,
            !fits ==> digits_value(s.subrange(start as int, i as int)) > u32::MAX,
        decreases cs.len() - i,
    {
        let ghost before = s.subrange(start as int, i as int);
        assert(s.subrange(start as int, i + 1) =~= before.push(cs[i as int]));
        proof {
            lemma_digits_grow(before, cs[i as int]);
        }
        let d = (cs[i] as u32 - '0' as u32) as u64;
        if fits {
            let next = value * 10 + d;
            if next > 0xffff_ffff {
                fits = false;
            } else {
                value = next;
            }
        }
        i = i + 1;
    }
    assert(i == digits_end(s, start as int)) by {
        if i < digits_end(s, start as int) {
            assert(is_digit(s[i as int]));
        }
    }
    if fits && i > start {
        value as u32
    } else {
        0
    }
}

/// A byte that belongs to a word: an ASCII letter or digit, or any byte of a character beyond
/// ASCII.
pub open spec fn word_byte(b: u8) -> bool {
    (48 <= b <= 57) || (65 <= b <= 90) || (97 <= b <= 122) || b >= 0x80
}

pub fn is_word_byte(b: u8) -> (r: bool)
    ensures
        r == word_byte(b),
{
    (b >= 48 && b <= 57) || (b >= 65 && b <= 90) || (b >= 97 && b <= 122) || b >= 0x80
}

pub open spec fn ascii_lower(b: u8) -> u8 {
    if 65 <= b <= 90 {
        (b + 32) as u8
    } else {
        b
    }
}

/// Where a UTF-8 text may be cut: at either end, or before a byte that does not continue a
/// character.
pub open spec fn boundary(h: Seq<u8>, i: int) -> bool {
    i == 0 || i == h.len() || (0 < i < h.len() && !(0x80 <= h[i] < 0xc0))
}

/// Whether `phrase` stands at `start` in `h`, letters compared without case, as whole words,
/// cut at character boundaries, and clear of every span already claimed.
#[verifier::opaque]
pub open spec fn span_at(h: Seq<u8>, n: Seq<u8>, claimed: Seq<(usize, usize)>, start: int) -> bool {
    let end = start + n.len();
    &&& 0 <= start
    &&& end <= h.len()
    &&& forall|k: int| 0 <= k < n.len() ==> ascii_lower(#[trigger] h[start + k]) == ascii_lower(n[k])
    &&& !(start > 0 && word_byte(h[start - 1]))
    &&& !(end < h.len() && word_byte(h[end]))
    &&& boundary(h, start)
    &&& boundary(h, end)
    &&& forall|c: int| 0 <= c < claimed.len() ==> !(start < (#[trigger] claimed[c]).1 && end > claimed[c].0)
}

/// The first place a phrase stands in a text as [`span_at`] says, as a byte range.
pub open spec fn word_span_of(h: Seq<u8>, n: Seq<u8>, claimed: Seq<(usize, usize)>) -> Option<(int, int)> {
    if n.len() > 0 && exists|s: int| span_at(h, n, claimed, s) {
        let s = choose|s: int|
            span_at(h, n, claimed, s) && forall|t: int| 0 <= t < s ==> !span_at(h, n, claimed, t);
        Some((s, s + n.len()))
    } else {
        None
    }
}

fn same_ignoring_case(h: &[u8], start: usize, n: &[u8]) -> (r: bool)
    requires
        start + n@.len() <= h@.len(),
    ensures
        r == forall|k: int| 0 <= k < n@.len() ==> ascii_lower(#[trigger] h@[start + k]) == ascii_lower(n@[k]),
{
    let hl = h.len();
    let mut k: usize = 0;
    while k < n.len()
        invariant
            hl == h@.len(),
            start + n@.len() <= h@.len(),
            k <= n@.len(),
            forall|j: int| 0 <= j < k ==> ascii_lower(#[trigger] h@[start + j]) == ascii_lower(n@[j]),
        decreases n.len() - k,
    {
        let a = h[start + k];
        let b = n[k];
        let la = if a >= 65 && a <= 90 {
            a + 32
        } else {
            a
        };
        let lb = if b >= 65 && b <= 90 {
            b + 32
        } else {
            b
        };
        if la != lb {
            assert(ascii_lower(h@[start + k as int]) != ascii_lower(n@[k as int]));
            return false;
        }
        k = k + 1;
    }
    true
}

fn is_boundary(h: &[u8], i: usize) -> (r: bool)
    requires
        i <= h@.len(),
    ensures
        r == boundary(h@, i as int),
{
    i == 0 || i == h.len() || !(h[i] >= 0x80 && h[i] < 0xc0)
}

fn overlaps_claimed(claimed: &[(usize, usize)], start: usize, end: usize) -> (r: bool)
    ensures
        r == exists|c: int| 0 <= c < claimed@.len() && start < (#[trigger] claimed@[c]).1 && end > claimed@[c].0,
{
    let mut c: usize = 0;
    while c < claimed.len()
        invariant
            c <= claimed@.len(),
            forall|j: int| 0 <= j < c ==> !(start < (#[trigger] claimed@[j]).1 && end > claimed@[j].0),
        decreases claimed.len() - c,
    {
        let (from, to) = claimed[c];
        if start < to && end > from {
            assert(start < claimed@[c as int].1 && end > claimed@[c as int].0);
            return true;
        }
        c = c + 1;
    }
    false
}

/// Whether the phrase stands at `start`, as [`span_at`] says.
fn span_here(h: &[u8], n: &[u8], claimed: &[(usize, usize)], start: usize) -> (r: bool)
    requires
        start + n@.len() <= h@.len(),
    ensures
        r == span_at(h@, n@, claimed@, start as int),
{
    reveal(span_at);
    let hl = h.len();
    assert(hl == h@.len());
    let end = start + n.len();
    if !same_ignoring_case(h, start, n) {
        return false;
    }
    if start > 0 && is_word_byte(h[start - 1]) {
        return false;
    }
    if end < h.len() && is_word_byte(h[end]) {
        return false;
    }
    if !is_boundary(h, start) || !is_boundary(h, end) {
        return false;
    }
    !overlaps_claimed(claimed, start, end)
}

proof fn lemma_first_span(h: Seq<u8>, n: Seq<u8>, claimed: Seq<(usize, usize)>, start: int)
    requires
        n.len() > 0,
        span_at(h, n, claimed, start),
        forall|t: int| 0 <= t < start ==> !span_at(h, n, claimed, t),
    ensures
        word_span_of(h, n, claimed) == Some((start, start + n.len())),
{
    reveal(span_at);
    let s = choose|s: int|
        span_at(h, n, claimed, s) && forall|t: int| 0 <= t < s ==> !span_at(h, n, claimed, t);
    assert(span_at(h, n, claimed, s) && forall|t: int| 0 <= t < s ==> !span_at(h, n, claimed, t));
    if s < start {
        assert(!span_at(h, n, claimed, s));
    } else if s > start {
        assert(!span_at(h, n, claimed, start));
    }
}

/// Where `phrase` first stands in `text` as whole words, clear of what is already claimed.
pub fn word_span(text: &str, phrase: &str, claimed: &[(usize, usize)]) -> (r: Option<(usize, usize)>)
    ensures
        match r {
            Some((s, e)) => word_span_of(text.spec_bytes(), phrase.spec_bytes(), claimed@) == Some((s as int, e as int)),
            None => word_span_of(text.spec_bytes(), phrase.spec_bytes(), claimed@) is None,
        },
{
    let h = text.as_bytes();
    let n = phrase.as_bytes();
    let ghost hs = h@;
    let ghost ns = n@;
    if n.len() == 0 {
        return None;
    }
    if n.len() > h.len() {
        assert forall|s: int| !span_at(hs, ns, claimed@, s) by {
            reveal(span_at);
        }
        return None;
    }
    let hl = h.len();
    let last = hl - n.len();
    let mut start: usize = 0;
    while start <= last
        invariant
            hl == hs.len(),
            hs == text.spec_bytes(),
            ns == phrase.spec_bytes(),
            h@ == hs,
            n@ == ns,
            0 < ns.len() <= hs.len(),
            last == hs.len() - ns.len(),
            start <= last + 1,
            forall|t: int| 0 <= t < start ==> !span_at(hs, ns, claimed@, t),
        decreases last + 1 - start,
    {
        if span_here(h, n, claimed, start) {
            proof {
                lemma_first_span(hs, ns, claimed@, start as int);
            }
            let end = start + n.len();
            return Some((start, end));
        }
        start = start + 1;
    }
    assert forall|s: int| !span_at(hs, ns, claimed@, s) by {
        reveal(span_at);
        if 0 <= s && s + ns.len() <= hs.len() {
            assert(s < start);
        }
    }
    None
}

/// Whether `a` sorts before `b`, character by character, a prefix before what extends it.
/// For UTF-8 text this is the order of `str`'s `<`, which compares bytes: UTF-8 keeps the order
/// of the characters it encodes.
pub open spec fn text_lt(a: Seq<char>, b: Seq<char>) -> bool
    decreases a.len(),
{
    if a.len() == 0 {
        b.len() > 0
    } else if b.len() == 0 {
        false
    } else if a[0] != b[0] {
        a[0] < b[0]
    } else {
        text_lt(a.drop_first(), b.drop_first())
    }
}

proof fn lemma_text_lt_irreflexive(a: Seq<char>)
    ensures
        !text_lt(a, a),
    decreases a.len(),
{
    if a.len() > 0 {
        lemma_text_lt_irreflexive(a.drop_first());
    }
}

proof fn lemma_text_lt_transitive(a: Seq<char>, b: Seq<char>, c: Seq<char>)
    requires
        text_lt(a, b),
        text_lt(b, c),
    ensures
        text_lt(a, c),
    decreases a.len(),
{
    if a.len() > 0 && b.len() > 0 && c.len() > 0 && a[0] == b[0] && b[0] == c[0] {
        lemma_text_lt_transitive(a.drop_first(), b.drop_first(), c.drop_first());
    }
}

proof fn lemma_text_lt_total(a: Seq<char>, b: Seq<char>)
    ensures
        text_lt(a, b) || text_lt(b, a) || a == b,
    decreases a.len(),
{
    if a.len() > 0 && b.len() > 0 && a[0] == b[0] {
        lemma_text_lt_total(a.drop_first(), b.drop_first());
        if a.drop_first() == b.drop_first() {
            assert(a =~= seq![a[0]] + a.drop_first());
            assert(b =~= seq![b[0]] + b.drop_first());
        }
    } else if a.len() == 0 && b.len() == 0 {
        assert(a =~= b);
    }
}

proof fn lemma_text_lt_skip(a: Seq<char>, b: Seq<char>, i: int)
    requires
        0 <= i <= a.len(),
        i <= b.len(),
        a.take(i) == b.take(i),
    ensures
        text_lt(a, b) == text_lt(a.skip(i), b.skip(i)),
    decreases i,
{
    if i > 0 {
        assert(a[0] == a.take(i)[0]);
        assert(b[0] == b.take(i)[0]);
        assert(a.drop_first().take(i - 1) =~= a.take(i).drop_first());
        assert(b.drop_first().take(i - 1) =~= b.take(i).drop_first());
        lemma_text_lt_skip(a.drop_first(), b.drop_first(), i - 1);
        assert(a.drop_first().skip(i - 1) =~= a.skip(i));
        assert(b.drop_first().skip(i - 1) =~= b.skip(i));
    } else {
        assert(a.skip(0) =~= a);
        assert(b.skip(0) =~= b);
    }
}

/// Whether `a` sorts before `b`, as `<` on `str` does.
pub fn text_less(a: &str, b: &str) -> (r: bool)
    ensures
        r == text_lt(a@, b@),
{
    let x = chars_of(a);
    let y = chars_of(b);
    let mut i: usize = 0;
    while i < x.len() && i < y.len() && x[i] == y[i]
        invariant
            x@ == a@,
            y@ == b@,
            i <= x@.len(),
            i <= y@.len(),
            x@.take(i as int) == y@.take(i as int),
        decreases x.len() - i,
    {
        assert(x@.take(i + 1) =~= x@.take(i as int).push(x@[i as int]));
        assert(y@.take(i + 1) =~= y@.take(i as int).push(y@[i as int]));
        i = i + 1;
    }
    proof {
        lemma_text_lt_skip(x@, y@, i as int);
    }
    if i == x.len() {
        i < y.len()
    } else if i == y.len() {
        false
    } else {
        x[i] < y[i]
    }
}

/// Where in an entry a name was found, strongest first.
#[derive(Debug, Clone, Copy, PartialEq, Eq)]
pub enum Field {
    Title,
    Keywords,
    Explanation,
}

/// What reading one block of an entry found of one object: its designation, its catalogue, the
/// words that named it, and how many times they did.
#[derive(Debug, Clone, PartialEq, Eq)]
pub struct Hit {
    pub id: String,
    pub catalog: String,
    pub name: String,
    pub hits: u32,
}

pub type HitView = (Seq<char>, Seq<char>, Seq<char>, u32);

pub open spec fn hit_view(h: Hit) -> HitView {
    (h.id@, h.catalog@, h.name@, h.hits)
}

pub open spec fn hit_views(hs: Seq<Hit>) -> Seq<HitView> {
    hs.map_values(|h: Hit| hit_view(h))
}

pub type NamedView = (Seq<char>, Seq<char>, Seq<char>, Basis);

pub open spec fn named_view(n: Named) -> NamedView {
    (n.id@, n.catalog@, n.name@, n.basis)
}

pub open spec fn named_views(ns: Seq<Named>) -> Seq<NamedView> {
    ns.map_values(|n: Named| named_view(n))
}

pub open spec fn blank() -> Basis {
    Basis { in_title: false, in_keywords: false, in_explanation: false, explanation_hits: 0 }
}

/// A basis with one more field naming the object; the explanation also says how often.
pub open spec fn marked(b: Basis, f: Field, hits: u32) -> Basis {
    match f {
        Field::Title => Basis { in_title: true, ..b },
        Field::Keywords => Basis { in_keywords: true, ..b },
        Field::Explanation => Basis { in_explanation: true, explanation_hits: hits, ..b },
    }
}

fn mark(b: Basis, f: Field, hits: u32) -> (r: Basis)
    ensures
        r == marked(b, f, hits),
{
    match f {
        Field::Title => Basis { in_title: true, ..b },
        Field::Keywords => Basis { in_keywords: true, ..b },
        Field::Explanation => Basis { in_explanation: true, explanation_hits: hits, ..b },
    }
}

/// Where the object with designation `id` first stands among those found, or -1.
pub open spec fn id_index(found: Seq<NamedView>, id: Seq<char>) -> int
    decreases found.len(),
{
    if found.len() == 0 {
        -1
    } else {
        let j = id_index(found.drop_last(), id);
        if j >= 0 {
            j
        } else if found.last().0 == id {
            found.len() - 1
        } else {
            -1
        }
    }
}

proof fn lemma_id_index(found: Seq<NamedView>, id: Seq<char>)
    ensures
        -1 <= id_index(found, id) < found.len(),
        id_index(found, id) >= 0 ==> found[id_index(found, id)].0 == id,
        forall|k: int| 0 <= k < found.len() && (id_index(found, id) < 0 || k < id_index(found, id))
            ==> (#[trigger] found[k]).0 != id,
    decreases found.len(),
{
    if found.len() > 0 {
        lemma_id_index(found.drop_last(), id);
        assert forall|k: int| 0 <= k < found.len() - 1 implies found.drop_last()[k] == found[k] by {}
    }
}

/// The objects found after one more hit in a block: a new object joins the end; one already
/// found keeps its designation, catalogue and name, and its basis is marked.
pub open spec fn with_hit(found: Seq<NamedView>, h: HitView, f: Field) -> Seq<NamedView> {
    let j = id_index(found, h.0);
    if j < 0 {
        found.push((h.0, h.1, h.2, marked(blank(), f, h.3)))
    } else {
        found.update(j, (found[j].0, found[j].1, found[j].2, marked(found[j].3, f, h.3)))
    }
}

pub open spec fn with_hits(found: Seq<NamedView>, hits: Seq<HitView>, f: Field) -> Seq<NamedView>
    decreases hits.len(),
{
    if hits.len() == 0 {
        found
    } else {
        with_hit(with_hits(found, hits.drop_last(), f), hits.last(), f)
    }
}

/// Every object an entry's blocks named, in the order first found, title first, then the
/// keywords, then the explanation.
pub open spec fn gathered(title: Seq<HitView>, keywords: Seq<HitView>, explanation: Seq<HitView>) -> Seq<NamedView> {
    with_hits(
        with_hits(with_hits(Seq::empty(), title, Field::Title), keywords, Field::Keywords),
        explanation,
        Field::Explanation,
    )
}

fn add_hit(found: &mut Vec<Named>, h: &Hit, f: Field)
    ensures
        named_views(final(found)@) == with_hit(named_views(old(found)@), hit_view(*h), f),
{
    let ghost fv = named_views(found@);
    proof {
        lemma_id_index(fv, h.id@);
    }
    let mut j: usize = 0;
    while j < found.len() && !str_eq(found[j].id.as_str(), h.id.as_str())
        invariant
            found@ == old(found)@,
            fv == named_views(found@),
            j <= found@.len(),
            forall|k: int| 0 <= k < j ==> (#[trigger] found@[k]).id@ != h.id@,
        decreases found.len() - j,
    {
        j = j + 1;
    }
    if j == found.len() {
        assert(id_index(fv, h.id@) < 0) by {
            if id_index(fv, h.id@) >= 0 {
                assert(found@[id_index(fv, h.id@)].id@ == h.id@);
            }
        }
        found.push(Named {
            id: h.id.clone(),
            catalog: h.catalog.clone(),
            name: h.name.clone(),
            basis: mark(Basis::default(), f, h.hits),
        });
        assert(named_views(found@) =~= with_hit(fv, hit_view(*h), f));
    } else {
        assert(id_index(fv, h.id@) == j) by {
            assert(found@[j as int].id@ == h.id@);
            if id_index(fv, h.id@) < 0 || id_index(fv, h.id@) > j {
                assert(fv[j as int].0 != h.id@);
            }
            if 0 <= id_index(fv, h.id@) < j {
                assert(found@[id_index(fv, h.id@)].id@ != h.id@);
            }
        }
        let ghost before = found@;
        let mut item = found.remove(j);
        item.basis = mark(item.basis, f, h.hits);
        found.insert(j, item);
        assert(named_views(found@) =~= with_hit(fv, hit_view(*h), f));
    }
}

fn add_hits(found: &mut Vec<Named>, hits: &Vec<Hit>, f: Field)
    ensures
        named_views(final(found)@) == with_hits(named_views(old(found)@), hit_views(hits@), f),
{
    let ghost start = named_views(found@);
    let ghost hv = hit_views(hits@);
    let mut k: usize = 0;
    assert(hv.take(0) =~= Seq::<HitView>::empty());
    while k < hits.len()
        invariant
            k <= hits@.len(),
            hv == hit_views(hits@),
            named_views(found@) == with_hits(start, hv.take(k as int), f),
        decreases hits.len() - k,
    {
        add_hit(found, &hits[k], f);
        assert(hv.take(k + 1).drop_last() =~= hv.take(k as int));
        assert(hv.take(k + 1).last() == hit_view(hits@[k as int]));
        k = k + 1;
    }
    assert(hv.take(k as int) =~= hv);
}

/// Whether `a` is listed before `b`: the higher score first, then by catalogue, then by the
/// designation's number, then by the designation itself.
pub open spec fn ranks_before(a: NamedView, b: NamedView) -> bool {
    let sa = score_of(a.3);
    let sb = score_of(b.3);
    ||| sa > sb
    ||| sa == sb && text_lt(a.1, b.1)
    ||| sa == sb && a.1 == b.1 && number_of(a.0) < number_of(b.0)
    ||| sa == sb && a.1 == b.1 && number_of(a.0) == number_of(b.0) && text_lt(a.0, b.0)
}

/// Listed in rank order: nothing comes after something it ranks before.
pub open spec fn ranked(v: Seq<NamedView>) -> bool {
    forall|i: int, j: int| 0 <= i < j < v.len() ==> !ranks_before(#[trigger] v[j], #[trigger] v[i])
}

proof fn lemma_ranks_transitive(a: NamedView, b: NamedView, c: NamedView)
    requires
        ranks_before(a, b),
        ranks_before(b, c),
    ensures
        ranks_before(a, c),
{
    if score_of(a.3) == score_of(b.3) && score_of(b.3) == score_of(c.3) {
        if text_lt(a.1, b.1) && text_lt(b.1, c.1) {
            lemma_text_lt_transitive(a.1, b.1, c.1);
        } else if a.1 == b.1 && b.1 == c.1 && number_of(a.0) == number_of(b.0) && number_of(b.0)
            == number_of(c.0) {
            lemma_text_lt_transitive(a.0, b.0, c.0);
        }
    }
}

proof fn lemma_ranks_asymmetric(a: NamedView, b: NamedView)
    requires
        ranks_before(a, b),
    ensures
        !ranks_before(b, a),
{
    if ranks_before(b, a) {
        lemma_ranks_transitive(a, b, a);
        lemma_text_lt_irreflexive(a.0);
        lemma_text_lt_irreflexive(a.1);
    }
}

fn ranks_ahead(a: &Named, b: &Named) -> (r: bool)
    ensures
        r == ranks_before(named_view(*a), named_view(*b)),
{
    let sa = a.basis.score();
    let sb = b.basis.score();
    if sa != sb {
        return sa > sb;
    }
    if text_less(a.catalog.as_str(), b.catalog.as_str()) {
        return true;
    }
    if !str_eq(a.catalog.as_str(), b.catalog.as_str()) {
        return false;
    }
    let na = number(a.id.as_str());
    let nb = number(b.id.as_str());
    if na != nb {
        return na < nb;
    }
    text_less(a.id.as_str(), b.id.as_str())
}

/// Sorts one more object into a list already in rank order, after those it does not rank
/// before.
fn insert_ranked(out: &mut Vec<Named>, x: Named)
    requires
        ranked(named_views(old(out)@)),
    ensures
        ranked(named_views(final(out)@)),
        named_views(final(out)@).to_multiset() == named_views(old(out)@).to_multiset().insert(
            named_view(x),
        ),
{
    let ghost before = named_views(out@);
    let ghost xv = named_view(x);
    let mut pos: usize = 0;
    while pos < out.len() && !ranks_ahead(&x, &out[pos])
        invariant
            out@ == old(out)@,
            before == named_views(out@),
            xv == named_view(x),
            pos <= out@.len(),
            forall|k: int| 0 <= k < pos ==> !ranks_before(xv, #[trigger] before[k]),
        decreases out.len() - pos,
    {
        assert(before[pos as int] == named_view(out@[pos as int]));
        pos = pos + 1;
    }
    if pos < out.len() {
        assert(before[pos as int] == named_view(out@[pos as int]));
        assert(ranks_before(xv, before[pos as int]));
    }
    out.insert(pos, x);
    proof {
        let now = named_views(out@);
        assert(now =~= before.insert(pos as int, xv));
        vstd::seq_lib::to_multiset_insert(before, pos as int, xv);
        assert forall|i: int, j: int| 0 <= i < j < now.len() implies !ranks_before(
            #[trigger] now[j],
            #[trigger] now[i],
        ) by {
            if j < pos {
                assert(now[i] == before[i] && now[j] == before[j]);
            } else if i > pos {
                assert(now[i] == before[i - 1] && now[j] == before[j - 1]);
            } else if i == pos {
                assert(now[j] == before[j - 1]);
                if ranks_before(before[j - 1], xv) {
                    lemma_ranks_asymmetric(xv, before[pos as int]);
                    if j - 1 > pos {
                        lemma_ranks_transitive(before[j - 1], xv, before[pos as int]);
                        assert(!ranks_before(before[j - 1], before[pos as int]));
                    }
                }
            } else {
                assert(now[i] == before[i]);
                if j != pos {
                    assert(now[j] == before[j - 1]);
                }
            }
        }
    }
}

/// The objects named, given what reading an entry's title, its keywords and its explanation
/// found, each once, in rank order.
pub fn named_from_hits(title: &Vec<Hit>, keywords: &Vec<Hit>, explanation: &Vec<Hit>) -> (out: Vec<Named>)
    ensures
        ranked(named_views(out@)),
        named_views(out@).to_multiset() == gathered(
            hit_views(title@),
            hit_views(keywords@),
            hit_views(explanation@),
        ).to_multiset(),
{
    let mut found: Vec<Named> = Vec::new();
    assert(named_views(found@) =~= Seq::<NamedView>::empty());
    add_hits(&mut found, title, Field::Title);
    add_hits(&mut found, keywords, Field::Keywords);
    add_hits(&mut found, explanation, Field::Explanation);
    let ghost all = named_views(found@);
    let mut out: Vec<Named> = Vec::new();
    let mut rest = found;
    proof {
        broadcast use vstd::seq_lib::group_to_multiset_ensures;
        assert(named_views(out@) =~= Seq::<NamedView>::empty());
    }
    while rest.len() > 0
        invariant
            ranked(named_views(out@)),
            named_views(out@).to_multiset().add(named_views(rest@).to_multiset())
                == all.to_multiset(),
        decreases rest@.len(),
    {
        let ghost rest_before = rest@;
        let x = rest.remove(0);
        let ghost out_before = named_views(out@);
        insert_ranked(&mut out, x);
        proof {
            broadcast use vstd::seq_lib::group_to_multiset_ensures;
            broadcast use vstd::multiset::group_multiset_axioms;
            assert(named_views(rest_before) =~= seq![named_view(x)] + named_views(rest@));
            vstd::seq_lib::lemma_multiset_commutative(seq![named_view(x)], named_views(rest@));
            assert(named_views(out@).to_multiset().add(named_views(rest@).to_multiset())
                =~= out_before.to_multiset().add(named_views(rest_before).to_multiset()));
        }
    }
    proof {
        broadcast use vstd::seq_lib::group_to_multiset_ensures;
        assert(named_views(rest@) =~= Seq::<NamedView>::empty());
        assert(named_views(rest@).to_multiset() =~= vstd::multiset::Multiset::empty());
    }
    out
}

/// No designation is listed twice.
pub open spec fn ids_distinct(v: Seq<NamedView>) -> bool {
    forall|i: int, j: int| 0 <= i < j < v.len() ==> (#[trigger] v[i]).0 != (#[trigger] v[j]).0
}

proof fn lemma_with_hits_distinct(found: Seq<NamedView>, hits: Seq<HitView>, f: Field)
    requires
        ids_distinct(found),
    ensures
        ids_distinct(with_hits(found, hits, f)),
    decreases hits.len(),
{
    if hits.len() > 0 {
        let before = with_hits(found, hits.drop_last(), f);
        lemma_with_hits_distinct(found, hits.drop_last(), f);
        lemma_id_index(before, hits.last().0);
        let after = with_hit(before, hits.last(), f);
        assert forall|i: int, j: int| 0 <= i < j < after.len() implies (#[trigger] after[i]).0
            != (#[trigger] after[j]).0 by {
            if id_index(before, hits.last().0) < 0 && j == before.len() {
                assert(before[i].0 != hits.last().0);
            } else {
                assert(before[i].0 != before[j].0);
            }
        }
    }
}

/// An entry that names an object in several places, or several times, lists it once: the
/// objects gathered from an entry's blocks have distinct designations.
pub proof fn law_each_object_once(title: Seq<HitView>, keywords: Seq<HitView>, explanation: Seq<HitView>)
    ensures
        ids_distinct(gathered(title, keywords, explanation)),
{
    lemma_with_hits_distinct(Seq::empty(), title, Field::Title);
    let t = with_hits(Seq::empty(), title, Field::Title);
    lemma_with_hits_distinct(t, keywords, Field::Keywords);
    lemma_with_hits_distinct(with_hits(t, keywords, Field::Keywords), explanation, Field::Explanation);
}

/// Where index `i` goes among indices already ordered longest key first: after every one whose
/// key is not shorter.
pub open spec fn len_slot(sorted: Seq<int>, keys: Seq<nat>, i: int) -> int
    decreases sorted.len(),
{
    if sorted.len() == 0 || keys[sorted.last()] >= keys[i] {
        sorted.len() as int
    } else {
        len_slot(sorted.drop_last(), keys, i)
    }
}

/// The first `n` indices ordered by key, longest first, equal keys in index order (a stable
/// sort by descending key).
pub open spec fn longest_first_upto(keys: Seq<nat>, n: int) -> Seq<int>
    decreases n,
{
    if n <= 0 {
        Seq::empty()
    } else {
        let s = longest_first_upto(keys, n - 1);
        s.insert(len_slot(s, keys, n - 1), n - 1)
    }
}

proof fn lemma_len_slot(sorted: Seq<int>, keys: Seq<nat>, i: int)
    ensures
        0 <= len_slot(sorted, keys, i) <= sorted.len(),
        forall|k: int| len_slot(sorted, keys, i) <= k < sorted.len() ==> keys[#[trigger] sorted[k]] < keys[i],
        len_slot(sorted, keys, i) > 0 ==> keys[sorted[len_slot(sorted, keys, i) - 1]] >= keys[i],
    decreases sorted.len(),
{
    if sorted.len() > 0 && keys[sorted.last()] < keys[i] {
        lemma_len_slot(sorted.drop_last(), keys, i);
        let s = len_slot(sorted, keys, i);
        assert forall|k: int| s <= k < sorted.len() implies keys[#[trigger] sorted[k]] < keys[i] by {
            if k < sorted.len() - 1 {
                assert(sorted[k] == sorted.drop_last()[k]);
            }
        }
        if s > 0 {
            assert(sorted[s - 1] == sorted.drop_last()[s - 1]);
        }
    }
}

proof fn lemma_longest_first_range(keys: Seq<nat>, n: int)
    requires
        0 <= n,
    ensures
        longest_first_upto(keys, n).len() == n,
        forall|k: int| 0 <= k < n ==> 0 <= #[trigger] longest_first_upto(keys, n)[k] < n,
    decreases n,
{
    if n > 0 {
        lemma_longest_first_range(keys, n - 1);
        let s = longest_first_upto(keys, n - 1);
        lemma_len_slot(s, keys, n - 1);
        let p = len_slot(s, keys, n - 1);
        assert forall|k: int| 0 <= k < n implies 0 <= #[trigger] longest_first_upto(keys, n)[k] < n by {
            if k < p {
                assert(longest_first_upto(keys, n)[k] == s[k]);
            } else if k > p {
                assert(longest_first_upto(keys, n)[k] == s[k - 1]);
            }
        }
    }
}

/// The indices of `keys` ordered longest first, equal ones in their order.
pub fn longest_first(keys: &Vec<u128>) -> (out: Vec<usize>)
    ensures
        out@.map_values(|i: usize| i as int) == longest_first_upto(
            keys@.map_values(|k: u128| k as nat),
            keys@.len() as int,
        ),
        forall|k: int| 0 <= k < out@.len() ==> #[trigger] out@[k] < keys@.len(),
{
    let ghost kv = keys@.map_values(|k: u128| k as nat);
    let mut out: Vec<usize> = Vec::new();
    let mut n: usize = 0;
    while n < keys.len()
        invariant
            n <= keys@.len(),
            kv == keys@.map_values(|k: u128| k as nat),
            out@.map_values(|i: usize| i as int) == longest_first_upto(kv, n as int),
        decreases keys.len() - n,
    {
        let ghost s = out@.map_values(|i: usize| i as int);
        proof {
            lemma_len_slot(s, kv, n as int);
            lemma_longest_first_range(kv, n as int);
        }
        let ghost slot = len_slot(s, kv, n as int);
        assert forall|k: int| 0 <= k < out@.len() implies #[trigger] out@[k] < n by {
            assert(s[k] == out@[k] as int);
        }
        let mut pos: usize = out.len();
        while pos > 0 && keys[out[pos - 1]] < keys[n]
            invariant
                n < keys@.len(),
                kv == keys@.map_values(|k: u128| k as nat),
                s == out@.map_values(|i: usize| i as int),
                s == longest_first_upto(kv, n as int),
                slot == len_slot(s, kv, n as int),
                s.len() == n,
                forall|k: int| 0 <= k < n ==> 0 <= #[trigger] s[k] < n,
                slot <= pos <= out@.len(),
                forall|k: int| 0 <= k < out@.len() ==> #[trigger] out@[k] < n,
                forall|k: int| slot <= k < s.len() ==> kv[#[trigger] s[k]] < kv[n as int],
                slot > 0 ==> kv[s[slot - 1]] >= kv[n as int],
            decreases pos,
        {
            assert(s[pos - 1] == out@[pos - 1] as int);
            pos = pos - 1;
        }
        assert(pos == slot) by {
            if pos > slot {
                assert(s[pos - 1] == out@[pos - 1] as int);
                assert(kv[s[pos - 1]] < kv[n as int]);
            }
        }
        out.insert(pos, n);
        assert(out@.map_values(|i: usize| i as int) =~= s.insert(slot, n as int));
        n = n + 1;
    }
    proof {
        lemma_longest_first_range(kv, n as int);
        assert forall|k: int| 0 <= k < out@.len() implies #[trigger] out@[k] < keys@.len() by {
            assert(out@.map_values(|i: usize| i as int)[k] == out@[k] as int);
        }
    }
    out
}

/// A catalogue the archive reads designations of: the prefix it is written with (lowercase),
/// its name, how its designations are written (`{}` standing for the number), and its highest
/// number.
pub struct Catalog {
    pub prefix: String,
    pub catalog: String,
    pub format: String,
    pub max: u32,
}

/// A common name the archive has ruled on: the phrase, and the designation and catalogue it
/// stands for.
pub struct ByName {
    pub phrase: String,
    pub id: String,
    pub catalog: String,
}

pub type CatalogView = (Seq<char>, Seq<char>, Seq<char>, u32);

pub open spec fn catalog_views(cs: Seq<Catalog>) -> Seq<CatalogView> {
    cs.map_values(|c: Catalog| (c.prefix@, c.catalog@, c.format@, c.max))
}

pub type ByNameView = (Seq<char>, Seq<char>, Seq<char>);

pub open spec fn by_name_views(ns: Seq<ByName>) -> Seq<ByNameView> {
    ns.map_values(|n: ByName| (n.phrase@, n.id@, n.catalog@))
}

/// The characters the regex crate treats as meta characters (`regex_syntax::is_meta_character`).
pub open spec fn regex_meta(c: char) -> bool {
    c == '\\' || c == '.' || c == '+' || c == '*' || c == '?' || c == '(' || c == ')' || c == '|'
        || c == '[' || c == ']' || c == '{' || c == '}' || c == '^' || c == '$' || c == '#' || c
        == '&' || c == '-' || c == '~'
}

/// What the regex crate's `escape` makes of `s`: each meta character with a backslash before
/// it, everything else as it is.
pub open spec fn regex_escaped(s: Seq<char>) -> Seq<char>
    decreases s.len(),
{
    if s.len() == 0 {
        Seq::empty()
    } else {
        regex_escaped(s.drop_last()) + if regex_meta(s.last()) {
            seq!['\\', s.last()]
        } else {
            seq![s.last()]
        }
    }
}

/// The regex crate's `escape`, which puts a backslash before each meta character (regex-syntax's
/// `escape_into` with `is_meta_character`).
#[verifier::external_body]
fn escape_regex(s: &str) -> (r: String)
    ensures
        r@ == regex_escaped(s@),
{
    regex::escape(s)
}

/// What std's `str::to_lowercase` makes of `s`, by the Unicode case tables.
pub uninterp spec fn lowercased(s: Seq<char>) -> Seq<char>;

/// std's `str::to_lowercase`.
#[verifier::external_body]
pub(crate) fn lowercase(s: &str) -> (r: String)
    ensures
        r@ == lowercased(s@),
{
    s.to_lowercase()
}

/// How a catalogue's prefix is written in the designation pattern: Sharpless's with its
/// optional space, the rest literally.
pub open spec fn prefix_alt(p: Seq<char>) -> Seq<char> {
    if p == "sh2"@ {
        "Sh\\s?2"@
    } else {
        regex_escaped(p)
    }
}

/// The pattern that finds designations: any prefix, longest first, an optional space or dash,
/// and one to five digits, as whole words, letters in either case.
pub open spec fn designation_pattern(cs: Seq<CatalogView>) -> Seq<char> {
    let keys = cs.map_values(|c: CatalogView| crate::parse::byte_len(c.0));
    let order = longest_first_upto(keys, cs.len() as int);
    "(?i)\\b("@ + joined(order.map_values(|i: int| prefix_alt(cs[i].0)), "|"@)
        + ")[\\s-]?(\\d{1,5})\\b"@
}

fn designation_pattern_text(cs: &Vec<Catalog>) -> (p: String)
    ensures
        p@ == designation_pattern(catalog_views(cs@)),
{
    let ghost cv = catalog_views(cs@);
    let mut keys: Vec<u128> = Vec::new();
    let mut k: usize = 0;
    while k < cs.len()
        invariant
            k <= cs@.len(),
            cv == catalog_views(cs@),
            keys@.map_values(|x: u128| x as nat) == cv.take(k as int).map_values(
                |c: CatalogView| crate::parse::byte_len(c.0),
            ),
        decreases cs.len() - k,
    {
        let n = crate::parse::utf8_len(cs[k].prefix.as_str());
        let ghost before = keys@;
        keys.push(n);
        assert(cv[k as int].0 == cs@[k as int].prefix@);
        assert(keys@.map_values(|x: u128| x as nat) =~= before.map_values(|x: u128| x as nat).push(n as nat));
        assert(cv.take(k + 1) =~= cv.take(k as int).push(cv[k as int]));
        assert(cv.take(k + 1).map_values(|c: CatalogView| crate::parse::byte_len(c.0)) =~= cv.take(k as int).map_values(
            |c: CatalogView| crate::parse::byte_len(c.0),
        ).push(crate::parse::byte_len(cv[k as int].0)));
        k = k + 1;
    }
    assert(cv.take(k as int) =~= cv);
    let order = longest_first(&keys);
    let ghost ov = order@.map_values(|i: usize| i as int);
    let mut alts: Vec<Vec<char>> = Vec::new();
    let mut j: usize = 0;
    while j < order.len()
        invariant
            j <= order@.len(),
            cv == catalog_views(cs@),
            cs@.len() == keys@.len(),
            ov == order@.map_values(|i: usize| i as int),
            forall|m: int| 0 <= m < order@.len() ==> #[trigger] order@[m] < keys@.len(),
            alts@.map_values(|w: Vec<char>| w@) == ov.take(j as int).map_values(
                |i: int| prefix_alt(cv[i].0),
            ),
        decreases order.len() - j,
    {
        let c = &cs[order[j]];
        let alt = if str_eq(c.prefix.as_str(), "sh2") {
            chars_of("Sh\\s?2")
        } else {
            chars_of(escape_regex(c.prefix.as_str()).as_str())
        };
        assert(ov[j as int] == order@[j as int] as int);
        assert(cv[ov[j as int]].0 == c.prefix@);
        assert(alt@ == prefix_alt(cv[ov[j as int]].0));
        let ghost before = alts@;
        alts.push(alt);
        assert(alts@.map_values(|w: Vec<char>| w@) =~= before.map_values(|w: Vec<char>| w@).push(alt@));
        assert(ov.take(j + 1) =~= ov.take(j as int).push(ov[j as int]));
        assert(ov.take(j + 1).map_values(|i: int| prefix_alt(cv[i].0)) =~= ov.take(j as int).map_values(
            |i: int| prefix_alt(cv[i].0),
        ).push(prefix_alt(cv[ov[j as int]].0)));
        j = j + 1;
    }
    assert(ov.take(j as int) =~= ov);
    let mut p = String::new();
    crate::text::push_str(&mut p, "(?i)\\b(");
    crate::text::push_str(&mut p, crate::apod::search::join_chars(&alts, &chars_of("|")).as_str());
    crate::text::push_str(&mut p, ")[\\s-]?(\\d{1,5})\\b");
    assert(keys@.map_values(|x: u128| x as nat) =~= cv.map_values(
        |c: CatalogView| crate::parse::byte_len(c.0),
    ));
    assert(p@ =~= designation_pattern(cv));
    p
}

/// Where the hit for designation `id` stands among those found, or -1.
pub open spec fn hit_index(found: Seq<HitView>, id: Seq<char>) -> int
    decreases found.len(),
{
    if found.len() == 0 {
        -1
    } else {
        let j = hit_index(found.drop_last(), id);
        if j >= 0 {
            j
        } else if found.last().0 == id {
            found.len() - 1
        } else {
            -1
        }
    }
}

proof fn lemma_hit_index(found: Seq<HitView>, id: Seq<char>)
    ensures
        -1 <= hit_index(found, id) < found.len(),
        hit_index(found, id) >= 0 ==> found[hit_index(found, id)].0 == id,
        forall|k: int| 0 <= k < found.len() && (hit_index(found, id) < 0 || k < hit_index(found, id))
            ==> (#[trigger] found[k]).0 != id,
    decreases found.len(),
{
    if found.len() > 0 {
        lemma_hit_index(found.drop_last(), id);
        assert forall|k: int| 0 <= k < found.len() - 1 implies found.drop_last()[k] == found[k] by {}
    }
}

/// One more sighting of a designation: counted on its hit when it has one (up to the largest
/// count a `u32` holds), otherwise a new hit with its catalogue and the words that named it.
pub open spec fn tallied(found: Seq<HitView>, id: Seq<char>, catalog: Seq<char>, name: Seq<char>) -> Seq<HitView> {
    let j = hit_index(found, id);
    if j < 0 {
        found.push((id, catalog, name, 1u32))
    } else {
        found.update(
            j,
            (found[j].0, found[j].1, found[j].2, if found[j].3 < u32::MAX {
                (found[j].3 + 1) as u32
            } else {
                u32::MAX
            }),
        )
    }
}

fn tally(found: &mut Vec<Hit>, id: &Vec<char>, catalog: &Vec<char>, name: &Vec<char>)
    ensures
        hit_views(final(found)@) == tallied(hit_views(old(found)@), id@, catalog@, name@),
{
    let ghost fv = hit_views(found@);
    proof {
        lemma_hit_index(fv, id@);
    }
    let idv = string_of(id);
    let mut j: usize = 0;
    while j < found.len() && !str_eq(found[j].id.as_str(), idv.as_str())
        invariant
            found@ == old(found)@,
            fv == hit_views(found@),
            idv@ == id@,
            j <= found@.len(),
            forall|k: int| 0 <= k < j ==> (#[trigger] found@[k]).id@ != id@,
        decreases found.len() - j,
    {
        j = j + 1;
    }
    if j == found.len() {
        assert(hit_index(fv, id@) < 0) by {
            if hit_index(fv, id@) >= 0 {
                assert(found@[hit_index(fv, id@)].id@ == id@);
            }
        }
        found.push(Hit { id: idv, catalog: string_of(catalog), name: string_of(name), hits: 1 });
        assert(hit_views(found@) =~= tallied(fv, id@, catalog@, name@));
    } else {
        assert(hit_index(fv, id@) == j) by {
            assert(found@[j as int].id@ == id@);
            if id_index_gap(fv, id@, j as int) {
                assert(fv[j as int].0 != id@);
            }
            if 0 <= hit_index(fv, id@) < j {
                assert(found@[hit_index(fv, id@)].id@ != id@);
            }
        }
        let mut item = found.remove(j);
        item.hits = item.hits.saturating_add(1);
        found.insert(j, item);
        assert(hit_views(found@) =~= tallied(fv, id@, catalog@, name@));
    }
}

spec fn id_index_gap(fv: Seq<HitView>, id: Seq<char>, j: int) -> bool {
    hit_index(fv, id) < 0 || hit_index(fv, id) > j
}

/// `s` without its whitespace.
pub open spec fn without_spaces(s: Seq<char>) -> Seq<char>
    decreases s.len(),
{
    if s.len() == 0 {
        s
    } else if crate::text::is_space(s.last()) {
        without_spaces(s.drop_last())
    } else {
        without_spaces(s.drop_last()).push(s.last())
    }
}

fn drop_spaces(v: &Vec<char>) -> (out: Vec<char>)
    ensures
        out@ == without_spaces(v@),
{
    let mut out: Vec<char> = Vec::new();
    let mut k: usize = 0;
    assert(v@.take(0) =~= Seq::<char>::empty());
    while k < v.len()
        invariant
            k <= v@.len(),
            out@ == without_spaces(v@.take(k as int)),
        decreases v.len() - k,
    {
        assert(v@.take(k + 1).drop_last() =~= v@.take(k as int));
        if !crate::text::is_whitespace(v[k]) {
            out.push(v[k]);
        }
        k = k + 1;
    }
    assert(v@.take(k as int) =~= v@);
    out
}

/// What `u32`'s `from_str` reads: an optional `+`, then one or more ASCII digits whose value
/// fits.
pub open spec fn parsed_u32(s: Seq<char>) -> Option<u32> {
    let t = plus_stripped(s);
    if t.len() > 0 && all_digits(t) && digits_value(t) <= u32::MAX {
        Some(digits_value(t) as u32)
    } else {
        None
    }
}

/// `s` without the `+` it may start with.
pub open spec fn plus_stripped(s: Seq<char>) -> Seq<char> {
    if s.len() > 0 && s[0] == '+' {
        s.skip(1)
    } else {
        s
    }
}

pub open spec fn all_digits(t: Seq<char>) -> bool {
    forall|i: int| 0 <= i < t.len() ==> is_digit(#[trigger] t[i])
}

fn parse_u32(s: &Vec<char>) -> (r: Option<u32>)
    ensures
        r == parsed_u32(s@),
{
    let start: usize = if s.len() > 0 && s[0] == '+' {
        1
    } else {
        0
    };
    let ghost t = plus_stripped(s@);
    assert(t =~= s@.skip(start as int));
    if start == s.len() {
        return None;
    }
    let mut value: u64 = 0;
    let mut i: usize = start;
    while i < s.len()
        invariant
            start <= i <= s@.len(),
            t == s@.skip(start as int),
            t == plus_stripped(s@),
            forall|j: int| 0 <= j < i - start ==> is_digit(#[trigger] t[j]),
            value == digits_value(t.take(i - start)),
            value <= u32::MAX,
        decreases s.len() - i,
    {
        assert(t[i - start] == s@[i as int]);
        if !(s[i] >= '0' && s[i] <= '9') {
            assert(!is_digit(t[i - start]));
            assert(!all_digits(t));
            return None;
        }
        let ghost before = t.take(i - start);
        assert(t.take(i - start + 1) =~= before.push(s@[i as int]));
        proof {
            lemma_digits_grow(before, s@[i as int]);
        }
        let next = value * 10 + (s[i] as u32 - '0' as u32) as u64;
        if next > 0xffff_ffff {
            proof {
                assert(next as int == digits_value(t.take(i - start + 1)));
                if all_digits(t) {
                    lemma_digits_prefix(t, i - start + 1);
                    assert(digits_value(t) > u32::MAX);
                }
            }
            return None;
        }
        value = next;
        i = i + 1;
    }
    assert(t.take(i - start) =~= t);
    Some(value as u32)
}

proof fn lemma_digits_prefix(t: Seq<char>, k: int)
    requires
        0 <= k <= t.len(),
        forall|i: int| 0 <= i < t.len() ==> is_digit(#[trigger] t[i]),
    ensures
        digits_value(t) >= digits_value(t.take(k)),
    decreases t.len() - k,
{
    if k < t.len() {
        lemma_digits_prefix(t, k + 1);
        assert(t.take(k + 1) =~= t.take(k).push(t[k]));
        lemma_digits_grow(t.take(k), t[k]);
    } else {
        assert(t.take(k) =~= t);
    }
}

/// What std's `str::to_uppercase` makes of `s`: each character's uppercase, in turn.
pub open spec fn upper_text(s: Seq<char>) -> Seq<char>
    decreases s.len(),
{
    if s.len() == 0 {
        Seq::empty()
    } else {
        upper_text(s.drop_last()) + crate::sky::uppercased(s.last())
    }
}

fn uppercase_chars(v: &Vec<char>) -> (out: Vec<char>)
    ensures
        out@ == upper_text(v@),
{
    let mut out = String::new();
    let mut k: usize = 0;
    assert(v@.take(0) =~= Seq::<char>::empty());
    while k < v.len()
        invariant
            k <= v@.len(),
            out@ == upper_text(v@.take(k as int)),
        decreases v.len() - k,
    {
        assert(v@.take(k + 1).drop_last() =~= v@.take(k as int));
        let u = crate::sky::upper_of(v[k]);
        crate::text::push_str(&mut out, u.as_str());
        k = k + 1;
    }
    assert(v@.take(k as int) =~= v@);
    chars_of(out.as_str())
}

/// A character that belongs to a word: an ASCII letter or digit, or any character beyond ASCII.
pub open spec fn word_char(c: char) -> bool {
    crate::text::is_ascii_alnum(c) || (c as u32) >= 0x80
}

/// Whether phrase `n` stands at `start` in `h`: letters compared without ASCII case, as whole
/// words, and clear of every span already claimed.
pub open spec fn span_at_c(h: Seq<char>, n: Seq<char>, claimed: Seq<(usize, usize)>, start: int) -> bool {
    let end = start + n.len();
    &&& 0 <= start
    &&& end <= h.len()
    &&& forall|k: int| 0 <= k < n.len() ==> crate::text::lower(#[trigger] h[start + k]) == crate::text::lower(n[k])
    &&& !(start > 0 && word_char(h[start - 1]))
    &&& !(end < h.len() && word_char(h[end]))
    &&& forall|c: int| 0 <= c < claimed.len() ==> !(start < (#[trigger] claimed[c]).1 && end > claimed[c].0)
}

/// The first start from `t` on where the phrase stands, or -1.
pub open spec fn first_span_from(h: Seq<char>, n: Seq<char>, claimed: Seq<(usize, usize)>, t: int) -> int
    decreases h.len() + 1 - t,
{
    if t < 0 || t > h.len() {
        -1
    } else if span_at_c(h, n, claimed, t) {
        t
    } else {
        first_span_from(h, n, claimed, t + 1)
    }
}

fn span_here_c(h: &Vec<char>, n: &Vec<char>, claimed: &Vec<(usize, usize)>, start: usize) -> (r: bool)
    requires
        start + n@.len() <= h@.len(),
    ensures
        r == span_at_c(h@, n@, claimed@, start as int),
{
    let hl = h.len();
    let end = start + n.len();
    let mut k: usize = 0;
    while k < n.len()
        invariant
            start + n@.len() <= h@.len(),
            end == start + n@.len(),
            k <= n@.len(),
            forall|j: int| 0 <= j < k ==> crate::text::lower(#[trigger] h@[start + j]) == crate::text::lower(n@[j]),
        decreases n.len() - k,
    {
        if crate::text::to_lower(h[start + k]) != crate::text::to_lower(n[k]) {
            assert(crate::text::lower(h@[start + k as int]) != crate::text::lower(n@[k as int]));
            return false;
        }
        k = k + 1;
    }
    if start > 0 && is_word_char(h[start - 1]) {
        return false;
    }
    if end < h.len() && is_word_char(h[end]) {
        return false;
    }
    let mut c: usize = 0;
    while c < claimed.len()
        invariant
            end == start + n@.len(),
            c <= claimed@.len(),
            forall|j: int| 0 <= j < c ==> !(start < (#[trigger] claimed@[j]).1 && end > claimed@[j].0),
        decreases claimed.len() - c,
    {
        let (from, to) = claimed[c];
        if start < to && end > from {
            assert(start < claimed@[c as int].1 && end > claimed@[c as int].0);
            return false;
        }
        c = c + 1;
    }
    true
}

fn is_word_char(c: char) -> (b: bool)
    ensures
        b == word_char(c),
{
    (c >= '0' && c <= '9') || (c >= 'A' && c <= 'Z') || (c >= 'a' && c <= 'z') || (c as u32) >= 0x80
}

fn find_span_from(h: &Vec<char>, n: &Vec<char>, claimed: &Vec<(usize, usize)>, from: usize) -> (r: Option<usize>)
    requires
        n@.len() > 0,
        from <= h@.len(),
    ensures
        match r {
            Some(t) => t as int == first_span_from(h@, n@, claimed@, from as int) && t + n@.len() <= h@.len(),
            None => first_span_from(h@, n@, claimed@, from as int) == -1,
        },
{
    let hl = h.len();
    let mut t: usize = from;
    while t < hl && n.len() <= hl - t
        invariant
            hl == h@.len(),
            from <= t <= h@.len(),
            first_span_from(h@, n@, claimed@, from as int) == first_span_from(h@, n@, claimed@, t as int),
        decreases h.len() - t,
    {
        if span_here_c(h, n, claimed, t) {
            return Some(t);
        }
        t = t + 1;
    }
    proof {
        lemma_no_span_after(h@, n@, claimed@, t as int);
    }
    None
}

proof fn lemma_no_span_after(h: Seq<char>, n: Seq<char>, claimed: Seq<(usize, usize)>, t: int)
    requires
        n.len() > 0,
        0 <= t <= h.len(),
        t >= h.len() || t + n.len() > h.len(),
    ensures
        first_span_from(h, n, claimed, t) == -1,
    decreases h.len() + 1 - t,
{
    assert(!span_at_c(h, n, claimed, t));
    if t < h.len() {
        lemma_no_span_after(h, n, claimed, t + 1);
    } else {
        assert(first_span_from(h, n, claimed, t + 1) == -1);
    }
}

/// Every place a common name stands, from `from` on, each claimed as it is found and counted
/// against its designation. Each next place is searched for after the one before: any earlier
/// start was no place before the claim and is none after, and one inside the claim overlaps it.
pub open spec fn name_places(
    found: Seq<HitView>,
    claimed: Seq<(usize, usize)>,
    h: Seq<char>,
    n: ByNameView,
    from: int,
) -> (Seq<HitView>, Seq<(usize, usize)>)
    decreases h.len() + 1 - from,
{
    let t = first_span_from(h, n.0, claimed, from);
    if n.0.len() == 0 || t < 0 {
        (found, claimed)
    } else {
        proof {
            lemma_first_span_at_least(h, n.0, claimed, from);
            assert(t >= from);
            assert(t + n.0.len() <= h.len());
        }
        let end = t + n.0.len();
        name_places(
            tallied(found, n.1, n.2, h.subrange(t, end)),
            claimed.push((t as usize, end as usize)),
            h,
            n,
            end,
        )
    }
}

pub proof fn lemma_first_span_at_least(h: Seq<char>, n: Seq<char>, claimed: Seq<(usize, usize)>, t: int)
    ensures
        first_span_from(h, n, claimed, t) == -1 || (t <= first_span_from(h, n, claimed, t) && span_at_c(
            h,
            n,
            claimed,
            first_span_from(h, n, claimed, t),
        )),
    decreases h.len() + 1 - t,
{
    if 0 <= t <= h.len() && !span_at_c(h, n, claimed, t) {
        lemma_first_span_at_least(h, n, claimed, t + 1);
    }
}

/// Where the catalogue written with `prefix` stands among the catalogues, or -1.
pub open spec fn catalog_index(cs: Seq<CatalogView>, prefix: Seq<char>) -> int
    decreases cs.len(),
{
    if cs.len() == 0 {
        -1
    } else {
        let j = catalog_index(cs.drop_last(), prefix);
        if j >= 0 {
            j
        } else if cs.last().0 == prefix {
            cs.len() - 1
        } else {
            -1
        }
    }
}

proof fn lemma_catalog_index(cs: Seq<CatalogView>, prefix: Seq<char>)
    ensures
        -1 <= catalog_index(cs, prefix) < cs.len(),
        catalog_index(cs, prefix) >= 0 ==> cs[catalog_index(cs, prefix)].0 == prefix,
        forall|k: int| 0 <= k < cs.len() && (catalog_index(cs, prefix) < 0 || k < catalog_index(cs, prefix))
            ==> (#[trigger] cs[k]).0 != prefix,
    decreases cs.len(),
{
    if cs.len() > 0 {
        lemma_catalog_index(cs.drop_last(), prefix);
        assert forall|k: int| 0 <= k < cs.len() - 1 implies cs.drop_last()[k] == cs[k] by {}
    }
}

/// A match's whole span joins the claimed spans.
pub open spec fn claimed_with(claimed: Seq<(usize, usize)>, g: Seq<Option<(int, int)>>) -> Seq<(usize, usize)> {
    if has_group(g, 0) {
        claimed.push((span_start(g[0]) as usize, span_end(g[0]) as usize))
    } else {
        claimed
    }
}

/// What one designation match adds: its span claimed, and, where its prefix names a
/// catalogue and its number is one of that catalogue's, a sighting of the designation.
pub open spec fn designation_step(
    found: Seq<HitView>,
    claimed: Seq<(usize, usize)>,
    g: Seq<Option<(int, int)>>,
    h: Seq<char>,
    cs: Seq<CatalogView>,
) -> (Seq<HitView>, Seq<(usize, usize)>) {
    let claimed1 = claimed_with(claimed, g);
    let prefix = without_spaces(lowercased(group_text(h, g, 1)));
    let c = catalog_index(cs, prefix);
    if c < 0 {
        (found, claimed1)
    } else {
        match parsed_u32(group_text(h, g, 2)) {
            None => (found, claimed1),
            Some(n) => if n == 0 || n > cs[c].3 {
                (found, claimed1)
            } else {
                (
                    tallied(
                        found,
                        crate::text::replaced(cs[c].2, "{}"@, crate::text::decimal(n as nat)),
                        cs[c].1,
                        group_text(h, g, 0),
                    ),
                    claimed1,
                )
            },
        }
    }
}

pub open spec fn designations_upto(
    found: Seq<HitView>,
    claimed: Seq<(usize, usize)>,
    caps: Seq<Seq<Option<(int, int)>>>,
    h: Seq<char>,
    cs: Seq<CatalogView>,
    k: int,
) -> (Seq<HitView>, Seq<(usize, usize)>)
    decreases k,
{
    if k <= 0 {
        (found, claimed)
    } else {
        let r = designations_upto(found, claimed, caps, h, cs, k - 1);
        designation_step(r.0, r.1, caps[k - 1], h, cs)
    }
}

/// What one supernova or comet match adds: its span claimed, and a sighting of the designation
/// it spells, in capitals after `lead`.
pub open spec fn marked_step(
    found: Seq<HitView>,
    claimed: Seq<(usize, usize)>,
    g: Seq<Option<(int, int)>>,
    h: Seq<char>,
    lead: Seq<char>,
    catalog: Seq<char>,
) -> (Seq<HitView>, Seq<(usize, usize)>) {
    (
        tallied(found, lead + upper_text(group_text(h, g, 1)), catalog, group_text(h, g, 0)),
        claimed_with(claimed, g),
    )
}

pub open spec fn marked_upto(
    found: Seq<HitView>,
    claimed: Seq<(usize, usize)>,
    caps: Seq<Seq<Option<(int, int)>>>,
    h: Seq<char>,
    lead: Seq<char>,
    catalog: Seq<char>,
    k: int,
) -> (Seq<HitView>, Seq<(usize, usize)>)
    decreases k,
{
    if k <= 0 {
        (found, claimed)
    } else {
        let r = marked_upto(found, claimed, caps, h, lead, catalog, k - 1);
        marked_step(r.0, r.1, caps[k - 1], h, lead, catalog)
    }
}

pub open spec fn names_upto(
    found: Seq<HitView>,
    claimed: Seq<(usize, usize)>,
    h: Seq<char>,
    ns: Seq<ByNameView>,
    order: Seq<int>,
    k: int,
) -> (Seq<HitView>, Seq<(usize, usize)>)
    decreases k,
{
    if k <= 0 {
        (found, claimed)
    } else {
        let r = names_upto(found, claimed, h, ns, order, k - 1);
        name_places(r.0, r.1, h, ns[order[k - 1]], 0)
    }
}

/// The pattern of a supernova designation.
pub open spec fn supernova_pattern() -> Seq<char> {
    "(?i)\\bSN\\s?(\\d{4}[A-Za-z]{0,2})\\b"@
}

/// The pattern of a comet designation.
pub open spec fn comet_pattern() -> Seq<char> {
    "\\b([CP]/\\d{4}\\s?[A-Z]\\d{0,2})\\b"@
}

/// Every object a text names: catalogue designations first, then supernovae, then comets, then
/// the common names, longest first; each sighting counted against its designation, and no text
/// read twice.
pub open spec fn hits_in(h: Seq<char>, cs: Seq<CatalogView>, ns: Seq<ByNameView>) -> Seq<HitView> {
    let c1 = crate::pattern::captures_of(designation_pattern(cs), h);
    let r1 = designations_upto(Seq::empty(), Seq::empty(), c1, h, cs, c1.len() as int);
    let c2 = crate::pattern::captures_of(supernova_pattern(), h);
    let r2 = marked_upto(r1.0, r1.1, c2, h, "SN "@, "supernova"@, c2.len() as int);
    let c3 = crate::pattern::captures_of(comet_pattern(), h);
    let r3 = marked_upto(r2.0, r2.1, c3, h, Seq::empty(), "comet"@, c3.len() as int);
    let keys = ns.map_values(|n: ByNameView| crate::parse::byte_len(n.0));
    let order = longest_first_upto(keys, ns.len() as int);
    names_upto(r3.0, r3.1, h, ns, order, order.len() as int).0
}

fn claim_whole(claimed: &mut Vec<(usize, usize)>, groups: &Vec<Option<Span>>)
    ensures
        final(claimed)@ == claimed_with(old(claimed)@, spans_view(groups@)),
{
    if groups.len() > 0 {
        assert(spans_view(groups@)[0] == span_view(groups@[0]));
        match groups[0] {
            Some((a, b)) => claimed.push((a, b)),
            None => {},
        }
    }
}

fn designation_at(
    found: &mut Vec<Hit>,
    claimed: &mut Vec<(usize, usize)>,
    groups: &Vec<Option<Span>>,
    h: &Vec<char>,
    cs: &Vec<Catalog>,
)
    requires
        groups_in(spans_view(groups@), h@.len() as int),
    ensures
        (hit_views(final(found)@), final(claimed)@) == designation_step(
            hit_views(old(found)@),
            old(claimed)@,
            spans_view(groups@),
            h@,
            catalog_views(cs@),
        ),
{
    let ghost cv = catalog_views(cs@);
    claim_whole(claimed, groups);
    let raw = group_of(h, groups, 1);
    let prefix = drop_spaces(&chars_of(lowercase(string_of(&raw).as_str()).as_str()));
    proof {
        lemma_catalog_index(cv, prefix@);
    }
    let mut c: usize = 0;
    while c < cs.len() && !crate::text::chars_eq(&chars_of(cs[c].prefix.as_str()), &prefix)
        invariant
            c <= cs@.len(),
            cv == catalog_views(cs@),
            forall|k: int| 0 <= k < c ==> (#[trigger] cv[k]).0 != prefix@,
        decreases cs.len() - c,
    {
        assert(cv[c as int].0 == cs@[c as int].prefix@);
        c = c + 1;
    }
    if c == cs.len() {
        assert(catalog_index(cv, prefix@) < 0) by {
            if catalog_index(cv, prefix@) >= 0 {
                assert(cv[catalog_index(cv, prefix@)].0 == prefix@);
            }
        }
        return;
    }
    assert(cv[c as int].0 == cs@[c as int].prefix@);
    assert(catalog_index(cv, prefix@) == c) by {
        if catalog_index(cv, prefix@) < 0 || catalog_index(cv, prefix@) > c {
            assert(cv[c as int].0 != prefix@);
        }
        if 0 <= catalog_index(cv, prefix@) < c {
            assert(cv[catalog_index(cv, prefix@)].0 != prefix@);
        }
    }
    let number = match parse_u32(&group_of(h, groups, 2)) {
        Some(n) => n,
        None => return,
    };
    if number == 0 || number > cs[c].max {
        return;
    }
    let mut digits = String::new();
    crate::text::push_decimal(&mut digits, number as u64);
    proof {
        reveal_strlit("{}");
    }
    let id = crate::text::replace(cs[c].format.as_str(), "{}", digits.as_str());
    let name = group_of(h, groups, 0);
    tally(found, &chars_of(id.as_str()), &chars_of(cs[c].catalog.as_str()), &name);
}

fn marked_at(
    found: &mut Vec<Hit>,
    claimed: &mut Vec<(usize, usize)>,
    groups: &Vec<Option<Span>>,
    h: &Vec<char>,
    lead: &str,
    catalog: &str,
)
    requires
        groups_in(spans_view(groups@), h@.len() as int),
    ensures
        (hit_views(final(found)@), final(claimed)@) == marked_step(
            hit_views(old(found)@),
            old(claimed)@,
            spans_view(groups@),
            h@,
            lead@,
            catalog@,
        ),
{
    claim_whole(claimed, groups);
    let upper = uppercase_chars(&group_of(h, groups, 1));
    let mut id = chars_of(lead);
    let mut k: usize = 0;
    let ghost l = id@;
    while k < upper.len()
        invariant
            k <= upper@.len(),
            l == lead@,
            id@ == l + upper@.take(k as int),
        decreases upper.len() - k,
    {
        id.push(upper[k]);
        assert(upper@.take(k + 1) =~= upper@.take(k as int).push(upper@[k as int]));
        k = k + 1;
    }
    assert(upper@.take(k as int) =~= upper@);
    let name = group_of(h, groups, 0);
    tally(found, &id, &chars_of(catalog), &name);
}

proof fn lemma_caps_groups_in(caps: Seq<Vec<Option<Span>>>, len: nat, k: int)
    requires
        well_placed(captures_view(caps), len),
        0 <= k < caps.len(),
    ensures
        groups_in(spans_view(caps[k]@), len as int),
{
    let cv = captures_view(caps);
    assert(cv[k] == spans_view(caps[k]@));
    assert forall|g: int| 0 <= g < spans_view(caps[k]@).len() && (#[trigger] spans_view(caps[k]@)[g]) is Some implies 0
        <= span_start(spans_view(caps[k]@)[g]) <= span_end(spans_view(caps[k]@)[g]) <= len as int by {
        assert(cv[k][g] == spans_view(caps[k]@)[g]);
    }
}

fn places_of(found: &mut Vec<Hit>, claimed: &mut Vec<(usize, usize)>, h: &Vec<char>, n: &ByName)
    ensures
        (hit_views(final(found)@), final(claimed)@) == name_places(
            hit_views(old(found)@),
            old(claimed)@,
            h@,
            (n.phrase@, n.id@, n.catalog@),
            0,
        ),
{
    let phrase = chars_of(n.phrase.as_str());
    let id = chars_of(n.id.as_str());
    let catalog = chars_of(n.catalog.as_str());
    let ghost nv = (n.phrase@, n.id@, n.catalog@);
    if phrase.len() == 0 {
        return;
    }
    let mut from: usize = 0;
    while from <= h.len()
        invariant
            nv == (n.phrase@, n.id@, n.catalog@),
            phrase@ == nv.0,
            id@ == nv.1,
            catalog@ == nv.2,
            nv.0.len() > 0,
            name_places(hit_views(old(found)@), old(claimed)@, h@, nv, 0) == name_places(
                hit_views(found@),
                claimed@,
                h@,
                nv,
                from as int,
            ),
        decreases h@.len() + 1 - from,
    {
        let ghost fv = hit_views(found@);
        let ghost cl = claimed@;
        proof {
            lemma_first_span_at_least(h@, nv.0, cl, from as int);
        }
        match find_span_from(h, &phrase, claimed, from) {
            None => {
                assert(name_places(fv, cl, h@, nv, from as int) == (fv, cl));
                return;
            },
            Some(t) => {
                let end = t + phrase.len();
                let name = slice_chars(h, t, end);
                tally(found, &id, &catalog, &name);
                claimed.push((t, end));
                assert(name_places(hit_views(old(found)@), old(claimed)@, h@, nv, 0) == name_places(
                    hit_views(found@),
                    claimed@,
                    h@,
                    nv,
                    end as int,
                ));
                from = end;
            },
        }
    }
    assert(first_span_from(h@, nv.0, claimed@, from as int) == -1);
    assert(name_places(hit_views(found@), claimed@, h@, nv, from as int) == (hit_views(found@), claimed@));
}

/// Every object `text` names, read with the given catalogues and common names.
pub fn in_text(text: &str, catalogs: &Vec<Catalog>, names: &Vec<ByName>) -> (hits: Vec<Hit>)
    ensures
        hit_views(hits@) == hits_in(text@, catalog_views(catalogs@), by_name_views(names@)),
{
    let h = chars_of(text);
    let ghost cv = catalog_views(catalogs@);
    let ghost nv = by_name_views(names@);
    let mut found: Vec<Hit> = Vec::new();
    let mut claimed: Vec<(usize, usize)> = Vec::new();
    assert(hit_views(found@) =~= Seq::<HitView>::empty());
    assert(claimed@ =~= Seq::<(usize, usize)>::empty());
    let pattern = designation_pattern_text(catalogs);
    let c1 = crate::pattern::captures(pattern.as_str(), text);
    let ghost c1v = captures_view(c1@);
    let mut k: usize = 0;
    while k < c1.len()
        invariant
            k <= c1@.len(),
            h@ == text@,
            cv == catalog_views(catalogs@),
            c1v == captures_view(c1@),
            well_placed(c1v, text@.len()),
            (hit_views(found@), claimed@) == designations_upto(Seq::empty(), Seq::empty(), c1v, h@, cv, k as int),
        decreases c1.len() - k,
    {
        proof {
            lemma_caps_groups_in(c1@, text@.len(), k as int);
        }
        assert(c1v[k as int] == spans_view(c1@[k as int]@));
        designation_at(&mut found, &mut claimed, &c1[k], &h, catalogs);
        k = k + 1;
    }
    let ghost r1 = (hit_views(found@), claimed@);
    assert(c1v == crate::pattern::captures_of(designation_pattern(cv), text@));
    assert(r1 == designations_upto(Seq::empty(), Seq::empty(), c1v, text@, cv, c1v.len() as int));
    let c2 = crate::pattern::captures("(?i)\\bSN\\s?(\\d{4}[A-Za-z]{0,2})\\b", text);
    let ghost c2v = captures_view(c2@);
    let mut k: usize = 0;
    while k < c2.len()
        invariant
            k <= c2@.len(),
            h@ == text@,
            c2v == captures_view(c2@),
            well_placed(c2v, text@.len()),
            (hit_views(found@), claimed@) == marked_upto(r1.0, r1.1, c2v, h@, "SN "@, "supernova"@, k as int),
        decreases c2.len() - k,
    {
        proof {
            lemma_caps_groups_in(c2@, text@.len(), k as int);
        }
        assert(c2v[k as int] == spans_view(c2@[k as int]@));
        marked_at(&mut found, &mut claimed, &c2[k], &h, "SN ", "supernova");
        k = k + 1;
    }
    let ghost r2 = (hit_views(found@), claimed@);
    proof {
        reveal_strlit("(?i)\\bSN\\s?(\\d{4}[A-Za-z]{0,2})\\b");
    }
    assert(c2v == crate::pattern::captures_of(supernova_pattern(), text@));
    assert(r2 == marked_upto(r1.0, r1.1, c2v, text@, "SN "@, "supernova"@, c2v.len() as int));
    let c3 = crate::pattern::captures("\\b([CP]/\\d{4}\\s?[A-Z]\\d{0,2})\\b", text);
    let ghost c3v = captures_view(c3@);
    let mut k: usize = 0;
    while k < c3.len()
        invariant
            k <= c3@.len(),
            h@ == text@,
            c3v == captures_view(c3@),
            well_placed(c3v, text@.len()),
            (hit_views(found@), claimed@) == marked_upto(r2.0, r2.1, c3v, h@, ""@, "comet"@, k as int),
        decreases c3.len() - k,
    {
        proof {
            lemma_caps_groups_in(c3@, text@.len(), k as int);
        }
        assert(c3v[k as int] == spans_view(c3@[k as int]@));
        marked_at(&mut found, &mut claimed, &c3[k], &h, "", "comet");
        k = k + 1;
    }
    let ghost r3 = (hit_views(found@), claimed@);
    assert(c3v == crate::pattern::captures_of(comet_pattern(), text@));
    assert(r3 == marked_upto(r2.0, r2.1, c3v, text@, Seq::empty(), "comet"@, c3v.len() as int)) by {
        reveal_strlit("");
        assert(""@ =~= Seq::<char>::empty());
    }
    let mut keys: Vec<u128> = Vec::new();
    let mut j: usize = 0;
    while j < names.len()
        invariant
            j <= names@.len(),
            nv == by_name_views(names@),
            keys@.map_values(|x: u128| x as nat) == nv.take(j as int).map_values(
                |n: ByNameView| crate::parse::byte_len(n.0),
            ),
        decreases names.len() - j,
    {
        let len = crate::parse::utf8_len(names[j].phrase.as_str());
        let ghost before = keys@;
        keys.push(len);
        assert(nv[j as int].0 == names@[j as int].phrase@);
        assert(keys@.map_values(|x: u128| x as nat) =~= before.map_values(|x: u128| x as nat).push(len as nat));
        assert(nv.take(j + 1) =~= nv.take(j as int).push(nv[j as int]));
        assert(nv.take(j + 1).map_values(|n: ByNameView| crate::parse::byte_len(n.0)) =~= nv.take(j as int).map_values(
            |n: ByNameView| crate::parse::byte_len(n.0),
        ).push(crate::parse::byte_len(nv[j as int].0)));
        j = j + 1;
    }
    assert(nv.take(j as int) =~= nv);
    let order = longest_first(&keys);
    let ghost ov = order@.map_values(|i: usize| i as int);
    assert(keys@.map_values(|x: u128| x as nat) =~= nv.map_values(|n: ByNameView| crate::parse::byte_len(n.0)));
    assert(ov == longest_first_upto(nv.map_values(|n: ByNameView| crate::parse::byte_len(n.0)), nv.len() as int));
    let mut m: usize = 0;
    while m < order.len()
        invariant
            m <= order@.len(),
            h@ == text@,
            nv == by_name_views(names@),
            names@.len() == keys@.len(),
            ov == order@.map_values(|i: usize| i as int),
            forall|q: int| 0 <= q < order@.len() ==> #[trigger] order@[q] < keys@.len(),
            (hit_views(found@), claimed@) == names_upto(r3.0, r3.1, h@, nv, ov, m as int),
        decreases order.len() - m,
    {
        assert(ov[m as int] == order@[m as int] as int);
        assert(nv[ov[m as int]] == (names@[order@[m as int] as int].phrase@, names@[order@[m as int] as int].id@, names@[order@[m as int] as int].catalog@));
        places_of(&mut found, &mut claimed, &h, &names[order[m]]);
        m = m + 1;
    }
    assert(hit_views(found@) == names_upto(r3.0, r3.1, text@, nv, ov, ov.len() as int).0);
    found
}

/// An entry's keywords, one space between each, as they are read for objects.
pub open spec fn keywords_line(entry: crate::entry::ApodEntry) -> Seq<char> {
    joined(entry.keywords@.map_values(|k: String| k@), " "@)
}

/// The objects an entry's own words name, read with the given catalogues and common names:
/// its title, then its keywords, then its explanation, each object once, in rank order.
pub fn named(entry: &crate::entry::ApodEntry, catalogs: &Vec<Catalog>, names: &Vec<ByName>) -> (out: Vec<Named>)
    ensures
        ranked(named_views(out@)),
        named_views(out@).to_multiset() == gathered(
            hits_in(entry.title@, catalog_views(catalogs@), by_name_views(names@)),
            hits_in(keywords_line(*entry), catalog_views(catalogs@), by_name_views(names@)),
            hits_in(entry.explanation_text@, catalog_views(catalogs@), by_name_views(names@)),
        ).to_multiset(),
{
    let mut words: Vec<Vec<char>> = Vec::new();
    let mut k: usize = 0;
    while k < entry.keywords.len()
        invariant
            k <= entry.keywords@.len(),
            words@.map_values(|w: Vec<char>| w@) == entry.keywords@.take(k as int).map_values(|s: String| s@),
        decreases entry.keywords.len() - k,
    {
        let ghost before = words@;
        words.push(chars_of(entry.keywords[k].as_str()));
        assert(words@.map_values(|w: Vec<char>| w@) =~= before.map_values(|w: Vec<char>| w@).push(
            entry.keywords@[k as int]@,
        ));
        assert(entry.keywords@.take(k + 1) =~= entry.keywords@.take(k as int).push(entry.keywords@[k as int]));
        k = k + 1;
    }
    assert(entry.keywords@.take(k as int) =~= entry.keywords@);
    let line = crate::apod::search::join_chars(&words, &chars_of(" "));
    let title = in_text(entry.title.as_str(), catalogs, names);
    let keywords = in_text(line.as_str(), catalogs, names);
    let explanation = in_text(entry.explanation_text.as_str(), catalogs, names);
    named_from_hits(&title, &keywords, &explanation)
}

/// What `named` returns names each object once: any list holding the same objects as the
/// gathered ones does, since those have distinct ids.
pub proof fn law_named_lists_each_object_once(
    out: Seq<NamedView>,
    title: Seq<HitView>,
    keywords: Seq<HitView>,
    explanation: Seq<HitView>,
)
    requires
        out.to_multiset() == gathered(title, keywords, explanation).to_multiset(),
    ensures
        ids_distinct(out),
{
    broadcast use vstd::seq_lib::group_to_multiset_ensures;

    let g = gathered(title, keywords, explanation);
    law_each_object_once(title, keywords, explanation);
    assert(g.no_duplicates()) by {
        assert forall|i: int, j: int| 0 <= i < g.len() && 0 <= j < g.len() && i != j implies g[i] != g[j] by {
            if i < j {
                assert(g[i].0 != g[j].0);
            } else {
                assert(g[j].0 != g[i].0);
            }
        }
    }
    g.lemma_multiset_has_no_duplicates();
    out.lemma_multiset_has_no_duplicates_conv();
    assert forall|i: int, j: int| 0 <= i < j < out.len() implies (#[trigger] out[i]).0 != (#[trigger] out[j]).0 by {
        assert(out.contains(out[i]));
        assert(out.contains(out[j]));
        assert(out.to_multiset().count(out[i]) > 0);
        assert(out.to_multiset().count(out[j]) > 0);
        assert(g.to_multiset().count(out[i]) > 0);
        assert(g.to_multiset().count(out[j]) > 0);
        assert(g.contains(out[i]));
        assert(g.contains(out[j]));
        let p = choose|p: int| 0 <= p < g.len() && g[p] == out[i];
        let q = choose|q: int| 0 <= q < g.len() && g[q] == out[j];
        assert(out[i] != out[j]);
        assert(p != q);
        if p < q {
            assert(g[p].0 != g[q].0);
        } else {
            assert(g[q].0 != g[p].0);
        }
    }
}

} // verus!
