//! The attribution block of a page: who is credited, in which role, and whether the picture is
//! under copyright or a licence.
use vstd::prelude::*;

use crate::entry::{Credit, joined};
use crate::parse::{container_of, find_container, inner_text};
use crate::parse::dom::{root_element, root_from, text_below};
use crate::html::{DomItem, Flat, NodeView, PieceView, collapse, collapsed, flattened, min_int, flatten, items_view, sliced, str_views, stop_point, subtree_end, end_of};
use crate::pattern::{
    Span, captures, captures_of, captures_view, span_end, span_start, span_view, well_placed,
};
use crate::text::{alphanumeric, chars_eq, chars_of, contains_chars, has_seq, is_alphanumeric, is_space, is_text, is_whitespace, lower_all, lower_chars, push_range, push_str, slice_chars, string_of, strip_trail_set, strip_trailing, trim, trim_chars, trim_end, skip_space_back, find_first_seq, first_occurrence};

verus! {

/// The words APOD builds its attribution labels from.
pub open spec fn role_words() -> Seq<Seq<char>> {
    seq![
        "acknowledgement"@, "acknowledgment"@, "additional"@, "animation"@, "audio"@, "capture"@,
        "composition"@, "compositing"@, "copyright"@, "courtesy"@, "credit"@, "credits"@, "data"@,
        "design"@, "digital"@, "editing"@, "illustration"@, "image"@, "images"@, "licence"@,
        "license"@, "montage"@, "mosaic"@, "music"@, "narration"@, "photo"@, "photograph"@,
        "photography"@, "processing"@, "production"@, "science"@, "simulation"@, "sonification"@,
        "sound"@, "text"@, "translation"@, "video"@, "visualisation"@, "visualization"@,
        "writing"@,
    ]
}

/// The words APOD builds its attribution labels from.
fn role_word_list() -> (ws: Vec<&'static str>)
    ensures
        str_views(ws@) == role_words(),
{
    let ws = vec![
        "acknowledgement", "acknowledgment", "additional", "animation", "audio", "capture",
        "composition", "compositing", "copyright", "courtesy", "credit", "credits", "data",
        "design", "digital", "editing", "illustration", "image", "images", "licence", "license",
        "montage", "mosaic", "music", "narration", "photo", "photograph", "photography",
        "processing", "production", "science", "simulation", "sonification", "sound", "text",
        "translation", "video", "visualisation", "visualization", "writing",
    ];
    assert(str_views(ws@) =~= role_words());
    ws
}

/// The role words joined into one alternation.
pub open spec fn alternation() -> Seq<char> {
    joined(role_words(), "|"@)
}

/// A run of role words: up to five, joined by spaces, `&`, `/`, `,`, `-` or `and`.
pub open spec fn run_pattern() -> Seq<char> {
    "\\b(?:"@ + alternation() + ")(?:[\\s&/,-]+(?:and[\\s]+)?(?:"@ + alternation()
        + ")\\b){0,4}"@
}

/// A label: a run of role words, perhaps a note in brackets, then a colon or a spaced dash.
pub open spec fn label_pattern() -> Seq<char> {
    "(?i)"@ + run_pattern() + "(?:\\s*\\([^)]*\\))?(?:\\s*:\\s*|\\s+[-\\x{2013}\\x{2014}]\\s+)"@
}

/// A label without its punctuation, at the start of a text.
pub open spec fn bare_label_pattern() -> Seq<char> {
    "(?i)^\\s*"@ + run_pattern() + "\\s+"@
}

/// A note in brackets at the end of a label.
pub open spec fn note_pattern() -> Seq<char> {
    "\\s*\\([^)]*\\)$"@
}

/// A link to a licence.
pub open spec fn license_pattern() -> Seq<char> {
    "(?i)href=\"(https?://(?:[^\"]*\\.)?(?:creativecommons\\.org|opensource\\.org)/[^\"]*)\""@
}

/// Builds the pattern of a run of role words.
pub fn role_run() -> (p: String)
    ensures
        p@ == run_pattern(),
{
    let ws = role_word_list();
    let mut words = String::new();
    let mut i: usize = 0;
    while i < ws.len()
        invariant
            i <= ws@.len(),
            str_views(ws@) == role_words(),
            words@ == joined(role_words().take(i as int), "|"@),
        decreases ws.len() - i,
    {
        assert(role_words().take(i + 1).drop_last() =~= role_words().take(i as int));
        if i > 0 {
            push_str(&mut words, "|");
        }
        push_str(&mut words, ws[i]);
        i = i + 1;
    }
    assert(role_words().take(i as int) =~= role_words());
    let mut p = String::new();
    push_str(&mut p, "\\b(?:");
    push_str(&mut p, words.as_str());
    push_str(&mut p, ")(?:[\\s&/,-]+(?:and[\\s]+)?(?:");
    push_str(&mut p, words.as_str());
    push_str(&mut p, ")\\b){0,4}");
    p
}

fn label_regex() -> (p: String)
    ensures
        p@ == label_pattern(),
{
    let mut p = String::new();
    push_str(&mut p, "(?i)");
    push_str(&mut p, role_run().as_str());
    push_str(&mut p, "(?:\\s*\\([^)]*\\))?(?:\\s*:\\s*|\\s+[-\\x{2013}\\x{2014}]\\s+)");
    p
}

fn bare_label_regex() -> (p: String)
    ensures
        p@ == bare_label_pattern(),
{
    let mut p = String::new();
    push_str(&mut p, "(?i)^\\s*");
    push_str(&mut p, role_run().as_str());
    push_str(&mut p, "\\s+");
    p
}

/// Words that make a label open the credit block rather than continue it.
pub open spec fn credit_words() -> Seq<Seq<char>> {
    seq!["credit"@, "credits"@, "copyright"@, "courtesy"@]
}

fn credit_word_list() -> (ws: Vec<&'static str>)
    ensures
        str_views(ws@) == credit_words(),
{
    let ws = vec!["credit", "credits", "copyright", "courtesy"];
    assert(str_views(ws@) =~= credit_words());
    ws
}

/// `s` cut at every character that is not alphanumeric (`str::split` on such characters):
/// the pieces between them, empty ones included.
pub open spec fn pieces(s: Seq<char>) -> Seq<Seq<char>>
    decreases s.len(),
{
    if s.len() == 0 {
        seq![Seq::empty()]
    } else {
        let p = pieces(s.drop_last());
        if alphanumeric(s.last()) {
            p.update(p.len() - 1, p.last().push(s.last()))
        } else {
            p.push(Seq::empty())
        }
    }
}

proof fn lemma_pieces_nonempty(s: Seq<char>)
    ensures
        pieces(s).len() >= 1,
    decreases s.len(),
{
    if s.len() > 0 {
        lemma_pieces_nonempty(s.drop_last());
    }
}

pub open spec fn chars_views(v: Seq<Vec<char>>) -> Seq<Seq<char>> {
    v.map_values(|w: Vec<char>| w@)
}

/// The pieces of `v` between characters that are not alphanumeric.
pub fn pieces_of(v: &Vec<char>) -> (out: Vec<Vec<char>>)
    ensures
        chars_views(out@) == pieces(v@),
{
    let mut out: Vec<Vec<char>> = Vec::new();
    let mut cur: Vec<char> = Vec::new();
    let mut i: usize = 0;
    assert(v@.take(0) =~= Seq::<char>::empty());
    while i < v.len()
        invariant
            i <= v@.len(),
            chars_views(out@).push(cur@) == pieces(v@.take(i as int)),
        decreases v.len() - i,
    {
        assert(v@.take(i + 1).drop_last() =~= v@.take(i as int));
        let c = v[i];
        if is_alphanumeric(c) {
            cur.push(c);
        } else {
            let done = cur;
            out.push(done);
            cur = Vec::new();
        }
        i = i + 1;
        assert(chars_views(out@).push(cur@) =~= pieces(v@.take(i as int)));
    }
    assert(v@.take(i as int) =~= v@);
    out.push(cur);
    assert(chars_views(out@) =~= pieces(v@));
    out
}

/// Whether `w` is one of `list`.
fn one_of(w: &Vec<char>, list: &Vec<&str>) -> (b: bool)
    ensures
        b == str_views(list@).contains(w@),
{
    let mut i: usize = 0;
    while i < list.len()
        invariant
            i <= list@.len(),
            forall|j: int| 0 <= j < i ==> str_views(list@)[j] != w@,
        decreases list.len() - i,
    {
        let x = chars_of(list[i]);
        if chars_eq(w, &x) {
            assert(str_views(list@)[i as int] == w@);
            return true;
        }
        i = i + 1;
    }
    false
}

/// A piece of a label that counts: not empty and not the word `and`, in any case.
pub open spec fn counted(w: Seq<char>) -> bool {
    w.len() > 0 && lower_all(w) != "and"@
}

/// Whether a text is made of role words alone (and `and`), with at least one of them.
pub open spec fn all_role_words(text: Seq<char>) -> bool {
    let ps = pieces(text);
    &&& forall|k: int| 0 <= k < ps.len() && counted(#[trigger] ps[k]) ==> role_words().contains(
        lower_all(ps[k]),
    )
    &&& exists|k: int| 0 <= k < ps.len() && counted(#[trigger] ps[k])
}

/// Whether a text is made of role words alone, such as a label that lost its colon.
pub fn is_all_role_words(text: &str) -> (b: bool)
    ensures
        b == all_role_words(text@),
{
    let ps = pieces_of(&chars_of(text));
    let ghost pv = pieces(text@);
    let roles = role_word_list();
    let mut counted_any = false;
    let mut k: usize = 0;
    while k < ps.len()
        invariant
            k <= ps@.len(),
            chars_views(ps@) == pv,
            pv == pieces(text@),
            str_views(roles@) == role_words(),
            forall|j: int| 0 <= j < k && counted(#[trigger] pv[j]) ==> role_words().contains(lower_all(pv[j])),
            counted_any == exists|j: int| 0 <= j < k && counted(#[trigger] pv[j]),
        decreases ps.len() - k,
    {
        assert(pv[k as int] == ps@[k as int]@);
        let w = &ps[k];
        let lw = lower_chars(w);
        let is_and = is_text(&lw, "and");
        if w.len() > 0 && !is_and {
            if !one_of(&lw, &roles) {
                assert(lw@ == lower_all(pv[k as int]));
                assert(counted(pv[k as int]) && !role_words().contains(lower_all(pv[k as int])));
                return false;
            }
            counted_any = true;
        }
        k = k + 1;
    }
    counted_any
}

/// Whether a role opens the credit block: one of its words, lowercased, is a credit word.
pub open spec fn credit_role(role: Seq<char>) -> bool {
    let ps = pieces(lower_all(role));
    exists|k: int| 0 <= k < ps.len() && credit_words().contains(#[trigger] ps[k])
}

fn is_credit_role(role: &str) -> (b: bool)
    ensures
        b == credit_role(role@),
{
    let ps = pieces_of(&lower_chars(&chars_of(role)));
    let ghost pv = pieces(lower_all(role@));
    let words = credit_word_list();
    let mut k: usize = 0;
    while k < ps.len()
        invariant
            k <= ps@.len(),
            chars_views(ps@) == pv,
            pv == pieces(lower_all(role@)),
            str_views(words@) == credit_words(),
            forall|j: int| 0 <= j < k ==> !credit_words().contains(#[trigger] pv[j]),
        decreases ps.len() - k,
    {
        assert(pv[k as int] == ps@[k as int]@);
        if one_of(&ps[k], &words) {
            assert(credit_words().contains(pv[k as int]));
            return true;
        }
        k = k + 1;
    }
    false
}

/// The punctuation a label ends with: a colon or a dash.
pub open spec fn label_marks() -> Seq<char> {
    seq![':', '-', '\u{2013}', '\u{2014}']
}

/// `r` with the first note in brackets at its end taken out.
pub open spec fn without_note(r: Seq<char>) -> Seq<char> {
    let caps = captures_of(note_pattern(), r);
    if caps.len() == 0 {
        r
    } else {
        r.subrange(0, span_start(caps[0][0])) + r.subrange(span_end(caps[0][0]), r.len() as int)
    }
}

/// The role a label names: the label without its punctuation, its note in brackets and
/// surplus whitespace.
pub open spec fn role_of(matched: Seq<char>) -> Seq<char> {
    collapsed(without_note(trim_end(strip_trail_set(trim(matched), label_marks()))))
}

/// The role a matched label names.
fn role_name(matched: &Vec<char>) -> (role: String)
    ensures
        role@ == role_of(matched@),
{
    let t = trim_chars(matched);
    let marks = vec![':', '-', '\u{2013}', '\u{2014}'];
    assert(marks@ =~= label_marks());
    let u = strip_trailing(&t, &marks);
    let end = skip_space_back(&u, 0, u.len());
    assert(u@.subrange(0, u@.len() as int) =~= u@);
    let r = slice_chars(&u, 0, end);
    let rs = string_of(&r);
    let caps = captures(note_pattern_text(), rs.as_str());
    let ghost cv = captures_view(caps@);
    let mut kept = String::new();
    if caps.len() == 0 {
        push_range(&mut kept, &r, 0, r.len());
        assert(r@.subrange(0, r@.len() as int) =~= r@);
    } else {
        assert(cv[0] == caps@[0]@.map_values(|g: Option<Span>| span_view(g)));
        assert(cv[0][0] == span_view(caps@[0]@[0]));
        let (a, b) = match caps[0][0] {
            Some(g) => g,
            None => (0, 0),
        };
        push_range(&mut kept, &r, 0, a);
        push_range(&mut kept, &r, b, r.len());
    }
    collapse(kept.as_str())
}

fn note_pattern_text() -> (p: &'static str)
    ensures
        p@ == note_pattern(),
{
    "\\s*\\([^)]*\\)$"
}

/// A label found in a text: where it starts and ends (the whitespace after its colon
/// included) and the role it names.
pub struct Label {
    pub start: usize,
    pub end: usize,
    pub role: String,
}

impl Label {
    /// Whether this label opens the credit block.
    pub fn is_credit(&self) -> (b: bool)
        ensures
            b == credit_role(self.role@),
    {
        is_credit_role(self.role.as_str())
    }
}

pub open spec fn label_view(l: Label) -> (int, int, Seq<char>) {
    (l.start as int, l.end as int, l.role@)
}

pub open spec fn label_views(ls: Seq<Label>) -> Seq<(int, int, Seq<char>)> {
    ls.map_values(|l: Label| label_view(l))
}

/// The labels of a text, left to right.
pub open spec fn labels_of(text: Seq<char>) -> Seq<(int, int, Seq<char>)> {
    captures_of(label_pattern(), text).map_values(
        |c: Seq<Option<(int, int)>>|
            (
                span_start(c[0]),
                span_end(c[0]),
                role_of(text.subrange(span_start(c[0]), span_end(c[0]))),
            ),
    )
}

/// Labels in order within a text of `len` characters, none overlapping the next.
pub open spec fn labels_placed(ls: Seq<(int, int, Seq<char>)>, len: int) -> bool {
    &&& forall|k: int| 0 <= k < ls.len() ==> 0 <= (#[trigger] ls[k]).0 <= ls[k].1 <= len
    &&& forall|k: int| 0 <= k < ls.len() - 1 ==> (#[trigger] ls[k]).1 <= ls[k + 1].0
}

/// Every label in `text`.
fn labels(text: &str) -> (ls: Vec<Label>)
    ensures
        label_views(ls@) == labels_of(text@),
        labels_placed(labels_of(text@), text@.len() as int),
{
    let v = chars_of(text);
    let caps = captures(label_regex().as_str(), text);
    let ghost cv = captures_view(caps@);
    let ghost lv = labels_of(text@);
    let mut ls: Vec<Label> = Vec::new();
    let mut k: usize = 0;
    assert(lv.len() == cv.len());
    while k < caps.len()
        invariant
            k <= caps@.len(),
            v@ == text@,
            cv == captures_view(caps@),
            cv == captures_of(label_pattern(), text@),
            lv == labels_of(text@),
            lv.len() == caps@.len(),
            well_placed(cv, text@.len()),
            label_views(ls@) == lv.take(k as int),
            ls@.len() == k,
        decreases caps.len() - k,
    {
        assert(cv[k as int] == caps@[k as int]@.map_values(|g: Option<Span>| span_view(g)));
        assert(cv[k as int][0] == span_view(caps@[k as int]@[0]));
        let (a, b) = match caps[k][0] {
            Some(g) => g,
            None => (0, 0),
        };
        assert(caps@[k as int]@.len() >= 1 && cv[k as int][0] == Some((a as int, b as int)));
        assert(0 <= a <= b <= text@.len());
        let m = slice_chars(&v, a, b);
        let role = role_name(&m);
        assert(lv[k as int] == (a as int, b as int, role_of(text@.subrange(a as int, b as int))));
        let ghost old_ls = ls@;
        ls.push(Label { start: a, end: b, role });
        assert(label_view(ls@[k as int]) == lv[k as int]);
        assert(ls@.take(k as int) =~= old_ls);
        k = k + 1;
        assert(label_views(ls@) =~= lv.take(k as int));
    }
    assert(lv.take(k as int) =~= lv);
    proof {
        assert(well_placed(cv, text@.len()));
        assert forall|j: int| 0 <= j < lv.len() implies 0 <= (#[trigger] lv[j]).0 <= lv[j].1
            <= text@.len() by {
            assert(cv[j].len() >= 1);
            assert(cv[j][0] is Some);
        }
        assert forall|j: int| 0 <= j < lv.len() - 1 implies (#[trigger] lv[j]).1 <= lv[j + 1].0 by {
            assert(span_end(cv[j][0]) <= span_start(cv[j + 1][0]));
        }
    }
    ls
}

/// A separator a credited name never ends or starts with: whitespace, `;` or `,`.
pub open spec fn separator(c: char) -> bool {
    is_space(c) || c == ';' || c == ','
}

pub open spec fn strip_sep_start(s: Seq<char>) -> Seq<char>
    decreases s.len(),
{
    if s.len() > 0 && separator(s[0]) {
        strip_sep_start(s.skip(1))
    } else {
        s
    }
}

pub open spec fn strip_sep_end(s: Seq<char>) -> Seq<char>
    decreases s.len(),
{
    if s.len() > 0 && separator(s.last()) {
        strip_sep_end(s.drop_last())
    } else {
        s
    }
}

/// The range `lo..hi` of a text without the separators at either end.
pub open spec fn trimmed_value(text: Seq<char>, lo: int, hi: int) -> (int, int) {
    let head = strip_sep_start(text.subrange(lo, hi));
    let start = hi - head.len();
    (start, start + strip_sep_end(head).len())
}

/// A credited name never ends in the punctuation APOD chains roles together with.
fn trim_value(text: &Vec<char>, lo: usize, hi: usize) -> (r: (usize, usize))
    requires
        lo <= hi <= text@.len(),
    ensures
        (r.0 as int, r.1 as int) == trimmed_value(text@, lo as int, hi as int),
        lo <= r.0 <= r.1 <= hi,
{
    let mut a = lo;
    while a < hi && (is_whitespace(text[a]) || text[a] == ';' || text[a] == ',')
        invariant
            lo <= a <= hi <= text@.len(),
            strip_sep_start(text@.subrange(a as int, hi as int)) == strip_sep_start(
                text@.subrange(lo as int, hi as int),
            ),
        decreases hi - a,
    {
        assert(text@.subrange(a as int, hi as int).skip(1) =~= text@.subrange(a + 1, hi as int));
        a = a + 1;
    }
    let mut b = hi;
    let ghost head = text@.subrange(a as int, hi as int);
    assert(head.subrange(0, (b - a) as int) =~= head);
    while b > a && (is_whitespace(text[b - 1]) || text[b - 1] == ';' || text[b - 1] == ',')
        invariant
            a <= b <= hi <= text@.len(),
            head == text@.subrange(a as int, hi as int),
            strip_sep_end(text@.subrange(a as int, b as int)) == strip_sep_end(head),
        decreases b,
    {
        assert(text@.subrange(a as int, b as int).drop_last() =~= text@.subrange(a as int, b - 1));
        b = b - 1;
    }
    (a, b)
}

/// Where a label's HTML links a licence: the address of the first such link.
pub open spec fn license_of(label_html: Seq<char>) -> Option<Seq<char>> {
    let caps = captures_of(license_pattern(), label_html);
    if caps.len() == 0 || caps[0].len() < 2 || caps[0][1] is None {
        None
    } else {
        Some(label_html.subrange(span_start(caps[0][1]), span_end(caps[0][1])))
    }
}

fn license_pattern_text() -> (p: &'static str)
    ensures
        p@ == license_pattern(),
{
    "(?i)href=\"(https?://(?:[^\"]*\\.)?(?:creativecommons\\.org|opensource\\.org)/[^\"]*)\""
}

/// The licence a label links to, if it links one.
fn license_in(label_html: &str) -> (r: Option<String>)
    ensures
        r matches Some(u) ==> license_of(label_html@) == Some(u@),
        r is None ==> license_of(label_html@) is None,
{
    let caps = captures(license_pattern_text(), label_html);
    let ghost cv = captures_view(caps@);
    if caps.len() == 0 || caps[0].len() < 2 {
        return None;
    }
    assert(cv[0] == caps@[0]@.map_values(|g: Option<Span>| span_view(g)));
    assert(cv[0][1] == span_view(caps@[0]@[1]));
    match caps[0][1] {
        Some((a, b)) => {
            let v = chars_of(label_html);
            Some(string_of(&slice_chars(&v, a, b)))
        },
        None => None,
    }
}

/// A stretch of the attribution block: a role, where its label sits and where its value does.
pub struct Segment {
    pub role: String,
    pub label: (usize, usize),
    pub value: (usize, usize),
}

/// A segment as plain values.
pub struct SegView {
    pub role: Seq<char>,
    pub label: (int, int),
    pub value: (int, int),
}

pub open spec fn seg_view(s: Segment) -> SegView {
    SegView {
        role: s.role@,
        label: (s.label.0 as int, s.label.1 as int),
        value: (s.value.0 as int, s.value.1 as int),
    }
}

pub open spec fn seg_views(ss: Seq<Segment>) -> Seq<SegView> {
    ss.map_values(|s: Segment| seg_view(s))
}

/// Segments whose label and value lie in a text of `len` characters.
pub open spec fn segs_fit(ss: Seq<SegView>, len: int) -> bool {
    forall|k: int|
        0 <= k < ss.len() ==> {
            let s = #[trigger] ss[k];
            &&& 0 <= s.label.0 <= s.label.1 <= len
            &&& 0 <= s.value.0
            &&& s.value.1 <= len
        }
}

/// One segment per label from the `k`th on, each running to the next label or to `stop`,
/// until a label starts at or after `stop`.
pub open spec fn split_from(ls: Seq<(int, int, Seq<char>)>, stop: int, k: int) -> Seq<SegView>
    decreases ls.len() - k,
{
    if k < 0 || k >= ls.len() || ls[k].0 >= stop {
        Seq::empty()
    } else {
        let next = if k + 1 < ls.len() {
            ls[k + 1].0
        } else {
            stop
        };
        seq![SegView { role: ls[k].2, label: (ls[k].0, ls[k].1), value: (ls[k].1, min_int(next, stop)) }]
            + split_from(ls, stop, k + 1)
    }
}

proof fn lemma_split_fits(ls: Seq<(int, int, Seq<char>)>, stop: int, k: int, len: int)
    requires
        labels_placed(ls, len),
        stop <= len,
        0 <= k,
    ensures
        segs_fit(split_from(ls, stop, k), len),
    decreases ls.len() - k,
{
    if k < ls.len() && ls[k].0 < stop {
        lemma_split_fits(ls, stop, k + 1, len);
        let rest = split_from(ls, stop, k + 1);
        let all = split_from(ls, stop, k);
        assert forall|j: int| 0 < j < all.len() implies all[j] == rest[j - 1] by {}
    }
}

/// One segment per label from the `from`th on, each running to the next label or to `stop`.
fn split(labels: &Vec<Label>, from: usize, stop: usize) -> (out: Vec<Segment>)
    ensures
        seg_views(out@) == split_from(label_views(labels@), stop as int, from as int),
{
    let ghost lv = label_views(labels@);
    let mut out: Vec<Segment> = Vec::new();
    let mut k = from;
    while k < labels.len() && labels[k].start < stop
        invariant
            from <= k,
            lv == label_views(labels@),
            seg_views(out@) + split_from(lv, stop as int, k as int) == split_from(
                lv,
                stop as int,
                from as int,
            ),
        decreases labels.len() - k,
    {
        let l = &labels[k];
        let next = if k + 1 < labels.len() {
            labels[k + 1].start
        } else {
            stop
        };
        let end = if next < stop {
            next
        } else {
            stop
        };
        let ghost before = seg_views(out@);
        out.push(Segment { role: l.role.clone(), label: (l.start, l.end), value: (l.end, end) });
        assert(seg_views(out@) =~= before.push(seg_view(out@[out@.len() - 1])));
        assert(split_from(lv, stop as int, k as int) =~= seq![seg_view(out@[out@.len() - 1])]
            + split_from(lv, stop as int, k + 1));
        k = k + 1;
    }
    assert(split_from(lv, stop as int, k as int) =~= Seq::<SegView>::empty());
    assert(seg_views(out@) =~= seg_views(out@) + Seq::<SegView>::empty());
    out
}

/// The labels that start within `lo..hi`, among the first `k`.
pub open spec fn within(ls: Seq<(int, int, Seq<char>)>, lo: int, hi: int, k: int) -> Seq<(int, int, Seq<char>)>
    decreases k,
{
    if k <= 0 {
        Seq::empty()
    } else {
        let r = within(ls, lo, hi, k - 1);
        if lo <= ls[k - 1].0 < hi {
            r.push(ls[k - 1])
        } else {
            r
        }
    }
}

proof fn lemma_within_placed(ls: Seq<(int, int, Seq<char>)>, lo: int, hi: int, k: int, len: int)
    requires
        labels_placed(ls, len),
        k <= ls.len(),
    ensures
        labels_placed(within(ls, lo, hi, k), len),
        forall|j: int| 0 <= j < within(ls, lo, hi, k).len() ==> lo <= (#[trigger] within(ls, lo, hi, k)[j]).0 < hi,
        within(ls, lo, hi, k).len() > 0 ==> exists|m: int| 0 <= m < k && within(ls, lo, hi, k).last() == ls[m],
    decreases k,
{
    if k > 0 {
        lemma_within_placed(ls, lo, hi, k - 1, len);
        let r = within(ls, lo, hi, k - 1);
        if lo <= ls[k - 1].0 < hi && r.len() > 0 {
            let m = choose|m: int| 0 <= m < k - 1 && r.last() == ls[m];
            assert(ls[m].1 <= ls[k - 1].0) by {
                assert forall|a: int| m <= a < k - 1 implies ls[a].1 <= ls[k - 1].0 by {
                    lemma_placed_order(ls, len, a, k - 1);
                }
            }
        }
    }
}

proof fn lemma_placed_order(ls: Seq<(int, int, Seq<char>)>, len: int, a: int, b: int)
    requires
        labels_placed(ls, len),
        0 <= a < b < ls.len(),
    ensures
        ls[a].1 <= ls[b].0,
    decreases b - a,
{
    if a + 1 < b {
        lemma_placed_order(ls, len, a + 1, b);
    }
}

/// The labels starting within `lo..hi`.
fn labels_within(labels: &Vec<Label>, lo: usize, hi: usize) -> (out: Vec<Label>)
    ensures
        label_views(out@) == within(label_views(labels@), lo as int, hi as int, labels@.len() as int),
{
    let ghost lv = label_views(labels@);
    let mut out: Vec<Label> = Vec::new();
    let mut k: usize = 0;
    while k < labels.len()
        invariant
            k <= labels@.len(),
            lv == label_views(labels@),
            label_views(out@) == within(lv, lo as int, hi as int, k as int),
        decreases labels.len() - k,
    {
        let l = &labels[k];
        if lo <= l.start && l.start < hi {
            let ghost before = label_views(out@);
            out.push(Label { start: l.start, end: l.end, role: l.role.clone() });
            assert(label_views(out@) =~= before.push(lv[k as int]));
        }
        k = k + 1;
    }
    out
}

/// The role of an attribution that names none.
pub open spec fn unlabelled_role() -> Seq<char> {
    "Credit"@
}

/// The attribution in `lo..hi` when no punctuated label opens it: after a run of role words
/// if it starts with one, else all of it under the role `Credit`; `None` when that leaves
/// nothing.
pub open spec fn unpunctuated_seg(text: Seq<char>, lo: int, hi: int) -> Option<SegView> {
    let part = text.subrange(lo, hi);
    let caps = captures_of(bare_label_pattern(), part);
    let role = if caps.len() == 0 {
        unlabelled_role()
    } else {
        role_of(part.subrange(span_start(caps[0][0]), span_end(caps[0][0])))
    };
    let start = if caps.len() == 0 {
        lo
    } else {
        lo + span_end(caps[0][0])
    };
    if start < hi {
        Some(SegView { role, label: (start, start), value: (start, hi) })
    } else {
        None
    }
}

fn unpunctuated(text: &Vec<char>, lo: usize, hi: usize) -> (r: Option<Segment>)
    requires
        lo <= hi <= text@.len(),
    ensures
        r matches Some(s) ==> unpunctuated_seg(text@, lo as int, hi as int) == Some(seg_view(s)),
        r is None ==> unpunctuated_seg(text@, lo as int, hi as int) is None,
        r matches Some(s) ==> lo <= s.value.0 && s.value.1 == hi && s.label.0 == s.label.1
            && s.label.0 == s.value.0,
{
    let part = slice_chars(text, lo, hi);
    let ps = string_of(&part);
    let caps = captures(bare_label_regex().as_str(), ps.as_str());
    let ghost cv = captures_view(caps@);
    let mut role = String::new();
    let mut start = lo;
    if caps.len() == 0 {
        push_str(&mut role, "Credit");
    } else {
        assert(cv[0] == caps@[0]@.map_values(|g: Option<Span>| span_view(g)));
        assert(cv[0][0] == span_view(caps@[0]@[0]));
        let (a, b) = match caps[0][0] {
            Some(g) => g,
            None => (0, 0),
        };
        role = role_name(&slice_chars(&part, a, b));
        start = lo + b;
    }
    if start < hi {
        Some(Segment { role, label: (start, start), value: (start, hi) })
    } else {
        None
    }
}

/// Where a page's attribution block ends: before its explanation or its footer.
pub open spec fn stops() -> Seq<Seq<char>> {
    seq![
        "explanation:"@, "tomorrow's picture"@, "tomorrow\u{2019}s picture"@, "authors & editors"@,
        "nasa official:"@, "a service of:"@,
    ]
}

fn stop_list() -> (ws: Vec<&'static str>)
    ensures
        str_views(ws@) == stops(),
{
    let ws = vec![
        "explanation:", "tomorrow's picture", "tomorrow\u{2019}s picture", "authors & editors",
        "nasa official:", "a service of:",
    ];
    assert(str_views(ws@) =~= stops());
    ws
}

/// A page's attribution: who is credited in which role, and what the labels say of rights.
pub struct Credits {
    pub segments: Vec<Credit>,
    /// The label claims copyright, so the media is not NASA public domain.
    pub has_copyright: bool,
    /// Where a label linked its licence.
    pub license_url: Option<String>,
}

/// A credit as plain values: its role, its HTML and its text.
pub open spec fn credit_view(c: Credit) -> (Seq<char>, Seq<char>, Seq<char>) {
    (c.role@, c.html@, c.text@)
}

pub open spec fn credit_views(cs: Seq<Credit>) -> Seq<(Seq<char>, Seq<char>, Seq<char>)> {
    cs.map_values(|c: Credit| credit_view(c))
}

pub open spec fn opt_view(o: Option<String>) -> Option<Seq<char>> {
    match o {
        Some(s) => Some(s@),
        None => None,
    }
}

/// An attribution as plain values: its credits, whether it claims copyright, its licence.
pub type CreditsView = (Seq<(Seq<char>, Seq<char>, Seq<char>)>, bool, Option<Seq<char>>);

pub open spec fn credits_view(c: Credits) -> CreditsView {
    (credit_views(c.segments@), c.has_copyright, opt_view(c.license_url))
}

pub open spec fn opt_credits_view(r: Option<Credits>) -> Option<CreditsView> {
    match r {
        Some(c) => Some(credits_view(c)),
        None => None,
    }
}

/// The first `k` segments read: a credit for each whose value, trimmed, holds something;
/// copyright claimed where any role says so; the licence the first label that links one links.
pub open spec fn finish_upto(
    text: Seq<char>,
    pieces: Seq<PieceView>,
    tags: Seq<(Seq<char>, Seq<char>)>,
    segs: Seq<SegView>,
    k: int,
) -> CreditsView
    decreases k,
{
    if k <= 0 {
        (Seq::empty(), false, None)
    } else {
        let prev = finish_upto(text, pieces, tags, segs, k - 1);
        let s = segs[k - 1];
        let copyright = prev.1 || has_seq(lower_all(s.role), "copyright"@);
        let license = if prev.2 is None && s.label.0 < s.label.1 {
            license_of(sliced(text, pieces, tags, s.label.0, s.label.1).0)
        } else {
            prev.2
        };
        let credits = if s.value.0 >= s.value.1 {
            prev.0
        } else {
            let r = trimmed_value(text, s.value.0, s.value.1);
            let f = sliced(text, pieces, tags, r.0, r.1);
            if trim(f.1).len() == 0 {
                prev.0
            } else {
                prev.0.push((s.role, f.0, f.1))
            }
        };
        (credits, copyright, license)
    }
}

/// The segments read into credits; `None` when none of them credits anyone.
pub open spec fn finished(
    text: Seq<char>,
    pieces: Seq<PieceView>,
    tags: Seq<(Seq<char>, Seq<char>)>,
    segs: Seq<SegView>,
) -> Option<CreditsView> {
    let r = finish_upto(text, pieces, tags, segs, segs.len() as int);
    if r.0.len() == 0 {
        None
    } else {
        Some(r)
    }
}

fn finish(flat: &Flat, segs: Vec<Segment>) -> (r: Option<Credits>)
    requires
        segs_fit(seg_views(segs@), flat.text_view().len() as int),
    ensures
        opt_credits_view(r) == finished(
            flat.text_view(),
            flat.pieces_of(),
            flat.tags_of(),
            seg_views(segs@),
        ),
{
    let ghost text = flat.text_view();
    let ghost pieces = flat.pieces_of();
    let ghost tags = flat.tags_of();
    let ghost sv = seg_views(segs@);
    let chars = chars_of(flat.text());
    let copyright = chars_of("copyright");
    let mut credits: Vec<Credit> = Vec::new();
    let mut has_copyright = false;
    let mut license_url: Option<String> = None;
    let mut k: usize = 0;
    while k < segs.len()
        invariant
            k <= segs@.len(),
            chars@ == text,
            text == flat.text_view(),
            pieces == flat.pieces_of(),
            tags == flat.tags_of(),
            sv == seg_views(segs@),
            copyright@ == "copyright"@,
            segs_fit(sv, text.len() as int),
            (credit_views(credits@), has_copyright, opt_view(license_url)) == finish_upto(
                text,
                pieces,
                tags,
                sv,
                k as int,
            ),
        decreases segs.len() - k,
    {
        let seg = &segs[k];
        assert(sv[k as int] == seg_view(*seg));
        let low = lower_chars(&chars_of(seg.role.as_str()));
        if contains_chars(&low, &copyright) {
            has_copyright = true;
        }
        if license_url.is_none() && seg.label.0 < seg.label.1 {
            let f = flat.slice(seg.label.0, seg.label.1);
            license_url = license_in(f.html.as_str());
        }
        if seg.value.0 < seg.value.1 {
            let (a, b) = trim_value(&chars, seg.value.0, seg.value.1);
            let f = flat.slice(a, b);
            if !f.is_empty() {
                let ghost before = credit_views(credits@);
                credits.push(Credit { role: seg.role.clone(), html: f.html, text: f.text });
                assert(credit_views(credits@) =~= before.push(credit_view(credits@[credits@.len() - 1])));
            }
        }
        k = k + 1;
    }
    if credits.len() == 0 {
        None
    } else {
        Some(Credits { segments: credits, has_copyright, license_url })
    }
}

/// The first label from the `k`th on whose role opens the credit block.
pub open spec fn first_credit(ls: Seq<(int, int, Seq<char>)>, k: int) -> Option<int>
    decreases ls.len() - k,
{
    if k < 0 || k >= ls.len() {
        None
    } else if credit_role(ls[k].2) {
        Some(k)
    } else {
        first_credit(ls, k + 1)
    }
}

proof fn lemma_first_credit(ls: Seq<(int, int, Seq<char>)>, k: int)
    requires
        0 <= k,
    ensures
        first_credit(ls, k) matches Some(f) ==> k <= f < ls.len() && credit_role(ls[f].2),
        first_credit(ls, k) is None <==> forall|j: int| k <= j < ls.len() ==> !credit_role(#[trigger] ls[j].2),
    decreases ls.len() - k,
{
    if k < ls.len() {
        lemma_first_credit(ls, k + 1);
    }
}

/// The attribution in a flattened text: from its first label that opens the credit block up
/// to where the block stops.
pub open spec fn credits_from(
    text: Seq<char>,
    pieces: Seq<PieceView>,
    tags: Seq<(Seq<char>, Seq<char>)>,
) -> Option<CreditsView> {
    let ls = labels_of(text);
    match first_credit(ls, 0) {
        None => None,
        Some(f) => {
            let stop = stop_point(text, ls[f].1, stops());
            finished(text, pieces, tags, split_from(ls, stop, f))
        },
    }
}

/// The attribution inside the element at `i`.
pub open spec fn credits_in(items: Seq<(int, NodeView)>, i: int, base: Seq<char>) -> Option<CreditsView> {
    let f = flattened(items, i + 1, subtree_end(items, i, i + 1), base);
    credits_from(f.0, f.1, f.2)
}

/// Reads the attribution inside the element at `i`.
pub fn from_element(items: &Vec<DomItem>, i: usize, base: &str) -> (r: Option<Credits>)
    requires
        i < items@.len(),
    ensures
        opt_credits_view(r) == credits_in(items_view(items@), i as int, base@),
{
    let e = end_of(items, i);
    let flat = flatten(items, i + 1, e, base);
    let labels = labels(flat.text());
    let ghost ls = labels_of(flat.text_view());
    proof {
        lemma_first_credit(ls, 0);
    }
    let mut first: usize = 0;
    while first < labels.len() && !labels[first].is_credit()
        invariant
            first <= labels@.len(),
            label_views(labels@) == ls,
            first_credit(ls, 0) == first_credit(ls, first as int),
        decreases labels.len() - first,
    {
        assert(ls[first as int].2 == labels@[first as int].role@);
        first = first + 1;
    }
    if first == labels.len() {
        return None;
    }
    assert(ls[first as int].2 == labels@[first as int].role@);
    let stop_at = stop_list();
    let stop = flat.stop(labels[first].end, stop_at.as_slice());
    let segs = split(&labels, first, stop);
    proof {
        lemma_split_fits(ls, stop as int, first as int, flat.text_view().len() as int);
    }
    finish(&flat, segs)
}

/// Whether a text holds a label that opens a credit block.
pub open spec fn names_credit(text: Seq<char>) -> bool {
    first_credit(labels_of(text), 0) is Some
}

pub open spec fn credit_test() -> spec_fn(Seq<char>) -> bool {
    |t: Seq<char>| names_credit(t)
}

fn names_a_credit(text: &str) -> (b: bool)
    ensures
        b == names_credit(text@),
{
    let labels = labels(text);
    let ghost ls = labels_of(text@);
    let mut k: usize = 0;
    while k < labels.len()
        invariant
            k <= labels@.len(),
            label_views(labels@) == ls,
            ls == labels_of(text@),
            first_credit(ls, 0) == first_credit(ls, k as int),
        decreases labels.len() - k,
    {
        assert(ls[k as int].2 == labels@[k as int].role@);
        if labels[k].is_credit() {
            return true;
        }
        k = k + 1;
    }
    false
}

/// The attribution read from labels: inside the tightest container that holds a label opening
/// a credit block.
pub open spec fn labelled_credits(items: Seq<(int, NodeView)>, base: Seq<char>) -> Option<CreditsView> {
    match container_of(items, credit_test()) {
        Some(i) => credits_in(items, i, base),
        None => None,
    }
}

fn labelled(items: &Vec<DomItem>, base: &str) -> (r: Option<Credits>)
    ensures
        opt_credits_view(r) == labelled_credits(items_view(items@), base@),
{
    match find_container(items, names_a_credit, Ghost(credit_test())) {
        Some(i) => from_element(items, i, base),
        None => None,
    }
}

/// The most characters an attribution without labels may run to.
pub const MAX_UNLABELLED_CHARS: usize = 300;

/// The attribution right under the title, in a flattened text: up to where the block stops,
/// provided that is near; what precedes its first label is read as an attribution too.
pub open spec fn credits_after(
    text: Seq<char>,
    pieces: Seq<PieceView>,
    tags: Seq<(Seq<char>, Seq<char>)>,
    title: Seq<char>,
) -> Option<CreditsView> {
    let at = first_occurrence(text, title);
    if at < 0 {
        None
    } else {
        let start = at + title.len();
        let stop = stop_point(text, start, stops());
        if stop - start > MAX_UNLABELLED_CHARS {
            None
        } else {
            finished(text, pieces, tags, segments_after(text, start, stop))
        }
    }
}

pub open spec fn title_test(title: Seq<char>) -> spec_fn(Seq<char>) -> bool {
    |t: Seq<char>| has_seq(collapsed(t), title)
}

/// The attribution under the title, inside the tightest container whose text holds it.
pub open spec fn titled_credits(items: Seq<(int, NodeView)>, base: Seq<char>, title: Seq<char>) -> Option<CreditsView> {
    match container_of(items, title_test(title)) {
        Some(i) => {
            let f = flattened(items, i + 1, subtree_end(items, i, i + 1), base);
            credits_after(f.0, f.1, f.2, title)
        },
        None => None,
    }
}

fn after_title(items: &Vec<DomItem>, base: &str, title: &str) -> (r: Option<Credits>)
    ensures
        opt_credits_view(r) == titled_credits(items_view(items@), base@, title@),
{
    let tv = chars_of(title);
    let holds_title = |t: &str| -> (b: bool)
        ensures
            b == has_seq(collapsed(t@), title@),
        { contains_chars(&chars_of(collapse(t).as_str()), &tv) };
    match find_container(items, holds_title, Ghost(title_test(title@))) {
        Some(i) => {
            let e = end_of(items, i);
            let flat = flatten(items, i + 1, e, base);
            read_after(&flat, &tv)
        },
        None => None,
    }
}

/// The attribution right under the title in a flattened text.
fn read_after(flat: &Flat, tv: &Vec<char>) -> (r: Option<Credits>)
    ensures
        opt_credits_view(r) == credits_after(flat.text_view(), flat.pieces_of(), flat.tags_of(), tv@),
{
    let chars = chars_of(flat.text());
    let at = match find_first_seq(&chars, tv) {
        Some(at) => at,
        None => return None,
    };
    let n = chars.len();
    assert(at + tv@.len() <= n);
    let start = at + tv.len();
    let stop_at = stop_list();
    let stop = flat.stop(start, stop_at.as_slice());
    if stop - start > MAX_UNLABELLED_CHARS {
        return None;
    }
    let segs = segments_within(flat, &chars, start, stop);
    finish(flat, segs)
}

/// The segments of the attribution in `start..stop`: what precedes its first label, then one
/// per label.
pub open spec fn segments_after(text: Seq<char>, start: int, stop: int) -> Seq<SegView> {
    let all = labels_of(text);
    let ls = within(all, start, stop, all.len() as int);
    let head_end = if ls.len() > 0 {
        ls[0].0
    } else {
        stop
    };
    let head = match unpunctuated_seg(text, start, head_end) {
        Some(sg) => seq![sg],
        None => Seq::empty(),
    };
    head + split_from(ls, stop, 0)
}

fn segments_within(flat: &Flat, chars: &Vec<char>, start: usize, stop: usize) -> (segs: Vec<Segment>)
    requires
        chars@ == flat.text_view(),
        start <= stop <= chars@.len(),
    ensures
        seg_views(segs@) == segments_after(chars@, start as int, stop as int),
        segs_fit(seg_views(segs@), chars@.len() as int),
{
    let ghost text = flat.text_view();
    let all = labels(flat.text());
    let ghost av = labels_of(text);
    let ls = labels_within(&all, start, stop);
    let ghost lv = within(av, start as int, stop as int, av.len() as int);
    proof {
        lemma_within_placed(av, start as int, stop as int, av.len() as int, text.len() as int);
    }
    let head_end = if ls.len() > 0 {
        assert(lv[0] == label_view(ls@[0]));
        ls[0].start
    } else {
        stop
    };
    let mut segs: Vec<Segment> = Vec::new();
    match unpunctuated(chars, start, head_end) {
        Some(sg) => segs.push(sg),
        None => {},
    }
    let ghost head = seg_views(segs@);
    let mut rest = split(&ls, 0, stop);
    proof {
        lemma_split_fits(lv, stop as int, 0, text.len() as int);
    }
    let ghost tail = seg_views(rest@);
    segs.append(&mut rest);
    assert(seg_views(segs@) =~= head + tail);
    segs
}

/// A page's attribution: from its labels where it has a label that opens a credit block, else
/// from what follows its title.
pub open spec fn parsed_credits(items: Seq<(int, NodeView)>, base: Seq<char>, title: Seq<char>) -> Option<CreditsView> {
    match labelled_credits(items, base) {
        Some(c) => Some(c),
        None => titled_credits(items, base, title),
    }
}

/// Reads a page's attribution block.
pub fn parse(items: &Vec<DomItem>, base: &str, title: &str) -> (r: Option<Credits>)
    ensures
        opt_credits_view(r) == parsed_credits(items_view(items@), base@, title@),
{
    match labelled(items, base) {
        Some(c) => Some(c),
        None => after_title(items, base, title),
    }
}

/// Whether a label anywhere in the page opens a credit block.
pub open spec fn credits_anyone(items: Seq<(int, NodeView)>) -> bool {
    match root_from(items, 0) {
        Some(r) => names_credit(inner_text(items, r)),
        None => false,
    }
}

/// Whether the page credits anyone under a label, anywhere in it.
pub fn attributes_anyone(items: &Vec<DomItem>) -> (b: bool)
    ensures
        b == credits_anyone(items_view(items@)),
{
    match root_element(items) {
        Some(r) => names_a_credit(text_below(items, r).as_str()),
        None => false,
    }
}

} // verus!
