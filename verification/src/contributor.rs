//! Who is credited: the kinds of contributor, and how a name's words read.
use vstd::prelude::*;
use crate::text::{
    alphanumeric, chars_of, is_alphanumeric, is_digit, is_space, is_text, is_whitespace,
    push_char, string_of, str_eq, trim, trim_chars, lower_all, lower_chars, starts_with,
    ends_with, starts_with_chars, strip_trail, slice_chars, chars_eq, trim_start, has_seq,
    contains_chars, skip_space,
};
use crate::object::{lowercase, lowercased};
use crate::resource::{unescape, unescaped};
use crate::pattern::{
    captures, captures_of, captures_view, group_of, group_text, groups_in, remove_all, spans_view,
    substitute_all, substitute_first, swapped_all, swapped_first, well_placed, without_all,
};
use crate::apod::search::{split_chars, split_seq};
use crate::entry::{ApodEntry, Credit};
use unicode_normalization::UnicodeNormalization;
use vstd::string::StrSliceExecFns;

verus! {

/// What a credited party is.
#[derive(Debug, Clone, Copy, PartialEq, Eq, Structural, PartialOrd, Ord)]
pub enum Kind {
    Person,
    Group,
    Unknown,
}

pub open spec fn kind_label(k: Kind) -> Seq<char> {
    match k {
        Kind::Person => "person"@,
        Kind::Group => "group"@,
        Kind::Unknown => "unknown"@,
    }
}

impl Kind {
    pub fn as_str(self) -> (s: &'static str)
        ensures
            s@ == kind_label(self),
    {
        match self {
            Kind::Person => "person",
            Kind::Group => "group",
            Kind::Unknown => "unknown",
        }
    }
}

/// One party credited by an entry, and the role it was credited in.
#[derive(Debug, Clone, PartialEq, Eq)]
pub struct Mention {
    pub id: String,
    pub name: String,
    pub role: String,
    pub url: Option<String>,
    pub kind: Kind,
}

/// The lowercase words that sit inside a person's name: "Davide de Martin", "P. van Dokkum".
pub open spec fn particle(word: Seq<char>) -> bool {
    word == "de"@ || word == "van"@ || word == "der"@ || word == "von"@ || word == "da"@ || word
        == "di"@ || word == "del"@ || word == "della"@ || word == "dello"@ || word == "la"@ || word
        == "le"@ || word == "du"@ || word == "dos"@ || word == "den"@ || word == "ter"@ || word
        == "bin"@ || word == "ibn"@ || word == "af"@ || word == "av"@ || word == "zu"@
}

/// Whether a word is a particle of a name.
pub fn is_particle(word: &str) -> (b: bool)
    ensures
        b == particle(word@),
{
    let w = chars_of(word);
    is_text(&w, "de") || is_text(&w, "van") || is_text(&w, "der") || is_text(&w, "von")
        || is_text(&w, "da") || is_text(&w, "di") || is_text(&w, "del") || is_text(&w, "della")
        || is_text(&w, "dello") || is_text(&w, "la") || is_text(&w, "le") || is_text(&w, "du")
        || is_text(&w, "dos") || is_text(&w, "den") || is_text(&w, "ter") || is_text(&w, "bin")
        || is_text(&w, "ibn") || is_text(&w, "af") || is_text(&w, "av") || is_text(&w, "zu")
}

/// Whether std's `char::is_alphabetic` holds of `c`: the Unicode `Alphabetic` property.
pub uninterp spec fn alphabetic(c: char) -> bool;

/// Whether std's `char::is_uppercase` holds of `c`: the Unicode `Uppercase` property.
pub uninterp spec fn uppercase(c: char) -> bool;

/// std's `char::is_alphabetic`.
#[verifier::external_body]
fn is_alphabetic(c: char) -> (b: bool)
    ensures
        b == alphabetic(c),
{
    c.is_alphabetic()
}

/// std's `char::is_uppercase`.
#[verifier::external_body]
fn is_uppercase(c: char) -> (b: bool)
    ensures
        b == uppercase(c),
{
    c.is_uppercase()
}

/// How many letters `s` has.
pub open spec fn letters(s: Seq<char>) -> nat
    decreases s.len(),
{
    if s.len() == 0 {
        0
    } else {
        letters(s.drop_last()) + if alphabetic(s.last()) {
            1nat
        } else {
            0nat
        }
    }
}

/// A word written as initials: a regnal number, or two letters or more, all capitals.
pub open spec fn acronym(word: Seq<char>) -> bool {
    ||| word == "II"@ || word == "III"@ || word == "IV"@ || word == "V"@ || word == "VI"@
    ||| letters(word) >= 2 && forall|i: int|
        0 <= i < word.len() && alphabetic(#[trigger] word[i]) ==> uppercase(word[i])
}

/// Whether a word reads as initials.
pub fn is_acronym(word: &str) -> (b: bool)
    ensures
        b == acronym(word@),
{
    let w = chars_of(word);
    if is_text(&w, "II") || is_text(&w, "III") || is_text(&w, "IV") || is_text(&w, "V") || is_text(
        &w,
        "VI",
    ) {
        return true;
    }
    let mut count: usize = 0;
    let mut all_upper = true;
    let mut i: usize = 0;
    while i < w.len()
        invariant
            i <= w@.len(),
            count == letters(w@.take(i as int)),
            count <= i,
            all_upper == forall|j: int|
                0 <= j < i && alphabetic(#[trigger] w@[j]) ==> uppercase(w@[j]),
        decreases w.len() - i,
    {
        assert(w@.take(i + 1).drop_last() =~= w@.take(i as int));
        if is_alphabetic(w[i]) {
            count = count + 1;
            if !is_uppercase(w[i]) {
                all_upper = false;
            }
        }
        i = i + 1;
    }
    assert(w@.take(i as int) =~= w@);
    count >= 2 && all_upper
}

/// The word lists of the credit index, as its table lists them: words that make a name a body
/// wherever they stand in it, first words that do, phrases that name nobody, and role phrases
/// that come off either end of a name (longest first, as the table is kept; none of them empty,
/// since an empty phrase would come off a name for ever).
#[derive(Debug, Clone)]
pub struct CreditWords {
    pub group: Vec<String>,
    pub prefix: Vec<String>,
    pub ignore: Vec<String>,
    pub strip: Vec<String>,
}

pub struct WordsView {
    pub group: Seq<Seq<char>>,
    pub prefix: Seq<Seq<char>>,
    pub ignore: Seq<Seq<char>>,
    pub strip: Seq<Seq<char>>,
}

pub open spec fn texts(v: Seq<String>) -> Seq<Seq<char>> {
    v.map_values(|s: String| s@)
}

impl View for CreditWords {
    type V = WordsView;

    open spec fn view(&self) -> WordsView {
        WordsView {
            group: texts(self.group@),
            prefix: texts(self.prefix@),
            ignore: texts(self.ignore@),
            strip: texts(self.strip@),
        }
    }
}

/// The judgements made on identities by hand: spellings merged onto one identity, and the
/// identities that are bodies.
#[derive(Debug, Clone)]
pub struct Judged {
    pub merges: Vec<(String, String)>,
    pub groups: Vec<String>,
}

pub struct JudgedView {
    pub merges: Seq<(Seq<char>, Seq<char>)>,
    pub groups: Seq<Seq<char>>,
}

impl View for Judged {
    type V = JudgedView;

    open spec fn view(&self) -> JudgedView {
        JudgedView {
            merges: self.merges@.map_values(|m: (String, String)| (m.0@, m.1@)),
            groups: texts(self.groups@),
        }
    }
}

pub open spec fn opt_text(o: Option<String>) -> Option<Seq<char>> {
    match o {
        Some(s) => Some(s@),
        None => None,
    }
}

/// A bracketed affiliation at the end of a name.
pub open spec fn affiliation_re() -> Seq<char> {
    "\\s*\\([^)]*\\)\\s*$"@
}

/// A run of whitespace.
pub open spec fn space_re() -> Seq<char> {
    "\\s+"@
}

/// "U.", "Univ." or "University", perhaps followed by "of", at the start of an identity.
pub open spec fn university_re() -> Seq<char> {
    "^(?:u|univ|university)(?:\\s+of)?\\s+"@
}

/// What unicode-normalization's `nfd` makes of `s`: its canonical decomposition.
pub uninterp spec fn nfd_decomposed(s: Seq<char>) -> Seq<char>;

/// Whether unicode-normalization's `char::is_combining_mark` holds of `c`: general category
/// Mark.
pub uninterp spec fn combining_mark(c: char) -> bool;

/// The first character of std's `char::to_lowercase` of `c`.
pub uninterp spec fn lowered_char(c: char) -> char;

/// unicode-normalization's `UnicodeNormalization::nfd`, collected into a string. Claims that the
/// result is `nfd_decomposed` of the text.
#[verifier::external_body]
fn nfd_of(s: &str) -> (out: String)
    ensures
        out@ == nfd_decomposed(s@),
{
    s.nfd().collect()
}

/// unicode-normalization's `char::is_combining_mark`.
#[verifier::external_body]
fn is_combining(c: char) -> (b: bool)
    ensures
        b == combining_mark(c),
{
    unicode_normalization::char::is_combining_mark(c)
}

/// The first character of std's `char::to_lowercase` (which always yields at least one).
#[verifier::external_body]
fn lower_first(c: char) -> (out: char)
    ensures
        out == lowered_char(c),
{
    c.to_lowercase().next().unwrap_or(c)
}

/// What one character of a decomposed name becomes in its identity: marks go, as do
/// apostrophes; letters and digits are lowercased; anything else is a space.
pub open spec fn folded_char(c: char) -> Seq<char> {
    if combining_mark(c) {
        Seq::empty()
    } else if alphanumeric(c) {
        seq![lowered_char(c)]
    } else if c == '\'' {
        Seq::empty()
    } else {
        seq![' ']
    }
}

pub open spec fn folded(s: Seq<char>) -> Seq<char>
    decreases s.len(),
{
    if s.len() == 0 {
        Seq::empty()
    } else {
        folded(s.drop_last()) + folded_char(s.last())
    }
}

pub open spec fn all_digits(s: Seq<char>) -> bool {
    forall|i: int| 0 <= i < s.len() ==> is_digit(#[trigger] s[i])
}

/// The identity the first merge from `k` on that names `key` sends it to, or `key` itself.
pub open spec fn merged_from(merges: Seq<(Seq<char>, Seq<char>)>, key: Seq<char>, k: int) -> Seq<char>
    decreases merges.len() - k,
{
    if k < 0 || k >= merges.len() {
        key
    } else if merges[k].0 == key {
        merges[k].1
    } else {
        merged_from(merges, key, k + 1)
    }
}

/// The key a name is folded to before any merge: its affiliation dropped, decomposed, folded,
/// trimmed, and its runs of whitespace made single spaces.
pub open spec fn identity_key(name: Seq<char>) -> Seq<char> {
    swapped_all(trim(folded(nfd_decomposed(swapped_first(name, affiliation_re(), Seq::empty())))), space_re(), " "@)
}

/// The identity of a printed name: none for what is too short or only digits; otherwise its
/// key with a leading university spelled `univ `, sent on by the first merge that names it.
pub open spec fn identity_of(name: Seq<char>, judged: JudgedView) -> Option<Seq<char>> {
    let key = identity_key(name);
    if key.len() < 2 || all_digits(key) {
        None
    } else {
        Some(merged_from(judged.merges, swapped_first(key, university_re(), "univ "@), 0))
    }
}

/// The identity a printed name is filed under, so that one party printed many ways is one
/// party.
pub fn identity(name: &str, judged: &Judged) -> (id: Option<String>)
    ensures
        opt_text(id) == identity_of(name@, judged@),
{
    let bare = substitute_first("\\s*\\([^)]*\\)\\s*$", name, "");
    proof {
        reveal_strlit("");
        assert(""@ =~= Seq::<char>::empty());
    }
    let decomposed = nfd_of(bare.as_str());
    let v = chars_of(decomposed.as_str());
    let mut f: Vec<char> = Vec::new();
    let mut i: usize = 0;
    while i < v.len()
        invariant
            i <= v@.len(),
            f@ == folded(v@.take(i as int)),
        decreases v.len() - i,
    {
        let c = v[i];
        assert(v@.take(i + 1).drop_last() =~= v@.take(i as int));
        if is_combining(c) {
        } else if is_alphanumeric(c) {
            f.push(lower_first(c));
        } else if c == '\'' {
        } else {
            f.push(' ');
        }
        i = i + 1;
        assert(f@ =~= folded(v@.take(i as int)));
    }
    assert(v@.take(i as int) =~= v@);
    let t = string_of(&trim_chars(&f));
    let key = substitute_all("\\s+", t.as_str(), " ");
    let kv = chars_of(key.as_str());
    assert(key@ == identity_key(name@));
    if kv.len() < 2 {
        return None;
    }
    let mut digits = true;
    let mut j: usize = 0;
    while j < kv.len()
        invariant
            j <= kv@.len(),
            digits == forall|k: int| 0 <= k < j ==> is_digit(#[trigger] kv@[k]),
        decreases kv.len() - j,
    {
        if !('0' <= kv[j] && kv[j] <= '9') {
            digits = false;
        }
        j = j + 1;
    }
    if digits {
        return None;
    }
    let k2 = substitute_first("^(?:u|univ|university)(?:\\s+of)?\\s+", key.as_str(), "univ ");
    assert(!all_digits(key@));
    assert(kv@.len() >= 2);
    assert(k2@ == swapped_first(key@, university_re(), "univ "@));
    let ghost jm = judged@.merges;
    assert(identity_of(name@, judged@) == Some(merged_from(jm, k2@, 0)));
    let mut m: usize = 0;
    while m < judged.merges.len()
        invariant
            m <= judged.merges@.len(),
            jm == judged@.merges,
            identity_of(name@, judged@) == Some(merged_from(jm, k2@, 0)),
            merged_from(jm, k2@, 0) == merged_from(jm, k2@, m as int),
        decreases judged.merges.len() - m,
    {
        assert(jm[m as int] == (judged.merges@[m as int].0@, judged.merges@[m as int].1@));
        if str_eq(judged.merges[m].0.as_str(), k2.as_str()) {
            assert(merged_from(jm, k2@, m as int) == jm[m as int].1);
            let out = judged.merges[m].1.clone();
            assert(out@ == jm[m as int].1);
            return Some(out);
        }
        m = m + 1;
    }
    Some(k2)
}

/// What comes off the ends of a piece once a role phrase is taken from it.
pub open spec fn edge_char(c: char) -> bool {
    is_space(c) || c == ':' || c == ',' || c == '-' || c == '.' || c == ';'
}

/// What comes off the ends of a cleaned name.
pub open spec fn name_edge(c: char) -> bool {
    is_space(c) || c == '-' || c == '/' || c == ':' || c == '*' || c == '+'
}

pub open spec fn trims(c: char, role: bool) -> bool {
    if role {
        edge_char(c)
    } else {
        name_edge(c)
    }
}

pub open spec fn drop_lead(s: Seq<char>, role: bool) -> Seq<char>
    decreases s.len(),
{
    if s.len() > 0 && trims(s[0], role) {
        drop_lead(s.skip(1), role)
    } else {
        s
    }
}

pub open spec fn drop_trail(s: Seq<char>, role: bool) -> Seq<char>
    decreases s.len(),
{
    if s.len() > 0 && trims(s.last(), role) {
        drop_trail(s.drop_last(), role)
    } else {
        s
    }
}

/// `str::trim_matches` with the edge characters of a role (`role`) or of a name.
pub open spec fn trimmed_by(s: Seq<char>, role: bool) -> Seq<char> {
    drop_trail(drop_lead(s, role), role)
}

pub proof fn lemma_trimmed_shorter(s: Seq<char>, role: bool)
    ensures
        trimmed_by(s, role).len() <= s.len(),
{
    lemma_drop_lead_shorter(s, role);
    lemma_drop_trail_shorter(drop_lead(s, role), role);
}

pub proof fn lemma_drop_lead_shorter(s: Seq<char>, role: bool)
    ensures
        drop_lead(s, role).len() <= s.len(),
    decreases s.len(),
{
    if s.len() > 0 && trims(s[0], role) {
        lemma_drop_lead_shorter(s.skip(1), role);
    }
}

pub proof fn lemma_drop_trail_shorter(s: Seq<char>, role: bool)
    ensures
        drop_trail(s, role).len() <= s.len(),
    decreases s.len(),
{
    if s.len() > 0 && trims(s.last(), role) {
        lemma_drop_trail_shorter(s.drop_last(), role);
    }
}

fn trim_by(v: &Vec<char>, role: bool) -> (out: Vec<char>)
    ensures
        out@ == trimmed_by(v@, role),
{
    let mut start: usize = 0;
    assert(v@.skip(0) =~= v@);
    while start < v.len() && trims_char(v[start], role)
        invariant
            start <= v@.len(),
            drop_lead(v@, role) == drop_lead(v@.skip(start as int), role),
        decreases v.len() - start,
    {
        assert(v@.skip(start as int).skip(1) =~= v@.skip(start + 1));
        start = start + 1;
    }
    let mut end = v.len();
    assert(v@.subrange(start as int, v@.len() as int) =~= v@.skip(start as int));
    while end > start && trims_char(v[end - 1], role)
        invariant
            start <= end <= v@.len(),
            drop_trail(drop_lead(v@, role), role) == drop_trail(v@.subrange(start as int, end as int), role),
            drop_lead(v@, role) == v@.skip(start as int),
        decreases end,
    {
        assert(v@.subrange(start as int, end as int).drop_last() =~= v@.subrange(start as int, end - 1));
        end = end - 1;
    }
    slice_chars(v, start, end)
}

fn trims_char(c: char, role: bool) -> (b: bool)
    ensures
        b == trims(c, role),
{
    if role {
        is_whitespace(c) || c == ':' || c == ',' || c == '-' || c == '.' || c == ';'
    } else {
        is_whitespace(c) || c == '-' || c == '/' || c == ':' || c == '*' || c == '+'
    }
}

/// The first phrase from `k` on that the lowered piece starts with, or -1.
pub open spec fn first_prefix(strip: Seq<Seq<char>>, lw: Seq<char>, k: int) -> int
    decreases strip.len() - k,
{
    if k < 0 || k >= strip.len() {
        -1
    } else if starts_with(lw, strip[k]) {
        k
    } else {
        first_prefix(strip, lw, k + 1)
    }
}

/// The first phrase from `k` on that the lowered piece ends with, or -1.
pub open spec fn first_suffix(strip: Seq<Seq<char>>, lw: Seq<char>, k: int) -> int
    decreases strip.len() - k,
{
    if k < 0 || k >= strip.len() {
        -1
    } else if ends_with(lw, strip[k]) {
        k
    } else {
        first_suffix(strip, lw, k + 1)
    }
}

pub open spec fn by_word() -> Seq<char> {
    seq![' ', 'b', 'y']
}

pub open spec fn of_word() -> Seq<char> {
    seq![' ', 'o', 'f']
}

pub open spec fn from_word() -> Seq<char> {
    seq![' ', 'f', 'r', 'o', 'm']
}

pub open spec fn with_word() -> Seq<char> {
    seq![' ', 'w', 'i', 't', 'h']
}

/// A name without the role phrases printed before or after it, taken off one at a time (the
/// first listed phrase that the piece, lowered, starts with; else the first it ends with; else
/// a trailing "by", "of", "from" or "with"), with what is left trimmed each time.
pub open spec fn role_stripped(rest: Seq<char>, strip: Seq<Seq<char>>) -> Seq<char>
    decreases rest.len(),
{
    let lw = lower_all(rest);
    let i = first_prefix(strip, lw, 0);
    let j = first_suffix(strip, lw, 0);
    if i >= 0 {
        if 0 < strip[i].len() <= rest.len() {
            let next = trimmed_by(rest.skip(strip[i].len() as int), true);
            proof {
                lemma_trimmed_shorter(rest.skip(strip[i].len() as int), true);
            }
            role_stripped(next, strip)
        } else {
            rest
        }
    } else if j >= 0 {
        if 0 < strip[j].len() <= rest.len() {
            let next = trimmed_by(rest.take(rest.len() - strip[j].len()), true);
            proof {
                lemma_trimmed_shorter(rest.take(rest.len() - strip[j].len()), true);
            }
            role_stripped(next, strip)
        } else {
            rest
        }
    } else {
        let cut = if ends_with(rest, by_word()) {
            3int
        } else if ends_with(rest, of_word()) {
            3int
        } else if ends_with(rest, from_word()) {
            5int
        } else if ends_with(rest, with_word()) {
            5int
        } else {
            0int
        };
        if 0 < cut <= rest.len() {
            let next = trimmed_by(rest.take(rest.len() - cut), true);
            proof {
                lemma_trimmed_shorter(rest.take(rest.len() - cut), true);
            }
            role_stripped(next, strip)
        } else {
            rest
        }
    }
}

fn ends_with_chars(v: &Vec<char>, p: &Vec<char>) -> (b: bool)
    ensures
        b == ends_with(v@, p@),
{
    if p.len() > v.len() {
        return false;
    }
    let tail = slice_chars(v, v.len() - p.len(), v.len());
    assert(tail@ =~= v@.skip(v@.len() - p@.len()));
    chars_eq(&tail, p)
}

fn first_prefix_of(strip: &Vec<String>, lw: &Vec<char>) -> (r: Option<usize>)
    ensures
        match r {
            Some(k) => k < strip@.len() && first_prefix(texts(strip@), lw@, 0) == k,
            None => first_prefix(texts(strip@), lw@, 0) == -1,
        },
{
    let ghost ts = texts(strip@);
    let mut k: usize = 0;
    while k < strip.len()
        invariant
            k <= strip@.len(),
            ts == texts(strip@),
            first_prefix(ts, lw@, 0) == first_prefix(ts, lw@, k as int),
        decreases strip.len() - k,
    {
        let p = chars_of(strip[k].as_str());
        if starts_with_chars(lw, &p) {
            return Some(k);
        }
        k = k + 1;
    }
    None
}

fn first_suffix_of(strip: &Vec<String>, lw: &Vec<char>) -> (r: Option<usize>)
    ensures
        match r {
            Some(k) => k < strip@.len() && first_suffix(texts(strip@), lw@, 0) == k,
            None => first_suffix(texts(strip@), lw@, 0) == -1,
        },
{
    let ghost ts = texts(strip@);
    let mut k: usize = 0;
    while k < strip.len()
        invariant
            k <= strip@.len(),
            ts == texts(strip@),
            first_suffix(ts, lw@, 0) == first_suffix(ts, lw@, k as int),
        decreases strip.len() - k,
    {
        let p = chars_of(strip[k].as_str());
        if ends_with_chars(lw, &p) {
            return Some(k);
        }
        k = k + 1;
    }
    None
}

/// A name without the role phrases printed around it.
fn without_role(name: &Vec<char>, strip: &Vec<String>) -> (out: Vec<char>)
    ensures
        out@ == role_stripped(name@, texts(strip@)),
{
    let ghost ts = texts(strip@);
    let mut rest = slice_chars(name, 0, name.len());
    assert(rest@ =~= name@);
    loop
        invariant
            ts == texts(strip@),
            role_stripped(rest@, ts) == role_stripped(name@, ts),
        decreases rest@.len(),
    {
        let lw = lower_chars(&rest);
        let n = rest.len();
        match first_prefix_of(strip, &lw) {
            Some(k) => {
                let plen = strip[k].as_str().unicode_len();
                assert(ts[k as int] == strip@[k as int]@);
                if 0 < plen && plen <= n {
                    let cut = slice_chars(&rest, plen, n);
                    assert(cut@ =~= rest@.skip(plen as int));
                    proof { lemma_trimmed_shorter(cut@, true); }
                    rest = trim_by(&cut, true);
                } else {
                    return rest;
                }
            },
            None => match first_suffix_of(strip, &lw) {
                Some(k) => {
                    let plen = strip[k].as_str().unicode_len();
                    assert(ts[k as int] == strip@[k as int]@);
                    if 0 < plen && plen <= n {
                        let cut = slice_chars(&rest, 0, n - plen);
                        assert(cut@ =~= rest@.take(n - plen));
                        proof { lemma_trimmed_shorter(cut@, true); }
                        rest = trim_by(&cut, true);
                    } else {
                        return rest;
                    }
                },
                None => {
                    let c: usize = if ends_with_chars(&rest, &vec![' ', 'b', 'y']) {
                        3
                    } else if ends_with_chars(&rest, &vec![' ', 'o', 'f']) {
                        3
                    } else if ends_with_chars(&rest, &vec![' ', 'f', 'r', 'o', 'm']) {
                        5
                    } else if ends_with_chars(&rest, &vec![' ', 'w', 'i', 't', 'h']) {
                        5
                    } else {
                        0
                    };
                    if 0 < c && c <= n {
                        let cut = slice_chars(&rest, 0, n - c);
                        assert(cut@ =~= rest@.take(n - c));
                        proof { lemma_trimmed_shorter(cut@, true); }
                        rest = trim_by(&cut, true);
                    } else {
                        return rest;
                    }
                },
            },
        }
    }
}

/// A bracket with no letter or digit in it.
pub open spec fn empty_bracket_re() -> Seq<char> {
    "\\([^A-Za-z0-9]*\\)"@
}

/// A party's name as printed, made fit to file: entities read, empty brackets and runs of
/// whitespace made single spaces, role phrases taken off, edges trimmed, trailing dots
/// dropped; and nothing at all when what is left is one of the words that name nobody.
pub open spec fn cleaned(raw: Seq<char>, words: WordsView) -> Seq<char> {
    let d = swapped_all(unescaped(raw), empty_bracket_re(), " "@);
    let c = swapped_all(trim(d), space_re(), " "@);
    let t = strip_trail(trimmed_by(role_stripped(c, words.strip), false), '.');
    if words.ignore.contains(strip_trail(lower_all(t), '.')) {
        Seq::empty()
    } else {
        t
    }
}

fn strip_dots(v: &Vec<char>) -> (out: Vec<char>)
    ensures
        out@ == strip_trail(v@, '.'),
{
    let mut end = v.len();
    assert(v@.subrange(0, end as int) =~= v@);
    while end > 0 && v[end - 1] == '.'
        invariant
            end <= v@.len(),
            strip_trail(v@, '.') == strip_trail(v@.subrange(0, end as int), '.'),
        decreases end,
    {
        assert(v@.subrange(0, end as int).drop_last() =~= v@.subrange(0, end - 1));
        end = end - 1;
    }
    slice_chars(v, 0, end)
}

fn contains_text(list: &Vec<String>, v: &Vec<char>) -> (b: bool)
    ensures
        b == texts(list@).contains(v@),
{
    let mut k: usize = 0;
    while k < list.len()
        invariant
            k <= list@.len(),
            forall|j: int| 0 <= j < k ==> texts(list@)[j] != v@,
        decreases list.len() - k,
    {
        let w = chars_of(list[k].as_str());
        if chars_eq(&w, v) {
            assert(texts(list@)[k as int] == v@);
            return true;
        }
        k = k + 1;
    }
    false
}

/// A party's name as printed, made fit to file.
pub fn clean(raw: &str, words: &CreditWords) -> (out: String)
    requires
        forall|k: int| 0 <= k < words.strip@.len() ==> (#[trigger] words.strip@[k])@.len() > 0,
    ensures
        out@ == cleaned(raw@, words@),
{
    let u = unescape(raw);
    let d = substitute_all("\\([^A-Za-z0-9]*\\)", u.as_str(), " ");
    let td = string_of(&trim_chars(&chars_of(d.as_str())));
    let c = substitute_all("\\s+", td.as_str(), " ");
    let w = without_role(&chars_of(c.as_str()), &words.strip);
    let t = strip_dots(&trim_by(&w, false));
    let folded = strip_dots(&lower_chars(&t));
    if contains_text(&words.ignore, &folded) {
        String::new()
    } else {
        string_of(&t)
    }
}

/// The run of characters `t` starts with, up to its first whitespace.
pub open spec fn word_prefix(t: Seq<char>) -> Seq<char>
    decreases t.len(),
{
    if t.len() == 0 || is_space(t[0]) {
        Seq::empty()
    } else {
        seq![t[0]] + word_prefix(t.skip(1))
    }
}

/// The first whitespace-separated word of `s` (`split_whitespace().next()`).
pub open spec fn first_word(s: Seq<char>) -> Option<Seq<char>> {
    let t = trim_start(s);
    if t.len() == 0 {
        None
    } else {
        Some(word_prefix(t))
    }
}

/// The words of `s` once `cur` is done: runs of letters and digits, the rest separating them.
pub open spec fn words_from(s: Seq<char>, cur: Seq<char>) -> Seq<Seq<char>>
    decreases s.len(),
{
    if s.len() == 0 {
        if cur.len() > 0 {
            seq![cur]
        } else {
            Seq::empty()
        }
    } else if alphanumeric(s[0]) {
        words_from(s.skip(1), cur.push(s[0]))
    } else {
        (if cur.len() > 0 {
            seq![cur]
        } else {
            Seq::empty()
        }) + words_from(s.skip(1), Seq::empty())
    }
}

/// The runs of letters and digits in `s`, in order.
pub open spec fn alnum_words(s: Seq<char>) -> Seq<Seq<char>> {
    words_from(s, Seq::empty())
}

pub open spec fn dotless(s: Seq<char>) -> Seq<char> {
    s.map_values(|c: char| if c == '.' { ' ' } else { c })
}

/// A name that reads as a person's: two to four words, no digit, each a particle or starting
/// with a capital or a character that is no letter, not all particles and not all initials.
pub open spec fn personal(name: Seq<char>, ws: Seq<Seq<char>>) -> bool {
    &&& 2 <= ws.len() <= 4
    &&& forall|i: int| 0 <= i < name.len() ==> !is_digit(#[trigger] name[i])
    &&& forall|k: int| 0 <= k < ws.len() ==> particle(#[trigger] ws[k]) || (ws[k].len() > 0 && (
        uppercase(ws[k][0]) || !alphabetic(ws[k][0])))
    &&& !(forall|k: int| 0 <= k < ws.len() ==> particle(#[trigger] ws[k]))
    &&& !(forall|k: int| 0 <= k < ws.len() ==> acronym(#[trigger] ws[k]))
}

/// What a party is: a body where its identity was ruled one, where a body's word stands in its
/// name or its first word is a body's, where every word is initials, or where a word of it is
/// a body's identity; a person where the name reads as one; otherwise not known.
pub open spec fn kind_of(id: Seq<char>, name: Seq<char>, words: WordsView, judged: JudgedView) -> Kind {
    let wa = lowercased(swapped_first(name, affiliation_re(), ""@));
    let ws = alnum_words(name);
    if judged.groups.contains(id) {
        Kind::Group
    } else if (exists|k: int| 0 <= k < words.group.len() && has_seq(wa, #[trigger] words.group[k]))
        || (exists|k: int| 0 <= k < words.prefix.len() && first_word(dotless(wa)) == Some(#[trigger] words.prefix[k])) {
        Kind::Group
    } else if ws.len() > 0 && forall|k: int| 0 <= k < ws.len() ==> acronym(#[trigger] ws[k]) {
        Kind::Group
    } else if exists|k: int| 0 <= k < ws.len() && judged.groups.contains(lowercased(#[trigger] ws[k])) {
        Kind::Group
    } else if personal(name, ws) {
        Kind::Person
    } else {
        Kind::Unknown
    }
}

fn first_word_of(v: &Vec<char>) -> (r: Option<Vec<char>>)
    ensures
        match r {
            Some(w) => first_word(v@) == Some(w@),
            None => first_word(v@) is None,
        },
{
    let start = skip_space(v, 0);
    assert(v@.subrange(0, v@.len() as int) =~= v@);
    if start == v.len() {
        return None;
    }
    let ghost t = v@.skip(start as int);
    assert(v@.subrange(start as int, v@.len() as int) =~= t);
    let mut end = start;
    while end < v.len() && !is_whitespace(v[end])
        invariant
            start <= end <= v@.len(),
            t == v@.skip(start as int),
            word_prefix(t) == v@.subrange(start as int, end as int) + word_prefix(v@.skip(end as int)),
        decreases v.len() - end,
    {
        let ghost rest = v@.skip(end as int);
        assert(rest.skip(1) =~= v@.skip(end + 1));
        assert(v@.subrange(start as int, end + 1) =~= v@.subrange(start as int, end as int).push(v@[end as int]));
        assert(seq![rest[0]] + word_prefix(rest.skip(1)) == word_prefix(rest));
        end = end + 1;
    }
    assert(word_prefix(v@.skip(end as int)) =~= Seq::<char>::empty());
    let w = slice_chars(v, start, end);
    assert(w@ =~= word_prefix(t));
    Some(w)
}

fn alnum_words_of(v: &Vec<char>) -> (out: Vec<Vec<char>>)
    ensures
        out@.map_values(|w: Vec<char>| w@) == alnum_words(v@),
{
    let mut out: Vec<Vec<char>> = Vec::new();
    let mut cur: Vec<char> = Vec::new();
    let mut i: usize = 0;
    assert(v@.skip(0) =~= v@);
    while i < v.len()
        invariant
            i <= v@.len(),
            out@.map_values(|w: Vec<char>| w@) + words_from(v@.skip(i as int), cur@) == alnum_words(v@),
        decreases v.len() - i,
    {
        let ghost rest = v@.skip(i as int);
        let ghost before = out@.map_values(|w: Vec<char>| w@);
        assert(rest.skip(1) =~= v@.skip(i + 1));
        assert(rest[0] == v@[i as int]);
        if is_alphanumeric(v[i]) {
            cur.push(v[i]);
        } else {
            if cur.len() > 0 {
                out.push(cur);
                assert(out@.map_values(|w: Vec<char>| w@) =~= before.push(cur@));
                assert(before + (seq![cur@] + words_from(rest.skip(1), Seq::empty())) =~= before.push(cur@) + words_from(rest.skip(1), Seq::empty()));
            } else {
                assert(Seq::<Seq<char>>::empty() + words_from(rest.skip(1), Seq::empty()) =~= words_from(rest.skip(1), Seq::empty()));
            }
            cur = Vec::new();
        }
        i = i + 1;
    }
    let ghost before = out@.map_values(|w: Vec<char>| w@);
    assert(v@.skip(i as int) =~= Seq::<char>::empty());
    if cur.len() > 0 {
        out.push(cur);
        assert(out@.map_values(|w: Vec<char>| w@) =~= before.push(cur@));
    } else {
        assert(before + Seq::<Seq<char>>::empty() =~= before);
    }
    out
}

fn any_digit(v: &Vec<char>) -> (b: bool)
    ensures
        b == exists|i: int| 0 <= i < v@.len() && is_digit(#[trigger] v@[i]),
{
    let mut i: usize = 0;
    while i < v.len()
        invariant
            i <= v@.len(),
            forall|j: int| 0 <= j < i ==> !is_digit(#[trigger] v@[j]),
        decreases v.len() - i,
    {
        if '0' <= v[i] && v[i] <= '9' {
            assert(is_digit(v@[i as int]));
            return true;
        }
        i = i + 1;
    }
    false
}

/// Whether a credited party is a person, a body, or not known.
pub fn kind(id: &str, name: &str, words: &CreditWords, judged: &Judged) -> (k: Kind)
    ensures
        k == kind_of(id@, name@, words@, judged@),
{
    proof {
        reveal_strlit("");
    }
    let ghost wv = words@;
    let ghost jv = judged@;
    if contains_text(&judged.groups, &chars_of(id)) {
        return Kind::Group;
    }
    let bare = substitute_first("\\s*\\([^)]*\\)\\s*$", name, "");
    let wa_s = lowercase(bare.as_str());
    let wa = chars_of(wa_s.as_str());
    assert(wa@ == lowercased(swapped_first(name@, affiliation_re(), ""@)));
    let mut i: usize = 0;
    while i < words.group.len()
        invariant
            i <= words.group@.len(),
            wv == words@,
            jv == judged@,
            !jv.groups.contains(id@),
            wa@ == lowercased(swapped_first(name@, affiliation_re(), ""@)),
            forall|k: int| 0 <= k < i ==> !has_seq(wa@, #[trigger] wv.group[k]),
        decreases words.group.len() - i,
    {
        assert(wv.group[i as int] == words.group@[i as int]@);
        if contains_chars(&wa, &chars_of(words.group[i].as_str())) {
            assert(has_seq(wa@, wv.group[i as int]));
            return Kind::Group;
        }
        i = i + 1;
    }
    let mut dl: Vec<char> = Vec::new();
    let mut j: usize = 0;
    while j < wa.len()
        invariant
            j <= wa@.len(),
            dl@ == dotless(wa@.take(j as int)),
        decreases wa.len() - j,
    {
        dl.push(if wa[j] == '.' { ' ' } else { wa[j] });
        j = j + 1;
        assert(dl@ =~= dotless(wa@.take(j as int)));
    }
    assert(wa@.take(j as int) =~= wa@);
    let first = first_word_of(&dl);
    match first {
        Some(fw) => {
            let mut p: usize = 0;
            while p < words.prefix.len()
                invariant
                    p <= words.prefix@.len(),
                    wv == words@,
                    jv == judged@,
                    !jv.groups.contains(id@),
                    wa@ == lowercased(swapped_first(name@, affiliation_re(), ""@)),
                    first_word(dotless(wa@)) == Some(fw@),
                    forall|k: int| 0 <= k < p ==> first_word(dotless(wa@)) != Some(#[trigger] wv.prefix[k]),
                decreases words.prefix.len() - p,
            {
                assert(wv.prefix[p as int] == words.prefix@[p as int]@);
                if chars_eq(&fw, &chars_of(words.prefix[p].as_str())) {
                    assert(first_word(dotless(wa@)) == Some(wv.prefix[p as int]));
                    return Kind::Group;
                }
                p = p + 1;
            }
        },
        None => {},
    }
    let nv = chars_of(name);
    let ws = alnum_words_of(&nv);
    let ghost wsv = ws@.map_values(|w: Vec<char>| w@);
    let mut all_acronyms = true;
    let mut all_particles = true;
    let mut shaped = true;
    let mut ruled = false;
    let mut k: usize = 0;
    while k < ws.len()
        invariant
            k <= ws@.len(),
            wsv == ws@.map_values(|w: Vec<char>| w@),
            jv == judged@,
            all_acronyms == forall|m: int| 0 <= m < k ==> acronym(#[trigger] wsv[m]),
            all_particles == forall|m: int| 0 <= m < k ==> particle(#[trigger] wsv[m]),
            shaped == forall|m: int| 0 <= m < k ==> particle(#[trigger] wsv[m]) || (wsv[m].len() > 0 && (
                uppercase(wsv[m][0]) || !alphabetic(wsv[m][0]))),
            ruled == exists|m: int| 0 <= m < k && jv.groups.contains(lowercased(#[trigger] wsv[m])),
        decreases ws.len() - k,
    {
        let w = string_of(&ws[k]);
        assert(wsv[k as int] == w@);
        let acr = is_acronym(w.as_str());
        let par = is_particle(w.as_str());
        if !acr {
            all_acronyms = false;
        }
        if !par {
            all_particles = false;
            let fine = ws[k].len() > 0 && (is_uppercase(ws[k][0]) || !is_alphabetic(ws[k][0]));
            if !fine {
                shaped = false;
            }
        }
        let lw = lowercase(w.as_str());
        if contains_text(&judged.groups, &chars_of(lw.as_str())) {
            ruled = true;
        }
        k = k + 1;
    }
    if ws.len() > 0 && all_acronyms {
        return Kind::Group;
    }
    if ruled {
        return Kind::Group;
    }
    let n = ws.len();
    if 2 <= n && n <= 4 && !any_digit(&nv) && shaped && !all_particles && !all_acronyms {
        Kind::Person
    } else {
        Kind::Unknown
    }
}

/// A link in a credit: its address in group 1, what it says in group 2.
pub open spec fn anchor_re() -> Seq<char> {
    "(?s)<a[^>]*href=\"([^\"]*)\"[^>]*>(.*?)</a>"@
}

/// One tag.
pub open spec fn tags_re() -> Seq<char> {
    "<[^>]*>"@
}

/// A party as its link, if it had one, and its cleaned name.
pub open spec fn party_view(p: (Option<String>, String)) -> (Option<Seq<char>>, Seq<char>) {
    (opt_text(p.0), p.1@)
}

pub open spec fn party_views(ps: Seq<(Option<String>, String)>) -> Seq<(Option<Seq<char>>, Seq<char>)> {
    ps.map_values(|p: (Option<String>, String)| party_view(p))
}

/// The linked parties of the first `k` links `caps` found: each link's cleaned text, with its
/// trimmed address when that is not empty; a link whose text cleans to nothing names nobody.
pub open spec fn linked_upto(
    html: Seq<char>,
    caps: Seq<Seq<Option<(int, int)>>>,
    k: int,
    words: WordsView,
) -> Seq<(Option<Seq<char>>, Seq<char>)>
    decreases k,
{
    if k <= 0 {
        Seq::empty()
    } else {
        let prev = linked_upto(html, caps, k - 1, words);
        let name = cleaned(without_all(group_text(html, caps[k - 1], 2), tags_re()), words);
        let url = trim(group_text(html, caps[k - 1], 1));
        if name.len() == 0 {
            prev
        } else {
            prev.push((if url.len() > 0 { Some(url) } else { None }, name))
        }
    }
}

pub open spec fn separator(c: char) -> bool {
    c == ',' || c == ';' || c == '&'
}

/// The pieces of `s` between its commas, semicolons and ampersands, once `cur` is done.
pub open spec fn split_any_from(s: Seq<char>, cur: Seq<char>) -> Seq<Seq<char>>
    decreases s.len(),
{
    if s.len() == 0 {
        seq![cur]
    } else if separator(s[0]) {
        seq![cur] + split_any_from(s.skip(1), Seq::empty())
    } else {
        split_any_from(s.skip(1), cur.push(s[0]))
    }
}

pub open spec fn and_word() -> Seq<char> {
    seq![' ', 'a', 'n', 'd', ' ']
}

/// Each piece split again at " and ", all in order.
pub open spec fn and_pieces(ps: Seq<Seq<char>>) -> Seq<Seq<char>>
    decreases ps.len(),
{
    if ps.len() == 0 {
        Seq::empty()
    } else {
        and_pieces(ps.drop_last()) + split_seq(ps.last(), and_word())
    }
}

pub open spec fn count_char(s: Seq<char>, c: char) -> nat
    decreases s.len(),
{
    if s.len() == 0 {
        0
    } else {
        count_char(s.drop_last(), c) + if s.last() == c {
            1nat
        } else {
            0nat
        }
    }
}

/// What is left of a bracket that held an affiliation: it opens with one, or closes more than
/// it opens.
pub open spec fn affiliation(name: Seq<char>) -> bool {
    (name.len() > 0 && name[0] == '(') || count_char(name, ')') > count_char(name, '(')
}

/// `out` with the first `k` unlinked pieces added: each cleaned, and kept unless it cleans to
/// nothing, is an affiliation, or a party of that name is there already.
pub open spec fn unlinked_into(
    out: Seq<(Option<Seq<char>>, Seq<char>)>,
    pieces: Seq<Seq<char>>,
    k: int,
    words: WordsView,
) -> Seq<(Option<Seq<char>>, Seq<char>)>
    decreases k,
{
    if k <= 0 {
        out
    } else {
        let prev = unlinked_into(out, pieces, k - 1, words);
        let name = cleaned(pieces[k - 1], words);
        if name.len() == 0 || affiliation(name) || (exists|i: int| 0 <= i < prev.len() && (#[trigger] prev[i]).1 == name) {
            prev
        } else {
            prev.push((None, name))
        }
    }
}

/// The text of a credit outside its links, tags made spaces and entities read.
pub open spec fn unlinked_text(html: Seq<char>) -> Seq<char> {
    unescaped(swapped_all(swapped_all(html, anchor_re(), " "@), tags_re(), " "@))
}

/// The parties a credit's HTML names: its links first, then the names printed between them.
pub open spec fn parties_of(html: Seq<char>, words: WordsView) -> Seq<(Option<Seq<char>>, Seq<char>)> {
    let caps = captures_of(anchor_re(), html);
    let pieces = and_pieces(split_any_from(unlinked_text(html), Seq::empty()));
    unlinked_into(linked_upto(html, caps, caps.len() as int, words), pieces, pieces.len() as int, words)
}

fn count_of(v: &Vec<char>, c: char) -> (n: usize)
    ensures
        n == count_char(v@, c),
{
    let mut n: usize = 0;
    let mut i: usize = 0;
    while i < v.len()
        invariant
            i <= v@.len(),
            n == count_char(v@.take(i as int), c),
            n <= i,
        decreases v.len() - i,
    {
        assert(v@.take(i + 1).drop_last() =~= v@.take(i as int));
        if v[i] == c {
            n = n + 1;
        }
        i = i + 1;
    }
    assert(v@.take(i as int) =~= v@);
    n
}

fn split_any(v: &Vec<char>) -> (out: Vec<Vec<char>>)
    ensures
        out@.map_values(|w: Vec<char>| w@) == split_any_from(v@, Seq::empty()),
{
    let mut out: Vec<Vec<char>> = Vec::new();
    let mut cur: Vec<char> = Vec::new();
    let mut i: usize = 0;
    assert(v@.skip(0) =~= v@);
    while i < v.len()
        invariant
            i <= v@.len(),
            out@.map_values(|w: Vec<char>| w@) + split_any_from(v@.skip(i as int), cur@) == split_any_from(v@, Seq::empty()),
        decreases v.len() - i,
    {
        let ghost rest = v@.skip(i as int);
        let ghost before = out@.map_values(|w: Vec<char>| w@);
        assert(rest.skip(1) =~= v@.skip(i + 1));
        assert(rest[0] == v@[i as int]);
        let c = v[i];
        if c == ',' || c == ';' || c == '&' {
            out.push(cur);
            assert(out@.map_values(|w: Vec<char>| w@) =~= before.push(cur@));
            assert(before + (seq![cur@] + split_any_from(rest.skip(1), Seq::empty())) =~= before.push(cur@) + split_any_from(rest.skip(1), Seq::empty()));
            cur = Vec::new();
        } else {
            cur.push(c);
        }
        i = i + 1;
    }
    let ghost before = out@.map_values(|w: Vec<char>| w@);
    assert(v@.skip(i as int) =~= Seq::<char>::empty());
    out.push(cur);
    assert(out@.map_values(|w: Vec<char>| w@) =~= before.push(cur@));
    out
}

fn named_already(out: &Vec<(Option<String>, String)>, name: &Vec<char>) -> (b: bool)
    ensures
        b == exists|i: int| 0 <= i < out@.len() && (#[trigger] party_views(out@)[i]).1 == name@,
{
    let ghost pv = party_views(out@);
    let mut i: usize = 0;
    while i < out.len()
        invariant
            i <= out@.len(),
            pv == party_views(out@),
            forall|j: int| 0 <= j < i ==> (#[trigger] pv[j]).1 != name@,
        decreases out.len() - i,
    {
        assert(pv[i as int] == party_view(out@[i as int]));
        if chars_eq(&chars_of(out[i].1.as_str()), name) {
            return true;
        }
        i = i + 1;
    }
    false
}

fn text_of(o: &Option<String>) -> (r: Option<String>)
    ensures
        opt_text(r) == opt_text(*o),
{
    match o {
        Some(u) => Some(u.clone()),
        None => None,
    }
}

/// The parties a credit's HTML names.
fn parties(html: &str, words: &CreditWords) -> (out: Vec<(Option<String>, String)>)
    requires
        forall|k: int| 0 <= k < words.strip@.len() ==> (#[trigger] words.strip@[k])@.len() > 0,
    ensures
        party_views(out@) == parties_of(html@, words@),
{
    let v = chars_of(html);
    let anchor = "(?s)<a[^>]*href=\"([^\"]*)\"[^>]*>(.*?)</a>";
    let caps = captures(anchor, html);
    let ghost cv = captures_view(caps@);
    let mut out: Vec<(Option<String>, String)> = Vec::new();
    let mut k: usize = 0;
    while k < caps.len()
        invariant
            k <= caps@.len(),
            v@ == html@,
            cv == captures_view(caps@),
            cv == captures_of(anchor_re(), html@),
            well_placed(cv, html@.len()),
            forall|j: int| 0 <= j < words.strip@.len() ==> (#[trigger] words.strip@[j])@.len() > 0,
            party_views(out@) == linked_upto(html@, cv, k as int, words@),
        decreases caps.len() - k,
    {
        assert(cv[k as int] == spans_view(caps@[k as int]@));
        assert(groups_in(spans_view(caps@[k as int]@), v@.len() as int)) by {
            assert forall|g: int| 0 <= g < cv[k as int].len() && (#[trigger] cv[k as int][g]) is Some
                implies 0 <= crate::pattern::span_start(cv[k as int][g]) <= crate::pattern::span_end(cv[k as int][g]) <= v@.len() by {}
        }
        let text = string_of(&group_of(&v, &caps[k], 2));
        let bare = remove_all("<[^>]*>", text.as_str());
        let name = clean(bare.as_str(), words);
        let url = trim_chars(&group_of(&v, &caps[k], 1));
        let ghost before = out@;
        if chars_of(name.as_str()).len() > 0 {
            let link = if url.len() > 0 { Some(string_of(&url)) } else { None };
            out.push((link, name));
            assert(party_views(out@) =~= party_views(before).push(party_view(out@[before.len() as int])));
        } else {
            proof {
                assert(name@.len() == 0);
            }
        }
        k = k + 1;
    }
    let outside = substitute_all(anchor, html, " ");
    let untagged = substitute_all("<[^>]*>", outside.as_str(), " ");
    let rest = unescape(untagged.as_str());
    let split = split_any(&chars_of(rest.as_str()));
    let ghost sv = split@.map_values(|w: Vec<char>| w@);
    let and_v = vec![' ', 'a', 'n', 'd', ' '];
    assert(and_v@ =~= and_word());
    let mut pieces: Vec<Vec<char>> = Vec::new();
    let mut m: usize = 0;
    while m < split.len()
        invariant
            m <= split@.len(),
            sv == split@.map_values(|w: Vec<char>| w@),
            and_v@ == and_word(),
            pieces@.map_values(|w: Vec<char>| w@) == and_pieces(sv.take(m as int)),
        decreases split.len() - m,
    {
        let ghost before = pieces@.map_values(|w: Vec<char>| w@);
        let mut more = split_chars(&split[m], &and_v);
        assert(sv.take(m + 1).drop_last() =~= sv.take(m as int));
        assert(sv[m as int] == split@[m as int]@);
        pieces.append(&mut more);
        m = m + 1;
        assert(pieces@.map_values(|w: Vec<char>| w@) =~= and_pieces(sv.take(m as int)));
    }
    assert(sv.take(m as int) =~= sv);
    let ghost pv = pieces@.map_values(|w: Vec<char>| w@);
    let ghost linked = party_views(out@);
    let mut j: usize = 0;
    while j < pieces.len()
        invariant
            j <= pieces@.len(),
            pv == pieces@.map_values(|w: Vec<char>| w@),
            forall|q: int| 0 <= q < words.strip@.len() ==> (#[trigger] words.strip@[q])@.len() > 0,
            party_views(out@) == unlinked_into(linked, pv, j as int, words@),
        decreases pieces.len() - j,
    {
        let piece = string_of(&pieces[j]);
        assert(pv[j as int] == piece@);
        let name = clean(piece.as_str(), words);
        let nv = chars_of(name.as_str());
        let ghost before = out@;
        if nv.len() == 0 {
        } else if nv[0] == '(' || count_of(&nv, ')') > count_of(&nv, '(') {
        } else if named_already(&out, &nv) {
        } else {
            out.push((None, name));
            assert(party_views(out@) =~= party_views(before).push(party_view(out@[before.len() as int])));
        }
        j = j + 1;
    }
    out
}

/// One credited party as the index files it: identity, name as printed, role, link, kind.
pub struct MentionView {
    pub id: Seq<char>,
    pub name: Seq<char>,
    pub role: Seq<char>,
    pub url: Option<Seq<char>>,
    pub kind: Kind,
}

pub open spec fn mention_view(m: Mention) -> MentionView {
    MentionView { id: m.id@, name: m.name@, role: m.role@, url: opt_text(m.url), kind: m.kind }
}

pub open spec fn mention_views(ms: Seq<Mention>) -> Seq<MentionView> {
    ms.map_values(|m: Mention| mention_view(m))
}

/// Where the first mention from `k` on with identity `id` stands, or -1.
pub open spec fn first_with_id(found: Seq<MentionView>, id: Seq<char>, k: int) -> int
    decreases found.len() - k,
{
    if k < 0 || k >= found.len() {
        -1
    } else if found[k].id == id {
        k
    } else {
        first_with_id(found, id, k + 1)
    }
}

/// The mentions once one more party is read: a party with no identity adds nothing; one whose
/// identity is there already gives that mention its link if it had none; any other is added.
pub open spec fn after_party(
    found: Seq<MentionView>,
    role: Seq<char>,
    p: (Option<Seq<char>>, Seq<char>),
    words: WordsView,
    judged: JudgedView,
) -> Seq<MentionView> {
    match identity_of(p.1, judged) {
        None => found,
        Some(id) => {
            let i = first_with_id(found, id, 0);
            if i >= 0 {
                if found[i].url is None {
                    found.update(
                        i,
                        MentionView { id: found[i].id, name: found[i].name, role: found[i].role, url: p.0, kind: found[i].kind },
                    )
                } else {
                    found
                }
            } else {
                found.push(MentionView { id, name: p.1, role, url: p.0, kind: kind_of(id, p.1, words, judged) })
            }
        },
    }
}

pub open spec fn after_parties(
    found: Seq<MentionView>,
    role: Seq<char>,
    ps: Seq<(Option<Seq<char>>, Seq<char>)>,
    n: int,
    words: WordsView,
    judged: JudgedView,
) -> Seq<MentionView>
    decreases n,
{
    if n <= 0 {
        found
    } else {
        after_party(after_parties(found, role, ps, n - 1, words, judged), role, ps[n - 1], words, judged)
    }
}

/// A credit's role with its whitespace made single spaces.
pub open spec fn role_of(c: Credit) -> Seq<char> {
    swapped_all(trim(c.role@), space_re(), " "@)
}

pub open spec fn mentions_upto(credits: Seq<Credit>, k: int, words: WordsView, judged: JudgedView) -> Seq<MentionView>
    decreases k,
{
    if k <= 0 {
        Seq::empty()
    } else {
        let ps = parties_of(credits[k - 1].html@, words);
        after_parties(mentions_upto(credits, k - 1, words, judged), role_of(credits[k - 1]), ps, ps.len() as int, words, judged)
    }
}

/// Every party an entry credits, each once, in the order first credited.
pub open spec fn mentions_of(entry: ApodEntry, words: WordsView, judged: JudgedView) -> Seq<MentionView> {
    mentions_upto(entry.credits@, entry.credits@.len() as int, words, judged)
}

fn find_id(found: &Vec<Mention>, id: &String) -> (r: Option<usize>)
    ensures
        match r {
            Some(i) => i < found@.len() && first_with_id(mention_views(found@), id@, 0) == i,
            None => first_with_id(mention_views(found@), id@, 0) == -1,
        },
{
    let ghost fv = mention_views(found@);
    let mut i: usize = 0;
    while i < found.len()
        invariant
            i <= found@.len(),
            fv == mention_views(found@),
            first_with_id(fv, id@, 0) == first_with_id(fv, id@, i as int),
        decreases found.len() - i,
    {
        assert(fv[i as int] == mention_view(found@[i as int]));
        if found[i].id == *id {
            return Some(i);
        }
        i = i + 1;
    }
    None
}

/// Every party an entry credits, each once however many times and ways it was printed, in the
/// order first credited, with the role it was first credited in and the first link to it.
pub fn mentions(entry: &ApodEntry, words: &CreditWords, judged: &Judged) -> (ms: Vec<Mention>)
    requires
        forall|k: int| 0 <= k < words.strip@.len() ==> (#[trigger] words.strip@[k])@.len() > 0,
    ensures
        mention_views(ms@) == mentions_of(*entry, words@, judged@),
{
    let mut found: Vec<Mention> = Vec::new();
    let mut c: usize = 0;
    while c < entry.credits.len()
        invariant
            c <= entry.credits@.len(),
            forall|k: int| 0 <= k < words.strip@.len() ==> (#[trigger] words.strip@[k])@.len() > 0,
            mention_views(found@) == mentions_upto(entry.credits@, c as int, words@, judged@),
        decreases entry.credits.len() - c,
    {
        let credit = &entry.credits[c];
        let trimmed = string_of(&trim_chars(&chars_of(credit.role.as_str())));
        let role = substitute_all("\\s+", trimmed.as_str(), " ");
        let ps = parties(credit.html.as_str(), words);
        let ghost start = mention_views(found@);
        let ghost pv = party_views(ps@);
        let mut q: usize = 0;
        while q < ps.len()
            invariant
                q <= ps@.len(),
                pv == party_views(ps@),
                role@ == role_of(*credit),
                mention_views(found@) == after_parties(start, role@, pv, q as int, words@, judged@),
            decreases ps.len() - q,
        {
            let ghost before = mention_views(found@);
            assert(pv[q as int] == party_view(ps@[q as int]));
            match identity(ps[q].1.as_str(), judged) {
                None => {},
                Some(id) => {
                    match find_id(&found, &id) {
                        Some(i) => {
                            assert(before[i as int] == mention_view(found@[i as int]));
                            if found[i].url.is_none() {
                                let m = Mention {
                                    id: found[i].id.clone(),
                                    name: found[i].name.clone(),
                                    role: found[i].role.clone(),
                                    url: text_of(&ps[q].0),
                                    kind: found[i].kind,
                                };
                                found.set(i, m);
                                assert(mention_views(found@) =~= before.update(i as int, mention_view(m)));
                            }
                        },
                        None => {
                            let k = kind(id.as_str(), ps[q].1.as_str(), words, judged);
                            let m = Mention {
                                id,
                                name: ps[q].1.clone(),
                                role: role.clone(),
                                url: text_of(&ps[q].0),
                                kind: k,
                            };
                            found.push(m);
                            assert(mention_views(found@) =~= before.push(mention_view(m)));
                        },
                    }
                },
            }
            q = q + 1;
        }
        assert(entry.credits@[c as int] == *credit);
        c = c + 1;
    }
    found
}

pub open spec fn ids_distinct(ms: Seq<MentionView>) -> bool {
    forall|i: int, j: int| 0 <= i < j < ms.len() ==> (#[trigger] ms[i]).id != (#[trigger] ms[j]).id
}

proof fn lemma_first_with_id(found: Seq<MentionView>, id: Seq<char>, k: int)
    requires
        0 <= k,
    ensures
        first_with_id(found, id, k) == -1 ==> forall|m: int| k <= m < found.len() ==> (#[trigger] found[m]).id != id,
        first_with_id(found, id, k) != -1 ==> k <= first_with_id(found, id, k) < found.len(),
    decreases found.len() - k,
{
    if k < found.len() && found[k].id != id {
        lemma_first_with_id(found, id, k + 1);
    }
}

proof fn lemma_after_party_distinct(
    found: Seq<MentionView>,
    role: Seq<char>,
    p: (Option<Seq<char>>, Seq<char>),
    words: WordsView,
    judged: JudgedView,
)
    requires
        ids_distinct(found),
    ensures
        ids_distinct(after_party(found, role, p, words, judged)),
{
    match identity_of(p.1, judged) {
        None => {},
        Some(id) => {
            lemma_first_with_id(found, id, 0);
            let out = after_party(found, role, p, words, judged);
            assert forall|i: int, j: int| 0 <= i < j < out.len() implies (#[trigger] out[i]).id != (#[trigger] out[j]).id by {
                if first_with_id(found, id, 0) == -1 && j == found.len() {
                    assert(out[i] == found[i]);
                } else {
                    assert(out[i].id == found[i].id);
                    assert(out[j].id == found[j].id);
                }
            }
        },
    }
}

proof fn lemma_after_parties_distinct(
    found: Seq<MentionView>,
    role: Seq<char>,
    ps: Seq<(Option<Seq<char>>, Seq<char>)>,
    n: int,
    words: WordsView,
    judged: JudgedView,
)
    requires
        ids_distinct(found),
    ensures
        ids_distinct(after_parties(found, role, ps, n, words, judged)),
    decreases n,
{
    if n > 0 {
        lemma_after_parties_distinct(found, role, ps, n - 1, words, judged);
        lemma_after_party_distinct(after_parties(found, role, ps, n - 1, words, judged), role, ps[n - 1], words, judged);
    }
}

proof fn lemma_mentions_distinct(credits: Seq<Credit>, k: int, words: WordsView, judged: JudgedView)
    ensures
        ids_distinct(mentions_upto(credits, k, words, judged)),
    decreases k,
{
    if k > 0 {
        lemma_mentions_distinct(credits, k - 1, words, judged);
        let ps = parties_of(credits[k - 1].html@, words);
        lemma_after_parties_distinct(
            mentions_upto(credits, k - 1, words, judged),
            role_of(credits[k - 1]),
            ps,
            ps.len() as int,
            words,
            judged,
        );
    }
}

/// One party is one mention however many times and ways an entry prints it: no two of an
/// entry's mentions share an identity.
pub proof fn law_each_party_once(entry: ApodEntry, words: WordsView, judged: JudgedView)
    ensures
        ids_distinct(mentions_of(entry, words, judged)),
{
    lemma_mentions_distinct(entry.credits@, entry.credits@.len() as int, words, judged);
}

/// However a name is printed, what it is filed under depends only on its folded key: two
/// printings that fold alike (case, accents, punctuation, an affiliation in brackets, spacing)
/// are one identity.
pub proof fn law_spellings_that_fold_alike_are_one_identity(a: Seq<char>, b: Seq<char>, judged: JudgedView)
    requires
        identity_key(a) == identity_key(b),
    ensures
        identity_of(a, judged) == identity_of(b, judged),
{
}

/// The lowercase words that sit inside a person's name without making it a body's.
pub open spec fn name_particle(w: Seq<char>) -> bool {
    ||| w == "de"@
    ||| w == "van"@
    ||| w == "der"@
    ||| w == "von"@
    ||| w == "da"@
    ||| w == "di"@
    ||| w == "del"@
    ||| w == "della"@
    ||| w == "dello"@
    ||| w == "la"@
    ||| w == "le"@
    ||| w == "du"@
    ||| w == "dos"@
    ||| w == "den"@
    ||| w == "ter"@
    ||| w == "bin"@
    ||| w == "ibn"@
    ||| w == "af"@
    ||| w == "av"@
    ||| w == "zu"@
}

/// A name that no rule for bodies claims, of two to four words, no digit, each word capitalised
/// or one of the particles, not all of them particles and not all initials, reads as a person:
/// "Roeland van der Marel", "Davide de Martin", "P. van Dokkum".
pub proof fn law_a_name_with_particles_reads_as_a_person(
    id: Seq<char>,
    name: Seq<char>,
    words: WordsView,
    judged: JudgedView,
)
    requires
        !judged.groups.contains(id),
        forall|k: int| 0 <= k < words.group.len() ==> !has_seq(
            lowercased(swapped_first(name, affiliation_re(), ""@)),
            #[trigger] words.group[k],
        ),
        forall|k: int| 0 <= k < words.prefix.len() ==> first_word(
            dotless(lowercased(swapped_first(name, affiliation_re(), ""@))),
        ) != Some(#[trigger] words.prefix[k]),
        ({
            let ws = alnum_words(name);
            &&& 2 <= ws.len() <= 4
            &&& forall|i: int| 0 <= i < name.len() ==> !is_digit(#[trigger] name[i])
            &&& forall|k: int| 0 <= k < ws.len() ==> name_particle(#[trigger] ws[k]) || (ws[k].len() > 0 && uppercase(ws[k][0]))
            &&& exists|k: int| 0 <= k < ws.len() && !name_particle(#[trigger] ws[k])
            &&& exists|k: int| 0 <= k < ws.len() && !acronym(#[trigger] ws[k])
            &&& forall|k: int| 0 <= k < ws.len() ==> !judged.groups.contains(lowercased(#[trigger] ws[k]))
        }),
    ensures
        kind_of(id, name, words, judged) == Kind::Person,
{
    let ws = alnum_words(name);
    assert forall|w: Seq<char>| name_particle(w) <==> particle(w) by {
        reveal_strlit("de");
        reveal_strlit("van");
        reveal_strlit("der");
        reveal_strlit("von");
        reveal_strlit("da");
        reveal_strlit("di");
        reveal_strlit("del");
        reveal_strlit("della");
        reveal_strlit("dello");
        reveal_strlit("la");
        reveal_strlit("le");
        reveal_strlit("du");
        reveal_strlit("dos");
        reveal_strlit("den");
        reveal_strlit("ter");
        reveal_strlit("bin");
        reveal_strlit("ibn");
        reveal_strlit("af");
        reveal_strlit("av");
        reveal_strlit("zu");
    }
    let k1 = choose|k: int| 0 <= k < ws.len() && !name_particle(#[trigger] ws[k]);
    let k2 = choose|k: int| 0 <= k < ws.len() && !acronym(#[trigger] ws[k]);
    assert(!particle(ws[k1]));
    assert(!acronym(ws[k2]));
    assert(personal(name, ws));
}

/// What makes a credited party a body: an identity ruled to be one, a body's word anywhere in
/// its name (its bracketed affiliation aside), a body's first word, a name of initials only, or
/// a word of it that is itself a body's identity.
pub proof fn law_what_makes_a_body(id: Seq<char>, name: Seq<char>, words: WordsView, judged: JudgedView, k: int)
    ensures
        judged.groups.contains(id) ==> kind_of(id, name, words, judged) == Kind::Group,
        0 <= k < words.group.len() && has_seq(lowercased(swapped_first(name, affiliation_re(), ""@)), words.group[k])
            ==> kind_of(id, name, words, judged) == Kind::Group,
        0 <= k < words.prefix.len() && first_word(dotless(lowercased(swapped_first(name, affiliation_re(), ""@))))
            == Some(words.prefix[k]) ==> kind_of(id, name, words, judged) == Kind::Group,
        alnum_words(name).len() > 0 && (forall|j: int| 0 <= j < alnum_words(name).len() ==> acronym(
            #[trigger] alnum_words(name)[j],
        )) ==> kind_of(id, name, words, judged) == Kind::Group,
        0 <= k < alnum_words(name).len() && judged.groups.contains(lowercased(alnum_words(name)[k]))
            ==> kind_of(id, name, words, judged) == Kind::Group,
{
}

} // verus!
