//! Checks a parsed entry for the signs of a parse that went wrong.
use vstd::prelude::*;
use crate::entry::ApodEntry;
use crate::media::MediaKind;
use crate::parse::credit::{counted, pieces, pieces_of};
use crate::pattern::{
    captures, captures_of, captures_view, group_of, group_text, is_match, matches_somewhere,
    spans_view,
};
use crate::text::{chars_of, is_space, is_whitespace, lower_chars, is_text, starts_with, starts_with_chars};

verus! {

/// An explanation shorter than this, in characters, was probably cut off.
pub const MIN_EXPLANATION_CHARS: usize = 80;

/// A title longer than this, in characters, probably ran into the page.
pub const MAX_TITLE_CHARS: usize = 200;

/// A credit role of more words than this ran on past its colon.
pub const MAX_ROLE_WORDS: usize = 4;

/// What looks wrong with a field.
#[derive(Debug, Clone, Copy, PartialEq, Eq, Hash, PartialOrd, Ord)]
pub enum QualityWarning {
    ContainsHtml,
    CreditMissing,
    CreditRoleSuspicious,
    EmptyField,
    ExplanationSuspiciouslyShort,
    LeadingWhitespace,
    MultiWhitespace,
    NoMedia,
    NonAbsoluteLink,
    TitleIsTeaserLabel,
    TitleMultiline,
    TitleSuspiciouslyLong,
    TrailingWhitespace,
    UnknownMediaKind,
}

/// How a warning is named in reports.
pub open spec fn warning_name(w: QualityWarning) -> Seq<char> {
    match w {
        QualityWarning::ContainsHtml => "contains_html"@,
        QualityWarning::CreditMissing => "credit_missing"@,
        QualityWarning::CreditRoleSuspicious => "credit_role_suspicious"@,
        QualityWarning::EmptyField => "empty_field"@,
        QualityWarning::ExplanationSuspiciouslyShort => "explanation_suspiciously_short"@,
        QualityWarning::LeadingWhitespace => "leading_whitespace"@,
        QualityWarning::MultiWhitespace => "multi_whitespace"@,
        QualityWarning::NoMedia => "no_media"@,
        QualityWarning::NonAbsoluteLink => "non_absolute_link"@,
        QualityWarning::TitleIsTeaserLabel => "title_is_teaser_label"@,
        QualityWarning::TitleMultiline => "title_multiline"@,
        QualityWarning::TitleSuspiciouslyLong => "title_suspiciously_long"@,
        QualityWarning::TrailingWhitespace => "trailing_whitespace"@,
        QualityWarning::UnknownMediaKind => "unknown_media_kind"@,
    }
}

impl QualityWarning {
    /// The warning's name in reports.
    pub fn as_str(self) -> (s: &'static str)
        ensures
            s@ == warning_name(self),
    {
        match self {
            QualityWarning::ContainsHtml => "contains_html",
            QualityWarning::CreditMissing => "credit_missing",
            QualityWarning::CreditRoleSuspicious => "credit_role_suspicious",
            QualityWarning::EmptyField => "empty_field",
            QualityWarning::ExplanationSuspiciouslyShort => "explanation_suspiciously_short",
            QualityWarning::LeadingWhitespace => "leading_whitespace",
            QualityWarning::MultiWhitespace => "multi_whitespace",
            QualityWarning::NoMedia => "no_media",
            QualityWarning::NonAbsoluteLink => "non_absolute_link",
            QualityWarning::TitleIsTeaserLabel => "title_is_teaser_label",
            QualityWarning::TitleMultiline => "title_multiline",
            QualityWarning::TitleSuspiciouslyLong => "title_suspiciously_long",
            QualityWarning::TrailingWhitespace => "trailing_whitespace",
            QualityWarning::UnknownMediaKind => "unknown_media_kind",
        }
    }
}

/// A warning about one field of an entry.
#[derive(Debug, Clone, Copy, PartialEq, Eq)]
pub struct QualityIssue {
    pub warning: QualityWarning,
    pub field: &'static str,
}

impl QualityIssue {
    /// `field: warning`, as a report lists it.
    pub fn to_text(&self) -> (s: String)
        ensures
            s@ == self.field@ + ": "@ + warning_name(self.warning),
    {
        let mut s = String::new();
        crate::text::push_str(&mut s, self.field);
        crate::text::push_str(&mut s, ": ");
        crate::text::push_str(&mut s, self.warning.as_str());
        s
    }
}

pub open spec fn issue_view(i: QualityIssue) -> (QualityWarning, Seq<char>) {
    (i.warning, i.field@)
}

pub open spec fn issue_views(v: Seq<QualityIssue>) -> Seq<(QualityWarning, Seq<char>)> {
    v.map_values(|i: QualityIssue| issue_view(i))
}

/// Something that opens or closes a tag.
pub open spec fn tag_pattern() -> Seq<char> {
    "<\\s*/?[a-zA-Z]"@
}

/// A quoted `href`.
pub open spec fn href_pattern() -> Seq<char> {
    "href=\"([^\"]*)\""@
}

/// A title that is only the label of the next day's teaser.
pub open spec fn teaser_label_pattern() -> Seq<char> {
    "(?i)^tomorrow['\\u{2019}]s\\s+picture\\b"@
}

fn tag_pattern_text() -> (p: &'static str)
    ensures
        p@ == tag_pattern(),
{
    "<\\s*/?[a-zA-Z]"
}

fn href_pattern_text() -> (p: &'static str)
    ensures
        p@ == href_pattern(),
{
    "href=\"([^\"]*)\""
}

fn teaser_label_pattern_text() -> (p: &'static str)
    ensures
        p@ == teaser_label_pattern(),
{
    "(?i)^tomorrow['\\u{2019}]s\\s+picture\\b"
}

/// A link that is not absolute: not `http://`, `https://` or `mailto:`.
pub open spec fn relative(href: Seq<char>) -> bool {
    !starts_with(href, "http://"@) && !starts_with(href, "https://"@) && !starts_with(href, "mailto:"@)
}

/// Whether some quoted `href` in the HTML is relative.
pub open spec fn relative_link_in(html: Seq<char>) -> bool {
    let caps = captures_of(href_pattern(), html);
    exists|k: int| 0 <= k < caps.len() && relative(#[trigger] group_text(html, caps[k], 1))
}

/// Whether some quoted `href` in the HTML is relative.
pub fn has_relative_link(html: &str) -> (b: bool)
    ensures
        b == relative_link_in(html@),
{
    let v = chars_of(html);
    let caps = captures(href_pattern_text(), html);
    let ghost cv = captures_view(caps@);
    let http = chars_of("http://");
    let https = chars_of("https://");
    let mailto = chars_of("mailto:");
    let mut k: usize = 0;
    while k < caps.len()
        invariant
            k <= caps@.len(),
            v@ == html@,
            cv == captures_view(caps@),
            cv == captures_of(href_pattern(), html@),
            crate::pattern::well_placed(cv, html@.len()),
            http@ == "http://"@,
            https@ == "https://"@,
            mailto@ == "mailto:"@,
            forall|j: int| 0 <= j < k ==> !relative(#[trigger] group_text(html@, cv[j], 1)),
        decreases caps.len() - k,
    {
        assert(cv[k as int] == spans_view(caps@[k as int]@));
        let href = group_of(&v, &caps[k], 1);
        assert(crate::pattern::groups_in(spans_view(caps@[k as int]@), v@.len() as int)) by {
            assert forall|g: int|
                0 <= g < spans_view(caps@[k as int]@).len() && (#[trigger] spans_view(
                    caps@[k as int]@,
                )[g]) is Some implies 0 <= crate::pattern::span_start(
                spans_view(caps@[k as int]@)[g],
            ) <= crate::pattern::span_end(spans_view(caps@[k as int]@)[g]) <= v@.len() by {
                assert(cv[k as int][g] is Some);
            }
        }
        if !starts_with_chars(&href, &http) && !starts_with_chars(&href, &https)
            && !starts_with_chars(&href, &mailto) {
            assert(relative(group_text(html@, cv[k as int], 1)));
            return true;
        }
        k = k + 1;
    }
    false
}

/// Whether two whitespace characters stand side by side.
pub open spec fn double_space(s: Seq<char>) -> bool {
    exists|i: int| 0 <= i < s.len() - 1 && is_space(#[trigger] s[i]) && is_space(s[i + 1])
}

pub fn has_double_whitespace(value: &str) -> (b: bool)
    ensures
        b == double_space(value@),
{
    let v = chars_of(value);
    if v.len() < 2 {
        return false;
    }
    let mut i: usize = 0;
    while i < v.len() - 1
        invariant
            v@ == value@,
            v@.len() >= 2,
            forall|j: int| 0 <= j < i && j < v@.len() - 1 ==> !(is_space(#[trigger] v@[j]) && is_space(v@[j + 1])),
        decreases v.len() - i,
    {
        if is_whitespace(v[i]) && is_whitespace(v[i + 1]) {
            return true;
        }
        i = i + 1;
    }
    false
}

/// What is wrong with the text of a field: empty, or whitespace at either end or doubled, or
/// markup.
pub open spec fn string_issues(field: Seq<char>, value: Seq<char>) -> Seq<(QualityWarning, Seq<char>)> {
    if value.len() == 0 {
        seq![(QualityWarning::EmptyField, field)]
    } else {
        (if is_space(value[0]) {
            seq![(QualityWarning::LeadingWhitespace, field)]
        } else {
            Seq::empty()
        }) + (if is_space(value.last()) {
            seq![(QualityWarning::TrailingWhitespace, field)]
        } else {
            Seq::empty()
        }) + (if double_space(value) {
            seq![(QualityWarning::MultiWhitespace, field)]
        } else {
            Seq::empty()
        }) + (if matches_somewhere(tag_pattern(), value) {
            seq![(QualityWarning::ContainsHtml, field)]
        } else {
            Seq::empty()
        })
    }
}

fn push(issues: &mut Vec<QualityIssue>, warning: QualityWarning, field: &'static str)
    ensures
        issue_views(final(issues)@) == issue_views(old(issues)@).push((warning, field@)),
{
    let ghost before = issue_views(issues@);
    issues.push(QualityIssue { warning, field });
    assert(issue_views(issues@) =~= before.push((warning, field@)));
}

/// Adds what is wrong with the text of a field.
#[verifier::rlimit(30)]
pub fn check_string(issues: &mut Vec<QualityIssue>, field: &'static str, value: &str)
    ensures
        issue_views(final(issues)@) == issue_views(old(issues)@) + string_issues(field@, value@),
{
    let ghost before = issue_views(issues@);
    let v = chars_of(value);
    if v.len() == 0 {
        push(issues, QualityWarning::EmptyField, field);
        return;
    }
    let ghost s1 = if is_space(value@[0]) {
        seq![(QualityWarning::LeadingWhitespace, field@)]
    } else {
        Seq::empty()
    };
    let ghost s2 = if is_space(value@.last()) {
        seq![(QualityWarning::TrailingWhitespace, field@)]
    } else {
        Seq::empty()
    };
    let ghost s3 = if double_space(value@) {
        seq![(QualityWarning::MultiWhitespace, field@)]
    } else {
        Seq::empty()
    };
    let ghost s4 = if matches_somewhere(tag_pattern(), value@) {
        seq![(QualityWarning::ContainsHtml, field@)]
    } else {
        Seq::empty()
    };
    if is_whitespace(v[0]) {
        push(issues, QualityWarning::LeadingWhitespace, field);
    }
    assert(issue_views(issues@) =~= before + s1);
    if is_whitespace(v[v.len() - 1]) {
        push(issues, QualityWarning::TrailingWhitespace, field);
    }
    assert(issue_views(issues@) =~= before + s1 + s2);
    if has_double_whitespace(value) {
        push(issues, QualityWarning::MultiWhitespace, field);
    }
    assert(issue_views(issues@) =~= before + s1 + s2 + s3);
    if is_match(tag_pattern_text(), value) {
        push(issues, QualityWarning::ContainsHtml, field);
    }
    assert(issue_views(issues@) =~= before + s1 + s2 + s3 + s4);
    assert(string_issues(field@, value@) =~= s1 + s2 + s3 + s4);
}

/// How many pieces of `ps`, among the first `k`, count as words of a role.
pub open spec fn counted_upto(ps: Seq<Seq<char>>, k: int) -> nat
    decreases k,
{
    if k <= 0 {
        0
    } else {
        counted_upto(ps, k - 1) + if counted(ps[k - 1]) {
            1nat
        } else {
            0nat
        }
    }
}

/// How many words a role is made of, `and` aside.
pub open spec fn role_word_count(role: Seq<char>) -> nat {
    counted_upto(pieces(role), pieces(role).len() as int)
}

pub fn role_words(role: &str) -> (n: usize)
    ensures
        n == role_word_count(role@),
{
    let ps = pieces_of(&chars_of(role));
    let ghost pv = pieces(role@);
    let mut n: usize = 0;
    let mut k: usize = 0;
    while k < ps.len()
        invariant
            k <= ps@.len(),
            crate::parse::credit::chars_views(ps@) == pv,
            pv == pieces(role@),
            n == counted_upto(pv, k as int),
            n <= k,
        decreases ps.len() - k,
    {
        assert(pv[k as int] == ps@[k as int]@);
        let w = &ps[k];
        if w.len() > 0 && !is_text(&lower_chars(w), "and") {
            n = n + 1;
        }
        k = k + 1;
    }
    n
}

/// A title of several lines: a line break with something after it.
pub open spec fn multiline(t: Seq<char>) -> bool {
    exists|i: int| 0 <= i < t.len() - 1 && #[trigger] t[i] == '\n'
}

fn is_multiline(t: &str) -> (b: bool)
    ensures
        b == multiline(t@),
{
    let v = chars_of(t);
    if v.len() < 2 {
        return false;
    }
    let mut i: usize = 0;
    while i < v.len() - 1
        invariant
            v@ == t@,
            v@.len() >= 2,
            forall|j: int| 0 <= j < i && j < v@.len() - 1 ==> #[trigger] v@[j] != '\n',
        decreases v.len() - i,
    {
        if v[i] == '\n' {
            return true;
        }
        i = i + 1;
    }
    false
}

/// What looks wrong with the first `k` credits of an entry.
pub open spec fn credit_issues_upto(e: ApodEntry, k: int) -> Seq<(QualityWarning, Seq<char>)>
    decreases k,
{
    if k <= 0 {
        Seq::empty()
    } else {
        let c = e.credits@[k - 1];
        credit_issues_upto(e, k - 1) + string_issues("credit"@, c.text@) + (if relative_link_in(
            c.html@,
        ) {
            seq![(QualityWarning::NonAbsoluteLink, "credit"@)]
        } else {
            Seq::empty()
        }) + (if role_word_count(c.role@) > MAX_ROLE_WORDS {
            seq![(QualityWarning::CreditRoleSuspicious, "credit"@)]
        } else {
            Seq::empty()
        })
    }
}

/// Everything that looks wrong with a parsed entry, field by field. `attributed` says whether
/// its page credits anyone, where that is known; a missing credit is reported unless the page
/// is known to credit nobody.
pub open spec fn entry_issues(e: ApodEntry, attributed: Option<bool>) -> Seq<(QualityWarning, Seq<char>)> {
    title_issues(e.title@) + explanation_issues(e.explanation_text@, e.explanation_html@) + (if e.credits@.len() == 0 && (match attributed {
        Some(a) => a,
        None => true,
    }) {
        seq![(QualityWarning::CreditMissing, "credit"@)]
    } else {
        Seq::empty()
    }) + credit_issues_upto(e, e.credits@.len() as int) + (match e.media.kind {
        MediaKind::NoMedia => seq![(QualityWarning::NoMedia, "media"@)],
        MediaKind::Other => seq![(QualityWarning::UnknownMediaKind, "media"@)],
        _ => Seq::empty(),
    })
}

/// What looks wrong with a title.
pub open spec fn title_issues(t: Seq<char>) -> Seq<(QualityWarning, Seq<char>)> {
    string_issues("title"@, t) + (if matches_somewhere(teaser_label_pattern(), t) {
        seq![(QualityWarning::TitleIsTeaserLabel, "title"@)]
    } else {
        Seq::empty()
    }) + (if multiline(t) {
        seq![(QualityWarning::TitleMultiline, "title"@)]
    } else {
        Seq::empty()
    }) + (if t.len() > MAX_TITLE_CHARS {
        seq![(QualityWarning::TitleSuspiciouslyLong, "title"@)]
    } else {
        Seq::empty()
    })
}

/// What looks wrong with an explanation.
pub open spec fn explanation_issues(text: Seq<char>, html: Seq<char>) -> Seq<(QualityWarning, Seq<char>)> {
    string_issues("explanation"@, text) + (if text.len() != 0 && text.len() < MIN_EXPLANATION_CHARS {
        seq![(QualityWarning::ExplanationSuspiciouslyShort, "explanation"@)]
    } else {
        Seq::empty()
    }) + (if relative_link_in(html) {
        seq![(QualityWarning::NonAbsoluteLink, "explanation"@)]
    } else {
        Seq::empty()
    })
}

fn check_title(issues: &mut Vec<QualityIssue>, title: &str)
    ensures
        issue_views(final(issues)@) == issue_views(old(issues)@) + title_issues(title@),
{
    let ghost before = issue_views(issues@);
    check_string(issues, "title", title);
    let ghost a = issue_views(issues@);
    if is_match(teaser_label_pattern_text(), title) {
        push(issues, QualityWarning::TitleIsTeaserLabel, "title");
    }
    let ghost b = issue_views(issues@);
    if is_multiline(title) {
        push(issues, QualityWarning::TitleMultiline, "title");
    }
    let ghost c = issue_views(issues@);
    if chars_of(title).len() > MAX_TITLE_CHARS {
        push(issues, QualityWarning::TitleSuspiciouslyLong, "title");
    }
    assert(issue_views(issues@) =~= before + title_issues(title@));
}

fn check_explanation(issues: &mut Vec<QualityIssue>, text: &str, html: &str)
    ensures
        issue_views(final(issues)@) == issue_views(old(issues)@) + explanation_issues(text@, html@),
{
    let ghost before = issue_views(issues@);
    check_string(issues, "explanation", text);
    let n = chars_of(text).len();
    if n != 0 && n < MIN_EXPLANATION_CHARS {
        push(issues, QualityWarning::ExplanationSuspiciouslyShort, "explanation");
    }
    if has_relative_link(html) {
        push(issues, QualityWarning::NonAbsoluteLink, "explanation");
    }
    assert(issue_views(issues@) =~= before + explanation_issues(text@, html@));
}

fn check_credits(issues: &mut Vec<QualityIssue>, entry: &ApodEntry)
    ensures
        issue_views(final(issues)@) == issue_views(old(issues)@) + credit_issues_upto(*entry, entry.credits@.len() as int),
{
    let ghost e = *entry;
    let ghost head = issue_views(issues@);
    let mut k: usize = 0;
    assert(head =~= head + credit_issues_upto(e, 0));
    while k < entry.credits.len()
        invariant
            k <= entry.credits@.len(),
            e == *entry,
            issue_views(issues@) == head + credit_issues_upto(e, k as int),
        decreases entry.credits.len() - k,
    {
        let c = &entry.credits[k];
        check_string(issues, "credit", c.text.as_str());
        if has_relative_link(c.html.as_str()) {
            push(issues, QualityWarning::NonAbsoluteLink, "credit");
        }
        if role_words(c.role.as_str()) > MAX_ROLE_WORDS {
            push(issues, QualityWarning::CreditRoleSuspicious, "credit");
        }
        k = k + 1;
        assert(issue_views(issues@) =~= head + credit_issues_upto(e, k as int));
    }
}

/// Checks a parsed entry for the signs of a parse that went wrong.
pub fn quality_control(entry: &ApodEntry, attributed: Option<bool>) -> (issues: Vec<QualityIssue>)
    ensures
        issue_views(issues@) == entry_issues(*entry, attributed),
{
    let mut issues: Vec<QualityIssue> = Vec::new();
    check_title(&mut issues, entry.title.as_str());
    check_explanation(&mut issues, entry.explanation_text.as_str(), entry.explanation_html.as_str());
    let ghost a = issue_views(issues@);
    let expected = match attributed {
        Some(a) => a,
        None => true,
    };
    if entry.credits.len() == 0 && expected {
        push(&mut issues, QualityWarning::CreditMissing, "credit");
    }
    let ghost b = issue_views(issues@);
    check_credits(&mut issues, entry);
    let ghost c = issue_views(issues@);
    match entry.media.kind {
        MediaKind::NoMedia => push(&mut issues, QualityWarning::NoMedia, "media"),
        MediaKind::Other => push(&mut issues, QualityWarning::UnknownMediaKind, "media"),
        _ => {},
    }
    assert(issue_views(issues@) =~= entry_issues(*entry, attributed));
    issues
}

/// Whether any of `issues` carries warning `w`.
pub open spec fn warns(issues: Seq<(QualityWarning, Seq<char>)>, w: QualityWarning) -> bool {
    exists|k: int| 0 <= k < issues.len() && (#[trigger] issues[k]).0 == w
}

/// The warnings a field's text alone can raise.
pub open spec fn text_warning(w: QualityWarning) -> bool {
    w == QualityWarning::EmptyField || w == QualityWarning::LeadingWhitespace || w
        == QualityWarning::TrailingWhitespace || w == QualityWarning::MultiWhitespace || w
        == QualityWarning::ContainsHtml
}

proof fn lemma_warns_concat(a: Seq<(QualityWarning, Seq<char>)>, b: Seq<(QualityWarning, Seq<char>)>, w: QualityWarning)
    ensures
        warns(a + b, w) == (warns(a, w) || warns(b, w)),
{
    if warns(a + b, w) {
        let k = choose|k: int| 0 <= k < (a + b).len() && (#[trigger] (a + b)[k]).0 == w;
        if k < a.len() {
            assert(a[k] == (a + b)[k]);
        } else {
            assert(b[k - a.len()] == (a + b)[k]);
        }
    }
    if warns(a, w) {
        let k = choose|k: int| 0 <= k < a.len() && (#[trigger] a[k]).0 == w;
        assert((a + b)[k] == a[k]);
    }
    if warns(b, w) {
        let k = choose|k: int| 0 <= k < b.len() && (#[trigger] b[k]).0 == w;
        assert((a + b)[a.len() + k] == b[k]);
    }
}

proof fn lemma_warns_one(x: (QualityWarning, Seq<char>), w: QualityWarning)
    ensures
        warns(seq![x], w) == (x.0 == w),
        !warns(Seq::<(QualityWarning, Seq<char>)>::empty(), w),
{
    if x.0 == w {
        assert(seq![x][0] == x);
    }
}

proof fn lemma_text_quiet(field: Seq<char>, value: Seq<char>, w: QualityWarning)
    requires
        !text_warning(w),
    ensures
        !warns(string_issues(field, value), w),
{
    let s = string_issues(field, value);
    assert forall|k: int| 0 <= k < s.len() implies text_warning((#[trigger] s[k]).0) by {
        if value.len() > 0 {
            let a: Seq<(QualityWarning, Seq<char>)> = if is_space(value[0]) {
                seq![(QualityWarning::LeadingWhitespace, field)]
            } else {
                Seq::empty()
            };
            let b: Seq<(QualityWarning, Seq<char>)> = if is_space(value.last()) {
                seq![(QualityWarning::TrailingWhitespace, field)]
            } else {
                Seq::empty()
            };
            let c: Seq<(QualityWarning, Seq<char>)> = if double_space(value) {
                seq![(QualityWarning::MultiWhitespace, field)]
            } else {
                Seq::empty()
            };
            let d: Seq<(QualityWarning, Seq<char>)> = if matches_somewhere(tag_pattern(), value) {
                seq![(QualityWarning::ContainsHtml, field)]
            } else {
                Seq::empty()
            };
            assert(s == a + b + c + d);
            let ab = a + b;
            let abc = ab + c;
            if k < abc.len() {
                if k < ab.len() {
                    if k < a.len() {
                        assert(s[k] == a[k]);
                    } else {
                        assert(s[k] == b[k - a.len()]);
                    }
                } else {
                    assert(s[k] == c[k - ab.len()]);
                }
            } else {
                assert(s[k] == d[k - abc.len()]);
            }
        }
    }
}

proof fn lemma_credits_quiet(e: ApodEntry, k: int, w: QualityWarning)
    requires
        w == QualityWarning::CreditMissing || w == QualityWarning::NoMedia || w
            == QualityWarning::UnknownMediaKind || w == QualityWarning::TitleSuspiciouslyLong,
    ensures
        !warns(credit_issues_upto(e, k), w),
    decreases k,
{
    if k > 0 {
        lemma_credits_quiet(e, k - 1, w);
        let c = e.credits@[k - 1];
        lemma_text_quiet("credit"@, c.text@, w);
        let x: Seq<(QualityWarning, Seq<char>)> = if relative_link_in(c.html@) {
            seq![(QualityWarning::NonAbsoluteLink, "credit"@)]
        } else {
            Seq::empty()
        };
        let y: Seq<(QualityWarning, Seq<char>)> = if role_word_count(c.role@) > MAX_ROLE_WORDS {
            seq![(QualityWarning::CreditRoleSuspicious, "credit"@)]
        } else {
            Seq::empty()
        };
        lemma_warns_one((QualityWarning::NonAbsoluteLink, "credit"@), w);
        lemma_warns_one((QualityWarning::CreditRoleSuspicious, "credit"@), w);
        let p = credit_issues_upto(e, k - 1);
        let q = string_issues("credit"@, c.text@);
        lemma_warns_concat(p, q, w);
        lemma_warns_concat(p + q, x, w);
        lemma_warns_concat(p + q + x, y, w);
    }
}

/// A missing credit is reported exactly when an entry credits nobody and its page is not known
/// to credit nobody; missing media exactly when there is none; an unknown kind exactly when
/// the media is of no kind the archive knows; a long title exactly when it runs past the limit.
pub proof fn law_what_quality_control_reports(e: ApodEntry, attributed: Option<bool>)
    ensures
        warns(entry_issues(e, attributed), QualityWarning::CreditMissing) == (e.credits@.len() == 0
            && attributed != Some(false)),
        warns(entry_issues(e, attributed), QualityWarning::NoMedia) == (e.media.kind == MediaKind::NoMedia),
        warns(entry_issues(e, attributed), QualityWarning::UnknownMediaKind) == (e.media.kind == MediaKind::Other),
        warns(entry_issues(e, attributed), QualityWarning::TitleSuspiciouslyLong) == (e.title@.len() > MAX_TITLE_CHARS),
{
    lemma_one_warning(e, attributed, QualityWarning::CreditMissing);
    lemma_one_warning(e, attributed, QualityWarning::NoMedia);
    lemma_one_warning(e, attributed, QualityWarning::UnknownMediaKind);
    lemma_one_warning(e, attributed, QualityWarning::TitleSuspiciouslyLong);
}

proof fn lemma_one_warning(e: ApodEntry, attributed: Option<bool>, w: QualityWarning)
    requires
        w == QualityWarning::CreditMissing || w == QualityWarning::NoMedia || w
            == QualityWarning::UnknownMediaKind || w == QualityWarning::TitleSuspiciouslyLong,
    ensures
        warns(entry_issues(e, attributed), w) == (
        if w == QualityWarning::CreditMissing {
            e.credits@.len() == 0 && attributed != Some(false)
        } else if w == QualityWarning::NoMedia {
            e.media.kind == MediaKind::NoMedia
        } else if w == QualityWarning::UnknownMediaKind {
            e.media.kind == MediaKind::Other
        } else {
            e.title@.len() > MAX_TITLE_CHARS
        }),
{
    let t = e.title@;
    lemma_text_quiet("title"@, t, w);
    lemma_text_quiet("explanation"@, e.explanation_text@, w);
    lemma_credits_quiet(e, e.credits@.len() as int, w);
    let s = string_issues("title"@, t);
    let t1: Seq<(QualityWarning, Seq<char>)> = if matches_somewhere(teaser_label_pattern(), t) {
        seq![(QualityWarning::TitleIsTeaserLabel, "title"@)]
    } else {
        Seq::empty()
    };
    let t2: Seq<(QualityWarning, Seq<char>)> = if multiline(t) {
        seq![(QualityWarning::TitleMultiline, "title"@)]
    } else {
        Seq::empty()
    };
    let t3: Seq<(QualityWarning, Seq<char>)> = if t.len() > MAX_TITLE_CHARS {
        seq![(QualityWarning::TitleSuspiciouslyLong, "title"@)]
    } else {
        Seq::empty()
    };
    lemma_warns_one((QualityWarning::TitleIsTeaserLabel, "title"@), w);
    lemma_warns_one((QualityWarning::TitleMultiline, "title"@), w);
    lemma_warns_one((QualityWarning::TitleSuspiciouslyLong, "title"@), w);
    lemma_warns_concat(s, t1, w);
    lemma_warns_concat(s + t1, t2, w);
    lemma_warns_concat(s + t1 + t2, t3, w);
    assert(title_issues(t) == s + t1 + t2 + t3);
    let x = e.explanation_text@;
    let es = string_issues("explanation"@, x);
    let e1: Seq<(QualityWarning, Seq<char>)> = if x.len() != 0 && x.len() < MIN_EXPLANATION_CHARS {
        seq![(QualityWarning::ExplanationSuspiciouslyShort, "explanation"@)]
    } else {
        Seq::empty()
    };
    let e2: Seq<(QualityWarning, Seq<char>)> = if relative_link_in(e.explanation_html@) {
        seq![(QualityWarning::NonAbsoluteLink, "explanation"@)]
    } else {
        Seq::empty()
    };
    lemma_warns_one((QualityWarning::ExplanationSuspiciouslyShort, "explanation"@), w);
    lemma_warns_one((QualityWarning::NonAbsoluteLink, "explanation"@), w);
    lemma_warns_concat(es, e1, w);
    lemma_warns_concat(es + e1, e2, w);
    assert(explanation_issues(x, e.explanation_html@) == es + e1 + e2);
    let cm: Seq<(QualityWarning, Seq<char>)> = if e.credits@.len() == 0 && (match attributed {
        Some(a) => a,
        None => true,
    }) {
        seq![(QualityWarning::CreditMissing, "credit"@)]
    } else {
        Seq::empty()
    };
    lemma_warns_one((QualityWarning::CreditMissing, "credit"@), w);
    let md: Seq<(QualityWarning, Seq<char>)> = match e.media.kind {
        MediaKind::NoMedia => seq![(QualityWarning::NoMedia, "media"@)],
        MediaKind::Other => seq![(QualityWarning::UnknownMediaKind, "media"@)],
        _ => Seq::empty(),
    };
    lemma_warns_one((QualityWarning::NoMedia, "media"@), w);
    lemma_warns_one((QualityWarning::UnknownMediaKind, "media"@), w);
    let ti = title_issues(t);
    let ei = explanation_issues(x, e.explanation_html@);
    let ci = credit_issues_upto(e, e.credits@.len() as int);
    lemma_warns_concat(ti, ei, w);
    lemma_warns_concat(ti + ei, cm, w);
    lemma_warns_concat(ti + ei + cm, ci, w);
    lemma_warns_concat(ti + ei + cm + ci, md, w);
    assert(entry_issues(e, attributed) == ti + ei + cm + ci + md);
}

} // verus!
