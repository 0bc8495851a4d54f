//! An archived entry, as the archive stores and serves it.
use vstd::prelude::*;
use crate::date::ApodDate;
use crate::media::Media;
use crate::text::{chars_of, find_first_seq, find_last_space, first_occurrence, is_text, last_space, push_char, push_str, slice_chars, starts_with, starts_with_chars, string_of, strip_trail_set, strip_trailing, trim, trim_chars};

verus! {

/// Which archived files an entry was built from.
#[derive(Debug, Clone, Copy, PartialEq, Eq, Structural, Hash)]
pub enum Provenance {
    LegacyOnly,
    ModernOnly,
    Both,
}

pub open spec fn provenance_name(p: Provenance) -> Seq<char> {
    match p {
        Provenance::LegacyOnly => "legacy_only"@,
        Provenance::ModernOnly => "modern_only"@,
        Provenance::Both => "both"@,
    }
}

pub open spec fn provenance_named(s: Seq<char>) -> Option<Provenance> {
    if s == "legacy_only"@ {
        Some(Provenance::LegacyOnly)
    } else if s == "modern_only"@ {
        Some(Provenance::ModernOnly)
    } else if s == "both"@ {
        Some(Provenance::Both)
    } else {
        None
    }
}

impl Default for Provenance {
    fn default() -> (p: Provenance)
        ensures
            p == Provenance::LegacyOnly,
    {
        Provenance::LegacyOnly
    }
}

impl Provenance {
    /// The provenance of an entry built from the sources that are present; `None` when
    /// neither is.
    pub fn of(legacy: bool, modern: bool) -> (p: Option<Provenance>)
        ensures
            p is None <==> !legacy && !modern,
            p matches Some(p) ==> p.has_legacy_spec() == legacy && p.has_modern_spec() == modern,
    {
        match (legacy, modern) {
            (true, true) => Some(Provenance::Both),
            (true, false) => Some(Provenance::LegacyOnly),
            (false, true) => Some(Provenance::ModernOnly),
            (false, false) => None,
        }
    }

    pub open spec fn has_legacy_spec(self) -> bool {
        self == Provenance::LegacyOnly || self == Provenance::Both
    }

    pub open spec fn has_modern_spec(self) -> bool {
        self == Provenance::ModernOnly || self == Provenance::Both
    }

    pub fn has_legacy(self) -> (b: bool)
        ensures
            b == self.has_legacy_spec(),
    {
        matches!(self, Provenance::LegacyOnly | Provenance::Both)
    }

    pub fn has_modern(self) -> (b: bool)
        ensures
            b == self.has_modern_spec(),
    {
        matches!(self, Provenance::ModernOnly | Provenance::Both)
    }

    pub fn as_str(self) -> (s: &'static str)
        ensures
            s@ == provenance_name(self),
    {
        match self {
            Provenance::LegacyOnly => "legacy_only",
            Provenance::ModernOnly => "modern_only",
            Provenance::Both => "both",
        }
    }

    pub fn from_name(s: &str) -> (p: Option<Provenance>)
        ensures
            p == provenance_named(s@),
    {
        let v = chars_of(s);
        if is_text(&v, "legacy_only") {
            Some(Provenance::LegacyOnly)
        } else if is_text(&v, "modern_only") {
            Some(Provenance::ModernOnly)
        } else if is_text(&v, "both") {
            Some(Provenance::Both)
        } else {
            None
        }
    }
}

impl std::str::FromStr for Provenance {
    type Err = ();

    fn from_str(s: &str) -> (r: Result<Provenance, ()>)
        ensures
            r == match provenance_named(s@) {
                Some(p) => Ok(p),
                None => Err::<Provenance, ()>(()),
            },
    {
        match Provenance::from_name(s) {
            Some(p) => Ok(p),
            None => Err(()),
        }
    }
}

/// What follows the first `//` of a URL, or the whole URL: where its host starts.
pub open spec fn host_part(url: Seq<char>) -> Seq<char> {
    let i = first_occurrence(url, "//"@);
    if i < 0 {
        url
    } else {
        url.skip(i + "//"@.len())
    }
}

/// A URL on one of the hosts the legacy site served from, all of them gone.
pub open spec fn decommissioned(url: Seq<char>) -> bool {
    let host = host_part(url);
    starts_with(host, "apod.nasa.gov"@) || starts_with(host, "www.apod.nasa.gov"@) || starts_with(
        host,
        "antwrp.gsfc.nasa.gov"@,
    )
}

/// Whether a URL points at a host that no longer serves anything.
pub fn is_decommissioned(url: &str) -> (b: bool)
    ensures
        b == decommissioned(url@),
{
    let v = chars_of(url);
    let sep = chars_of("//");
    let host = match find_first_seq(&v, &sep) {
        Some(i) => {
            let n = v.len();
            slice_chars(&v, i + sep.len(), n)
        },
        None => v,
    };
    starts_with_chars(&host, &chars_of("apod.nasa.gov")) || starts_with_chars(
        &host,
        &chars_of("www.apod.nasa.gov"),
    ) || starts_with_chars(&host, &chars_of("antwrp.gsfc.nasa.gov"))
}

/// One labelled line of an entry's attribution block, such as `Image Credit & Copyright`.
#[derive(Debug, Clone, PartialEq, Eq)]
pub struct Credit {
    /// The label as APOD wrote it, minus its colon.
    pub role: String,
    /// Sanitized inline HTML, links absolute.
    pub html: String,
    /// The same content as plain text.
    pub text: String,
}

/// One day of the archive.
#[derive(Debug, PartialEq, Eq)]
pub struct ApodEntry {
    pub date: ApodDate,
    pub title: String,
    /// The `<title>` tag verbatim.
    pub title_raw: Option<String>,
    /// Sanitized inline HTML, links absolute.
    pub explanation_html: String,
    /// The same content as plain text, which is what search indexes.
    pub explanation_text: String,
    /// The attribution block, one entry per labelled role, in page order.
    pub credits: Vec<Credit>,
    /// Whether a credit label claims copyright.
    pub has_copyright: bool,
    /// Where a credit label linked its licence.
    pub license_url: Option<String>,
    pub tomorrow_teaser: Option<String>,
    pub keywords: Vec<String>,
    pub media: Media,
    /// Additional media on multi-image entries, in page order.
    pub extra_media: Vec<Media>,
    /// Where the legacy page pointed its own media, kept once the modern origin took over.
    pub legacy_media_url: Option<String>,
    /// Descriptive alt text, which only the modern source has.
    pub alt: Option<String>,
    /// The authors and editors credited for the entry itself.
    pub authors: Vec<String>,
    /// Which archived files this entry was built from.
    pub provenance: Provenance,
    /// The page this was archived from.
    pub source_url: String,
    /// The date the entry's picture first ran, when it ran on more than one date.
    pub picture: Option<ApodDate>,
}

/// What a listing shows of an entry.
#[derive(Debug, PartialEq, Eq)]
pub struct ApodSummary {
    pub date: ApodDate,
    pub title: String,
    pub media: Media,
    pub has_copyright: bool,
    pub picture: Option<ApodDate>,
}

/// Where a search hit matched.
#[derive(Debug, Clone, Copy, Default, PartialEq, Eq)]
pub struct Matched {
    pub title: bool,
    pub explanation: bool,
    pub credit: bool,
    pub keywords: bool,
}

/// One entry found by a search, with what it matched on.
#[derive(Debug, PartialEq, Eq)]
pub struct SearchHit {
    pub entry: ApodSummary,
    pub snippet: String,
    pub matched: Matched,
    pub credit: Option<String>,
    pub keywords: Option<String>,
}

impl Matched {
    /// The entry matched only on its credits or keywords, not on anything a reader sees first.
    pub fn only_beyond_the_prose(&self) -> (b: bool)
        ensures
            b == (!self.explanation && !self.title && (self.credit || self.keywords)),
    {
        !self.explanation && !self.title && (self.credit || self.keywords)
    }
}

/// `parts` joined by `sep`.
pub open spec fn joined(parts: Seq<Seq<char>>, sep: Seq<char>) -> Seq<char>
    decreases parts.len(),
{
    if parts.len() == 0 {
        Seq::empty()
    } else if parts.len() == 1 {
        parts[0]
    } else {
        joined(parts.drop_last(), sep) + sep + parts.last()
    }
}

/// The plain texts of credits.
pub open spec fn credit_texts(credits: Seq<Credit>) -> Seq<Seq<char>> {
    credits.map_values(|c: Credit| c.text@)
}

/// Every credited name as one string, `; `-separated; `None` without credits.
pub open spec fn credit_text_of(credits: Seq<Credit>) -> Option<Seq<char>> {
    if credits.len() == 0 {
        None
    } else {
        Some(joined(credit_texts(credits), "; "@))
    }
}

/// What a summary of at most `max` characters keeps of `text`: all of it when it fits, else
/// the first `max` characters cut back to their last whitespace (unless only blanks come
/// before it), without trailing `,.;: `, and an ellipsis.
pub open spec fn truncated(text: Seq<char>, max: nat) -> Seq<char> {
    if text.len() <= max {
        text
    } else {
        let cut = text.take(max as int);
        let i = last_space(cut);
        let head = if i >= 0 && trim(cut.take(i)).len() > 0 {
            cut.take(i)
        } else {
            cut
        };
        strip_trail_set(head, seq![',', '.', ';', ':', ' ']) + seq!['\u{2026}']
    }
}

/// Shortens `text` to about `max_chars` characters without splitting a word.
pub fn truncate_on_word_boundary(text: &str, max_chars: usize) -> (out: String)
    ensures
        out@ == truncated(text@, max_chars as nat),
{
    let v = chars_of(text);
    if v.len() <= max_chars {
        return string_of(&v);
    }
    let cut = slice_chars(&v, 0, max_chars);
    assert(cut@ =~= v@.take(max_chars as int));
    let head = match find_last_space(&cut) {
        Some(i) => {
            let before = slice_chars(&cut, 0, i);
            assert(before@ =~= cut@.take(i as int));
            if trim_chars(&before).len() > 0 {
                before
            } else {
                cut
            }
        },
        None => cut,
    };
    let set = vec![',', '.', ';', ':', ' '];
    assert(set@ =~= seq![',', '.', ';', ':', ' ']);
    let mut out = string_of(&strip_trailing(&head, &set));
    push_char(&mut out, '\u{2026}');
    out
}

impl ApodEntry {
    /// The explanation, shortened to about `max_chars` characters.
    pub fn summary_text(&self, max_chars: usize) -> (out: String)
        ensures
            out@ == truncated(self.explanation_text@, max_chars as nat),
    {
        truncate_on_word_boundary(self.explanation_text.as_str(), max_chars)
    }

    /// Every credited name as one string, which is what search indexes.
    pub fn credit_text(&self) -> (out: Option<String>)
        ensures
            match out {
                Some(s) => credit_text_of(self.credits@) == Some(s@),
                None => credit_text_of(self.credits@) is None,
            },
    {
        if self.credits.len() == 0 {
            return None;
        }
        let ghost texts = credit_texts(self.credits@);
        let mut s = String::new();
        let mut i: usize = 0;
        while i < self.credits.len()
            invariant
                i <= self.credits@.len(),
                texts == credit_texts(self.credits@),
                s@ == joined(texts.take(i as int), "; "@),
            decreases self.credits.len() - i,
        {
            assert(texts.take(i + 1).drop_last() =~= texts.take(i as int));
            if i > 0 {
                push_str(&mut s, "; ");
            }
            push_str(&mut s, self.credits[i].text.as_str());
            i = i + 1;
        }
        assert(texts.take(i as int) =~= texts);
        Some(s)
    }

    /// The page to send a reader to, unless it was on a host that no longer exists.
    pub fn official_url(&self) -> (out: Option<&str>)
        ensures
            match out {
                Some(u) => u@ == self.source_url@ && !decommissioned(self.source_url@),
                None => decommissioned(self.source_url@),
            },
    {
        if is_decommissioned(self.source_url.as_str()) {
            None
        } else {
            Some(self.source_url.as_str())
        }
    }

    /// What a listing shows of this entry.
    pub fn to_summary(&self) -> (s: ApodSummary)
        ensures
            s.date == self.date,
            s.title == self.title,
            s.media == self.media,
            s.has_copyright == self.has_copyright,
            s.picture == self.picture,
    {
        ApodSummary {
            date: self.date,
            title: self.title.clone(),
            media: self.media.clone(),
            has_copyright: self.has_copyright,
            picture: self.picture,
        }
    }
}

} // verus!
