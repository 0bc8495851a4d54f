//! One entry out of the two sources of a day: the legacy page and the modern record.
//!
//! The legacy page wins every field of content; the modern record supplies what only it has
//! (alt text, authors), the media once it has any, and the page link when it has one. Where both
//! sources have a field and they disagree beyond the way the migration re-typed text, the
//! disagreement is recorded.
use vstd::prelude::*;
use crate::entry::{ApodEntry, Provenance, credit_text_of};
use crate::media::{MediaKind, kind_name};
use crate::text::{chars_of, is_space, is_whitespace, push_char, str_eq};

verus! {

/// An entry and the ways its two sources disagreed about it.
#[derive(Debug)]
pub struct Merged {
    pub entry: ApodEntry,
    pub divergences: Vec<Divergence>,
}

/// A field on which the two sources disagree, with what each says.
#[derive(Debug, Clone, PartialEq, Eq)]
pub struct Divergence {
    pub field: &'static str,
    pub legacy: String,
    pub modern: String,
}

/// A divergence as three strings: the field, the legacy text, the modern text.
pub type DivergenceView = (Seq<char>, Seq<char>, Seq<char>);

pub open spec fn divergence_views(ds: Seq<Divergence>) -> Seq<DivergenceView> {
    ds.map_values(|d: Divergence| (d.field@, d.legacy@, d.modern@))
}

/// Characters that folding drops: whitespace and every kind of apostrophe.
pub open spec fn folds_away(c: char) -> bool {
    is_space(c) || c == '\'' || c == '\u{2018}' || c == '\u{2019}'
}

/// En and em dashes fold to a hyphen.
pub open spec fn fold_dash(c: char) -> char {
    if c == '\u{2013}' || c == '\u{2014}' {
        '-'
    } else {
        c
    }
}

/// `s` as it compares across the two sources: no whitespace, no apostrophes, dashes as
/// hyphens, and no hyphen right after another.
pub open spec fn folded(s: Seq<char>) -> Seq<char>
    decreases s.len(),
{
    if s.len() == 0 {
        s
    } else {
        let f = folded(s.drop_last());
        let c = s.last();
        if folds_away(c) {
            f
        } else if fold_dash(c) == '-' && f.len() > 0 && f.last() == '-' {
            f
        } else {
            f.push(fold_dash(c))
        }
    }
}

/// Both sources have the field and they disagree once folded.
pub open spec fn disagree(legacy: Seq<char>, modern: Seq<char>) -> bool {
    legacy.len() > 0 && modern.len() > 0 && folded(legacy) != folded(modern)
}

/// The divergence recorded for one field: none, or the field with both texts.
pub open spec fn noted(field: Seq<char>, legacy: Seq<char>, modern: Seq<char>) -> Seq<
    DivergenceView,
> {
    if disagree(legacy, modern) {
        seq![(field, legacy, modern)]
    } else {
        Seq::empty()
    }
}

pub open spec fn or_empty(s: Option<String>) -> Seq<char> {
    match s {
        Some(s) => s@,
        None => Seq::empty(),
    }
}

pub open spec fn bool_name(b: bool) -> Seq<char> {
    if b {
        "true"@
    } else {
        "false"@
    }
}

/// The divergences about credits, which count only where both sources have credits.
pub open spec fn credit_divergences(legacy: ApodEntry, modern: ApodEntry) -> Seq<DivergenceView> {
    if legacy.credits@.len() > 0 && modern.credits@.len() > 0 {
        noted(
            "credit_text"@,
            credit_text_of(legacy.credits@).unwrap(),
            credit_text_of(modern.credits@).unwrap(),
        ) + if legacy.has_copyright != modern.has_copyright {
            seq![
                ("has_copyright"@, bool_name(legacy.has_copyright), bool_name(modern.has_copyright)),
            ]
        } else {
            Seq::empty()
        }
    } else {
        Seq::empty()
    }
}

/// The divergences about media, which count only where both sources have media.
pub open spec fn media_divergences(legacy: ApodEntry, modern: ApodEntry) -> Seq<DivergenceView> {
    if modern.media.kind != MediaKind::NoMedia && legacy.media.kind != MediaKind::NoMedia {
        (if legacy.media.kind != modern.media.kind {
            seq![("media_kind"@, kind_name(legacy.media.kind), kind_name(modern.media.kind))]
        } else {
            Seq::empty()
        }) + noted("media_url"@, or_empty(legacy.media.url), or_empty(modern.media.url))
    } else {
        Seq::empty()
    }
}

/// Every disagreement between the two sources of one day, in a fixed order of fields.
pub open spec fn divergences_between(legacy: ApodEntry, modern: ApodEntry) -> Seq<DivergenceView> {
    noted("title"@, legacy.title@, modern.title@) + noted(
        "explanation_text"@,
        legacy.explanation_text@,
        modern.explanation_text@,
    ) + credit_divergences(legacy, modern) + noted(
        "license_url"@,
        or_empty(legacy.license_url),
        or_empty(modern.license_url),
    ) + noted("tomorrow_teaser"@, or_empty(legacy.tomorrow_teaser), or_empty(modern.tomorrow_teaser))
        + media_divergences(legacy, modern)
}

/// The entry made of both sources: the legacy one, with the modern media (keeping the legacy
/// media URL) when the modern record has media, the modern page link when it has one, and the
/// modern alt text and authors.
pub open spec fn merged_entry(legacy: ApodEntry, modern: ApodEntry) -> ApodEntry {
    let takes_media = modern.media.kind != MediaKind::NoMedia;
    ApodEntry {
        legacy_media_url: if takes_media {
            legacy.media.url
        } else {
            legacy.legacy_media_url
        },
        media: if takes_media {
            modern.media
        } else {
            legacy.media
        },
        extra_media: if takes_media {
            modern.extra_media
        } else {
            legacy.extra_media
        },
        source_url: if modern.source_url@.len() > 0 {
            modern.source_url
        } else {
            legacy.source_url
        },
        alt: modern.alt,
        authors: modern.authors,
        provenance: Provenance::Both,
        ..legacy
    }
}

/// An entry from one source alone, marked with where it came from.
pub open spec fn with_provenance(entry: ApodEntry, provenance: Provenance) -> ApodEntry {
    ApodEntry { provenance, ..entry }
}

/// `value` folded for comparison across the two sources.
pub(crate) fn fold(value: &str) -> (out: String)
    ensures
        out@ == folded(value@),
{
    let v = chars_of(value);
    let mut out = String::new();
    let mut last_dash = false;
    let mut i: usize = 0;
    while i < v.len()
        invariant
            i <= v@.len(),
            out@ == folded(v@.take(i as int)),
            last_dash == (out@.len() > 0 && out@.last() == '-'),
        decreases v.len() - i,
    {
        assert(v@.take(i + 1).drop_last() =~= v@.take(i as int));
        let c = v[i];
        let dropped = is_whitespace(c) || c == '\'' || c == '\u{2018}' || c == '\u{2019}';
        if !dropped {
            let d = if c == '\u{2013}' || c == '\u{2014}' {
                '-'
            } else {
                c
            };
            if !(d == '-' && last_dash) {
                push_char(&mut out, d);
                last_dash = d == '-';
            }
        }
        i = i + 1;
    }
    assert(v@.take(i as int) =~= v@);
    out
}

fn differs(legacy: &str, modern: &str) -> (b: bool)
    ensures
        b == disagree(legacy@, modern@),
{
    !legacy.is_empty() && !modern.is_empty() && !str_eq(
        fold(legacy).as_str(),
        fold(modern).as_str(),
    )
}

/// Records the field when the two sources disagree about it.
fn note(out: &mut Vec<Divergence>, field: &'static str, legacy: &str, modern: &str)
    ensures
        divergence_views(final(out)@) == divergence_views(old(out)@) + noted(
            field@,
            legacy@,
            modern@,
        ),
{
    if differs(legacy, modern) {
        out.push(Divergence { field, legacy: legacy.to_owned(), modern: modern.to_owned() });
        assert(divergence_views(out@) =~= divergence_views(old(out)@) + noted(
            field@,
            legacy@,
            modern@,
        ));
    } else {
        assert(divergence_views(out@) =~= divergence_views(old(out)@) + noted(
            field@,
            legacy@,
            modern@,
        ));
    }
}

fn opt_str(s: &Option<String>) -> (r: &str)
    ensures
        r@ == or_empty(*s),
{
    match s {
        Some(s) => s.as_str(),
        None => {
            proof {
                reveal_strlit("");
            }
            ""
        },
    }
}

fn bool_str(b: bool) -> (s: String)
    ensures
        s@ == bool_name(b),
{
    if b {
        "true".to_owned()
    } else {
        "false".to_owned()
    }
}

/// Records a divergence whatever the texts are.
fn push_divergence(out: &mut Vec<Divergence>, field: &'static str, legacy: String, modern: String)
    ensures
        divergence_views(final(out)@) == divergence_views(old(out)@) + seq![
            (field@, legacy@, modern@),
        ],
{
    out.push(Divergence { field, legacy, modern });
    assert(divergence_views(out@) =~= divergence_views(old(out)@) + seq![
        (field@, legacy@, modern@),
    ]);
}

/// The credit divergences of two entries.
fn note_credits(out: &mut Vec<Divergence>, legacy: &ApodEntry, modern: &ApodEntry)
    ensures
        divergence_views(final(out)@) == divergence_views(old(out)@) + credit_divergences(
            *legacy,
            *modern,
        ),
{
    if legacy.credits.len() > 0 && modern.credits.len() > 0 {
        let l = legacy.credit_text();
        let m = modern.credit_text();
        note(out, "credit_text", opt_str(&l), opt_str(&m));
        let ghost mid = out@;
        if legacy.has_copyright != modern.has_copyright {
            push_divergence(
                out,
                "has_copyright",
                bool_str(legacy.has_copyright),
                bool_str(modern.has_copyright),
            );
        }
        assert(divergence_views(out@) =~= divergence_views(old(out)@) + credit_divergences(
            *legacy,
            *modern,
        ));
    } else {
        assert(divergence_views(out@) =~= divergence_views(old(out)@) + credit_divergences(
            *legacy,
            *modern,
        ));
    }
}

/// The media divergences of two entries.
fn note_media(out: &mut Vec<Divergence>, legacy: &ApodEntry, modern: &ApodEntry)
    ensures
        divergence_views(final(out)@) == divergence_views(old(out)@) + media_divergences(
            *legacy,
            *modern,
        ),
{
    if modern.media.kind != MediaKind::NoMedia && legacy.media.kind != MediaKind::NoMedia {
        if legacy.media.kind != modern.media.kind {
            push_divergence(
                out,
                "media_kind",
                legacy.media.kind.as_str().to_owned(),
                modern.media.kind.as_str().to_owned(),
            );
        }
        note(out, "media_url", opt_str(&legacy.media.url), opt_str(&modern.media.url));
        assert(divergence_views(out@) =~= divergence_views(old(out)@) + media_divergences(
            *legacy,
            *modern,
        ));
    } else {
        assert(divergence_views(out@) =~= divergence_views(old(out)@) + media_divergences(
            *legacy,
            *modern,
        ));
    }
}

/// Every divergence between two entries of one day.
fn divergences(legacy: &ApodEntry, modern: &ApodEntry) -> (out: Vec<Divergence>)
    ensures
        divergence_views(out@) == divergences_between(*legacy, *modern),
{
    let mut out: Vec<Divergence> = Vec::new();
    assert(divergence_views(out@) =~= Seq::<DivergenceView>::empty());
    note(&mut out, "title", legacy.title.as_str(), modern.title.as_str());
    note(
        &mut out,
        "explanation_text",
        legacy.explanation_text.as_str(),
        modern.explanation_text.as_str(),
    );
    note_credits(&mut out, legacy, modern);
    note(&mut out, "license_url", opt_str(&legacy.license_url), opt_str(&modern.license_url));
    note(
        &mut out,
        "tomorrow_teaser",
        opt_str(&legacy.tomorrow_teaser),
        opt_str(&modern.tomorrow_teaser),
    );
    note_media(&mut out, legacy, modern);
    assert(divergence_views(out@) =~= divergences_between(*legacy, *modern));
    out
}

/// The entry of one day out of whichever of its two sources exist; `None` when neither does.
pub fn merge(legacy: Option<ApodEntry>, modern: Option<ApodEntry>) -> (r: Option<Merged>)
    ensures
        match (legacy, modern) {
            (None, None) => r is None,
            (Some(l), None) => r matches Some(m) && m.entry == with_provenance(
                l,
                Provenance::LegacyOnly,
            ) && m.divergences@.len() == 0,
            (None, Some(n)) => r matches Some(m) && m.entry == with_provenance(
                n,
                Provenance::ModernOnly,
            ) && m.divergences@.len() == 0,
            (Some(l), Some(n)) => r matches Some(m) && m.entry == merged_entry(l, n)
                && divergence_views(m.divergences@) == divergences_between(l, n),
        },
{
    let provenance = match Provenance::of(legacy.is_some(), modern.is_some()) {
        Some(p) => p,
        None => {
            return None;
        },
    };
    match (legacy, modern) {
        (Some(l), None) => Some(Merged { entry: sole(l, provenance), divergences: Vec::new() }),
        (None, Some(n)) => Some(Merged { entry: sole(n, provenance), divergences: Vec::new() }),
        (Some(l), Some(n)) => {
            let divergences = divergences(&l, &n);
            Some(Merged { entry: combine(l, n), divergences })
        },
        (None, None) => None,
    }
}

/// The entry made of both sources (see `merged_entry`).
fn combine(legacy: ApodEntry, modern: ApodEntry) -> (e: ApodEntry)
    ensures
        e == merged_entry(legacy, modern),
{
    let mut entry = legacy;
    if modern.media.kind != MediaKind::NoMedia {
        entry.legacy_media_url = entry.media.url.clone();
        entry.media = modern.media;
        entry.extra_media = modern.extra_media;
    }
    if !modern.source_url.as_str().is_empty() {
        entry.source_url = modern.source_url;
    }
    entry.alt = modern.alt;
    entry.authors = modern.authors;
    entry.provenance = Provenance::Both;
    entry
}

/// An entry from one source, marked with its provenance.
fn sole(entry: ApodEntry, provenance: Provenance) -> (e: ApodEntry)
    ensures
        e == with_provenance(entry, provenance),
{
    let mut entry = entry;
    entry.provenance = provenance;
    entry
}

impl Merged {
    /// An entry with nothing to disagree with.
    pub fn from_entry(entry: ApodEntry) -> (m: Merged)
        ensures
            m.entry == entry,
            m.divergences@.len() == 0,
    {
        Merged { entry, divergences: Vec::new() }
    }
}

/// Where both sources exist, the legacy page wins every field of content: title, texts,
/// credits, copyright claim, licence, teaser, keywords and date.
pub proof fn law_legacy_wins_content(legacy: ApodEntry, modern: ApodEntry)
    ensures
        ({
            let e = merged_entry(legacy, modern);
            &&& e.date == legacy.date
            &&& e.title == legacy.title
            &&& e.title_raw == legacy.title_raw
            &&& e.explanation_html == legacy.explanation_html
            &&& e.explanation_text == legacy.explanation_text
            &&& e.credits == legacy.credits
            &&& e.has_copyright == legacy.has_copyright
            &&& e.license_url == legacy.license_url
            &&& e.tomorrow_teaser == legacy.tomorrow_teaser
            &&& e.keywords == legacy.keywords
            &&& e.picture == legacy.picture
            &&& e.provenance == Provenance::Both
        }),
{
}

/// A modern record without media never blanks the entry's media: the legacy media and what it
/// recorded of older media stay as they were.
pub proof fn law_no_modern_media_keeps_legacy_media(legacy: ApodEntry, modern: ApodEntry)
    requires
        modern.media.kind == MediaKind::NoMedia,
    ensures
        merged_entry(legacy, modern).media == legacy.media,
        merged_entry(legacy, modern).extra_media == legacy.extra_media,
        merged_entry(legacy, modern).legacy_media_url == legacy.legacy_media_url,
        media_divergences(legacy, modern).len() == 0,
{
}

/// Once the modern media takes over, the URL the legacy page used is kept.
pub proof fn law_replaced_media_url_is_kept(legacy: ApodEntry, modern: ApodEntry)
    requires
        modern.media.kind != MediaKind::NoMedia,
    ensures
        merged_entry(legacy, modern).media == modern.media,
        merged_entry(legacy, modern).legacy_media_url == legacy.media.url,
{
}

/// A field only one source has is absence, not disagreement.
pub proof fn law_absence_is_not_disagreement(field: Seq<char>, legacy: Seq<char>, modern: Seq<char>)
    requires
        legacy.len() == 0 || modern.len() == 0,
    ensures
        noted(field, legacy, modern).len() == 0,
{
}

/// An entry never disagrees with itself.
pub proof fn law_entry_agrees_with_itself(entry: ApodEntry)
    ensures
        divergences_between(entry, entry).len() == 0,
{
    assert(divergences_between(entry, entry) =~= Seq::<DivergenceView>::empty());
}

/// Folding is idempotent: text already folded folds to itself.
pub proof fn law_fold_idempotent(s: Seq<char>)
    ensures
        folded(folded(s)) == folded(s),
    decreases s.len(),
{
    if s.len() > 0 {
        let f = folded(s.drop_last());
        law_fold_idempotent(s.drop_last());
        lemma_folded_shape(s.drop_last());
        let c = s.last();
        if !folds_away(c) && !(fold_dash(c) == '-' && f.len() > 0 && f.last() == '-') {
            let g = f.push(fold_dash(c));
            assert(g.drop_last() =~= f);
            lemma_folded_shape(s);
        }
    }
}

/// Folded text holds no character that folds away or changes, and no two hyphens in a row.
proof fn lemma_folded_shape(s: Seq<char>)
    ensures
        forall|i: int| 0 <= i < folded(s).len() ==> !folds_away(#[trigger] folded(s)[i])
            && fold_dash(folded(s)[i]) == folded(s)[i],
        forall|i: int|
            0 <= i < folded(s).len() - 1 ==> !(#[trigger] folded(s)[i] == '-' && folded(s)[i + 1]
                == '-'),
    decreases s.len(),
{
    if s.len() > 0 {
        lemma_folded_shape(s.drop_last());
        let f = folded(s.drop_last());
        let g = folded(s);
        let c = s.last();
        if !folds_away(c) && !(fold_dash(c) == '-' && f.len() > 0 && f.last() == '-') {
            assert(g == f.push(fold_dash(c)));
            assert forall|i: int| 0 <= i < g.len() implies !folds_away(#[trigger] g[i])
                && fold_dash(g[i]) == g[i] by {
                if i < f.len() {
                    assert(g[i] == f[i]);
                }
            }
            assert forall|i: int| 0 <= i < g.len() - 1 implies !(#[trigger] g[i] == '-' && g[i
                + 1] == '-') by {
                assert(g[i] == f[i]);
                if i + 1 < f.len() {
                    assert(g[i + 1] == f[i + 1]);
                }
            }
        }
    }
}

proof fn lemma_in_left<A>(x: Seq<A>, y: Seq<A>, e: A)
    requires
        x.contains(e),
    ensures
        (x + y).contains(e),
{
    let i = choose|i: int| 0 <= i < x.len() && x[i] == e;
    assert((x + y)[i] == e);
}

proof fn lemma_in_right<A>(x: Seq<A>, y: Seq<A>, e: A)
    requires
        y.contains(e),
    ensures
        (x + y).contains(e),
{
    let i = choose|i: int| 0 <= i < y.len() && y[i] == e;
    assert((x + y)[x.len() + i] == e);
}

proof fn lemma_noted_has(field: Seq<char>, l: Seq<char>, m: Seq<char>)
    requires
        l.len() > 0 && m.len() > 0 && folded(l) != folded(m),
    ensures
        noted(field, l, m).contains((field, l, m)),
{
    assert(noted(field, l, m)[0] == (field, l, m));
}

/// Wherever both sources of a day carry a field and the two differ once folded, the merge
/// records it: title, explanation, licence, teaser, credit text, media URL, each with both
/// values; and so the copyright claim and the media kind where both sources have credits or
/// media and the two differ.
pub proof fn law_every_disagreement_is_recorded(legacy: ApodEntry, modern: ApodEntry)
    ensures
        ({
            let d = divergences_between(legacy, modern);
            &&& (legacy.title@.len() > 0 && modern.title@.len() > 0 && folded(legacy.title@) != folded(modern.title@))
                ==> d.contains(("title"@, legacy.title@, modern.title@))
            &&& (legacy.explanation_text@.len() > 0 && modern.explanation_text@.len() > 0
                && folded(legacy.explanation_text@) != folded(modern.explanation_text@))
                ==> d.contains(("explanation_text"@, legacy.explanation_text@, modern.explanation_text@))
            &&& forall|a: String, b: String|
                legacy.license_url == Some(a) && modern.license_url == Some(b) && a@.len() > 0 && b@.len() > 0
                    && folded(a@) != folded(b@) ==> #[trigger] d.contains(("license_url"@, a@, b@))
            &&& forall|a: String, b: String|
                legacy.tomorrow_teaser == Some(a) && modern.tomorrow_teaser == Some(b) && a@.len() > 0 && b@.len() > 0
                    && folded(a@) != folded(b@) ==> #[trigger] d.contains(("tomorrow_teaser"@, a@, b@))
            &&& ({
                let lc = credit_text_of(legacy.credits@).unwrap();
                let mc = credit_text_of(modern.credits@).unwrap();
                legacy.credits@.len() > 0 && modern.credits@.len() > 0 && lc.len() > 0 && mc.len() > 0
                    && folded(lc) != folded(mc) ==> d.contains(("credit_text"@, lc, mc))
            })
            &&& (legacy.credits@.len() > 0 && modern.credits@.len() > 0 && legacy.has_copyright != modern.has_copyright)
                ==> d.contains(("has_copyright"@, bool_name(legacy.has_copyright), bool_name(modern.has_copyright)))
            &&& (modern.media.kind != MediaKind::NoMedia && legacy.media.kind != MediaKind::NoMedia
                && legacy.media.kind != modern.media.kind) ==> d.contains(
                ("media_kind"@, kind_name(legacy.media.kind), kind_name(modern.media.kind)),
            )
            &&& forall|a: String, b: String|
                modern.media.kind != MediaKind::NoMedia && legacy.media.kind != MediaKind::NoMedia
                    && legacy.media.url == Some(a) && modern.media.url == Some(b) && a@.len() > 0 && b@.len() > 0
                    && folded(a@) != folded(b@) ==> #[trigger] d.contains(("media_url"@, a@, b@))
        }),
{
    let t = noted("title"@, legacy.title@, modern.title@);
    let x = noted("explanation_text"@, legacy.explanation_text@, modern.explanation_text@);
    let c = credit_divergences(legacy, modern);
    let li = noted("license_url"@, or_empty(legacy.license_url), or_empty(modern.license_url));
    let te = noted("tomorrow_teaser"@, or_empty(legacy.tomorrow_teaser), or_empty(modern.tomorrow_teaser));
    let me = media_divergences(legacy, modern);
    let d = divergences_between(legacy, modern);
    assert(d == t + x + c + li + te + me);
    if legacy.title@.len() > 0 && modern.title@.len() > 0 && folded(legacy.title@) != folded(modern.title@) {
        lemma_noted_has("title"@, legacy.title@, modern.title@);
        lemma_in_left(t, x, ("title"@, legacy.title@, modern.title@));
        lemma_in_left(t + x, c, ("title"@, legacy.title@, modern.title@));
        lemma_in_left(t + x + c, li, ("title"@, legacy.title@, modern.title@));
        lemma_in_left(t + x + c + li, te, ("title"@, legacy.title@, modern.title@));
        lemma_in_left(t + x + c + li + te, me, ("title"@, legacy.title@, modern.title@));
    }
    if legacy.explanation_text@.len() > 0 && modern.explanation_text@.len() > 0
        && folded(legacy.explanation_text@) != folded(modern.explanation_text@) {
        let e = ("explanation_text"@, legacy.explanation_text@, modern.explanation_text@);
        lemma_noted_has("explanation_text"@, legacy.explanation_text@, modern.explanation_text@);
        lemma_in_right(t, x, e);
        lemma_in_left(t + x, c, e);
        lemma_in_left(t + x + c, li, e);
        lemma_in_left(t + x + c + li, te, e);
        lemma_in_left(t + x + c + li + te, me, e);
    }
    assert forall|a: String, b: String|
        legacy.license_url == Some(a) && modern.license_url == Some(b) && a@.len() > 0 && b@.len() > 0
            && folded(a@) != folded(b@) implies #[trigger] d.contains(("license_url"@, a@, b@)) by {
        let e = ("license_url"@, a@, b@);
        lemma_noted_has("license_url"@, a@, b@);
        lemma_in_right(t + x + c, li, e);
        lemma_in_left(t + x + c + li, te, e);
        lemma_in_left(t + x + c + li + te, me, e);
    }
    assert forall|a: String, b: String|
        legacy.tomorrow_teaser == Some(a) && modern.tomorrow_teaser == Some(b) && a@.len() > 0 && b@.len() > 0
            && folded(a@) != folded(b@) implies #[trigger] d.contains(("tomorrow_teaser"@, a@, b@)) by {
        let e = ("tomorrow_teaser"@, a@, b@);
        lemma_noted_has("tomorrow_teaser"@, a@, b@);
        lemma_in_right(t + x + c + li, te, e);
        lemma_in_left(t + x + c + li + te, me, e);
    }
    {
        let lc = credit_text_of(legacy.credits@).unwrap();
        let mc = credit_text_of(modern.credits@).unwrap();
        if legacy.credits@.len() > 0 && modern.credits@.len() > 0 && lc.len() > 0 && mc.len() > 0 && folded(lc) != folded(mc) {
            let e = ("credit_text"@, lc, mc);
            let n = noted("credit_text"@, lc, mc);
            let hc: Seq<DivergenceView> = if legacy.has_copyright != modern.has_copyright {
                seq![("has_copyright"@, bool_name(legacy.has_copyright), bool_name(modern.has_copyright))]
            } else {
                Seq::empty()
            };
            assert(c == n + hc);
            lemma_noted_has("credit_text"@, lc, mc);
            lemma_in_left(n, hc, e);
            lemma_in_right(t + x, c, e);
            lemma_in_left(t + x + c, li, e);
            lemma_in_left(t + x + c + li, te, e);
            lemma_in_left(t + x + c + li + te, me, e);
        }
    }
    if legacy.credits@.len() > 0 && modern.credits@.len() > 0 && legacy.has_copyright != modern.has_copyright {
        let e = ("has_copyright"@, bool_name(legacy.has_copyright), bool_name(modern.has_copyright));
        let n = noted("credit_text"@, credit_text_of(legacy.credits@).unwrap(), credit_text_of(modern.credits@).unwrap());
        let hc = seq![e];
        assert(c == n + hc);
        assert(hc[0] == e);
        lemma_in_right(n, hc, e);
        lemma_in_right(t + x, c, e);
        lemma_in_left(t + x + c, li, e);
        lemma_in_left(t + x + c + li, te, e);
        lemma_in_left(t + x + c + li + te, me, e);
    }
    let both_media = modern.media.kind != MediaKind::NoMedia && legacy.media.kind != MediaKind::NoMedia;
    let mk: Seq<DivergenceView> = if legacy.media.kind != modern.media.kind {
        seq![("media_kind"@, kind_name(legacy.media.kind), kind_name(modern.media.kind))]
    } else {
        Seq::empty()
    };
    let mu = noted("media_url"@, or_empty(legacy.media.url), or_empty(modern.media.url));
    if both_media {
        assert(me == mk + mu);
        if legacy.media.kind != modern.media.kind {
            let e = ("media_kind"@, kind_name(legacy.media.kind), kind_name(modern.media.kind));
            assert(mk[0] == e);
            lemma_in_left(mk, mu, e);
            lemma_in_right(t + x + c + li + te, me, e);
        }
    }
    assert forall|a: String, b: String|
        modern.media.kind != MediaKind::NoMedia && legacy.media.kind != MediaKind::NoMedia
            && legacy.media.url == Some(a) && modern.media.url == Some(b) && a@.len() > 0 && b@.len() > 0
            && folded(a@) != folded(b@) implies #[trigger] d.contains(("media_url"@, a@, b@)) by {
        let e = ("media_url"@, a@, b@);
        lemma_noted_has("media_url"@, a@, b@);
        assert(me == mk + mu);
        lemma_in_right(mk, mu, e);
        lemma_in_right(t + x + c + li + te, me, e);
    }
}

/// A divergence that stands for a real disagreement of texts.
pub open spec fn text_disagreement(d: DivergenceView) -> bool {
    d.0 == "has_copyright"@ || d.0 == "media_kind"@ || (d.1.len() > 0 && d.2.len() > 0 && folded(d.1)
        != folded(d.2))
}

proof fn lemma_all_join(x: Seq<DivergenceView>, y: Seq<DivergenceView>)
    requires
        forall|i: int| 0 <= i < x.len() ==> text_disagreement(#[trigger] x[i]),
        forall|i: int| 0 <= i < y.len() ==> text_disagreement(#[trigger] y[i]),
    ensures
        forall|i: int| 0 <= i < (x + y).len() ==> text_disagreement(#[trigger] (x + y)[i]),
{
    assert forall|i: int| 0 <= i < (x + y).len() implies text_disagreement(#[trigger] (x + y)[i]) by {
        if i < x.len() {
            assert((x + y)[i] == x[i]);
        } else {
            assert((x + y)[i] == y[i - x.len()]);
        }
    }
}

proof fn lemma_noted_real(field: Seq<char>, l: Seq<char>, m: Seq<char>)
    ensures
        forall|i: int| 0 <= i < noted(field, l, m).len() ==> text_disagreement(#[trigger] noted(field, l, m)[i]),
{
}

/// The merge records nothing that is not there: every divergence about a text holds two
/// non-empty values that differ once folded; the others are the copyright claim and the media
/// kind, recorded only where they differ.
pub proof fn law_no_divergence_is_invented(legacy: ApodEntry, modern: ApodEntry)
    ensures
        forall|i: int| 0 <= i < divergences_between(legacy, modern).len() ==> text_disagreement(
            #[trigger] divergences_between(legacy, modern)[i],
        ),
{
    let t = noted("title"@, legacy.title@, modern.title@);
    let x = noted("explanation_text"@, legacy.explanation_text@, modern.explanation_text@);
    let c = credit_divergences(legacy, modern);
    let li = noted("license_url"@, or_empty(legacy.license_url), or_empty(modern.license_url));
    let te = noted("tomorrow_teaser"@, or_empty(legacy.tomorrow_teaser), or_empty(modern.tomorrow_teaser));
    let me = media_divergences(legacy, modern);
    lemma_noted_real("title"@, legacy.title@, modern.title@);
    lemma_noted_real("explanation_text"@, legacy.explanation_text@, modern.explanation_text@);
    lemma_noted_real("license_url"@, or_empty(legacy.license_url), or_empty(modern.license_url));
    lemma_noted_real("tomorrow_teaser"@, or_empty(legacy.tomorrow_teaser), or_empty(modern.tomorrow_teaser));
    if legacy.credits@.len() > 0 && modern.credits@.len() > 0 {
        let lc = credit_text_of(legacy.credits@).unwrap();
        let mc = credit_text_of(modern.credits@).unwrap();
        let n = noted("credit_text"@, lc, mc);
        let hc: Seq<DivergenceView> = if legacy.has_copyright != modern.has_copyright {
            seq![("has_copyright"@, bool_name(legacy.has_copyright), bool_name(modern.has_copyright))]
        } else {
            Seq::empty()
        };
        lemma_noted_real("credit_text"@, lc, mc);
        assert(forall|i: int| 0 <= i < hc.len() ==> text_disagreement(#[trigger] hc[i]));
        lemma_all_join(n, hc);
        assert(c == n + hc);
    } else {
        assert(c.len() == 0);
    }
    if modern.media.kind != MediaKind::NoMedia && legacy.media.kind != MediaKind::NoMedia {
        let mk: Seq<DivergenceView> = if legacy.media.kind != modern.media.kind {
            seq![("media_kind"@, kind_name(legacy.media.kind), kind_name(modern.media.kind))]
        } else {
            Seq::empty()
        };
        let mu = noted("media_url"@, or_empty(legacy.media.url), or_empty(modern.media.url));
        lemma_noted_real("media_url"@, or_empty(legacy.media.url), or_empty(modern.media.url));
        assert(forall|i: int| 0 <= i < mk.len() ==> text_disagreement(#[trigger] mk[i]));
        lemma_all_join(mk, mu);
        assert(me == mk + mu);
    } else {
        assert(me.len() == 0);
    }
    lemma_all_join(t, x);
    lemma_all_join(t + x, c);
    lemma_all_join(t + x + c, li);
    lemma_all_join(t + x + c + li, te);
    lemma_all_join(t + x + c + li + te, me);
    assert(divergences_between(legacy, modern) == t + x + c + li + te + me);
}

} // verus!
