//! Words and numbers the sky page prints.
use vstd::prelude::*;
use crate::text::{chars_of, decimal, push_char, push_decimal, push_range, push_str};

verus! {

/// What an event in the sky timeline is.
#[derive(Debug, Clone, Copy, PartialEq, Eq, Structural)]
pub enum EventKind {
    Moon,
    Season,
    Shower,
    Eclipse,
    Planet,
}

/// The digits of `d` up to position `i`, with a comma wherever a group of three ends.
pub open spec fn commas_upto(d: Seq<char>, i: nat) -> Seq<char>
    decreases i,
{
    if i == 0 {
        Seq::empty()
    } else {
        let k = (i - 1) as nat;
        commas_upto(d, k) + (if k > 0 && (d.len() - k) % 3 == 0 {
            seq![',']
        } else {
            Seq::empty()
        }) + seq![d[k as int]]
    }
}

/// A whole number written with commas between groups of three digits.
pub open spec fn with_thousands(value: int) -> Seq<char> {
    let digits = decimal(if value < 0 { (-value) as nat } else { value as nat });
    let grouped = commas_upto(digits, digits.len());
    if value < 0 {
        seq!['-'] + grouped
    } else {
        grouped
    }
}

/// Writes a whole number with commas between groups of three digits.
pub fn thousands(value: i64) -> (s: String)
    requires
        value != i64::MIN,
    ensures
        s@ == with_thousands(value as int),
{
    let magnitude: u64 = if value < 0 {
        (-value) as u64
    } else {
        value as u64
    };
    let mut text = String::new();
    push_decimal(&mut text, magnitude);
    let digits = chars_of(text.as_str());
    assert(digits@ =~= decimal(magnitude as nat));
    let n = digits.len();
    let mut out = String::new();
    let mut index: usize = 0;
    while index < n
        invariant
            index <= n,
            n == digits@.len(),
            out@ == commas_upto(digits@, index as nat),
        decreases n - index,
    {
        if index > 0 && (n - index) % 3 == 0 {
            push_char(&mut out, ',');
        }
        push_char(&mut out, digits[index]);
        index = index + 1;
        assert(out@ =~= commas_upto(digits@, index as nat));
    }
    if value < 0 {
        let mut signed = String::new();
        push_char(&mut signed, '-');
        push_str(&mut signed, out.as_str());
        signed
    } else {
        out
    }
}

/// What std's `char::to_uppercase` gives for `c`: one character or several, by the Unicode
/// case tables.
pub uninterp spec fn uppercased(c: char) -> Seq<char>;

/// std's `char::to_uppercase`, collected.
#[verifier::external_body]
pub(crate) fn upper_of(c: char) -> (s: String)
    ensures
        s@ == uppercased(c),
{
    c.to_uppercase().collect::<String>()
}

/// A word with its first letter in capitals.
pub open spec fn capital_first(word: Seq<char>) -> Seq<char> {
    if word.len() == 0 {
        word
    } else {
        uppercased(word[0]) + word.skip(1)
    }
}

/// `word` with its first character in capitals.
pub fn capitalized(word: &str) -> (s: String)
    ensures
        s@ == capital_first(word@),
{
    let v = chars_of(word);
    if v.len() == 0 {
        return String::new();
    }
    let mut s = upper_of(v[0]);
    push_range(&mut s, &v, 1, v.len());
    assert(v@.subrange(1, v@.len() as int) =~= v@.skip(1));
    s
}


/// How many events the timeline shows.
pub const TIMELINE_LENGTH: usize = 10;

/// How far ahead the timeline looks, in days.
pub const TIMELINE_HORIZON_DAYS: i64 = 400;

/// Nanoseconds in an hour and in a day.
pub const HOUR_NANOS: i64 = 3_600_000_000_000;

pub const DAY_NANOS: i64 = 86_400_000_000_000;

/// One event of the sky timeline, at an instant counted in nanoseconds since the Unix epoch.
#[derive(Debug, Clone)]
pub struct SkyEvent {
    pub kind: EventKind,
    pub title: String,
    pub detail: Option<String>,
    pub at: i64,
}

pub type EventView = (EventKind, Seq<char>, Option<Seq<char>>, int);

pub open spec fn event_view(e: SkyEvent) -> EventView {
    (
        e.kind,
        e.title@,
        match e.detail {
            Some(d) => Some(d@),
            None => None,
        },
        e.at as int,
    )
}

pub open spec fn event_views(es: Seq<SkyEvent>) -> Seq<EventView> {
    es.map_values(|e: SkyEvent| event_view(e))
}

/// Whether an instant falls within an hour of one of the eclipses, which then stands in for
/// the moon's phase at that instant.
pub open spec fn eclipsed_at(at: int, eclipses: Seq<i64>) -> bool {
    exists|k: int| 0 <= k < eclipses.len() && -HOUR_NANOS < #[trigger] eclipses[k] - at < HOUR_NANOS
}

pub fn eclipsed(at: i64, eclipses: &Vec<i64>) -> (b: bool)
    ensures
        b == eclipsed_at(at as int, eclipses@),
{
    let mut k: usize = 0;
    while k < eclipses.len()
        invariant
            k <= eclipses@.len(),
            forall|j: int| 0 <= j < k ==> !(-HOUR_NANOS < #[trigger] eclipses@[j] - at < HOUR_NANOS),
        decreases eclipses.len() - k,
    {
        let d: i128 = eclipses[k] as i128 - at as i128;
        if -(HOUR_NANOS as i128) < d && d < HOUR_NANOS as i128 {
            assert(-HOUR_NANOS < eclipses@[k as int] - at < HOUR_NANOS);
            return true;
        }
        k = k + 1;
    }
    false
}

/// Whether an event falls after `now` and no later than the horizon.
pub open spec fn in_window(now: int, e: EventView) -> bool {
    now < e.3 && e.3 <= now + TIMELINE_HORIZON_DAYS * DAY_NANOS
}

/// The events that fall in the window, in the order given.
pub open spec fn in_window_events(now: int, es: Seq<EventView>) -> Seq<EventView>
    decreases es.len(),
{
    if es.len() == 0 {
        Seq::empty()
    } else {
        let r = in_window_events(now, es.drop_last());
        if in_window(now, es.last()) {
            r.push(es.last())
        } else {
            r
        }
    }
}

/// Where an event goes among events in time order: after every one that is not later.
pub open spec fn time_slot(sorted: Seq<EventView>, e: EventView) -> int
    decreases sorted.len(),
{
    if sorted.len() == 0 || sorted.last().3 <= e.3 {
        sorted.len() as int
    } else {
        time_slot(sorted.drop_last(), e)
    }
}

/// Events in time order, those at one instant in the order given (a stable sort).
pub open spec fn by_time(es: Seq<EventView>) -> Seq<EventView>
    decreases es.len(),
{
    if es.len() == 0 {
        Seq::empty()
    } else {
        let s = by_time(es.drop_last());
        s.insert(time_slot(s, es.last()), es.last())
    }
}

/// The timeline: the events in the window, in time order, the first ten.
pub open spec fn timeline_events(now: int, es: Seq<EventView>) -> Seq<EventView> {
    let s = by_time(in_window_events(now, es));
    if s.len() > TIMELINE_LENGTH {
        s.take(TIMELINE_LENGTH as int)
    } else {
        s
    }
}

proof fn lemma_time_slot(sorted: Seq<EventView>, e: EventView)
    ensures
        0 <= time_slot(sorted, e) <= sorted.len(),
        forall|k: int| time_slot(sorted, e) <= k < sorted.len() ==> (#[trigger] sorted[k]).3 > e.3,
        time_slot(sorted, e) > 0 ==> sorted[time_slot(sorted, e) - 1].3 <= e.3,
    decreases sorted.len(),
{
    if sorted.len() > 0 && sorted.last().3 > e.3 {
        lemma_time_slot(sorted.drop_last(), e);
        let s = time_slot(sorted, e);
        assert forall|k: int| s <= k < sorted.len() implies (#[trigger] sorted[k]).3 > e.3 by {
            if k < sorted.len() - 1 {
                assert(sorted[k] == sorted.drop_last()[k]);
            }
        }
        if s > 0 {
            assert(sorted[s - 1] == sorted.drop_last()[s - 1]);
        }
    }
}

/// Puts `x` where it goes in time order, as [`time_slot`] says.
fn insert_by_time(out: &mut Vec<SkyEvent>, x: SkyEvent)
    ensures
        event_views(final(out)@) == event_views(old(out)@).insert(
            time_slot(event_views(old(out)@), event_view(x)),
            event_view(x),
        ),
{
    let ghost before = event_views(out@);
    proof {
        lemma_time_slot(before, event_view(x));
    }
    let ghost slot = time_slot(before, event_view(x));
    let mut pos: usize = out.len();
    while pos > 0 && out[pos - 1].at > x.at
        invariant
            out@ == old(out)@,
            before == event_views(out@),
            slot <= pos <= out@.len(),
            forall|k: int| slot <= k < before.len() ==> (#[trigger] before[k]).3 > event_view(x).3,
            slot > 0 ==> before[slot - 1].3 <= event_view(x).3,
        decreases pos,
    {
        assert(before[pos - 1] == event_view(out@[pos - 1]));
        pos = pos - 1;
    }
    assert(pos == slot) by {
        if pos > slot {
            assert(before[pos - 1] == event_view(out@[pos - 1]));
            assert(before[pos - 1].3 > event_view(x).3);
        }
    }
    out.insert(pos, x);
    assert(event_views(out@) =~= before.insert(slot, event_view(x)));
}

/// The sky timeline: of `events`, those after `now` and within the horizon, in time order, the
/// first ten.
pub fn timeline_of(now: i64, events: Vec<SkyEvent>) -> (out: Vec<SkyEvent>)
    ensures
        event_views(out@) == timeline_events(now as int, event_views(events@)),
{
    let ghost all = event_views(events@);
    let horizon: i128 = now as i128 + (TIMELINE_HORIZON_DAYS as i128) * (DAY_NANOS as i128);
    let mut rest = events;
    let mut sorted: Vec<SkyEvent> = Vec::new();
    let ghost mut taken: nat = 0;
    assert(all.take(0) =~= Seq::<EventView>::empty());
    while rest.len() > 0
        invariant
            horizon == now + TIMELINE_HORIZON_DAYS * DAY_NANOS,
            taken + rest@.len() == all.len(),
            event_views(rest@) == all.skip(taken as int),
            event_views(sorted@) == by_time(in_window_events(now as int, all.take(taken as int))),
        decreases rest@.len(),
    {
        let ghost rb = rest@;
        let ghost prev = in_window_events(now as int, all.take(taken as int));
        let x = rest.remove(0);
        assert(rest@ =~= rb.drop_first());
        assert(event_view(x) == all[taken as int]) by {
            assert(event_views(rb)[0] == event_view(rb[0]));
            assert(all.skip(taken as int)[0] == all[taken as int]);
        }
        assert(all.take(taken + 1int).drop_last() =~= all.take(taken as int));
        assert(all.take(taken + 1int).last() == all[taken as int]);
        let inside = (x.at as i128) > (now as i128) && (x.at as i128) <= horizon;
        assert(inside == in_window(now as int, event_view(x)));
        if inside {
            insert_by_time(&mut sorted, x);
            assert(prev.push(all[taken as int]).drop_last() =~= prev);
        }
        assert(event_views(rb.drop_first()) =~= event_views(rb).drop_first());
        assert(all.skip(taken as int).drop_first() =~= all.skip(taken + 1int));
        assert(event_views(rest@) =~= all.skip(taken + 1int));
        proof {
            taken = taken + 1;
        }
    }
    assert(all.take(taken as int) =~= all);
    if sorted.len() > TIMELINE_LENGTH {
        sorted.truncate(TIMELINE_LENGTH);
        assert(event_views(sorted@) =~= by_time(in_window_events(now as int, all)).take(
            TIMELINE_LENGTH as int,
        ));
    }
    sorted
}

/// The timeline never reaches past its length, and everything on it is ahead of `now` and
/// within the horizon, in time order.
pub proof fn law_timeline_bounded_and_ahead(now: int, es: Seq<EventView>)
    ensures
        timeline_events(now, es).len() <= TIMELINE_LENGTH,
        forall|k: int| 0 <= k < timeline_events(now, es).len() ==> in_window(now, #[trigger] timeline_events(now, es)[k]),
        forall|i: int, j: int| 0 <= i < j < timeline_events(now, es).len() ==> (#[trigger] timeline_events(now, es)[i]).3 <= (#[trigger] timeline_events(now, es)[j]).3,
{
    let w = in_window_events(now, es);
    lemma_in_window_all(now, es);
    lemma_by_time_sorted(w);
    let s = by_time(w);
    let t = timeline_events(now, es);
    lemma_by_time_from(w);
    assert forall|k: int| 0 <= k < t.len() implies in_window(now, #[trigger] t[k]) by {
        assert(t[k] == s[k]);
        assert(occurs_in(s[k], w));
        let j = choose|j: int| 0 <= j < w.len() && #[trigger] w[j] == s[k];
        assert(in_window(now, w[j]));
    }
    assert forall|i: int, j: int| 0 <= i < j < t.len() implies (#[trigger] t[i]).3 <= (#[trigger] t[j]).3 by {
        assert(t[i] == s[i] && t[j] == s[j]);
    }
}

proof fn lemma_in_window_all(now: int, es: Seq<EventView>)
    ensures
        forall|k: int| 0 <= k < in_window_events(now, es).len() ==> in_window(now, #[trigger] in_window_events(now, es)[k]),
    decreases es.len(),
{
    if es.len() > 0 {
        lemma_in_window_all(now, es.drop_last());
        let r = in_window_events(now, es.drop_last());
        assert forall|k: int| 0 <= k < in_window_events(now, es).len() implies in_window(now, #[trigger] in_window_events(now, es)[k]) by {
            if k < r.len() {
                assert(in_window_events(now, es)[k] == r[k]);
            }
        }
    }
}

proof fn lemma_by_time_sorted(es: Seq<EventView>)
    ensures
        forall|i: int, j: int| 0 <= i < j < by_time(es).len() ==> (#[trigger] by_time(es)[i]).3 <= (#[trigger] by_time(es)[j]).3,
        by_time(es).len() == es.len(),
    decreases es.len(),
{
    if es.len() > 0 {
        lemma_by_time_sorted(es.drop_last());
        let s = by_time(es.drop_last());
        let e = es.last();
        lemma_time_slot(s, e);
        let p = time_slot(s, e);
        let n = s.insert(p, e);
        assert forall|i: int, j: int| 0 <= i < j < n.len() implies (#[trigger] n[i]).3 <= (#[trigger] n[j]).3 by {
            if j < p {
                assert(n[i] == s[i] && n[j] == s[j]);
            } else if i > p {
                assert(n[i] == s[i - 1] && n[j] == s[j - 1]);
            } else if i == p {
                assert(n[j] == s[j - 1]);
            } else {
                assert(n[i] == s[i]);
                if j == p {
                    if p > 0 {
                        if i < p - 1 {
                            assert(s[i].3 <= s[p - 1].3);
                        }
                    }
                } else {
                    assert(n[j] == s[j - 1]);
                }
            }
        }
    }
}

/// `x` is one of `es`.
pub open spec fn occurs_in(x: EventView, es: Seq<EventView>) -> bool {
    exists|j: int| 0 <= j < es.len() && #[trigger] es[j] == x
}

proof fn lemma_by_time_from(es: Seq<EventView>)
    ensures
        by_time(es).len() == es.len(),
        forall|k: int| 0 <= k < by_time(es).len() ==> occurs_in(#[trigger] by_time(es)[k], es),
    decreases es.len(),
{
    if es.len() > 0 {
        lemma_by_time_from(es.drop_last());
        let s = by_time(es.drop_last());
        let e = es.last();
        lemma_time_slot(s, e);
        let p = time_slot(s, e);
        let n = s.insert(p, e);
        assert forall|k: int| 0 <= k < n.len() implies occurs_in(#[trigger] n[k], es) by {
            if k == p {
                assert(n[k] == es[es.len() - 1]);
                assert(es[es.len() - 1] == es[es.len() - 1]);
            } else {
                let m = if k < p { k } else { k - 1 };
                assert(n[k] == s[m]);
                assert(occurs_in(s[m], es.drop_last()));
                let j = choose|j: int| 0 <= j < es.drop_last().len() && #[trigger] es.drop_last()[j] == s[m];
                assert(es.drop_last()[j] == es[j]);
            }
        }
    }
}

proof fn lemma_window_has(now: int, es: Seq<EventView>, k: int)
    requires
        0 <= k < es.len(),
        now < es[k].3 <= now + TIMELINE_HORIZON_DAYS * DAY_NANOS,
    ensures
        occurs_in(es[k], in_window_events(now, es)),
    decreases es.len(),
{
    let r = in_window_events(now, es.drop_last());
    if k < es.len() - 1 {
        lemma_window_has(now, es.drop_last(), k);
        assert(es.drop_last()[k] == es[k]);
        let j = choose|j: int| 0 <= j < r.len() && #[trigger] r[j] == es[k];
        if in_window(now, es.last()) {
            assert(in_window_events(now, es)[j] == r[j]);
        }
    } else {
        assert(in_window_events(now, es) == r.push(es[k]));
        assert(in_window_events(now, es)[r.len() as int] == es[k]);
    }
}

proof fn lemma_by_time_has(es: Seq<EventView>, k: int)
    requires
        0 <= k < es.len(),
    ensures
        occurs_in(es[k], by_time(es)),
    decreases es.len(),
{
    let s = by_time(es.drop_last());
    let e = es.last();
    lemma_time_slot(s, e);
    let p = time_slot(s, e);
    let n = s.insert(p, e);
    if k == es.len() - 1 {
        assert(n[p] == e);
    } else {
        lemma_by_time_has(es.drop_last(), k);
        assert(es.drop_last()[k] == es[k]);
        let j = choose|j: int| 0 <= j < s.len() && #[trigger] s[j] == es[k];
        if j < p {
            assert(n[j] == s[j]);
        } else {
            assert(n[j + 1] == s[j]);
        }
    }
}

/// The timeline misses nothing: every event after `now` and within the horizon, whatever its
/// kind, is on it, unless the timeline is full with ten events none of them later than it.
pub proof fn law_timeline_misses_nothing(now: int, es: Seq<EventView>, k: int)
    requires
        0 <= k < es.len(),
        now < es[k].3 <= now + TIMELINE_HORIZON_DAYS * DAY_NANOS,
    ensures
        occurs_in(es[k], timeline_events(now, es)) || (timeline_events(now, es).len() == TIMELINE_LENGTH
            && forall|i: int| 0 <= i < TIMELINE_LENGTH ==> (#[trigger] timeline_events(now, es)[i]).3 <= es[k].3),
{
    let w = in_window_events(now, es);
    lemma_window_has(now, es, k);
    let j = choose|j: int| 0 <= j < w.len() && #[trigger] w[j] == es[k];
    lemma_by_time_has(w, j);
    lemma_by_time_sorted(w);
    let s = by_time(w);
    let p = choose|p: int| 0 <= p < s.len() && #[trigger] s[p] == w[j];
    let t = timeline_events(now, es);
    if s.len() > TIMELINE_LENGTH {
        if p < TIMELINE_LENGTH {
            assert(t[p] == s[p]);
        } else {
            assert forall|i: int| 0 <= i < TIMELINE_LENGTH implies (#[trigger] t[i]).3 <= es[k].3 by {
                assert(t[i] == s[i]);
            }
        }
    } else {
        assert(t[p] == s[p]);
    }
}

} // verus!
