//! APOD's calendar: a date is the number of days since 1995-06-16, the first entry.
use vstd::prelude::*;
use chrono::{Datelike, NaiveDate};
use std::fmt::Write;
use crate::text::{
    chars_of, decimal, four_digits, push_char, push_decimal, push_four, push_str, push_two,
    slice_chars, string_of, trim, trim_chars, two_digits,
};

verus! {

/// The earliest year chrono's `NaiveDate` represents.
pub const MIN_YEAR: i32 = -262143;

/// The latest year chrono's `NaiveDate` represents.
pub const MAX_YEAR: i32 = 262142;

/// Days from 0001-01-01 (counted as day 1) to 1970-01-01 (day 0 of the Unix epoch).
pub const CE_TO_UNIX: i32 = 719163;

/// Days from 1970-01-01 to 1995-06-16.
pub const START_EPOCH_DAY: i32 = 9297;

/// The number of days from 1970-01-01 to a date of the proleptic Gregorian calendar.
pub open spec fn civil_days(y: int, m: int, d: int) -> int {
    let yy = if m <= 2 {
        y - 1
    } else {
        y
    };
    let era = yy / 400;
    let yoe = yy - era * 400;
    let mp = if m > 2 {
        m - 3
    } else {
        m + 9
    };
    let doy = (153 * mp + 2) / 5 + d - 1;
    let doe = yoe * 365 + yoe / 4 - yoe / 100 + doy;
    era * 146097 + doe - 719468
}

pub open spec fn is_leap(y: int) -> bool {
    (y % 4 == 0 && y % 100 != 0) || y % 400 == 0
}

pub open spec fn month_len(y: int, m: int) -> int {
    if m == 2 {
        if is_leap(y) {
            29
        } else {
            28
        }
    } else if m == 4 || m == 6 || m == 9 || m == 11 {
        30
    } else {
        31
    }
}

/// A calendar date that exists, in the years chrono can hold.
pub open spec fn valid_ymd(y: int, m: int, d: int) -> bool {
    &&& MIN_YEAR <= y <= MAX_YEAR
    &&& 1 <= m <= 12
    &&& 1 <= d <= month_len(y, m)
}

/// The day numbers whose dates chrono can always hold.
pub open spec fn in_calendar(days: int) -> bool {
    -95_000_000 <= days <= 95_000_000
}

/// `ymd` is a calendar date, and it is the day `n` days after 1970-01-01.
pub open spec fn is_date_of(ymd: (int, int, int), n: int) -> bool {
    valid_ymd(ymd.0, ymd.1, ymd.2) && civil_days(ymd.0, ymd.1, ymd.2) == n
}

/// chrono's `NaiveDate::from_ymd_opt`, as a day number: `Some` exactly for the calendar dates
/// that exist in chrono's year range, numbered from 0001-01-01 as day 1.
#[verifier::external_body]
fn chrono_from_ymd(year: i32, month: u32, day: u32) -> (r: Option<i32>)
    ensures
        r is Some <==> valid_ymd(year as int, month as int, day as int),
        r matches Some(n) ==> n == civil_days(year as int, month as int, day as int) + CE_TO_UNIX,
{
    match NaiveDate::from_ymd_opt(year, month, day) {
        Some(date) => Some(date.num_days_from_ce()),
        None => None,
    }
}

/// chrono's `NaiveDate::from_num_days_from_ce_opt`, as a year, a month and a day: the date
/// numbered `n` counting 0001-01-01 as day 1, which chrono holds for every `n` this close to
/// the present.
#[verifier::external_body]
fn chrono_from_ce(n: i32) -> (r: Option<(i32, u32, u32)>)
    ensures
        r matches Some((y, m, d)) ==> valid_ymd(y as int, m as int, d as int) && civil_days(
            y as int,
            m as int,
            d as int,
        ) + CE_TO_UNIX == n,
        in_calendar(n as int) ==> r is Some,
{
    match NaiveDate::from_num_days_from_ce_opt(n) {
        Some(date) => Some((date.year(), date.month(), date.day())),
        None => None,
    }
}

/// What chrono's `NaiveDate::parse_from_str(s, fmt)` makes of `s`, as a day number counted
/// from 0001-01-01 as day 1.
pub uninterp spec fn chrono_parsed(s: Seq<char>, fmt: Seq<char>) -> Option<int>;

/// chrono's `NaiveDate::parse_from_str`, giving the day number of the date it read. Every date
/// chrono holds is within its year range, which bounds the number; and chrono documents that a
/// two-digit `%y` reads 70 to 99 as 1970 to 1999 and the rest as 2000 to 2069, so a date read
/// with `%y%m%d` falls between 1970-01-01 and 2069-12-31. With `%Y-%m-%d`, an unsigned year of
/// up to four digits, a dash, a two-digit month, a dash and a two-digit day are read as that
/// date when it exists, which is what chrono's parser does with each of those items.
#[verifier::external_body]
fn chrono_parse(s: &str, fmt: &str) -> (r: Option<i32>)
    ensures
        r matches Some(n) ==> chrono_parsed(s@, fmt@) == Some(n as int) && -96_000_000 <= n
            <= 96_000_000,
        fmt@ == "%y%m%d"@ ==> (r matches Some(n) ==> CE_TO_UNIX <= n < CE_TO_UNIX + 36525),
        forall|ymd: (int, int, int)|
            fmt@ == "%Y-%m-%d"@ && 0 <= ymd.0 <= 9999 && valid_ymd(ymd.0, ymd.1, ymd.2) && s@
                == #[trigger] iso_text(ymd) ==> r == Some((civil_days(ymd.0, ymd.1, ymd.2) + CE_TO_UNIX) as i32),
        r is None ==> chrono_parsed(s@, fmt@) is None,
{
    match NaiveDate::parse_from_str(s, fmt) {
        Ok(date) => Some(date.num_days_from_ce()),
        Err(_) => None,
    }
}

/// What chrono's `format(fmt)` writes for the date numbered `n` from 0001-01-01, or `None`
/// when `fmt` holds a specifier chrono cannot write.
pub uninterp spec fn chrono_formatted(n: int, fmt: Seq<char>) -> Option<Seq<char>>;

/// A format made of literal text and the specifiers `%Y`, `%y`, `%m`, `%d`, `%-d` and `%B`,
/// each of which chrono writes for every date.
pub open spec fn date_format(f: Seq<char>) -> bool
    decreases f.len(),
{
    if f.len() == 0 {
        true
    } else if f[0] != '%' {
        date_format(f.skip(1))
    } else if f.len() >= 2 && (f[1] == 'Y' || f[1] == 'y' || f[1] == 'm' || f[1] == 'd' || f[1]
        == 'B') {
        date_format(f.skip(2))
    } else if f.len() >= 3 && f[1] == '-' && f[2] == 'd' {
        date_format(f.skip(3))
    } else {
        false
    }
}

/// chrono's `NaiveDate::format(fmt)` written out, for a date chrono holds. Writing fails only
/// for a specifier chrono does not know or one that needs a time, which a date format lacks.
#[verifier::external_body]
fn chrono_format(n: i32, fmt: &str) -> (r: Option<String>)
    requires
        in_calendar(n as int),
    ensures
        match r {
            Some(s) => chrono_formatted(n as int, fmt@) == Some(s@),
            None => chrono_formatted(n as int, fmt@) is None,
        },
        date_format(fmt@) ==> r is Some,
{
    let date = NaiveDate::from_num_days_from_ce_opt(n).unwrap();
    let mut out = String::new();
    match write!(out, "{}", date.format(fmt)) {
        Ok(()) => Some(out),
        Err(_) => None,
    }
}

/// A year as chrono's `%Y` writes it: four digits, with a sign outside 0 to 9999.
pub open spec fn year_text(y: int) -> Seq<char> {
    if 0 <= y <= 9999 {
        four_digits(y as nat)
    } else if y > 9999 {
        seq!['+'] + decimal(y as nat)
    } else {
        seq!['-'] + four_digits((-y) as nat)
    }
}

/// `YYYY-MM-DD`.
pub open spec fn iso_text(ymd: (int, int, int)) -> Seq<char> {
    year_text(ymd.0) + seq!['-'] + two_digits(ymd.1) + seq!['-'] + two_digits(ymd.2)
}

/// `YYYY/MM`, the folder a date's files live in.
pub open spec fn folder_text(ymd: (int, int, int)) -> Seq<char> {
    year_text(ymd.0) + seq!['/'] + two_digits(ymd.1)
}

/// `YYMMDD`, the way the legacy site names its pages.
pub open spec fn short_text(ymd: (int, int, int)) -> Seq<char> {
    two_digits(ymd.0 % 100) + two_digits(ymd.1) + two_digits(ymd.2)
}

/// The days APOD never published anything, counted from its start: 1995-06-17 to 06-19, and
/// 2020-06-10.
pub open spec fn is_missing_day(n: int) -> bool {
    n == 1 || n == 2 || n == 3 || n == 9126
}

/// A day of the archive: the number of days since 1995-06-16.
#[derive(Debug, Clone, Copy, PartialEq, Eq, Structural, Hash, PartialOrd, Ord)]
pub struct ApodDate(i32);

impl View for ApodDate {
    type V = i32;

    closed spec fn view(&self) -> i32 {
        self.0
    }
}

/// `ymd` is the calendar date of `d`.
pub open spec fn is_ymd_of(ymd: (int, int, int), d: ApodDate) -> bool {
    is_date_of(ymd, d@ + START_EPOCH_DAY)
}

/// The calendar date numbered `n` from 1970-01-01: the one date whose day number it is.
pub open spec fn day_ymd(n: int) -> (int, int, int) {
    choose|ymd: (int, int, int)| is_date_of(ymd, n)
}

/// The calendar date of `d`.
pub open spec fn ymd_of(d: ApodDate) -> (int, int, int) {
    day_ymd(d@ + START_EPOCH_DAY)
}

/// `YYYY-MM-DD` of a date, how a date is written everywhere in the archive.
pub open spec fn iso_of(d: ApodDate) -> Seq<char> {
    iso_text(ymd_of(d))
}

/// Where the legacy site served a date's page.
pub open spec fn source_url_of(d: ApodDate) -> Seq<char> {
    "https://apod.nasa.gov/apod/ap"@ + short_text(ymd_of(d)) + ".html"@
}

/// Dates chrono can always hold.
pub open spec fn in_range(d: ApodDate) -> bool {
    in_calendar(d@ + START_EPOCH_DAY + CE_TO_UNIX)
}

/// The days of the archive from `from` up to (not including) `to`, skipping the days nothing
/// was published.
pub open spec fn present_between(from: int, to: int) -> Seq<int>
    decreases to - from,
{
    if to <= from {
        Seq::empty()
    } else if is_missing_day(to - 1) {
        present_between(from, to - 1)
    } else {
        present_between(from, to - 1).push(to - 1)
    }
}

pub open spec fn days_of(v: Seq<ApodDate>) -> Seq<int> {
    v.map_values(|d: ApodDate| d@ as int)
}

/// The error of a date that does not read as `YYYY-MM-DD`.
#[derive(Debug)]
pub struct DateParseError(pub String);

/// Days from 1970-01-01 to a date of the proleptic Gregorian calendar, counted era by era of
/// 400 years so that no step leaves 32 bits.
pub fn days_from_civil(y: i32, m: u32, d: u32) -> (n: i32)
    requires
        MIN_YEAR <= y <= MAX_YEAR,
        1 <= m <= 12,
        1 <= d <= 31,
    ensures
        n == civil_days(y as int, m as int, d as int),
        -100_000_000 < n < 100_000_000,
{
    let y: i32 = if m <= 2 {
        y - 1
    } else {
        y
    };
    let era: i32 = if y >= 0 {
        y / 400
    } else {
        -((399 - y) / 400)
    };
    proof {
        lemma_floor_div(y as int, era as int);
    }
    let yoe: u32 = (y - era * 400) as u32;
    let mp: u32 = if m > 2 {
        m - 3
    } else {
        m + 9
    };
    let doy: u32 = (153 * mp + 2) / 5 + d - 1;
    let doe: u32 = yoe * 365 + yoe / 4 - yoe / 100 + doy;
    era * 146097 + doe as i32 - 719468
}

/// The era computed by rounding toward zero on a shifted value is the floor of `y / 400`.
proof fn lemma_floor_div(y: int, era: int)
    requires
        y >= 0 ==> era == y / 400,
        y < 0 ==> era == -((399 - y) / 400),
    ensures
        era == y / 400,
        0 <= y - era * 400 < 400,
{
    if y < 0 {
        let q = (399 - y) / 400;
        let r = (399 - y) % 400;
        assert(399 - y == 400 * q + r && 0 <= r < 400) by (nonlinear_arith)
            requires
                q == (399 - y) / 400,
                r == (399 - y) % 400,
        ;
        assert(y == 400 * (-q) + (399 - r));
        assert(y / 400 == -q) by (nonlinear_arith)
            requires
                y == 400 * (-q) + (399 - r),
                0 <= 399 - r < 400,
        ;
    }
}

/// The date of a calendar day given by its parts, without asking chrono.
fn from_ymd_const(y: i32, m: u32, d: u32) -> (r: ApodDate)
    requires
        MIN_YEAR <= y <= MAX_YEAR,
        1 <= m <= 12,
        1 <= d <= 31,
    ensures
        r@ == civil_days(y as int, m as int, d as int) - START_EPOCH_DAY,
{
    let n = days_from_civil(y, m, d);
    ApodDate(n - START_EPOCH_DAY)
}

proof fn lemma_start()
    ensures
        civil_days(1995, 6, 16) == START_EPOCH_DAY,
        civil_days(1995, 6, 17) == START_EPOCH_DAY + 1,
        civil_days(1995, 6, 18) == START_EPOCH_DAY + 2,
        civil_days(1995, 6, 19) == START_EPOCH_DAY + 3,
        civil_days(2020, 6, 10) == START_EPOCH_DAY + 9126,
{
    assert(civil_days(1995, 6, 16) == 9297);
    assert(civil_days(1995, 6, 17) == 9298);
    assert(civil_days(1995, 6, 18) == 9299);
    assert(civil_days(1995, 6, 19) == 9300);
    assert(civil_days(2020, 6, 10) == 18423);
}

/// The last path segment of `s`: what follows its last `/` (`rsplit('/').next()`).
pub open spec fn last_segment(s: Seq<char>) -> Seq<char>
    decreases s.len(),
{
    if s.len() == 0 {
        s
    } else if s.last() == '/' {
        Seq::empty()
    } else {
        last_segment(s.drop_last()).push(s.last())
    }
}

/// The six digits of a legacy page name such as `ap950616.html`, if it is one.
pub open spec fn legacy_digits(name: Seq<char>) -> Option<Seq<char>> {
    segment_digits(last_segment(name))
}

/// The six digits of a path segment `apDDDDDD.html`, if it is one.
pub open spec fn segment_digits(seg: Seq<char>) -> Option<Seq<char>> {
    if seg.len() == 13 && seg.take(2) == seq!['a', 'p'] && seg.skip(8) == seq![
        '.',
        'h',
        't',
        'm',
        'l',
    ] && (forall|i: int| 2 <= i < 8 ==> crate::text::is_digit(#[trigger] seg[i])) {
        Some(seg.subrange(2, 8))
    } else {
        None
    }
}

impl ApodDate {
    /// 1995-06-16, the first entry.
    pub fn start() -> (d: ApodDate)
        ensures
            d@ == 0,
    {
        ApodDate(0)
    }

    pub fn from_days(days: i32) -> (d: ApodDate)
        ensures
            d@ == days,
    {
        ApodDate(days)
    }

    pub fn days(self) -> (n: i32)
        ensures
            n == self@,
    {
        self.0
    }

    pub fn next(self) -> (d: ApodDate)
        requires
            self@ < i32::MAX,
        ensures
            d@ == self@ + 1,
    {
        ApodDate(self.0 + 1)
    }

    pub fn prev(self) -> (d: ApodDate)
        requires
            self@ > i32::MIN,
        ensures
            d@ == self@ - 1,
    {
        ApodDate(self.0 - 1)
    }

    /// The days APOD published nothing: 1995-06-17, 06-18, 06-19 and 2020-06-10.
    pub fn known_missing() -> (out: Vec<ApodDate>)
        ensures
            days_of(out@) == seq![1int, 2, 3, 9126],
            out@.len() == 4,
            is_ymd_of((1995, 6, 17), out@[0]),
            is_ymd_of((1995, 6, 18), out@[1]),
            is_ymd_of((1995, 6, 19), out@[2]),
            is_ymd_of((2020, 6, 10), out@[3]),
    {
        proof {
            lemma_start();
            assert(is_ymd_of((1995, 6, 17), ApodDate(1)));
            assert(is_ymd_of((1995, 6, 18), ApodDate(2)));
            assert(is_ymd_of((1995, 6, 19), ApodDate(3)));
            assert(is_ymd_of((2020, 6, 10), ApodDate(9126)));
        }
        let out = vec![
            from_ymd_const(1995, 6, 17),
            from_ymd_const(1995, 6, 18),
            from_ymd_const(1995, 6, 19),
            from_ymd_const(2020, 6, 10),
        ];
        assert(days_of(out@) =~= seq![1int, 2, 3, 9126]);
        out
    }

    pub fn is_known_missing(self) -> (b: bool)
        ensures
            b == is_missing_day(self@ as int),
    {
        self.0 == 1 || self.0 == 2 || self.0 == 3 || self.0 == 9126
    }

    /// Whether a page can exist for this date by `today`.
    pub fn is_in_range(self, today: ApodDate) -> (b: bool)
        ensures
            b == (self@ >= 0 && self@ <= today@ && !is_missing_day(self@ as int)),
    {
        self.0 >= 0 && self.0 <= today.0 && !self.is_known_missing()
    }

    /// The date of a calendar day, when that day exists.
    pub fn from_ymd(year: i32, month: u32, day: u32) -> (d: Option<ApodDate>)
        ensures
            d is Some <==> valid_ymd(year as int, month as int, day as int),
            d matches Some(d) ==> civil_days(year as int, month as int, day as int) == d@
                + START_EPOCH_DAY,
    {
        match chrono_from_ymd(year, month, day) {
            Some(n) => Some(ApodDate(n - CE_TO_UNIX - START_EPOCH_DAY)),
            None => None,
        }
    }

    /// The calendar date, as a year, a month and a day.
    pub fn ymd(self) -> (r: (i32, u32, u32))
        requires
            in_range(self),
        ensures
            is_ymd_of((r.0 as int, r.1 as int, r.2 as int), self),
            (r.0 as int, r.1 as int, r.2 as int) == ymd_of(self),
    {
        let r = match chrono_from_ce(self.0 + START_EPOCH_DAY + CE_TO_UNIX) {
            Some(ymd) => ymd,
            None => (0, 0, 0),
        };
        proof {
            let ymd = (r.0 as int, r.1 as int, r.2 as int);
            assert(is_date_of(ymd, self@ + START_EPOCH_DAY));
            assert(is_date_of(day_ymd(self@ + START_EPOCH_DAY), self@ + START_EPOCH_DAY));
            lemma_ymd_unique(ymd, ymd_of(self), self@ + START_EPOCH_DAY);
        }
        r
    }

    /// The date written by chrono with a `strftime`-style format of date specifiers.
    pub fn format(self, fmt: &str) -> (out: String)
        requires
            in_range(self),
            date_format(fmt@),
        ensures
            chrono_formatted(self@ + START_EPOCH_DAY + CE_TO_UNIX, fmt@) == Some(out@),
    {
        match chrono_format(self.0 + START_EPOCH_DAY + CE_TO_UNIX, fmt) {
            Some(s) => s,
            None => String::new(),
        }
    }

    /// `YYYY-MM-DD`, how a date is written everywhere in the archive.
    pub fn to_iso(self) -> (out: String)
        requires
            in_range(self),
        ensures
            out@ == iso_of(self),
    {
        let (y, m, d) = self.ymd();
        let mut out = String::new();
        push_year(&mut out, y);
        push_char(&mut out, '-');
        push_two(&mut out, m as u64);
        push_char(&mut out, '-');
        push_two(&mut out, d as u64);
        assert(out@ =~= iso_text((y as int, m as int, d as int)));
        out
    }

    /// Where the legacy site served this date's page.
    pub fn source_url(self) -> (out: String)
        requires
            in_range(self),
        ensures
            out@ == source_url_of(self),
    {
        let (y, m, d) = self.ymd();
        let mut out = String::new();
        push_str(&mut out, "https://apod.nasa.gov/apod/ap");
        push_two(&mut out, year_mod_100(y) as u64);
        push_two(&mut out, m as u64);
        push_two(&mut out, d as u64);
        push_str(&mut out, ".html");
        assert(out@ =~= "https://apod.nasa.gov/apod/ap"@ + short_text((y as int, m as int, d as int))
            + ".html"@);
        out
    }

    /// `YYYY/MM/YYYY-MM-DD` followed by `ext`.
    fn stored_path(self, ext: &str) -> (out: String)
        requires
            in_range(self),
        ensures
            out@ == folder_text(ymd_of(self)) + seq!['/'] + iso_text(ymd_of(self)) + ext@,
    {
        let (y, m, d) = self.ymd();
        let mut out = String::new();
        push_year(&mut out, y);
        push_char(&mut out, '/');
        push_two(&mut out, m as u64);
        push_char(&mut out, '/');
        push_year(&mut out, y);
        push_char(&mut out, '-');
        push_two(&mut out, m as u64);
        push_char(&mut out, '-');
        push_two(&mut out, d as u64);
        push_str(&mut out, ext);
        let ghost ymd = (y as int, m as int, d as int);
        assert(out@ =~= folder_text(ymd) + seq!['/'] + iso_text(ymd) + ext@);
        out
    }

    /// Where the raw page is stored: `YYYY/MM/YYYY-MM-DD.html`.
    pub fn html_path(self) -> (out: String)
        requires
            in_range(self),
        ensures
            out@ == folder_text(ymd_of(self)) + seq!['/'] + iso_text(ymd_of(self))
                    + ".html"@,
    {
        self.stored_path(".html")
    }

    /// Where the thumbnail is stored: `YYYY/MM/YYYY-MM-DD.webp`.
    pub fn thumb_path(self) -> (out: String)
        requires
            in_range(self),
        ensures
            out@ == folder_text(ymd_of(self)) + seq!['/'] + iso_text(ymd_of(self))
                    + ".webp"@,
    {
        self.stored_path(".webp")
    }

    /// Where the modern record is stored: `YYYY/MM/YYYY-MM-DD.json`.
    pub fn json_path(self) -> (out: String)
        requires
            in_range(self),
        ensures
            out@ == folder_text(ymd_of(self)) + seq!['/'] + iso_text(ymd_of(self))
                    + ".json"@,
    {
        self.stored_path(".json")
    }

    /// Every published day from the start up to this one, oldest first.
    pub fn iter_asc(self) -> (out: Vec<ApodDate>)
        ensures
            days_of(out@) == present_between(0, if self@ < 0 { 1 } else { self@ + 1 }),
    {
        let last: i32 = if self.0 < 0 {
            0
        } else {
            self.0
        };
        let mut out: Vec<ApodDate> = Vec::new();
        let mut d: i64 = 0;
        while d <= last as i64
            invariant
                0 <= d <= last + 1,
                0 <= last,
                days_of(out@) == present_between(0, d as int),
            decreases last + 1 - d,
        {
            let ghost before = out@;
            let day = ApodDate(d as i32);
            assert(day@ == d);
            if !day.is_known_missing() {
                out.push(day);
                assert(days_of(out@) =~= days_of(before).push(d as int));
            }
            d = d + 1;
        }
        out
    }

    /// Every published day from this one back to the start, newest first.
    pub fn iter_desc(self) -> (out: Vec<ApodDate>)
        ensures
            days_of(out@) == present_between(0, if self@ < 0 { 1 } else { self@ + 1 }).reverse(),
    {
        let asc = self.iter_asc();
        let mut out: Vec<ApodDate> = Vec::new();
        let mut i = asc.len();
        let ghost all = days_of(asc@);
        while i > 0
            invariant
                i <= asc@.len(),
                all == days_of(asc@),
                days_of(out@).len() == all.len() - i,
                forall|j: int| 0 <= j < out@.len() ==> #[trigger] days_of(out@)[j] == all[all.len() - 1 - j],
            decreases i,
        {
            i = i - 1;
            let ghost before = out@;
            out.push(asc[i]);
            assert(days_of(out@) =~= days_of(before).push(all[i as int]));
        }
        assert(days_of(out@) =~= all.reverse());
        out
    }

    /// The date of a legacy page name such as `ap950616.html`, or of a URL ending in one.
    pub fn from_legacy_filename(name: &str) -> (d: Option<ApodDate>)
        ensures
            match legacy_digits(name@) {
                None => d is None,
                Some(ds) => match chrono_parsed(ds, "%y%m%d"@) {
                    None => d is None,
                    Some(n) => d matches Some(d) && d@ + START_EPOCH_DAY + CE_TO_UNIX == n,
                },
            },
            d matches Some(d) ==> in_range(d),
    {
        let seg = last_segment_of(&chars_of(name));
        match legacy_digits_of(&seg) {
            None => None,
            Some(ds) => {
                let digits = string_of(&ds);
                match chrono_parse(digits.as_str(), "%y%m%d") {
                    Some(n) => Some(ApodDate(n - CE_TO_UNIX - START_EPOCH_DAY)),
                    None => None,
                }
            },
        }
    }

    /// The date chrono reads out of `s` with a `strftime`-style format.
    pub fn parse_with(s: &str, fmt: &str) -> (d: Option<ApodDate>)
        ensures
            match chrono_parsed(s@, fmt@) {
                None => d is None,
                Some(n) => d matches Some(d) && d@ + START_EPOCH_DAY + CE_TO_UNIX == n,
            },
    {
        match chrono_parse(s, fmt) {
            Some(n) => Some(ApodDate(n - CE_TO_UNIX - START_EPOCH_DAY)),
            None => None,
        }
    }

    /// Reads `YYYY-MM-DD`, ignoring whitespace around it (what `str::parse` does).
    pub fn parse_iso(s: &str) -> (r: Result<ApodDate, DateParseError>)
        ensures
            match chrono_parsed(trim(s@), "%Y-%m-%d"@) {
                None => r is Err,
                Some(n) => r matches Ok(d) && d@ + START_EPOCH_DAY + CE_TO_UNIX == n,
            },
            r matches Err(e) ==> e.0@ == s@,
            forall|ymd: (int, int, int)|
                0 <= ymd.0 <= 9999 && valid_ymd(ymd.0, ymd.1, ymd.2) && trim(s@) == #[trigger] iso_text(ymd)
                    ==> (r matches Ok(d) && d@ == civil_days(ymd.0, ymd.1, ymd.2) - START_EPOCH_DAY),
    {
        let trimmed = string_of(&trim_chars(&chars_of(s)));
        match chrono_parse(trimmed.as_str(), "%Y-%m-%d") {
            Some(n) => Ok(ApodDate(n - CE_TO_UNIX - START_EPOCH_DAY)),
            None => Err(DateParseError(string_of(&chars_of(s)))),
        }
    }
}

/// What follows the last `/` of `v`.
fn last_segment_of(v: &Vec<char>) -> (seg: Vec<char>)
    ensures
        seg@ == last_segment(v@),
{
    let mut start = v.len();
    assert(v@.take(start as int) =~= v@);
    assert(v@.subrange(start as int, v@.len() as int) =~= Seq::<char>::empty());
    while start > 0 && v[start - 1] != '/'
        invariant
            start <= v@.len(),
            last_segment(v@) == last_segment(v@.take(start as int)) + v@.subrange(
                start as int,
                v@.len() as int,
            ),
        decreases start,
    {
        assert(v@.take(start as int).drop_last() =~= v@.take(start - 1));
        assert(v@.subrange(start - 1, v@.len() as int) =~= seq![v@[start - 1]] + v@.subrange(
            start as int,
            v@.len() as int,
        ));
        start = start - 1;
    }
    assert(last_segment(v@.take(start as int)) =~= Seq::<char>::empty());
    let seg = slice_chars(v, start, v.len());
    assert(seg@ =~= last_segment(v@));
    seg
}

/// `seg` reads `ap`, then six characters, then `.html`.
spec fn legacy_shape(seg: Seq<char>) -> bool {
    seg.len() == 13 && seg.take(2) == seq!['a', 'p'] && seg.skip(8) == seq![
        '.',
        'h',
        't',
        'm',
        'l',
    ]
}

fn has_legacy_shape(seg: &Vec<char>) -> (b: bool)
    ensures
        b == legacy_shape(seg@),
{
    if seg.len() != 13 {
        return false;
    }
    let ok = seg[0] == 'a' && seg[1] == 'p' && seg[8] == '.' && seg[9] == 'h' && seg[10] == 't'
        && seg[11] == 'm' && seg[12] == 'l';
    if ok {
        assert(seg@.take(2) =~= seq!['a', 'p']);
        assert(seg@.skip(8) =~= seq!['.', 'h', 't', 'm', 'l']);
    } else {
        proof {
            if legacy_shape(seg@) {
                assert(seg@.take(2)[0] == seg@[0]);
                assert(seg@.take(2)[1] == seg@[1]);
                assert(seg@.skip(8)[0] == seg@[8]);
                assert(seg@.skip(8)[1] == seg@[9]);
                assert(seg@.skip(8)[2] == seg@[10]);
                assert(seg@.skip(8)[3] == seg@[11]);
                assert(seg@.skip(8)[4] == seg@[12]);
            }
        }
    }
    ok
}

/// The six digits of a legacy page name, given its last path segment.
fn legacy_digits_of(seg: &Vec<char>) -> (r: Option<Vec<char>>)
    ensures
        match r {
            Some(ds) => segment_digits(seg@) == Some(ds@),
            None => segment_digits(seg@) is None,
        },
{
    if !has_legacy_shape(seg) {
        return None;
    }
    let mut i: usize = 2;
    while i < 8
        invariant
            seg@.len() == 13,
            2 <= i <= 8,
            forall|j: int| 2 <= j < i ==> crate::text::is_digit(#[trigger] seg@[j]),
        decreases 8 - i,
    {
        if !(seg[i] >= '0' && seg[i] <= '9') {
            return None;
        }
        i = i + 1;
    }
    Some(slice_chars(seg, 2, 8))
}

/// The last two digits of a year, counted the way chrono's `%y` counts them.
fn year_mod_100(y: i32) -> (r: u32)
    ensures
        r == (y as int) % 100,
{
    if y >= 0 {
        (y % 100) as u32
    } else {
        let a: i64 = (-(y as i64)) % 100;
        if a == 0 {
            0
        } else {
            (100 - a) as u32
        }
    }
}

/// Appends a year the way chrono's `%Y` writes it.
fn push_year(out: &mut String, y: i32)
    ensures
        final(out)@ == old(out)@ + year_text(y as int),
{
    if y >= 0 && y <= 9999 {
        push_four(out, y as u64);
    } else if y > 9999 {
        push_char(out, '+');
        push_decimal(out, y as u64);
    } else {
        push_char(out, '-');
        let a: i64 = -(y as i64);
        push_four(out, a as u64);
    }
    assert(out@ =~= old(out)@ + year_text(y as int));
}

impl std::str::FromStr for ApodDate {
    type Err = DateParseError;

    fn from_str(s: &str) -> (r: Result<ApodDate, DateParseError>)
        ensures
            match chrono_parsed(trim(s@), "%Y-%m-%d"@) {
                None => r is Err,
                Some(n) => r matches Ok(d) && d@ + START_EPOCH_DAY + CE_TO_UNIX == n,
            },
            r matches Err(e) ==> e.0@ == s@,
            forall|ymd: (int, int, int)|
                0 <= ymd.0 <= 9999 && valid_ymd(ymd.0, ymd.1, ymd.2) && trim(s@) == #[trigger] iso_text(ymd)
                    ==> (r matches Ok(d) && d@ == civil_days(ymd.0, ymd.1, ymd.2) - START_EPOCH_DAY),
    {
        ApodDate::parse_iso(s)
    }
}

/// Two year-of-era offsets with their day-of-year offsets that make the same day-of-era are
/// the same year.
proof fn lemma_doe_parts(yoe1: int, doy1: int, yoe2: int, doy2: int)
    requires
        0 <= yoe1 < 400,
        0 <= yoe2 < 400,
        0 <= doy1 <= 365,
        0 <= doy2 <= 365,
        doy1 == 365 ==> (yoe1 + 1) % 4 == 0 && ((yoe1 + 1) % 100 != 0 || yoe1 == 399),
        doy2 == 365 ==> (yoe2 + 1) % 4 == 0 && ((yoe2 + 1) % 100 != 0 || yoe2 == 399),
        365 * yoe1 + yoe1 / 4 - yoe1 / 100 + doy1 == 365 * yoe2 + yoe2 / 4 - yoe2 / 100 + doy2,
    ensures
        yoe1 == yoe2,
{
}

/// The parts `civil_days` is built from, and their ranges.
proof fn lemma_civil_parts(y: int, m: int, d: int)
    requires
        valid_ymd(y, m, d),
    ensures
        ({
            let yy = if m <= 2 { y - 1 } else { y };
            let era = yy / 400;
            let yoe = yy - era * 400;
            let mp = if m > 2 { m - 3 } else { m + 9 };
            let doy = (153 * mp + 2) / 5 + d - 1;
            &&& 0 <= yoe < 400
            &&& 0 <= doy <= 365
            &&& doy == 365 ==> (yoe + 1) % 4 == 0 && ((yoe + 1) % 100 != 0 || yoe == 399)
        }),
{
    let yy = if m <= 2 { y - 1 } else { y };
    let era = yy / 400;
    let yoe = yy - era * 400;
    assert(y % 4 == (yoe + 1) % 4 || m > 2);
}

/// No two calendar dates share a day number.
pub proof fn lemma_ymd_unique(a: (int, int, int), b: (int, int, int), n: int)
    requires
        is_date_of(a, n),
        is_date_of(b, n),
    ensures
        a == b,
{
    lemma_civil_parts(a.0, a.1, a.2);
    lemma_civil_parts(b.0, b.1, b.2);
    let yya = if a.1 <= 2 { a.0 - 1 } else { a.0 };
    let yyb = if b.1 <= 2 { b.0 - 1 } else { b.0 };
    let era_a = yya / 400;
    let era_b = yyb / 400;
    let yoe_a = yya - era_a * 400;
    let yoe_b = yyb - era_b * 400;
    let mpa = if a.1 > 2 { a.1 - 3 } else { a.1 + 9 };
    let mpb = if b.1 > 2 { b.1 - 3 } else { b.1 + 9 };
    let doy_a = (153 * mpa + 2) / 5 + a.2 - 1;
    let doy_b = (153 * mpb + 2) / 5 + b.2 - 1;
    let doe_a = yoe_a * 365 + yoe_a / 4 - yoe_a / 100 + doy_a;
    let doe_b = yoe_b * 365 + yoe_b / 4 - yoe_b / 100 + doy_b;
    assert(0 <= doe_a <= 146096);
    assert(0 <= doe_b <= 146096);
    assert(era_a * 146097 + doe_a == era_b * 146097 + doe_b);
    assert(era_a == era_b);
    lemma_doe_parts(yoe_a, doy_a, yoe_b, doy_b);
    assert(doy_a == doy_b);
    assert(mpa == mpb && a.2 == b.2);
}

} // verus!
