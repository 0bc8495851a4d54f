//! The rating game's plain parts: categories, stages and progress, pairing, outcomes, voters.
use vstd::prelude::*;
use vstd::wrapping::u64_specs::wrapping_add;
use crate::date::ApodDate;
use crate::games::{GOLDEN, mixed};
use crate::text::{chars_of, is_text, push_char, string_of};

verus! {

/// What voters are asked to judge.
#[derive(Debug, Clone, Copy, PartialEq, Eq, Structural, Hash)]
pub enum Category {
    Beautiful,
    Fascinating,
}

pub open spec fn category_name(c: Category) -> Seq<char> {
    match c {
        Category::Beautiful => "beautiful"@,
        Category::Fascinating => "fascinating"@,
    }
}

/// A category name nobody is voting on.
#[derive(Debug)]
pub struct CategoryParseError(pub String);

impl Category {
    /// Every category, in the order they are shown.
    pub const ALL: [Category; 2] = [Category::Beautiful, Category::Fascinating];

    pub fn all() -> (cs: Vec<Category>)
        ensures
            cs@ == seq![Category::Beautiful, Category::Fascinating],
    {
        let cs = vec![Category::Beautiful, Category::Fascinating];
        assert(cs@ =~= seq![Category::Beautiful, Category::Fascinating]);
        cs
    }

    pub fn as_str(self) -> (s: &'static str)
        ensures
            s@ == category_name(self),
    {
        match self {
            Category::Beautiful => "beautiful",
            Category::Fascinating => "fascinating",
        }
    }

    /// Reads a category by its name; the error keeps what was read.
    pub fn parse(raw: &str) -> (r: Result<Category, CategoryParseError>)
        ensures
            match r {
                Ok(c) => category_name(c) == raw@,
                Err(e) => e.0@ == raw@ && raw@ != "beautiful"@ && raw@ != "fascinating"@,
            },
    {
        let v = chars_of(raw);
        if is_text(&v, "beautiful") {
            Ok(Category::Beautiful)
        } else if is_text(&v, "fascinating") {
            Ok(Category::Fascinating)
        } else {
            Err(CategoryParseError(string_of(&v)))
        }
    }
}

impl std::str::FromStr for Category {
    type Err = CategoryParseError;

    fn from_str(raw: &str) -> (r: Result<Category, CategoryParseError>)
        ensures
            match r {
                Ok(c) => category_name(c) == raw@,
                Err(e) => e.0@ == raw@ && raw@ != "beautiful"@ && raw@ != "fascinating"@,
            },
    {
        Category::parse(raw)
    }
}

/// A category's name reads back as the category.
pub proof fn law_category_round_trip(c: Category)
    ensures
        category_name(c) == "beautiful"@ ==> c == Category::Beautiful,
        category_name(c) == "fascinating"@ ==> c == Category::Fascinating,
{
    reveal_strlit("beautiful");
    reveal_strlit("fascinating");
    assert("beautiful"@.len() != "fascinating"@.len());
}

/// How many comparisons each picture of the archive takes while screening.
pub const SCREEN_DEPTH: u64 = 10;

/// How many pictures are still contending for the best hundred.
pub const CONTEND_POOL: u64 = 500;

pub const CONTEND_DEPTH: u64 = 100;

/// How many pictures the last stage tries to separate.
pub const SETTLE_POOL: u64 = 50;

pub const SETTLE_DEPTH: u64 = 600;

/// The stages of the funnel.
#[derive(Debug, Clone, Copy, PartialEq, Eq, Structural)]
pub enum Stage {
    /// Sorting the whole archive into rough bands.
    Screen,
    /// Separating the few hundred that could belong in the best hundred.
    Contend,
    /// Trying to separate the top few.
    Settle,
    /// Every stage target met.
    Settled,
}

pub open spec fn stage_name(s: Stage) -> Seq<char> {
    match s {
        Stage::Screen => "screen"@,
        Stage::Contend => "contend"@,
        Stage::Settle => "settle"@,
        Stage::Settled => "settled"@,
    }
}

impl Stage {
    pub fn as_str(self) -> (s: &'static str)
        ensures
            s@ == stage_name(self),
    {
        match self {
            Stage::Screen => "screen",
            Stage::Contend => "contend",
            Stage::Settle => "settle",
            Stage::Settled => "settled",
        }
    }
}

/// How far the votes are through the funnel, and through the current stage.
#[derive(Debug, Clone, Copy, PartialEq, Eq, Structural)]
pub struct Progress {
    pub stage: Stage,
    pub votes: u64,
    pub done: u64,
    pub target: u64,
    pub total: u64,
}

pub open spec fn min_u64(a: u64, b: u64) -> u64 {
    if a <= b {
        a
    } else {
        b
    }
}

/// The votes each stage takes for a pool of `pool` pictures.
pub open spec fn screen_votes(pool: u64) -> int {
    pool * SCREEN_DEPTH / 2
}

pub open spec fn contend_votes(pool: u64) -> int {
    min_u64(pool, CONTEND_POOL) * CONTEND_DEPTH / 2
}

pub open spec fn settle_votes(pool: u64) -> int {
    min_u64(pool, SETTLE_POOL) * SETTLE_DEPTH / 2
}

/// The funnel fits in the counters.
pub open spec fn countable_pool(pool: u64) -> bool {
    pool * SCREEN_DEPTH <= u64::MAX && pool * SCREEN_DEPTH / 2 + 40_000 <= u64::MAX
}

impl Progress {
    /// Where `votes` votes stand in the funnel for a pool of `pool` pictures: the stage they
    /// have reached, and how many of that stage's own votes are in.
    pub fn of(pool: u64, votes: u64) -> (p: Progress)
        requires
            countable_pool(pool),
        ensures
            p.votes == votes,
            p.total == screen_votes(pool) + contend_votes(pool) + settle_votes(pool),
            votes < screen_votes(pool) ==> p.stage == Stage::Screen && p.done == votes
                && p.target == screen_votes(pool),
            screen_votes(pool) <= votes < screen_votes(pool) + contend_votes(pool) ==> p.stage
                == Stage::Contend && p.done == votes - screen_votes(pool) && p.target
                == contend_votes(pool),
            screen_votes(pool) + contend_votes(pool) <= votes < p.total ==> p.stage
                == Stage::Settle && p.done == votes - screen_votes(pool) - contend_votes(pool)
                && p.target == settle_votes(pool),
            p.total <= votes ==> p.stage == Stage::Settled && p.done == settle_votes(pool)
                && p.target == settle_votes(pool),
    {
        let screen = pool * SCREEN_DEPTH / 2;
        let contend = (if pool < CONTEND_POOL {
            pool
        } else {
            CONTEND_POOL
        }) * CONTEND_DEPTH / 2;
        let settle = (if pool < SETTLE_POOL {
            pool
        } else {
            SETTLE_POOL
        }) * SETTLE_DEPTH / 2;
        let total = screen + contend + settle;
        let (stage, done, target) = if votes < screen {
            (Stage::Screen, votes, screen)
        } else if votes < screen + contend {
            (Stage::Contend, votes - screen, contend)
        } else if votes < total {
            (Stage::Settle, votes - screen - contend, settle)
        } else {
            (Stage::Settled, settle, settle)
        };
        Progress { stage, votes, done, target, total }
    }
}

/// Within the stage reached, no more is done than the stage asks for.
pub proof fn law_progress_within_stage(pool: u64, votes: u64, p: Progress)
    requires
        countable_pool(pool),
        p.votes == votes,
        p.total == screen_votes(pool) + contend_votes(pool) + settle_votes(pool),
        votes < screen_votes(pool) ==> p.stage == Stage::Screen && p.done == votes && p.target
            == screen_votes(pool),
        screen_votes(pool) <= votes < screen_votes(pool) + contend_votes(pool) ==> p.stage
            == Stage::Contend && p.done == votes - screen_votes(pool) && p.target == contend_votes(
            pool,
        ),
        screen_votes(pool) + contend_votes(pool) <= votes < p.total ==> p.stage == Stage::Settle
            && p.done == votes - screen_votes(pool) - contend_votes(pool) && p.target
            == settle_votes(pool),
        p.total <= votes ==> p.stage == Stage::Settled && p.done == settle_votes(pool) && p.target
            == settle_votes(pool),
    ensures
        p.done <= p.target,
        p.stage == Stage::Settled ==> p.done == p.target,
        p.stage != Stage::Settled ==> p.done < p.target,
{
}

/// How a pair for a voter is chosen.
#[derive(Debug, Clone, Copy, PartialEq, Eq, Structural)]
pub enum Pairing {
    /// Two pictures whose order is most in doubt.
    Informative,
    /// Two pictures from anywhere in the archive.
    Uniform,
    /// A pair the voter already answered, asked again.
    Probe,
}

/// Out of every hundred pairs, how many are informative, uniform and probes.
pub const INFORMATIVE_SHARE: u32 = 70;

pub const UNIFORM_SHARE: u32 = 25;

pub const PROBE_SHARE: u32 = 5;

pub open spec fn pairing_name(p: Pairing) -> Seq<char> {
    match p {
        Pairing::Informative => "informative"@,
        Pairing::Uniform => "uniform"@,
        Pairing::Probe => "probe"@,
    }
}

/// The pairing a roll picks: the first five of every hundred are probes when there is
/// something to repeat, the next twenty-five uniform, the rest informative.
pub open spec fn picked(roll: u64, probe_available: bool) -> Pairing {
    let share = roll % 100;
    if share < PROBE_SHARE {
        if probe_available {
            Pairing::Probe
        } else {
            Pairing::Informative
        }
    } else if share < PROBE_SHARE + UNIFORM_SHARE {
        Pairing::Uniform
    } else {
        Pairing::Informative
    }
}

impl Pairing {
    pub fn as_str(self) -> (s: &'static str)
        ensures
            s@ == pairing_name(self),
    {
        match self {
            Pairing::Informative => "informative",
            Pairing::Uniform => "uniform",
            Pairing::Probe => "probe",
        }
    }

    pub fn pick(roll: u64, probe_available: bool) -> (p: Pairing)
        ensures
            p == picked(roll, probe_available),
    {
        let share = (roll % 100) as u32;
        if share < PROBE_SHARE {
            return if probe_available {
                Pairing::Probe
            } else {
                Pairing::Informative
            };
        }
        if share < PROBE_SHARE + UNIFORM_SHARE {
            return Pairing::Uniform;
        }
        Pairing::Informative
    }
}

/// A voter with nothing to repeat is never given a probe.
pub proof fn law_no_probe_without_history(roll: u64)
    ensures
        picked(roll, false) != Pairing::Probe,
{
}

/// Two pictures put to a voter, and how they were chosen.
#[derive(Debug, Clone, Copy, PartialEq, Eq, Structural)]
pub struct Draw {
    pub left: ApodDate,
    pub right: ApodDate,
    pub pairing: Pairing,
}

impl Draw {
    /// Whether the picture is one of the two.
    pub fn holds(&self, picture: ApodDate) -> (b: bool)
        ensures
            b == (self.left == picture || self.right == picture),
    {
        self.left == picture || self.right == picture
    }
}

/// The pool's source of randomness: SplitMix64.
#[derive(Debug, Clone)]
pub struct Rng(u64);

impl View for Rng {
    type V = u64;

    closed spec fn view(&self) -> u64 {
        self.0
    }
}

impl Rng {
    pub fn new(seed: u64) -> (r: Rng)
        ensures
            r@ == seed,
    {
        Rng(seed)
    }

    pub fn next(&mut self) -> (r: u64)
        ensures
            final(self)@ == wrapping_add(old(self)@, GOLDEN),
            r == mixed(final(self)@),
    {
        self.0 = self.0.wrapping_add(GOLDEN);
        let mut z = self.0;
        z = (z ^ (z >> 30)).wrapping_mul(0xbf58_476d_1ce4_e5b9);
        z = (z ^ (z >> 27)).wrapping_mul(0x94d0_49bb_1331_11eb);
        z ^ (z >> 31)
    }

    /// A position below `limit`; 0 when there is none.
    pub fn below(&mut self, limit: usize) -> (r: usize)
        ensures
            limit == 0 ==> r == 0 && final(self)@ == old(self)@,
            limit > 0 ==> final(self)@ == wrapping_add(old(self)@, GOLDEN) && r == (mixed(
                final(self)@,
            ) as nat) % (limit as nat),
    {
        if limit == 0 {
            0
        } else {
            (self.next() % (limit as u64)) as usize
        }
    }
}

/// Who won a comparison.
#[derive(Debug, Clone, Copy, PartialEq, Eq, Structural)]
pub enum Outcome {
    Left,
    Right,
    Tie,
}

pub open spec fn outcome_name(o: Outcome) -> Seq<char> {
    match o {
        Outcome::Left => "left"@,
        Outcome::Right => "right"@,
        Outcome::Tie => "tie"@,
    }
}

/// A word that is not one of left, right or tie.
#[derive(Debug)]
pub struct OutcomeParseError(pub String);

impl Outcome {
    pub fn as_str(self) -> (s: &'static str)
        ensures
            s@ == outcome_name(self),
    {
        match self {
            Outcome::Left => "left",
            Outcome::Right => "right",
            Outcome::Tie => "tie",
        }
    }

    pub fn parse(raw: &str) -> (r: Result<Outcome, OutcomeParseError>)
        ensures
            match r {
                Ok(o) => outcome_name(o) == raw@,
                Err(e) => e.0@ == raw@ && raw@ != "left"@ && raw@ != "right"@ && raw@ != "tie"@,
            },
    {
        let v = chars_of(raw);
        if is_text(&v, "left") {
            Ok(Outcome::Left)
        } else if is_text(&v, "right") {
            Ok(Outcome::Right)
        } else if is_text(&v, "tie") {
            Ok(Outcome::Tie)
        } else {
            Err(OutcomeParseError(string_of(&v)))
        }
    }
}

impl std::str::FromStr for Outcome {
    type Err = OutcomeParseError;

    fn from_str(raw: &str) -> (r: Result<Outcome, OutcomeParseError>)
        ensures
            match r {
                Ok(o) => outcome_name(o) == raw@,
                Err(e) => e.0@ == raw@ && raw@ != "left"@ && raw@ != "right"@ && raw@ != "tie"@,
            },
    {
        Outcome::parse(raw)
    }
}

pub open spec fn mirrored(o: Outcome) -> Outcome {
    match o {
        Outcome::Left => Outcome::Right,
        Outcome::Right => Outcome::Left,
        Outcome::Tie => Outcome::Tie,
    }
}

/// The outcome of the same comparison with the sides swapped.
pub fn mirror(outcome: Outcome) -> (o: Outcome)
    ensures
        o == mirrored(outcome),
{
    match outcome {
        Outcome::Left => Outcome::Right,
        Outcome::Right => Outcome::Left,
        Outcome::Tie => Outcome::Tie,
    }
}

/// Swapping sides twice gives the outcome back.
pub proof fn law_mirror_twice(o: Outcome)
    ensures
        mirrored(mirrored(o)) == o,
{
}

/// Which entries show the same picture: `(entry, picture)` pairs, a later pair for an entry
/// overriding an earlier one. An entry nobody grouped is its own picture.
#[derive(Debug, Clone)]
pub struct Grouping {
    of: Vec<(ApodDate, ApodDate)>,
}

/// The picture each listed entry belongs to, later pairs winning.
pub open spec fn pairs_map(pairs: Seq<(ApodDate, ApodDate)>) -> Map<i32, i32>
    decreases pairs.len(),
{
    if pairs.len() == 0 {
        Map::empty()
    } else {
        pairs_map(pairs.drop_last()).insert(pairs.last().0@, pairs.last().1@)
    }
}

impl View for Grouping {
    type V = Map<i32, i32>;

    closed spec fn view(&self) -> Map<i32, i32> {
        pairs_map(self.of@)
    }
}

impl Grouping {
    pub fn new(pairs: Vec<(ApodDate, ApodDate)>) -> (g: Grouping)
        ensures
            g@ == pairs_map(pairs@),
    {
        Grouping { of: pairs }
    }

    /// The picture an entry shows.
    pub fn group(&self, entry: ApodDate) -> (p: ApodDate)
        ensures
            p@ == (if self@.contains_key(entry@) {
                self@[entry@]
            } else {
                entry@
            }),
    {
        let mut i = self.of.len();
        assert(self.of@.take(i as int) =~= self.of@);
        while i > 0
            invariant
                i <= self.of@.len(),
                self@ == pairs_map(self.of@),
                forall|k: int| i <= k < self.of@.len() ==> (#[trigger] self.of@[k]).0@ != entry@,
                pairs_map(self.of@).contains_key(entry@) == pairs_map(self.of@.take(i as int)).contains_key(entry@),
                pairs_map(self.of@).contains_key(entry@) ==> pairs_map(self.of@)[entry@] == pairs_map(
                    self.of@.take(i as int),
                )[entry@],
            decreases i,
        {
            let (e, p) = self.of[i - 1];
            assert(self.of@.take(i as int).drop_last() =~= self.of@.take(i - 1));
            if e.days() == entry.days() {
                return p;
            }
            i = i - 1;
        }
        entry
    }

    pub fn is_empty(&self) -> (b: bool)
        ensures
            b == (self@.dom().len() == 0),
    {
        proof {
            lemma_pairs_map_empty(self.of@);
        }
        self.of.len() == 0
    }
}

proof fn lemma_pairs_map_empty(pairs: Seq<(ApodDate, ApodDate)>)
    ensures
        pairs_map(pairs).dom().finite(),
        (pairs_map(pairs).dom().len() == 0) == (pairs.len() == 0),
    decreases pairs.len(),
{
    if pairs.len() > 0 {
        lemma_pairs_map_empty(pairs.drop_last());
        assert(pairs_map(pairs).dom().contains(pairs.last().0@));
    }
}

/// Where `picture` stands in `pictures`, added at the end when it is not there yet.
pub fn slot(pictures: &mut Vec<ApodDate>, picture: ApodDate) -> (at: usize)
    ensures
        old(pictures)@.contains(picture) ==> final(pictures)@ == old(pictures)@ && at
            < old(pictures)@.len() && old(pictures)@[at as int] == picture && forall|k: int|
            0 <= k < at ==> old(pictures)@[k] != picture,
        !old(pictures)@.contains(picture) ==> final(pictures)@ == old(pictures)@.push(picture)
            && at == old(pictures)@.len(),
{
    let mut i: usize = 0;
    while i < pictures.len()
        invariant
            i <= pictures@.len(),
            pictures@ == old(pictures)@,
            forall|k: int| 0 <= k < i ==> pictures@[k] != picture,
        decreases pictures.len() - i,
    {
        if pictures[i] == picture {
            return i;
        }
        i = i + 1;
    }
    pictures.push(picture);
    i
}

/// How many bytes a voter's id has.
pub const VOTER_ID_BYTES: usize = 16;

/// A voter, known only by sixteen random bytes.
#[derive(Clone, Copy, PartialEq, Eq, Hash)]
pub struct VoterId([u8; VOTER_ID_BYTES]);

impl View for VoterId {
    type V = Seq<u8>;

    closed spec fn view(&self) -> Seq<u8> {
        self.0@
    }
}

/// The value of a hexadecimal digit, either case.
pub open spec fn hex_value(c: char) -> Option<nat> {
    if '0' <= c && c <= '9' {
        Some((c as nat - '0' as nat) as nat)
    } else if 'a' <= c && c <= 'f' {
        Some((c as nat - 'a' as nat + 10) as nat)
    } else if 'A' <= c && c <= 'F' {
        Some((c as nat - 'A' as nat + 10) as nat)
    } else {
        None
    }
}

/// What `u8::from_str_radix(pair, 16)` reads from two characters: two hexadecimal digits, or a
/// plus sign and one.
pub open spec fn hex_pair(a: char, b: char) -> Option<u8> {
    match (hex_value(a), hex_value(b)) {
        (Some(x), Some(y)) => Some((16 * x + y) as u8),
        (None, Some(y)) => if a == '+' {
            Some(y as u8)
        } else {
            None
        },
        _ => None,
    }
}

/// The lowercase hexadecimal digit of `n < 16`.
pub open spec fn low_hex(n: nat) -> char {
    if n < 10 {
        (('0' as int) + n) as char
    } else {
        (('a' as int) + n - 10) as char
    }
}

/// The bytes written as two lowercase hexadecimal digits each.
pub open spec fn hex_of_bytes(bytes: Seq<u8>) -> Seq<char>
    decreases bytes.len(),
{
    if bytes.len() == 0 {
        Seq::empty()
    } else {
        hex_of_bytes(bytes.drop_last()) + seq![
            low_hex((bytes.last() / 16) as nat),
            low_hex((bytes.last() % 16) as nat),
        ]
    }
}

/// The bytes a voter id's text stands for, when it stands for any.
pub open spec fn bytes_of_hex(text: Seq<char>) -> Option<Seq<u8>> {
    if text.len() == 2 * VOTER_ID_BYTES && forall|k: int|
        0 <= k < VOTER_ID_BYTES ==> #[trigger] hex_pair(text[2 * k], text[2 * k + 1]) is Some {
        Some(
            Seq::new(
                VOTER_ID_BYTES as nat,
                |k: int| hex_pair(text[2 * k], text[2 * k + 1]).unwrap(),
            ),
        )
    } else {
        None
    }
}

fn hex_digit_value(c: char) -> (r: Option<u8>)
    ensures
        match hex_value(c) {
            Some(v) => r == Some(v as u8),
            None => r is None,
        },
{
    if c >= '0' && c <= '9' {
        Some((c as u32 - '0' as u32) as u8)
    } else if c >= 'a' && c <= 'f' {
        Some((c as u32 - 'a' as u32 + 10) as u8)
    } else if c >= 'A' && c <= 'F' {
        Some((c as u32 - 'A' as u32 + 10) as u8)
    } else {
        None
    }
}

fn read_hex_pair(a: char, b: char) -> (r: Option<u8>)
    ensures
        r == hex_pair(a, b),
{
    match (hex_digit_value(a), hex_digit_value(b)) {
        (Some(x), Some(y)) => Some(16 * x + y),
        (None, Some(y)) => if a == '+' {
            Some(y)
        } else {
            None
        },
        _ => None,
    }
}

fn low_hex_digit(n: u8) -> (c: char)
    requires
        n < 16,
    ensures
        c == low_hex(n as nat),
{
    if n < 10 {
        ((n + 48) as char)
    } else {
        ((n + 87) as char)
    }
}

impl VoterId {
    pub fn new(bytes: [u8; VOTER_ID_BYTES]) -> (id: VoterId)
        ensures
            id@ == bytes@,
    {
        VoterId(bytes)
    }

    pub fn bytes(&self) -> (b: &[u8])
        ensures
            b@ == self@,
    {
        self.0.as_slice()
    }

    /// The id as thirty-two lowercase hexadecimal digits.
    pub fn to_hex(self) -> (s: String)
        ensures
            s@ == hex_of_bytes(self@),
            s@.len() == 2 * VOTER_ID_BYTES,
    {
        let mut s = String::new();
        let mut i: usize = 0;
        while i < VOTER_ID_BYTES
            invariant
                i <= VOTER_ID_BYTES,
                self@.len() == VOTER_ID_BYTES,
                s@ == hex_of_bytes(self@.take(i as int)),
            decreases VOTER_ID_BYTES - i,
        {
            let b = self.0[i];
            push_char(&mut s, low_hex_digit(b / 16));
            push_char(&mut s, low_hex_digit(b % 16));
            assert(self@.take(i + 1).drop_last() =~= self@.take(i as int));
            i = i + 1;
            assert(s@ =~= hex_of_bytes(self@.take(i as int)));
        }
        assert(self@.take(i as int) =~= self@);
        proof {
            lemma_hex_of_bytes(self@);
        }
        s
    }

    /// Reads an id back from its thirty-two hexadecimal digits.
    pub fn from_hex(text: &str) -> (id: Option<VoterId>)
        ensures
            match bytes_of_hex(text@) {
                Some(b) => id matches Some(i) && i@ == b,
                None => id is None,
            },
    {
        let v = chars_of(text);
        if v.len() != 2 * VOTER_ID_BYTES {
            return None;
        }
        let mut bytes = [0u8; VOTER_ID_BYTES];
        let mut at: usize = 0;
        while at < VOTER_ID_BYTES
            invariant
                at <= VOTER_ID_BYTES,
                v@ == text@,
                v@.len() == 2 * VOTER_ID_BYTES,
                bytes@.len() == VOTER_ID_BYTES,
                forall|k: int| 0 <= k < at ==> hex_pair(v@[2 * k], v@[2 * k + 1]) == Some(
                    #[trigger] bytes@[k],
                ),
            decreases VOTER_ID_BYTES - at,
        {
            match read_hex_pair(v[2 * at], v[2 * at + 1]) {
                Some(b) => {
                    bytes[at] = b;
                },
                None => {
                    assert(!(hex_pair(text@[2 * at as int], text@[2 * at as int + 1]) is Some));
                    return None;
                },
            }
            at = at + 1;
        }
        assert forall|k: int| 0 <= k < VOTER_ID_BYTES implies #[trigger] hex_pair(
            text@[2 * k],
            text@[2 * k + 1],
        ) is Some by {
            assert(hex_pair(v@[2 * k], v@[2 * k + 1]) == Some(bytes@[k]));
        }
        assert(bytes@ =~= Seq::new(
            VOTER_ID_BYTES as nat,
            |k: int| hex_pair(text@[2 * k], text@[2 * k + 1]).unwrap(),
        ));
        Some(VoterId(bytes))
    }

    /// An id read from a stored blob of exactly sixteen bytes.
    pub fn from_blob(blob: &[u8]) -> (id: Option<VoterId>)
        ensures
            blob@.len() == VOTER_ID_BYTES ==> (id matches Some(i) && i@ == blob@),
            blob@.len() != VOTER_ID_BYTES ==> id is None,
    {
        if blob.len() != VOTER_ID_BYTES {
            return None;
        }
        let mut bytes = [0u8; VOTER_ID_BYTES];
        let mut i: usize = 0;
        while i < VOTER_ID_BYTES
            invariant
                i <= VOTER_ID_BYTES,
                blob@.len() == VOTER_ID_BYTES,
                bytes@.len() == VOTER_ID_BYTES,
                forall|k: int| 0 <= k < i ==> #[trigger] bytes@[k] == blob@[k],
            decreases VOTER_ID_BYTES - i,
        {
            bytes[i] = blob[i];
            i = i + 1;
        }
        assert(bytes@ =~= blob@);
        Some(VoterId(bytes))
    }

    /// What a log line shows of the id: its first two bytes and an ellipsis, never all of it.
    pub fn debug_label(&self) -> (s: String)
        ensures
            s@ == "voter:"@ + hex_of_bytes(self@.take(2)) + seq!['\u{2026}'],
    {
        let mut s = String::new();
        crate::text::push_str(&mut s, "voter:");
        let ghost start = s@;
        let a = self.0[0];
        let b = self.0[1];
        push_char(&mut s, low_hex_digit(a / 16));
        push_char(&mut s, low_hex_digit(a % 16));
        push_char(&mut s, low_hex_digit(b / 16));
        push_char(&mut s, low_hex_digit(b % 16));
        proof {
            let t2 = self@.take(2);
            let t1 = self@.take(1);
            assert(t2.drop_last() =~= t1);
            assert(t1.drop_last() =~= Seq::<u8>::empty());
            assert(t1.last() == a && t2.last() == b);
            assert(hex_of_bytes(t1.drop_last()) =~= Seq::<char>::empty());
            assert(hex_of_bytes(t1) =~= seq![low_hex((a / 16) as nat), low_hex((a % 16) as nat)]);
            assert(hex_of_bytes(t2) == hex_of_bytes(t1) + seq![
                low_hex((b / 16) as nat),
                low_hex((b % 16) as nat),
            ]);
        }
        push_char(&mut s, '\u{2026}');
        assert(s@ =~= "voter:"@ + hex_of_bytes(self@.take(2)) + seq!['\u{2026}']);
        s
    }
}

/// A voter id is always sixteen bytes.
pub proof fn law_voter_id_has_sixteen_bytes(id: VoterId)
    ensures
        id@.len() == VOTER_ID_BYTES,
{
}

/// What `to_hex` writes of an id, `from_hex` reads back as the same id.
pub proof fn law_voter_id_reads_back(id: VoterId)
    ensures
        bytes_of_hex(hex_of_bytes(id@)) == Some(id@),
{
    law_voter_id_hex_round_trip(id@);
}

/// Reading an id's hexadecimal text gives the id back.
pub proof fn law_voter_id_hex_round_trip(bytes: Seq<u8>)
    requires
        bytes.len() == VOTER_ID_BYTES,
    ensures
        bytes_of_hex(hex_of_bytes(bytes)) == Some(bytes),
{
    lemma_hex_of_bytes(bytes);
    let text = hex_of_bytes(bytes);
    assert forall|k: int| 0 <= k < VOTER_ID_BYTES implies #[trigger] hex_pair(
        text[2 * k],
        text[2 * k + 1],
    ) == Some(bytes[k]) by {
        let b = bytes[k];
        assert(text[2 * k] == low_hex((b / 16) as nat));
        assert(text[2 * k + 1] == low_hex((b % 16) as nat));
    }
    assert(Seq::new(VOTER_ID_BYTES as nat, |k: int| hex_pair(text[2 * k], text[2 * k + 1]).unwrap())
        =~= bytes);
}

proof fn lemma_hex_of_bytes(bytes: Seq<u8>)
    ensures
        hex_of_bytes(bytes).len() == 2 * bytes.len(),
        forall|k: int|
            0 <= k < bytes.len() ==> hex_of_bytes(bytes)[2 * k] == low_hex((#[trigger] bytes[k] / 16) as nat)
                && hex_of_bytes(bytes)[2 * k + 1] == low_hex((bytes[k] % 16) as nat),
    decreases bytes.len(),
{
    if bytes.len() > 0 {
        lemma_hex_of_bytes(bytes.drop_last());
        assert forall|k: int| 0 <= k < bytes.len() implies hex_of_bytes(bytes)[2 * k] == low_hex(
            (#[trigger] bytes[k] / 16) as nat,
        ) && hex_of_bytes(bytes)[2 * k + 1] == low_hex((bytes[k] % 16) as nat) by {
            if k < bytes.len() - 1 {
                assert(bytes.drop_last()[k] == bytes[k]);
            }
        }
    }
}

/// Whose votes a question is about: one voter's, or those of every voter behind a cohort token.
#[derive(Clone, Copy)]
pub enum Whose<'a> {
    Voter(VoterId),
    Cohort(&'a [u8]),
}

/// Where a voter stands in the game: how many votes they have cast, the pictures not to show
/// them again yet, and a pair waiting to be asked again.
#[derive(Debug, Clone)]
pub struct Standing {
    pub votes: u64,
    pub avoid: Vec<ApodDate>,
    pub probe: Option<(ApodDate, ApodDate)>,
}

impl Default for Standing {
    fn default() -> (s: Standing)
        ensures
            s.votes == 0,
            s.avoid@.len() == 0,
            s.probe is None,
    {
        Standing { votes: 0, avoid: Vec::new(), probe: None }
    }
}

/// Every character is a lowercase hexadecimal digit.
pub open spec fn lower_hex_text(s: Seq<char>) -> bool {
    forall|i: int| 0 <= i < s.len() ==> ('0' <= #[trigger] s[i] && s[i] <= '9') || ('a' <= s[i] && s[i] <= 'f')
}

proof fn lemma_low_hex_back(c: char)
    requires
        ('0' <= c && c <= '9') || ('a' <= c && c <= 'f'),
    ensures
        (hex_value(c) matches Some(v) && v < 16 && low_hex(v) == c),
{
    let v = hex_value(c).unwrap();
    if '0' <= c && c <= '9' {
        assert((('0' as int) + v) == c as int);
    } else {
        assert((('a' as int) + v - 10) == c as int);
    }
}

proof fn lemma_hex_prefix(s: Seq<char>, b: Seq<u8>, n: int)
    requires
        s.len() == 2 * VOTER_ID_BYTES,
        lower_hex_text(s),
        b.len() == VOTER_ID_BYTES,
        forall|k: int| 0 <= k < VOTER_ID_BYTES ==> #[trigger] b[k] == hex_pair(s[2 * k], s[2 * k + 1]).unwrap(),
        0 <= n <= VOTER_ID_BYTES,
    ensures
        hex_of_bytes(b.take(n)) == s.take(2 * n),
    decreases n,
{
    if n == 0 {
        assert(b.take(0) =~= Seq::<u8>::empty());
        assert(s.take(0) =~= Seq::<char>::empty());
    } else {
        lemma_hex_prefix(s, b, n - 1);
        let k = n - 1;
        let hi = s[2 * k];
        let lo = s[2 * k + 1];
        lemma_low_hex_back(hi);
        lemma_low_hex_back(lo);
        let x = hex_value(hi).unwrap();
        let y = hex_value(lo).unwrap();
        assert(b[k] == (16 * x + y) as u8);
        assert(b[k] / 16 == x);
        assert(b[k] % 16 == y);
        assert(b.take(n).drop_last() =~= b.take(n - 1));
        assert(b.take(n).last() == b[k]);
        assert(s.take(2 * n) =~= s.take(2 * k) + seq![hi, lo]);
    }
}

/// A voter id's text reads only as what it says: text of any length but thirty-two characters
/// reads as no id, and thirty-two lowercase hexadecimal digits read as the id whose text they
/// are.
pub proof fn law_voter_id_text_reads_back(s: Seq<char>)
    ensures
        s.len() != 2 * VOTER_ID_BYTES ==> bytes_of_hex(s) is None,
        s.len() == 2 * VOTER_ID_BYTES && lower_hex_text(s) ==> (bytes_of_hex(s) matches Some(b)
            && hex_of_bytes(b) == s),
{
    if s.len() == 2 * VOTER_ID_BYTES && lower_hex_text(s) {
        assert forall|k: int| 0 <= k < VOTER_ID_BYTES implies #[trigger] hex_pair(s[2 * k], s[2 * k + 1]) is Some by {
            lemma_low_hex_back(s[2 * k]);
            lemma_low_hex_back(s[2 * k + 1]);
        }
        let b = bytes_of_hex(s).unwrap();
        lemma_hex_prefix(s, b, VOTER_ID_BYTES as int);
        assert(b.take(VOTER_ID_BYTES as int) =~= b);
        assert(s.take(2 * VOTER_ID_BYTES) =~= s);
    }
}

} // verus!
