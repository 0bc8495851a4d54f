//! Reproducible dealing for the games: a day deals the same rounds every time.
use vstd::prelude::*;
use vstd::wrapping::u64_specs::{wrapping_add, wrapping_mul};
use crate::date::ApodDate;
use vstd::string::StringSliceAdditionalSpecFns;
use vstd::string::StrSliceExecFns;
use crate::text::push_char;
use crate::apod::model::{Cloze, ClozePiece};

verus! {

/// Added to a deal's state before every draw.
pub const GOLDEN: u64 = 0x9e37_79b9_7f4a_7c15;

/// What `daily` mixes into every daily seed.
pub const DAILY_SALT: u64 = 0x5eed_a90d_1995_0616;

/// The FNV-1a offset basis.
pub const FNV_OFFSET: u64 = 0xcbf2_9ce4_8422_2325;

/// The FNV-1a prime.
pub const FNV_PRIME: u64 = 0x0000_0100_0000_01b3;

/// The SplitMix64 finaliser.
pub open spec fn mixed(value: u64) -> u64 {
    let z1 = wrapping_mul(value ^ (value >> 30u64), 0xbf58_476d_1ce4_e5b9);
    let z2 = wrapping_mul(z1 ^ (z1 >> 27u64), 0x94d0_49bb_1331_11eb);
    z2 ^ (z2 >> 31u64)
}

/// The 64-bit FNV-1a hash of `bytes`.
pub open spec fn fnv(bytes: Seq<u8>) -> u64
    decreases bytes.len(),
{
    if bytes.len() == 0 {
        FNV_OFFSET
    } else {
        wrapping_mul(fnv(bytes.drop_last()) ^ (bytes.last() as u64), FNV_PRIME)
    }
}

/// The eight bytes of `x`, most significant first (`u64::to_be_bytes`).
pub open spec fn be_bytes_u64(x: u64) -> Seq<u8> {
    seq![
        ((x >> 56u64) & 0xff) as u8,
        ((x >> 48u64) & 0xff) as u8,
        ((x >> 40u64) & 0xff) as u8,
        ((x >> 32u64) & 0xff) as u8,
        ((x >> 24u64) & 0xff) as u8,
        ((x >> 16u64) & 0xff) as u8,
        ((x >> 8u64) & 0xff) as u8,
        (x & 0xff) as u8,
    ]
}

/// The four bytes of `x` in two's complement, most significant first (`i32::to_be_bytes`).
pub open spec fn be_bytes_i32(x: i32) -> Seq<u8> {
    let u = x as u32;
    seq![
        ((u >> 24u32) & 0xff) as u8,
        ((u >> 16u32) & 0xff) as u8,
        ((u >> 8u32) & 0xff) as u8,
        (u & 0xff) as u8,
    ]
}

/// The lowercase hexadecimal digit of `n < 16`.
pub open spec fn hex_char(n: nat) -> char {
    if n < 10 {
        (('0' as int) + n) as char
    } else {
        (('a' as int) + n - 10) as char
    }
}

/// `n` in lowercase hexadecimal without leading zeros (`format!("{:x}")`).
pub open spec fn hex_text(n: nat) -> Seq<char>
    decreases n,
{
    if n < 16 {
        seq![hex_char(n)]
    } else {
        hex_text(n / 16).push(hex_char(n % 16))
    }
}

/// The state of a deal after `r` draws from state `s`.
pub open spec fn state_after(s: u64, r: nat) -> u64
    decreases r,
{
    if r == 0 {
        s
    } else {
        wrapping_add(state_after(s, (r - 1) as nat), GOLDEN)
    }
}

/// The `r`-th draw (counting from 1) of a deal that started in state `s`.
pub open spec fn draw(s: u64, r: nat) -> u64 {
    mixed(state_after(s, r))
}

/// The pool positions a deal from state `s` has handed out after `r` draws when asked for
/// `want` distinct positions below `len`: each draw adds its position unless it was handed out
/// already, until there are `want`.
pub open spec fn dealt(s: u64, len: nat, want: nat, r: nat) -> Seq<nat>
    decreases r,
{
    if r == 0 {
        Seq::empty()
    } else {
        let prev = dealt(s, len, want, (r - 1) as nat);
        if prev.len() >= want {
            prev
        } else {
            let i = (draw(s, r) as nat) % len;
            if prev.contains(i) {
                prev
            } else {
                prev.push(i)
            }
        }
    }
}

/// Over the first `r` draws, no draw takes back a position already handed out.
pub open spec fn dealt_grows(s: u64, len: nat, want: nat, r: nat) -> bool {
    forall|a: nat, b: nat|
        a <= b <= r ==> #[trigger] dealt(s, len, want, a).len() <= #[trigger] dealt(s, len, want, b).len()
}

/// What `take` did, had it made `r` draws: from state `s0` to `s1`, handing out `out` of
/// `pool` when asked for `count` items.
pub open spec fn deal_outcome<T>(
    s0: u64,
    s1: u64,
    pool: Seq<T>,
    count: nat,
    out: Seq<T>,
    r: nat,
) -> bool {
    let want = if count <= pool.len() {
        count
    } else {
        pool.len()
    };
    let picked = dealt(s0, pool.len(), want, r);
    &&& r <= 0x1_0000_0000_0000_0000
    &&& (picked.len() == want || r == 0x1_0000_0000_0000_0000)
    &&& (r == 0 || dealt(s0, pool.len(), want, (r - 1) as nat).len() < want)
    &&& dealt_grows(s0, pool.len(), want, r)
    &&& s1 == state_after(s0, r)
    &&& out.len() == picked.len()
    &&& forall|k: int| 0 <= k < picked.len() ==> #[trigger] out[k] == pool[picked[k] as int]
    &&& picked.no_duplicates()
}

/// The Fisher-Yates shuffle of `items` from position `index` down to 1, by a deal in state
/// `s`: the items, and the deal's state after.
pub open spec fn shuffled<T>(items: Seq<T>, s: u64, index: int) -> (Seq<T>, u64)
    decreases index,
{
    if index < 1 {
        (items, s)
    } else {
        let next = wrapping_add(s, GOLDEN);
        let other = ((mixed(next) as nat) % ((index + 1) as nat)) as int;
        let swapped = items.update(index, items[other]).update(other, items[index]);
        shuffled(swapped, next, index - 1)
    }
}

/// The SplitMix64 finaliser.
fn mix(value: u64) -> (r: u64)
    ensures
        r == mixed(value),
{
    let mut z = value;
    z = (z ^ (z >> 30)).wrapping_mul(0xbf58_476d_1ce4_e5b9);
    z = (z ^ (z >> 27)).wrapping_mul(0x94d0_49bb_1331_11eb);
    z ^ (z >> 31)
}

/// The 64-bit FNV-1a hash of `bytes`.
pub fn hash64(bytes: &[u8]) -> (h: u64)
    ensures
        h == fnv(bytes@),
{
    let mut hash: u64 = FNV_OFFSET;
    let mut i: usize = 0;
    while i < bytes.len()
        invariant
            i <= bytes@.len(),
            hash == fnv(bytes@.take(i as int)),
        decreases bytes.len() - i,
    {
        assert(bytes@.take(i + 1).drop_last() =~= bytes@.take(i as int));
        hash = hash ^ (bytes[i] as u64);
        hash = hash.wrapping_mul(FNV_PRIME);
        i = i + 1;
    }
    assert(bytes@.take(i as int) =~= bytes@);
    hash
}

/// The eight bytes of `x`, most significant first.
fn u64_bytes(x: u64) -> (b: Vec<u8>)
    ensures
        b@ == be_bytes_u64(x),
{
    let b = vec![
        ((x >> 56) & 0xff) as u8,
        ((x >> 48) & 0xff) as u8,
        ((x >> 40) & 0xff) as u8,
        ((x >> 32) & 0xff) as u8,
        ((x >> 24) & 0xff) as u8,
        ((x >> 16) & 0xff) as u8,
        ((x >> 8) & 0xff) as u8,
        (x & 0xff) as u8,
    ];
    assert(b@ =~= be_bytes_u64(x));
    b
}

/// The four bytes of `x`, most significant first.
fn i32_bytes(x: i32) -> (b: Vec<u8>)
    ensures
        b@ == be_bytes_i32(x),
{
    let u = x as u32;
    let b = vec![
        ((u >> 24) & 0xff) as u8,
        ((u >> 16) & 0xff) as u8,
        ((u >> 8) & 0xff) as u8,
        (u & 0xff) as u8,
    ];
    assert(b@ =~= be_bytes_i32(x));
    b
}

/// The character of a hexadecimal digit.
fn hex_digit(n: u64) -> (c: char)
    requires
        n < 16,
    ensures
        c == hex_char(n as nat),
{
    match n {
        0 => '0',
        1 => '1',
        2 => '2',
        3 => '3',
        4 => '4',
        5 => '5',
        6 => '6',
        7 => '7',
        8 => '8',
        9 => '9',
        10 => 'a',
        11 => 'b',
        12 => 'c',
        13 => 'd',
        14 => 'e',
        _ => 'f',
    }
}

/// Appends `n` in lowercase hexadecimal.
fn push_hex(out: &mut String, n: u64)
    ensures
        final(out)@ == old(out)@ + hex_text(n as nat),
    decreases n,
{
    if n < 16 {
        push_char(out, hex_digit(n));
    } else {
        push_hex(out, n / 16);
        push_char(out, hex_digit(n % 16));
    }
    assert(out@ =~= old(out)@ + hex_text(n as nat));
}

/// The hash of a word the way the frontend computes it to check a guess: FNV-1a over the
/// salt's bytes and then the word's, in lowercase hexadecimal.
pub fn word_hash(salt: u64, word: &str) -> (h: String)
    ensures
        h@ == hex_text(fnv(be_bytes_u64(salt) + word.spec_bytes()) as nat),
{
    let mut bytes = u64_bytes(salt);
    let w = word.as_bytes();
    let mut i: usize = 0;
    while i < w.len()
        invariant
            i <= w@.len(),
            w@ == word.spec_bytes(),
            bytes@ == be_bytes_u64(salt) + w@.take(i as int),
        decreases w.len() - i,
    {
        bytes.push(w[i]);
        i = i + 1;
        assert(bytes@ =~= be_bytes_u64(salt) + w@.take(i as int));
    }
    assert(w@.take(i as int) =~= w@);
    let mut out = String::new();
    push_hex(&mut out, hash64(bytes.as_slice()));
    assert(out@ =~= hex_text(fnv(be_bytes_u64(salt) + word.spec_bytes()) as nat));
    out
}

/// `[T]::swap`: exchanges two items of a slice.
#[verifier::external_body]
fn swap_items<T>(items: &mut [T], i: usize, j: usize)
    requires
        i < old(items)@.len(),
        j < old(items)@.len(),
    ensures
        final(items)@ == old(items)@.update(i as int, old(items)@[j as int]).update(
            j as int,
            old(items)@[i as int],
        ),
{
    items.swap(i, j);
}

/// `SystemTime::now`, as nanoseconds since the Unix epoch, truncated to 64 bits; 0 where the
/// clock reads earlier than the epoch. Nothing is promised of the reading.
#[verifier::external_body]
fn clock_nanos() -> (n: u64) {
    std::time::SystemTime::now()
        .duration_since(std::time::UNIX_EPOCH)
        .map_or(0, |since| since.as_nanos() as u64)
}

/// A reproducible stream of draws: the same seed deals the same rounds.
#[derive(Debug, Clone)]
pub struct Deal(u64);

impl View for Deal {
    type V = u64;

    closed spec fn view(&self) -> u64 {
        self.0
    }
}

impl Deal {
    /// The deal of one game on one day, the same on every run.
    pub fn daily(game: &str, day: ApodDate) -> (d: Deal)
        ensures
            d@ == mixed(
                mixed(fnv(game.spec_bytes()) ^ fnv(be_bytes_i32(day@))) ^ DAILY_SALT,
            ),
    {
        let mut seed = hash64(game.as_bytes());
        seed = mix(seed ^ hash64(i32_bytes(day.days()).as_slice()));
        Deal(mix(seed ^ DAILY_SALT))
    }

    pub fn from_seed(seed: u64) -> (d: Deal)
        ensures
            d@ == mixed(seed),
    {
        Deal(mix(seed))
    }

    /// A deal nobody can predict: seeded from the clock, mixed with the round it is, so that
    /// two deals in one clock tick still differ.
    pub fn loose(round: u64) -> (d: Deal)
        ensures
            exists|now: u64| d@ == mixed(now ^ mixed(round)),
    {
        let now = clock_nanos();
        Deal::from_seed(now ^ mix(round))
    }

    pub fn seed(&self) -> (s: u64)
        ensures
            s == self@,
    {
        self.0
    }

    /// The next draw.
    fn next(&mut self) -> (r: u64)
        ensures
            final(self)@ == wrapping_add(old(self)@, GOLDEN),
            r == mixed(final(self)@),
    {
        self.0 = self.0.wrapping_add(GOLDEN);
        mix(self.0)
    }

    /// A position below `limit`, or `None` when there is none.
    pub fn below(&mut self, limit: usize) -> (r: Option<usize>)
        ensures
            limit == 0 ==> r is None && final(self)@ == old(self)@,
            limit > 0 ==> final(self)@ == wrapping_add(old(self)@, GOLDEN) && r == Some(
                ((mixed(final(self)@) as nat) % (limit as nat)) as usize,
            ),
    {
        if limit > 0 {
            let n = self.next();
            Some((n % (limit as u64)) as usize)
        } else {
            None
        }
    }

    /// Up to `count` items of `pool`, each drawn at a position not drawn before. A deal that
    /// has not filled up after 2^64 draws never would, since its states then repeat; it stops
    /// there with what it has.
    pub fn take<T: Copy>(&mut self, pool: &[T], count: usize) -> (out: Vec<T>)
        ensures
            exists|r: nat| #[trigger] deal_outcome(old(self)@, final(self)@, pool@, count as nat, out@, r),
    {
        let len = pool.len();
        let want = if count <= len {
            count
        } else {
            len
        };
        let ghost s0 = self@;
        let mut marks: Vec<bool> = Vec::new();
        let mut m: usize = 0;
        while m < len
            invariant
                m <= len,
                marks@.len() == m,
                forall|k: int| 0 <= k < m ==> !#[trigger] marks@[k],
            decreases len - m,
        {
            marks.push(false);
            m = m + 1;
        }
        let mut out: Vec<T> = Vec::new();
        let mut rounds: u128 = 0;
        let ghost mut picked: Seq<nat> = Seq::empty();
        while out.len() < want && rounds < 0x1_0000_0000_0000_0000u128
            invariant
                len == pool@.len(),
                want <= len,
                marks@.len() == len,
                rounds <= 0x1_0000_0000_0000_0000u128,
                picked == dealt(s0, len as nat, want as nat, rounds as nat),
                rounds == 0 || dealt(s0, len as nat, want as nat, (rounds - 1) as nat).len() < want,
                dealt_grows(s0, len as nat, want as nat, rounds as nat),
                self@ == state_after(s0, rounds as nat),
                out@.len() == picked.len(),
                picked.len() <= want,
                picked.no_duplicates(),
                forall|k: int| 0 <= k < picked.len() ==> #[trigger] out@[k] == pool@[picked[k] as int],
                forall|k: int| 0 <= k < picked.len() ==> #[trigger] picked[k] < len,
                forall|i: int| 0 <= i < len ==> (#[trigger] marks@[i] <==> picked.contains(i as nat)),
            decreases 0x1_0000_0000_0000_0000u128 - rounds,
        {
            let index = match self.below(len) {
                Some(i) => i,
                None => {
                    proof {
                        assert(false);
                    }
                    return out;
                },
            };
            rounds = rounds + 1;
            proof {
                assert(state_after(s0, rounds as nat) == self@);
            }
            let ghost before = picked;
            if !marks[index] {
                marks.set(index, true);
                out.push(pool[index]);
                proof {
                    picked = before.push(index as nat);
                    assert forall|i: int| 0 <= i < len implies (#[trigger] marks@[i]
                        <==> picked.contains(i as nat)) by {
                        if before.contains(i as nat) {
                            let k = choose|k: int| 0 <= k < before.len() && before[k] == i as nat;
                            assert(picked[k] == i as nat);
                        }
                        if picked.contains(i as nat) && i != index {
                            let k = choose|k: int| 0 <= k < picked.len() && picked[k] == i as nat;
                            assert(before[k] == i as nat);
                        }
                        if i == index {
                            assert(picked[before.len() as int] == i as nat);
                        }
                    }
                }
            }
        }
        assert(deal_outcome(s0, self@, pool@, count as nat, out@, rounds as nat));
        out
    }

    /// Shuffles `items` in place, the same way for the same deal.
    pub fn shuffle<T>(&mut self, items: &mut [T])
        ensures
            (final(items)@, final(self)@) == shuffled(old(items)@, old(self)@, old(items)@.len() - 1),
    {
        let len = items.len();
        if len == 0 {
            return;
        }
        let mut index = len - 1;
        while index >= 1
            invariant
                index < len,
                items@.len() == len,
                shuffled(old(items)@, old(self)@, len - 1) == shuffled(items@, self@, index as int),
            decreases index,
        {
            let n = self.next();
            let other = (n % (index as u64 + 1)) as usize;
            swap_items(items, index, other);
            index = index - 1;
        }
    }
}

/// A deal never hands out the same position twice, and only positions in the pool.
pub proof fn law_dealt_distinct(s: u64, len: nat, want: nat, r: nat)
    requires
        len > 0,
    ensures
        dealt(s, len, want, r).no_duplicates(),
        forall|k: int| 0 <= k < dealt(s, len, want, r).len() ==> #[trigger] dealt(s, len, want, r)[k]
            < len,
        dealt(s, len, want, r).len() <= want,
    decreases r,
{
    if r > 0 {
        law_dealt_distinct(s, len, want, (r - 1) as nat);
    }
}

/// A shuffle keeps every item: it only reorders them.
pub proof fn law_shuffle_keeps_items<T>(items: Seq<T>, s: u64, index: int)
    requires
        index < items.len(),
    ensures
        shuffled(items, s, index).0.to_multiset() == items.to_multiset(),
        shuffled(items, s, index).0.len() == items.len(),
    decreases index,
{
    broadcast use vstd::seq_lib::group_to_multiset_ensures;

    if index >= 1 {
        let next = wrapping_add(s, GOLDEN);
        let other = ((mixed(next) as nat) % ((index + 1) as nat)) as int;
        let once = items.update(index, items[other]);
        let swapped = once.update(other, items[index]);
        vstd::seq_lib::to_multiset_update(items, index, items[other]);
        vstd::seq_lib::to_multiset_update(once, other, items[index]);
        broadcast use vstd::multiset::group_multiset_axioms;

        if other == index {
            assert(swapped =~= items);
        } else {
            assert(once[other] == items[other]);
            assert(swapped.to_multiset() =~= items.to_multiset());
        }
        law_shuffle_keeps_items(swapped, next, index - 1);
    }
}

/// The FNV-1a hash the games use: the offset basis for nothing, and each further byte mixed in
/// and multiplied by the prime.
pub proof fn law_fnv_step(bytes: Seq<u8>, x: u8)
    ensures
        fnv(Seq::empty()) == FNV_OFFSET,
        fnv(bytes.push(x)) == wrapping_mul(fnv(bytes) ^ (x as u64), FNV_PRIME),
{
    assert(bytes.push(x).drop_last() =~= bytes);
}

/// A piece of an entry's title or text as the redaction game reads it: what stands between
/// two words, or a word together with the form a player guesses it in (`None` where it is not
/// a word anyone could guess, such as a bare number).
#[derive(Debug, Clone)]
pub enum ClozeToken {
    Gap(String),
    Word(String, Option<String>),
}

/// The hash a hidden word is shown as: `word_hash` of its guessed form.
pub open spec fn hashed_word(salt: u64, word: Seq<char>) -> Seq<char> {
    hex_text(fnv(be_bytes_u64(salt) + vstd::utf8::encode_utf8(word)) as nat)
}

/// A piece as text and, for a hidden word, its length in characters.
pub open spec fn piece_view(p: ClozePiece) -> (Seq<char>, Option<nat>) {
    match p {
        ClozePiece::Shown { s } => (s@, None),
        ClozePiece::Hidden { h, n } => (h@, Some(n as nat)),
    }
}

pub open spec fn piece_views(ps: Seq<ClozePiece>) -> Seq<(Seq<char>, Option<nat>)> {
    ps.map_values(|p: ClozePiece| piece_view(p))
}

/// Whether a token is a word that the game holds back.
pub open spec fn held_back(t: ClozeToken, given: Set<Seq<char>>) -> bool {
    match t {
        ClozeToken::Word(_, Some(g)) => !given.contains(g@),
        _ => false,
    }
}

/// The guessed form of a word token, empty for anything else.
pub open spec fn guessed_form(t: ClozeToken) -> Seq<char> {
    match t {
        ClozeToken::Word(_, Some(g)) => g@,
        _ => Seq::empty(),
    }
}

/// What a token becomes: a word held back is shown as its hash and length; every other
/// token, a word the player was given among them, is shown as it stands.
pub open spec fn redacted_piece(t: ClozeToken, given: Set<Seq<char>>, salt: u64) -> (Seq<char>, Option<nat>) {
    match t {
        ClozeToken::Gap(g) => (g@, None),
        ClozeToken::Word(w, form) => match form {
            Some(g) => if given.contains(g@) {
                (w@, None)
            } else {
                (hashed_word(salt, g@), Some(g@.len()))
            },
            None => (w@, None),
        },
    }
}

pub open spec fn redacted(ts: Seq<ClozeToken>, given: Set<Seq<char>>, salt: u64) -> Seq<(Seq<char>, Option<nat>)> {
    ts.map_values(|t: ClozeToken| redacted_piece(t, given, salt))
}

/// The guessed forms of the words held back, in order.
pub open spec fn held_words(ts: Seq<ClozeToken>, given: Set<Seq<char>>) -> Seq<Seq<char>>
    decreases ts.len(),
{
    if ts.len() == 0 {
        Seq::empty()
    } else {
        let rest = held_words(ts.drop_last(), given);
        if held_back(ts.last(), given) {
            rest.push(guessed_form(ts.last()))
        } else {
            rest
        }
    }
}

pub open spec fn given_set(given: Seq<String>) -> Set<Seq<char>> {
    Set::new(|w: Seq<char>| exists|i: int| 0 <= i < given.len() && given[i]@ == w)
}

fn is_given(given: &Vec<String>, word: &String) -> (r: bool)
    ensures
        r == given_set(given@).contains(word@),
{
    let mut i: usize = 0;
    while i < given.len()
        invariant
            i <= given@.len(),
            forall|j: int| 0 <= j < i ==> given@[j]@ != word@,
        decreases given.len() - i,
    {
        if given[i] == *word {
            return true;
        }
        i = i + 1;
    }
    false
}

fn contains_text(seen: &Vec<String>, word: &String) -> (r: bool)
    ensures
        r == seen@.map_values(|s: String| s@).contains(word@),
{
    let ghost views = seen@.map_values(|s: String| s@);
    let mut i: usize = 0;
    while i < seen.len()
        invariant
            i <= seen@.len(),
            views == seen@.map_values(|s: String| s@),
            forall|j: int| 0 <= j < i ==> views[j] != word@,
        decreases seen.len() - i,
    {
        if seen[i] == *word {
            assert(views[i as int] == word@);
            return true;
        }
        i = i + 1;
    }
    false
}

/// Redacts one run of tokens, counting what it holds back into `hidden` and the distinct
/// guessed forms into `seen`.
fn redact(
    tokens: &Vec<ClozeToken>,
    given: &Vec<String>,
    salt: u64,
    hidden: &mut usize,
    seen: &mut Vec<String>,
    Ghost(before): Ghost<Seq<Seq<char>>>,
) -> (pieces: Vec<ClozePiece>)
    requires
        *old(hidden) == before.len(),
        old(seen)@.map_values(|s: String| s@).to_set() == before.to_set(),
        old(seen)@.map_values(|s: String| s@).no_duplicates(),
        before.len() + tokens@.len() <= usize::MAX,
    ensures
        piece_views(pieces@) == redacted(tokens@, given_set(given@), salt),
        *final(hidden) == (before + held_words(tokens@, given_set(given@))).len(),
        final(seen)@.map_values(|s: String| s@).to_set()
            == (before + held_words(tokens@, given_set(given@))).to_set(),
        final(seen)@.map_values(|s: String| s@).no_duplicates(),
{
    let ghost gs = given_set(given@);
    let mut pieces: Vec<ClozePiece> = Vec::new();
    let mut i: usize = 0;
    while i < tokens.len()
        invariant
            i <= tokens@.len(),
            gs == given_set(given@),
            before.len() + tokens@.len() <= usize::MAX,
            held_words(tokens@.take(i as int), gs).len() <= i,
            piece_views(pieces@) == redacted(tokens@.take(i as int), gs, salt),
            *hidden == (before + held_words(tokens@.take(i as int), gs)).len(),
            seen@.map_values(|s: String| s@).to_set()
                == (before + held_words(tokens@.take(i as int), gs)).to_set(),
            seen@.map_values(|s: String| s@).no_duplicates(),
        decreases tokens.len() - i,
    {
        let ghost done = tokens@.take(i as int);
        let ghost next = tokens@.take(i + 1);
        assert(next.drop_last() =~= done);
        assert(next.last() == tokens@[i as int]);
        let ghost old_views = seen@.map_values(|s: String| s@);
        let piece = match &tokens[i] {
            ClozeToken::Gap(g) => ClozePiece::Shown { s: g.clone() },
            ClozeToken::Word(w, form) => match form {
                None => ClozePiece::Shown { s: w.clone() },
                Some(g) => {
                    if is_given(given, g) {
                        ClozePiece::Shown { s: w.clone() }
                    } else {
                        *hidden = *hidden + 1;
                        if !contains_text(seen, g) {
                            seen.push(g.clone());
                            assert(seen@.map_values(|s: String| s@) =~= old_views.push(g@));
                        }
                        ClozePiece::Hidden { h: word_hash(salt, g.as_str()), n: g.as_str().unicode_len() }
                    }
                },
            },
        };
        proof {
            let hw = before + held_words(done, gs);
            let t = tokens@[i as int];
            if held_back(t, gs) {
                let x = guessed_form(t);
                assert(before + held_words(next, gs) =~= hw.push(x));
                hw.lemma_push_to_set_commute(x);
                old_views.lemma_push_to_set_commute(x);
                if old_views.contains(x) {
                    assert(old_views.to_set().insert(x) =~= old_views.to_set());
                }
            } else {
                assert(held_words(next, gs) == held_words(done, gs));
            }
            assert(piece_view(piece) == redacted_piece(t, gs, salt));
        }
        let ghost old_pieces = pieces@;
        pieces.push(piece);
        proof {
            assert(piece_views(pieces@) =~= piece_views(old_pieces).push(piece_view(piece)));
            assert(redacted(next, gs, salt) =~= redacted(done, gs, salt).push(
                redacted_piece(tokens@[i as int], gs, salt),
            ));
        }
        i = i + 1;
    }
    assert(tokens@.take(i as int) =~= tokens@);
    pieces
}

/// The redaction game's puzzle for an entry: its title and text, each word held back unless
/// the player was given it, as its hash under `salt` and its length; with the number of words
/// held back and of distinct words among them.
pub fn cloze(title: &Vec<ClozeToken>, text: &Vec<ClozeToken>, given: &Vec<String>, salt: u64) -> (c: Cloze)
    requires
        title@.len() + text@.len() <= usize::MAX,
    ensures
        c.salt@ == hex_text(salt as nat),
        piece_views(c.title@) == redacted(title@, given_set(given@), salt),
        piece_views(c.text@) == redacted(text@, given_set(given@), salt),
        c.hidden == (held_words(title@, given_set(given@)) + held_words(text@, given_set(given@))).len(),
        c.distinct == (held_words(title@, given_set(given@)) + held_words(text@, given_set(given@))).to_set().len(),
        c.distinct <= c.hidden,
{
    let ghost gs = given_set(given@);
    let mut hidden: usize = 0;
    let mut seen: Vec<String> = Vec::new();
    proof {
        assert(seen@.map_values(|s: String| s@) =~= Seq::<Seq<char>>::empty());
        assert(Seq::<Seq<char>>::empty().to_set() =~= Set::empty());
        lemma_held_words_short(title@, gs);
    }
    let title_pieces = redact(title, given, salt, &mut hidden, &mut seen, Ghost(Seq::empty()));
    let ghost first = held_words(title@, gs);
    assert(Seq::<Seq<char>>::empty() + first =~= first);
    proof {
        lemma_held_words_short(text@, gs);
    }
    let text_pieces = redact(text, given, salt, &mut hidden, &mut seen, Ghost(first));
    proof {
        seen@.map_values(|s: String| s@).unique_seq_to_set();
        (first + held_words(text@, gs)).lemma_cardinality_of_set();
    }
    let mut salt_text = String::new();
    push_hex(&mut salt_text, salt);
    assert(salt_text@ =~= hex_text(salt as nat));
    Cloze { salt: salt_text, title: title_pieces, text: text_pieces, hidden, distinct: seen.len() }
}

proof fn lemma_held_words_short(ts: Seq<ClozeToken>, given: Set<Seq<char>>)
    ensures
        held_words(ts, given).len() <= ts.len(),
    decreases ts.len(),
{
    if ts.len() > 0 {
        lemma_held_words_short(ts.drop_last(), given);
    }
}

/// A deal is reproducible: two deals from the same state over the same pool, asked for the
/// same number of items, hand out the same items and end in the same state.
pub proof fn law_take_is_reproducible<T>(
    s0: u64,
    pool: Seq<T>,
    count: nat,
    s1: u64,
    out1: Seq<T>,
    r1: nat,
    s2: u64,
    out2: Seq<T>,
    r2: nat,
)
    requires
        deal_outcome(s0, s1, pool, count, out1, r1),
        deal_outcome(s0, s2, pool, count, out2, r2),
    ensures
        out1 == out2,
        s1 == s2,
{
    let len = pool.len();
    let want = if count <= len {
        count
    } else {
        len
    };
    if r1 < r2 {
        assert(dealt(s0, len, want, r1).len() <= dealt(s0, len, want, (r2 - 1) as nat).len());
    } else if r2 < r1 {
        assert(dealt(s0, len, want, r2).len() <= dealt(s0, len, want, (r1 - 1) as nat).len());
    }
    assert(r1 == r2);
    assert(out1 =~= out2);
}

/// How many of the pieces are words held back.
pub open spec fn hidden_pieces(ps: Seq<(Seq<char>, Option<nat>)>) -> nat
    decreases ps.len(),
{
    if ps.len() == 0 {
        0
    } else {
        hidden_pieces(ps.drop_last()) + if ps.last().1 is Some {
            1nat
        } else {
            0nat
        }
    }
}

/// The redaction game holds back one piece for each word it counts as hidden, and shows a word
/// held back as the hash of its guessed form and that form's length: two words with one guessed
/// form, however they were written, read the same.
pub proof fn law_cloze_hides_by_guessed_form(
    ts: Seq<ClozeToken>,
    given: Set<Seq<char>>,
    salt: u64,
    t1: ClozeToken,
    t2: ClozeToken,
)
    ensures
        hidden_pieces(redacted(ts, given, salt)) == held_words(ts, given).len(),
        held_back(t1, given) ==> redacted_piece(t1, given, salt) == (
            hashed_word(salt, guessed_form(t1)),
            Some(guessed_form(t1).len()),
        ),
        held_back(t1, given) && held_back(t2, given) && guessed_form(t1) == guessed_form(t2)
            ==> redacted_piece(t1, given, salt) == redacted_piece(t2, given, salt),
    decreases ts.len(),
{
    if ts.len() > 0 {
        law_cloze_hides_by_guessed_form(ts.drop_last(), given, salt, t1, t2);
        assert(redacted(ts, given, salt).drop_last() =~= redacted(ts.drop_last(), given, salt));
    }
}

} // verus!
