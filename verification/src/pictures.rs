//! Which entries show the same picture: by the media URL they point at, or by a perceptual hash
//! of their thumbnails.
use vstd::prelude::*;
use vstd::relations::{sorted_by, total_ordering};
use crate::date::ApodDate;
use crate::text::str_eq;

verus! {

/// A 256-bit difference hash takes this many bytes.
pub const PHASH_BYTES: usize = 32;

/// How many of the 256 bits may differ and still be the same picture.
pub const MAX_DISTANCE: u32 = 8;

/// How many bits have to fall on the less common side for a hash to mean anything.
pub const MIN_DETAIL: u32 = 4;

/// The set bits among the lowest `width` bits of `x`.
pub open spec fn ones(x: nat, width: nat) -> nat
    decreases width,
{
    if width == 0 {
        0
    } else {
        (x % 2) + ones(x / 2, (width - 1) as nat)
    }
}

/// The set bits of a byte (`u8::count_ones`).
pub open spec fn byte_ones(b: u8) -> nat {
    ones(b as nat, 8)
}

/// The set bits of all the bytes of `s`.
pub open spec fn total_ones(s: Seq<u8>) -> nat
    decreases s.len(),
{
    if s.len() == 0 {
        0
    } else {
        total_ones(s.drop_last()) + byte_ones(s.last())
    }
}

/// How many bits differ between two byte strings of one length.
pub open spec fn hamming(a: Seq<u8>, b: Seq<u8>) -> nat
    decreases a.len(),
{
    if a.len() == 0 || b.len() == 0 {
        0
    } else {
        hamming(a.drop_last(), b.drop_last()) + byte_ones(a.last() ^ b.last())
    }
}

/// Two hashes of one length whose whole eight-byte words differ in at most `max` bits.
pub open spec fn similar(a: Seq<u8>, b: Seq<u8>, max: nat) -> bool {
    let full = a.len() / 8 * 8;
    a.len() == b.len() && hamming(a.take(full as int), b.take(full as int)) <= max
}

/// Bits differing between two hashes, or `u32::MAX` for hashes of different lengths.
pub open spec fn hash_distance(a: Seq<u8>, b: Seq<u8>) -> nat {
    if a.len() != b.len() {
        u32::MAX as nat
    } else {
        hamming(a, b)
    }
}

/// The hash has enough bits on its less common side to describe a shape.
pub open spec fn detailed(h: Seq<u8>) -> bool {
    let bits = h.len() * 8;
    let top = if bits >= MIN_DETAIL {
        bits - MIN_DETAIL
    } else {
        0
    };
    total_ones(h) >= MIN_DETAIL && total_ones(h) <= top
}

proof fn lemma_ones_bound(x: nat, width: nat)
    ensures
        ones(x, width) <= width,
    decreases width,
{
    if width > 0 {
        lemma_ones_bound(x / 2, (width - 1) as nat);
    }
}

proof fn lemma_total_ones_bound(s: Seq<u8>)
    ensures
        total_ones(s) <= 8 * s.len(),
    decreases s.len(),
{
    if s.len() > 0 {
        lemma_total_ones_bound(s.drop_last());
        lemma_ones_bound(s.last() as nat, 8);
    }
}

proof fn lemma_hamming_bound(a: Seq<u8>, b: Seq<u8>)
    ensures
        hamming(a, b) <= 8 * a.len(),
    decreases a.len(),
{
    if a.len() > 0 && b.len() > 0 {
        lemma_hamming_bound(a.drop_last(), b.drop_last());
        lemma_ones_bound((a.last() ^ b.last()) as nat, 8);
    }
}

proof fn lemma_hamming_symmetric(a: Seq<u8>, b: Seq<u8>)
    ensures
        hamming(a, b) == hamming(b, a),
    decreases a.len(),
{
    if a.len() > 0 && b.len() > 0 {
        lemma_hamming_symmetric(a.drop_last(), b.drop_last());
        let x = a.last();
        let y = b.last();
        assert(x ^ y == y ^ x) by (bit_vector);
    }
}

proof fn lemma_hamming_grows(a: Seq<u8>, b: Seq<u8>, i: int, j: int)
    requires
        0 <= i <= j <= a.len(),
        a.len() == b.len(),
    ensures
        hamming(a.take(i), b.take(i)) <= hamming(a.take(j), b.take(j)),
    decreases j - i,
{
    if i < j {
        lemma_hamming_grows(a, b, i, j - 1);
        assert(a.take(j).drop_last() =~= a.take(j - 1));
        assert(b.take(j).drop_last() =~= b.take(j - 1));
    }
}

/// The set bits of a byte.
fn count_ones(b: u8) -> (n: u32)
    ensures
        n == byte_ones(b),
        n <= 8,
{
    let mut x: u8 = b;
    let mut n: u32 = 0;
    let mut k: u32 = 0;
    while k < 8
        invariant
            k <= 8,
            n + ones(x as nat, (8 - k) as nat) == byte_ones(b),
            n <= k,
        decreases 8 - k,
    {
        n = n + (x % 2) as u32;
        x = x / 2;
        k = k + 1;
    }
    n
}

/// Whether two hashes differ in at most `max` bits over their whole eight-byte words.
pub fn alike(a: &[u8], b: &[u8], max: u32) -> (r: bool)
    ensures
        r == similar(a@, b@, max as nat),
{
    if a.len() != b.len() {
        return false;
    }
    let full = a.len() / 8 * 8;
    let mut differing: u64 = 0;
    let mut i: usize = 0;
    while i < full
        invariant
            i <= full <= a@.len(),
            a@.len() == b@.len(),
            full == a@.len() / 8 * 8,
            differing == hamming(a@.take(i as int), b@.take(i as int)),
            differing <= max,
        decreases full - i,
    {
        assert(a@.take(i + 1).drop_last() =~= a@.take(i as int));
        assert(b@.take(i + 1).drop_last() =~= b@.take(i as int));
        differing = differing + count_ones(a[i] ^ b[i]) as u64;
        i = i + 1;
        if differing > max as u64 {
            proof {
                lemma_hamming_grows(a@, b@, i as int, full as int);
            }
            return false;
        }
    }
    true
}

/// Whether a hash is worth matching on: not almost all zeros, nor almost all ones.
pub fn has_detail(phash: &[u8]) -> (r: bool)
    requires
        phash@.len() * 8 <= u32::MAX,
    ensures
        r == detailed(phash@),
{
    let mut set: u32 = 0;
    let mut i: usize = 0;
    while i < phash.len()
        invariant
            i <= phash@.len(),
            phash@.len() * 8 <= u32::MAX,
            set == total_ones(phash@.take(i as int)),
        decreases phash.len() - i,
    {
        assert(phash@.take(i + 1).drop_last() =~= phash@.take(i as int));
        proof {
            lemma_total_ones_bound(phash@.take(i + 1));
        }
        set = set + count_ones(phash[i]);
        i = i + 1;
    }
    assert(phash@.take(i as int) =~= phash@);
    let bits: u32 = (phash.len() * 8) as u32;
    let top: u32 = if bits >= MIN_DETAIL {
        bits - MIN_DETAIL
    } else {
        0
    };
    set >= MIN_DETAIL && set <= top
}

/// How many bits differ between two hashes; `u32::MAX` when their lengths differ.
pub fn distance(a: &[u8], b: &[u8]) -> (d: u32)
    requires
        a@.len() == b@.len() ==> a@.len() * 8 <= u32::MAX,
    ensures
        d == hash_distance(a@, b@),
{
    if a.len() != b.len() {
        return u32::MAX;
    }
    let mut d: u32 = 0;
    let mut i: usize = 0;
    while i < a.len()
        invariant
            i <= a@.len(),
            a@.len() == b@.len(),
            a@.len() * 8 <= u32::MAX,
            d == hamming(a@.take(i as int), b@.take(i as int)),
        decreases a.len() - i,
    {
        assert(a@.take(i + 1).drop_last() =~= a@.take(i as int));
        assert(b@.take(i + 1).drop_last() =~= b@.take(i as int));
        proof {
            lemma_hamming_bound(a@.take(i + 1), b@.take(i + 1));
        }
        d = d + count_ones(a[i] ^ b[i]);
        i = i + 1;
    }
    assert(a@.take(i as int) =~= a@);
    assert(b@.take(i as int) =~= b@);
    d
}

/// What identifies one entry's picture: the media URL the page pointed at and the thumbnail's
/// hash. Either may be missing.
#[derive(Debug, Clone)]
pub struct Fingerprint {
    pub date: ApodDate,
    pub media_url: Option<String>,
    pub phash: Option<Vec<u8>>,
}

/// One picture and every date it ran on, earliest first.
#[derive(Debug, Clone, PartialEq, Eq)]
pub struct PictureGroup {
    pub dates: Vec<ApodDate>,
}

impl PictureGroup {
    /// The date the picture first ran, which is how it is addressed.
    pub fn id(&self) -> (d: ApodDate)
        requires
            self.dates@.len() > 0,
        ensures
            d == self.dates@[0],
    {
        self.dates[0]
    }
}

/// The media URL a print can be matched by: a non-empty one.
pub open spec fn url_key(p: Fingerprint) -> Option<Seq<char>> {
    match p.media_url {
        Some(u) => if u@.len() > 0 {
            Some(u@)
        } else {
            None
        },
        None => None,
    }
}

/// A print whose hash is full-length and detailed enough to match on.
pub open spec fn usable_hash(p: Fingerprint) -> bool {
    match p.phash {
        Some(h) => h@.len() == PHASH_BYTES && detailed(h@),
        None => false,
    }
}

pub open spec fn hash_of(p: Fingerprint) -> Seq<u8> {
    p.phash.unwrap()@
}

/// Two prints point at the same media URL.
pub open spec fn same_url(prints: Seq<Fingerprint>, i: int, j: int) -> bool {
    url_key(prints[i]) is Some && url_key(prints[i]) == url_key(prints[j])
}

/// Two prints have usable hashes that are alike.
pub open spec fn same_hash(prints: Seq<Fingerprint>, i: int, j: int) -> bool {
    usable_hash(prints[i]) && usable_hash(prints[j]) && similar(
        hash_of(prints[i]),
        hash_of(prints[j]),
        MAX_DISTANCE as nat,
    )
}

/// Two prints that show the same picture on their own evidence.
pub open spec fn linked(prints: Seq<Fingerprint>, i: int, j: int) -> bool {
    same_url(prints, i, j) || same_hash(prints, i, j)
}

pub open spec fn step_linked(prints: Seq<Fingerprint>, path: Seq<int>, k: int) -> bool {
    linked(prints, path[k], path[k + 1])
}

/// A run of prints, each linked to the next.
pub open spec fn is_chain(prints: Seq<Fingerprint>, path: Seq<int>) -> bool {
    &&& path.len() >= 1
    &&& forall|k: int| 0 <= k < path.len() ==> 0 <= #[trigger] path[k] < prints.len()
    &&& forall|k: int| 0 <= k < path.len() - 1 ==> #[trigger] step_linked(prints, path, k)
}

/// Prints `i` and `j` show the same picture: a chain of links leads from one to the other.
pub open spec fn connected(prints: Seq<Fingerprint>, i: int, j: int) -> bool {
    exists|path: Seq<int>| #[trigger]
        is_chain(prints, path) && path[0] == i && path[path.len() - 1] == j
}

proof fn lemma_linked_symmetric(prints: Seq<Fingerprint>, i: int, j: int)
    requires
        linked(prints, i, j),
    ensures
        linked(prints, j, i),
{
    if same_hash(prints, i, j) {
        let a = hash_of(prints[i]);
        let b = hash_of(prints[j]);
        let full = a.len() / 8 * 8;
        lemma_hamming_symmetric(a.take(full as int), b.take(full as int));
    }
}

proof fn lemma_connected_refl(prints: Seq<Fingerprint>, i: int)
    requires
        0 <= i < prints.len(),
    ensures
        connected(prints, i, i),
{
    let path = seq![i];
    assert(is_chain(prints, path));
}

proof fn lemma_connected_link(prints: Seq<Fingerprint>, i: int, j: int)
    requires
        0 <= i < prints.len(),
        0 <= j < prints.len(),
        linked(prints, i, j),
    ensures
        connected(prints, i, j),
{
    let path = seq![i, j];
    assert(step_linked(prints, path, 0));
    assert(is_chain(prints, path));
}

proof fn lemma_connected_symmetric(prints: Seq<Fingerprint>, i: int, j: int)
    requires
        connected(prints, i, j),
    ensures
        connected(prints, j, i),
{
    let path = choose|path: Seq<int>|
        #[trigger] is_chain(prints, path) && path[0] == i && path[path.len() - 1] == j;
    let back = path.reverse();
    assert forall|k: int| 0 <= k < back.len() - 1 implies #[trigger] step_linked(
        prints,
        back,
        k,
    ) by {
        let m = path.len() - 2 - k;
        assert(step_linked(prints, path, m));
        lemma_linked_symmetric(prints, path[m], path[m + 1]);
    }
    assert forall|k: int| 0 <= k < back.len() implies 0 <= #[trigger] back[k] < prints.len() by {
        assert(path[path.len() - 1 - k] == back[k]);
    }
    assert(is_chain(prints, back));
}

proof fn lemma_connected_trans(prints: Seq<Fingerprint>, i: int, j: int, k: int)
    requires
        connected(prints, i, j),
        connected(prints, j, k),
    ensures
        connected(prints, i, k),
{
    let p = choose|path: Seq<int>|
        #[trigger] is_chain(prints, path) && path[0] == i && path[path.len() - 1] == j;
    let q = choose|path: Seq<int>|
        #[trigger] is_chain(prints, path) && path[0] == j && path[path.len() - 1] == k;
    let r = p + q.skip(1);
    assert forall|m: int| 0 <= m < r.len() implies 0 <= #[trigger] r[m] < prints.len() by {
        if m < p.len() {
            assert(r[m] == p[m]);
        } else {
            assert(r[m] == q[m - p.len() + 1]);
        }
    }
    assert forall|m: int| 0 <= m < r.len() - 1 implies #[trigger] step_linked(prints, r, m) by {
        if m < p.len() - 1 {
            assert(step_linked(prints, p, m));
        } else {
            let t = m - p.len() + 1;
            assert(step_linked(prints, q, t));
            if m == p.len() - 1 {
                assert(r[m] == j);
            }
        }
    }
    assert(is_chain(prints, r));
    if q.len() == 1 {
        assert(r[r.len() - 1] == p[p.len() - 1]);
    } else {
        assert(r[r.len() - 1] == q[q.len() - 1]);
    }
}

/// Labels that name each print's picture by its earliest print, each label a print of the
/// picture it names and every print it names connected to it.
pub open spec fn labels_ok(prints: Seq<Fingerprint>, lab: Seq<usize>) -> bool {
    &&& lab.len() == prints.len()
    &&& forall|i: int| 0 <= i < lab.len() ==> #[trigger] lab[i] <= i && lab[lab[i] as int] == lab[i]
    &&& forall|i: int, j: int|
        0 <= i < lab.len() && 0 <= j < lab.len() && #[trigger] lab[i] == #[trigger] lab[j]
            ==> connected(prints, i, j)
}

/// The pictures found so far: every print labelled by the earliest print it was joined with.
struct Union {
    parent: Vec<usize>,
}

impl Union {
    fn new(len: usize, Ghost(prints): Ghost<Seq<Fingerprint>>) -> (u: Union)
        requires
            prints.len() == len,
        ensures
            labels_ok(prints, u.parent@),
            forall|i: int| 0 <= i < len ==> u.parent@[i] == i,
    {
        let mut parent: Vec<usize> = Vec::new();
        let mut i: usize = 0;
        while i < len
            invariant
                i <= len,
                prints.len() == len,
                parent@.len() == i,
                forall|k: int| 0 <= k < i ==> parent@[k] == k,
            decreases len - i,
        {
            parent.push(i);
            i = i + 1;
        }
        assert forall|a: int, b: int|
            0 <= a < parent@.len() && 0 <= b < parent@.len() && #[trigger] parent@[a]
                == #[trigger] parent@[b] implies connected(prints, a, b) by {
            lemma_connected_refl(prints, a);
        }
        Union { parent }
    }

    /// The earliest print of `index`'s picture so far.
    fn root(&self, index: usize) -> (r: usize)
        requires
            index < self.parent@.len(),
        ensures
            r == self.parent@[index as int],
    {
        self.parent[index]
    }

    /// Puts two connected prints in one picture.
    fn join(&mut self, a: usize, b: usize, Ghost(prints): Ghost<Seq<Fingerprint>>)
        requires
            labels_ok(prints, old(self).parent@),
            a < prints.len(),
            b < prints.len(),
            connected(prints, a as int, b as int),
        ensures
            labels_ok(prints, final(self).parent@),
            final(self).parent@[a as int] == final(self).parent@[b as int],
            forall|i: int, j: int|
                0 <= i < prints.len() && 0 <= j < prints.len() && old(self).parent@[i] == old(
                    self,
                ).parent@[j] ==> final(self).parent@[i] == final(self).parent@[j],
    {
        let la = self.parent[a];
        let lb = self.parent[b];
        if la == lb {
            return;
        }
        let lo = if la < lb {
            la
        } else {
            lb
        };
        let hi = if la < lb {
            lb
        } else {
            la
        };
        let ghost before = self.parent@;
        let n = self.parent.len();
        let mut i: usize = 0;
        while i < n
            invariant
                n == before.len(),
                self.parent@.len() == n,
                i <= n,
                forall|k: int|
                    0 <= k < i ==> #[trigger] self.parent@[k] == (if before[k] == hi {
                        lo
                    } else {
                        before[k]
                    }),
                forall|k: int| i <= k < n ==> #[trigger] self.parent@[k] == before[k],
            decreases n - i,
        {
            if self.parent[i] == hi {
                self.parent.set(i, lo);
            }
            i = i + 1;
        }
        proof {
            let after = self.parent@;
            assert(before[lo as int] == lo && before[hi as int] == hi);
            // The two pictures being joined are connected through `a` and `b`.
            assert(connected(prints, lo as int, hi as int)) by {
                assert(before[a as int] == before[la as int]);
                assert(before[b as int] == before[lb as int]);
                lemma_connected_symmetric(prints, a as int, la as int);
                lemma_connected_trans(prints, la as int, a as int, b as int);
                lemma_connected_trans(prints, la as int, b as int, lb as int);
                if lo != la {
                    lemma_connected_symmetric(prints, la as int, lb as int);
                }
            }
            assert forall|k: int| 0 <= k < after.len() implies #[trigger] after[k] <= k
                && after[after[k] as int] == after[k] by {
                assert(before[k] <= k && before[before[k] as int] == before[k]);
            }
            assert forall|x: int, y: int|
                0 <= x < after.len() && 0 <= y < after.len() && #[trigger] after[x]
                    == #[trigger] after[y] implies connected(prints, x, y) by {
                assert(before[x] <= x && before[before[x] as int] == before[x]);
                assert(before[y] <= y && before[before[y] as int] == before[y]);
                if before[x] == before[y] {
                } else {
                    // One of them was labelled `lo`, the other `hi`.
                    let bx = before[x];
                    let by = before[y];
                    assert(before[x] == before[bx as int]);
                    assert(before[y] == before[by as int]);
                    lemma_connected_symmetric(prints, y, by as int);
                    if bx == lo {
                        lemma_connected_trans(prints, x, lo as int, hi as int);
                        lemma_connected_trans(prints, x, hi as int, y);
                    } else {
                        lemma_connected_symmetric(prints, lo as int, hi as int);
                        lemma_connected_trans(prints, x, hi as int, lo as int);
                        lemma_connected_trans(prints, x, lo as int, y);
                    }
                }
            }
        }
    }
}

/// The days of the prints among the first `m` that show the picture of print `r`.
pub open spec fn class_days_upto(prints: Seq<Fingerprint>, r: int, m: int) -> Seq<i32>
    decreases m,
{
    if m <= 0 {
        Seq::empty()
    } else if connected(prints, r, m - 1) {
        class_days_upto(prints, r, m - 1).push(prints[m - 1].date@)
    } else {
        class_days_upto(prints, r, m - 1)
    }
}

/// The days of all prints that show the picture of print `r`, in print order.
pub open spec fn class_days(prints: Seq<Fingerprint>, r: int) -> Seq<i32> {
    class_days_upto(prints, r, prints.len() as int)
}

/// Print `r` is the first print of its picture.
pub open spec fn is_leader(prints: Seq<Fingerprint>, r: int) -> bool {
    forall|j: int| 0 <= j < r ==> !connected(prints, r, j)
}

pub open spec fn day_order() -> spec_fn(i32, i32) -> bool {
    |a: i32, b: i32| a <= b
}

/// The pictures whose first print is among the first `m`, each as the days it ran on in
/// order, keeping only those that ran more than once.
pub open spec fn groups_upto(prints: Seq<Fingerprint>, m: int) -> Seq<Seq<i32>>
    decreases m,
{
    if m <= 0 {
        Seq::empty()
    } else if is_leader(prints, m - 1) && class_days(prints, m - 1).len() >= 2 {
        groups_upto(prints, m - 1).push(class_days(prints, m - 1).sort_by(day_order()))
    } else {
        groups_upto(prints, m - 1)
    }
}

/// Every picture that ran more than once, as the days it ran on in order.
pub open spec fn picture_groups(prints: Seq<Fingerprint>) -> Seq<Seq<i32>> {
    groups_upto(prints, prints.len() as int)
}

pub open spec fn group_days(g: PictureGroup) -> Seq<i32> {
    g.dates@.map_values(|d: ApodDate| d@)
}

pub open spec fn groups_days(gs: Seq<PictureGroup>) -> Seq<Seq<i32>> {
    gs.map_values(|g: PictureGroup| group_days(g))
}

/// Groups listed by the day they first ran.
pub open spec fn by_first_day(gs: Seq<Seq<i32>>) -> bool {
    forall|i: int, j: int| 0 <= i < j < gs.len() ==> gs[i][0] <= gs[j][0]
}

proof fn lemma_day_order_total()
    ensures
        total_ordering(day_order()),
{
}

/// Labels that agree on every linked pair agree along every chain.
proof fn lemma_chain_label(prints: Seq<Fingerprint>, lab: Seq<usize>, path: Seq<int>)
    requires
        lab.len() == prints.len(),
        is_chain(prints, path),
        forall|i: int, j: int|
            0 <= i < prints.len() && 0 <= j < prints.len() && #[trigger] linked(prints, i, j)
                ==> lab[i] == lab[j],
    ensures
        lab[path[0]] == lab[path[path.len() - 1]],
    decreases path.len(),
{
    if path.len() > 1 {
        let shorter = path.drop_last();
        assert forall|k: int| 0 <= k < shorter.len() - 1 implies #[trigger] step_linked(
            prints,
            shorter,
            k,
        ) by {
            assert(step_linked(prints, path, k));
        }
        assert forall|k: int| 0 <= k < shorter.len() implies 0 <= #[trigger] shorter[k]
            < prints.len() by {
            assert(path[k] == shorter[k]);
        }
        lemma_chain_label(prints, lab, shorter);
        assert(step_linked(prints, path, path.len() - 2));
        assert(0 <= path[path.len() - 2] < prints.len());
        assert(0 <= path[path.len() - 1] < prints.len());
    }
}

/// The first print before `k` with the same media URL as print `k`.
fn first_same_url(prints: &[Fingerprint], k: usize) -> (r: Option<usize>)
    requires
        k < prints@.len(),
    ensures
        match r {
            Some(f) => f < k && same_url(prints@, f as int, k as int),
            None => forall|j: int| 0 <= j < k ==> !same_url(prints@, j, k as int),
        },
{
    let u = match &prints[k].media_url {
        Some(u) => u,
        None => {
            return None;
        },
    };
    if u.as_str().is_empty() {
        return None;
    }
    let mut j: usize = 0;
    while j < k
        invariant
            j <= k < prints@.len(),
            prints@[k as int].media_url == Some(*u),
            u@.len() > 0,
            forall|i: int| 0 <= i < j ==> !same_url(prints@, i, k as int),
        decreases k - j,
    {
        match &prints[j].media_url {
            Some(w) => {
                if str_eq(w.as_str(), u.as_str()) {
                    return Some(j);
                }
            },
            None => {},
        }
        j = j + 1;
    }
    None
}

/// A print's hash, which it has.
fn hash_slice(p: &Fingerprint) -> (h: &[u8])
    requires
        p.phash is Some,
    ensures
        h@ == hash_of(*p),
{
    match &p.phash {
        Some(h) => h.as_slice(),
        None => {
            proof {
                assert(false);
            }
            &[]
        },
    }
}

/// Whether a print's hash is full-length and detailed.
fn has_usable_hash(p: &Fingerprint) -> (b: bool)
    ensures
        b == usable_hash(*p),
{
    match &p.phash {
        Some(h) => h.len() == PHASH_BYTES && has_detail(h.as_slice()),
        None => false,
    }
}

/// Joins every two prints with the same media URL.
fn join_by_url(union: &mut Union, prints: &[Fingerprint])
    requires
        labels_ok(prints@, old(union).parent@),
    ensures
        labels_ok(prints@, final(union).parent@),
        forall|i: int, j: int|
            0 <= i < prints@.len() && 0 <= j < prints@.len() && #[trigger] same_url(prints@, i, j)
                ==> final(union).parent@[i] == final(union).parent@[j],
{
    let ghost ps = prints@;
    let n = prints.len();
    let mut k: usize = 0;
    while k < n
        invariant
            labels_ok(ps, union.parent@),
            k <= n,
            n == ps.len(),
            ps == prints@,
            forall|i: int, j: int|
                0 <= i < k && 0 <= j < k && #[trigger] same_url(ps, i, j) ==> union.parent@[i]
                    == union.parent@[j],
        decreases n - k,
    {
        match first_same_url(prints, k) {
            Some(f) => {
                let ghost before = union.parent@;
                proof {
                    lemma_connected_link(ps, f as int, k as int);
                }
                union.join(f, k, Ghost(ps));
                assert forall|i: int, j: int|
                    0 <= i < k + 1 && 0 <= j < k + 1 && #[trigger] same_url(ps, i, j) implies union.parent@[i]
                    == union.parent@[j] by {
                    if i < k && j < k {
                        assert(before[i] == before[j]);
                    } else if i == k && j < k {
                        assert(same_url(ps, f as int, j));
                        assert(before[f as int] == before[j]);
                    } else if j == k && i < k {
                        assert(same_url(ps, i, f as int));
                        assert(before[i] == before[f as int]);
                    }
                }
            },
            None => {
                assert forall|i: int, j: int|
                    0 <= i < k + 1 && 0 <= j < k + 1 && #[trigger] same_url(ps, i, j) implies union.parent@[i]
                    == union.parent@[j] by {
                    if i == k && j < k {
                        assert(same_url(ps, j, k as int));
                    }
                }
            },
        }
        k = k + 1;
    }
}

/// The prints whose hashes can be matched on, in order.
fn usable_prints(prints: &[Fingerprint]) -> (hashed: Vec<usize>)
    ensures
        forall|a: int| 0 <= a < hashed@.len() ==> #[trigger] hashed@[a] < prints@.len()
            && usable_hash(prints@[hashed@[a] as int]),
        forall|i: int| 0 <= i < prints@.len() && usable_hash(#[trigger] prints@[i]) ==> exists|
            a: int,
        | 0 <= a < hashed@.len() && hashed@[a] == i,
{
    let mut hashed: Vec<usize> = Vec::new();
    let mut i: usize = 0;
    while i < prints.len()
        invariant
            i <= prints@.len(),
            forall|a: int| 0 <= a < hashed@.len() ==> #[trigger] hashed@[a] < i && usable_hash(
                prints@[hashed@[a] as int],
            ),
            forall|m: int| 0 <= m < i && usable_hash(#[trigger] prints@[m]) ==> exists|a: int|
                0 <= a < hashed@.len() && hashed@[a] == m,
        decreases prints.len() - i,
    {
        let ghost before = hashed@;
        if has_usable_hash(&prints[i]) {
            hashed.push(i);
            assert(hashed@[hashed@.len() - 1] == i);
        }
        assert forall|m: int| 0 <= m < i + 1 && usable_hash(#[trigger] prints@[m]) implies exists|
            a: int,
        | 0 <= a < hashed@.len() && hashed@[a] == m by {
            if m < i {
                let a = choose|a: int| 0 <= a < before.len() && before[a] == m;
                assert(hashed@[a] == m);
            } else {
                assert(hashed@[hashed@.len() - 1] == m);
            }
        }
        i = i + 1;
    }
    hashed
}

/// Joins every two prints whose usable hashes are alike.
fn join_by_hash(union: &mut Union, prints: &[Fingerprint])
    requires
        labels_ok(prints@, old(union).parent@),
    ensures
        labels_ok(prints@, final(union).parent@),
        forall|i: int, j: int|
            0 <= i < prints@.len() && 0 <= j < prints@.len() && old(union).parent@[i] == old(
                union,
            ).parent@[j] ==> final(union).parent@[i] == final(union).parent@[j],
        forall|i: int, j: int|
            0 <= i < prints@.len() && 0 <= j < prints@.len() && #[trigger] same_hash(prints@, i, j)
                ==> final(union).parent@[i] == final(union).parent@[j],
{
    let ghost ps = prints@;
    let ghost start = union.parent@;
    let hashed = usable_prints(prints);
    let h = hashed.len();
    let mut p: usize = 0;
    while p < h
        invariant
            labels_ok(ps, union.parent@),
            ps == prints@,
            h == hashed@.len(),
            p <= h,
            forall|a: int| 0 <= a < h ==> #[trigger] hashed@[a] < ps.len() && usable_hash(
                ps[hashed@[a] as int],
            ),
            forall|i: int, j: int|
                0 <= i < ps.len() && 0 <= j < ps.len() && start[i] == start[j] ==> union.parent@[i]
                    == union.parent@[j],
            forall|a: int, b: int|
                0 <= a < p && a < b < h && #[trigger] same_hash(
                    ps,
                    hashed@[a] as int,
                    hashed@[b] as int,
                ) ==> union.parent@[hashed@[a] as int] == union.parent@[hashed@[b] as int],
        decreases h - p,
    {
        let x = hashed[p];
        let mut q: usize = p + 1;
        while q < h
            invariant
                labels_ok(ps, union.parent@),
                ps == prints@,
                h == hashed@.len(),
                p < h,
                x == hashed@[p as int],
                p + 1 <= q <= h,
                forall|a: int| 0 <= a < h ==> #[trigger] hashed@[a] < ps.len() && usable_hash(
                    ps[hashed@[a] as int],
                ),
                forall|i: int, j: int|
                    0 <= i < ps.len() && 0 <= j < ps.len() && start[i] == start[j]
                        ==> union.parent@[i] == union.parent@[j],
                forall|a: int, b: int|
                    ((0 <= a < p && a < b < h) || (a == p && p < b < q)) && #[trigger] same_hash(
                        ps,
                        hashed@[a] as int,
                        hashed@[b] as int,
                    ) ==> union.parent@[hashed@[a] as int] == union.parent@[hashed@[b] as int],
            decreases h - q,
        {
            let y = hashed[q];
            assert(usable_hash(ps[x as int]) && usable_hash(ps[y as int]));
            if alike(hash_slice(&prints[x]), hash_slice(&prints[y]), MAX_DISTANCE) {
                let ghost before = union.parent@;
                proof {
                    lemma_connected_link(ps, x as int, y as int);
                }
                union.join(x, y, Ghost(ps));
                assert forall|a: int, b: int|
                    ((0 <= a < p && a < b < h) || (a == p && p < b < q + 1)) && #[trigger] same_hash(
                        ps,
                        hashed@[a] as int,
                        hashed@[b] as int,
                    ) implies union.parent@[hashed@[a] as int] == union.parent@[hashed@[b] as int] by {
                    if !(a == p && b == q) {
                        assert(before[hashed@[a] as int] == before[hashed@[b] as int]);
                    }
                }
            }
            q = q + 1;
        }
        p = p + 1;
    }
    proof {
        assert forall|i: int, j: int|
            0 <= i < ps.len() && 0 <= j < ps.len() && #[trigger] same_hash(ps, i, j) implies union.parent@[i]
            == union.parent@[j] by {
            let a = choose|a: int| 0 <= a < hashed@.len() && hashed@[a] == i;
            let b = choose|b: int| 0 <= b < hashed@.len() && hashed@[b] == j;
            if a < b {
                assert(same_hash(ps, hashed@[a] as int, hashed@[b] as int));
            } else if b < a {
                lemma_linked_symmetric(ps, i, j);
                assert(same_hash(ps, j, i)) by {
                    let hi = hash_of(ps[i]);
                    let hj = hash_of(ps[j]);
                    let full = hi.len() / 8 * 8;
                    lemma_hamming_symmetric(hi.take(full as int), hj.take(full as int));
                }
                assert(same_hash(ps, hashed@[b] as int, hashed@[a] as int));
            }
        }
    }
}

/// Labels that agree exactly when two prints are connected.
pub open spec fn labels_exact(prints: Seq<Fingerprint>, lab: Seq<usize>) -> bool {
    &&& labels_ok(prints, lab)
    &&& forall|i: int, j: int|
        0 <= i < prints.len() && 0 <= j < prints.len() ==> (lab[i] == lab[j] <==> connected(
            prints,
            i,
            j,
        ))
}

/// Sorts a day into days already in order.
fn insert_day(v: &mut Vec<i32>, x: i32)
    requires
        sorted_by(old(v)@, day_order()),
    ensures
        sorted_by(final(v)@, day_order()),
        final(v)@.to_multiset() == old(v)@.to_multiset().insert(x),
        final(v)@.len() == old(v)@.len() + 1,
{
    let mut pos: usize = 0;
    while pos < v.len() && v[pos] <= x
        invariant
            pos <= v@.len(),
            v@ == old(v)@,
            forall|k: int| 0 <= k < pos ==> #[trigger] v@[k] <= x,
        decreases v.len() - pos,
    {
        pos = pos + 1;
    }
    let ghost before = v@;
    v.insert(pos, x);
    proof {
        vstd::seq_lib::to_multiset_insert(before, pos as int, x);
        assert(v@ =~= before.insert(pos as int, x));
        assert forall|i: int, j: int| 0 <= i < j < v@.len() implies (day_order())(
            v@[i],
            v@[j],
        ) by {
            if pos < before.len() {
                assert(before[pos as int] > x);
            }
            if j < pos {
                assert((day_order())(before[i], before[j]));
            } else if i > pos {
                assert((day_order())(before[i - 1], before[j - 1]));
            } else if i == pos {
                if j > pos && pos < before.len() {
                    assert((day_order())(before[pos as int], before[j - 1]));
                }
            } else {
                if j > pos {
                    assert(before[i] <= x);
                }
            }
        }
    }
}

/// The days a picture ran on, in order, given exact labels and its first print `r`.
fn class_days_of(union: &Union, prints: &[Fingerprint], r: usize) -> (days: Vec<i32>)
    requires
        labels_exact(prints@, union.parent@),
        r < prints@.len(),
        union.parent@[r as int] == r,
    ensures
        days@ == class_days(prints@, r as int).sort_by(day_order()),
{
    broadcast use vstd::seq_lib::group_to_multiset_ensures;

    let ghost ps = prints@;
    let mut days: Vec<i32> = Vec::new();
    let mut j: usize = 0;
    while j < prints.len()
        invariant
            labels_exact(ps, union.parent@),
            ps == prints@,
            r < ps.len(),
            union.parent@[r as int] == r,
            j <= ps.len(),
            sorted_by(days@, day_order()),
            days@.to_multiset() == class_days_upto(ps, r as int, j as int).to_multiset(),
        decreases prints.len() - j,
    {
        let ghost before = days@;
        let ghost upto = class_days_upto(ps, r as int, j as int);
        if union.root(j) == r {
            assert(connected(ps, r as int, j as int));
            let d = prints[j].date.days();
            insert_day(&mut days, d);
            assert(class_days_upto(ps, r as int, j + 1) == upto.push(d));
            proof {
                vstd::seq_lib::to_multiset_build(upto, d);
            }
        } else {
            assert(!connected(ps, r as int, j as int));
            assert(class_days_upto(ps, r as int, j + 1) == upto);
        }
        j = j + 1;
    }
    proof {
        let class = class_days(ps, r as int);
        lemma_day_order_total();
        class.lemma_sort_by_ensures(day_order());
        vstd::seq_lib::lemma_sorted_unique(days@, class.sort_by(day_order()), day_order());
    }
    days
}

/// The dates of the given days.
fn dates_of(days: &Vec<i32>) -> (dates: Vec<ApodDate>)
    ensures
        dates@.len() == days@.len(),
        forall|k: int| 0 <= k < days@.len() ==> #[trigger] dates@[k]@ == days@[k],
{
    let mut dates: Vec<ApodDate> = Vec::new();
    let mut i: usize = 0;
    while i < days.len()
        invariant
            i <= days@.len(),
            dates@.len() == i,
            forall|k: int| 0 <= k < i ==> #[trigger] dates@[k]@ == days@[k],
        decreases days.len() - i,
    {
        dates.push(ApodDate::from_days(days[i]));
        i = i + 1;
    }
    dates
}

/// Labels are exact once every linked pair shares one.
proof fn lemma_labels_exact(prints: Seq<Fingerprint>, lab: Seq<usize>)
    requires
        labels_ok(prints, lab),
        forall|i: int, j: int|
            0 <= i < prints.len() && 0 <= j < prints.len() && #[trigger] linked(prints, i, j)
                ==> lab[i] == lab[j],
    ensures
        labels_exact(prints, lab),
        forall|r: int| 0 <= r < prints.len() ==> (lab[r] == r <==> is_leader(prints, r)),
{
    assert forall|i: int, j: int|
        0 <= i < prints.len() && 0 <= j < prints.len() && connected(prints, i, j) implies lab[i]
        == lab[j] by {
        let path = choose|path: Seq<int>|
            #[trigger] is_chain(prints, path) && path[0] == i && path[path.len() - 1] == j;
        lemma_chain_label(prints, lab, path);
    }
    assert forall|r: int| 0 <= r < prints.len() implies (lab[r] == r <==> is_leader(prints, r)) by {
        let l = lab[r] as int;
        assert(lab[r] <= r && lab[l] == lab[r]);
        if lab[r] == r {
            assert forall|j: int| 0 <= j < r implies !connected(prints, r, j) by {
                assert(lab[j] <= j);
            }
        } else {
            assert(connected(prints, r, l));
        }
    }
}

/// Every picture that ran more than once, each as a group of the dates it ran on, earliest
/// first, the groups listed by the date they first ran. Two entries show one picture when a
/// chain of entries leads from one to the other, each pointing at the same media URL as the
/// next or having a detailed hash alike to the next one's.
pub fn group(prints: &[Fingerprint]) -> (out: Vec<PictureGroup>)
    ensures
        by_first_day(groups_days(out@)),
        groups_days(out@).to_multiset() == picture_groups(prints@).to_multiset(),
        forall|k: int| 0 <= k < out@.len() ==> #[trigger] out@[k].dates@.len() >= 2,
{
    broadcast use vstd::seq_lib::group_to_multiset_ensures;

    let ghost ps = prints@;
    let n = prints.len();
    let mut union = Union::new(n, Ghost(ps));
    join_by_url(&mut union, prints);
    let ghost after_url = union.parent@;
    join_by_hash(&mut union, prints);
    proof {
        assert forall|i: int, j: int|
            0 <= i < ps.len() && 0 <= j < ps.len() && #[trigger] linked(ps, i, j) implies union.parent@[i]
            == union.parent@[j] by {
            if same_url(ps, i, j) {
                assert(after_url[i] == after_url[j]);
            } else {
                assert(same_hash(ps, i, j));
            }
        }
        lemma_labels_exact(ps, union.parent@);
    }
    let mut found: Vec<PictureGroup> = Vec::new();
    let mut r: usize = 0;
    while r < n
        invariant
            labels_exact(ps, union.parent@),
            forall|x: int| 0 <= x < ps.len() ==> (union.parent@[x] == x <==> is_leader(ps, x)),
            ps == prints@,
            n == ps.len(),
            r <= n,
            groups_days(found@) == groups_upto(ps, r as int),
            forall|k: int| 0 <= k < found@.len() ==> #[trigger] found@[k].dates@.len() >= 2,
        decreases n - r,
    {
        let ghost before = found@;
        if union.root(r) == r {
            let days = class_days_of(&union, prints, r);
            proof {
                let class = class_days(ps, r as int);
                lemma_day_order_total();
                class.lemma_sort_by_ensures(day_order());
                vstd::seq_lib::to_multiset_len(class);
                vstd::seq_lib::to_multiset_len(class.sort_by(day_order()));
                assert(class.len() == days@.len());
            }
            if days.len() >= 2 {
                let dates = dates_of(&days);
                let g = PictureGroup { dates };
                assert(group_days(g) =~= days@);
                found.push(g);
                assert(groups_days(found@) =~= groups_days(before).push(days@));
            } else {
                assert(groups_upto(ps, r + 1) == groups_upto(ps, r as int));
            }
        } else {
            assert(!is_leader(ps, r as int));
            assert(groups_upto(ps, r + 1) == groups_upto(ps, r as int));
        }
        r = r + 1;
    }
    sort_groups(found)
}

/// The groups listed by the day they first ran.
fn sort_groups(groups: Vec<PictureGroup>) -> (out: Vec<PictureGroup>)
    requires
        forall|k: int| 0 <= k < groups@.len() ==> #[trigger] groups@[k].dates@.len() >= 2,
    ensures
        by_first_day(groups_days(out@)),
        groups_days(out@).to_multiset() == groups_days(groups@).to_multiset(),
        forall|k: int| 0 <= k < out@.len() ==> #[trigger] out@[k].dates@.len() >= 2,
{
    broadcast use vstd::seq_lib::group_to_multiset_ensures;

    let ghost all = groups_days(groups@);
    let mut rest = groups;
    let mut out: Vec<PictureGroup> = Vec::new();
    while rest.len() > 0
        invariant
            forall|k: int| 0 <= k < rest@.len() ==> #[trigger] rest@[k].dates@.len() >= 2,
            forall|k: int| 0 <= k < out@.len() ==> #[trigger] out@[k].dates@.len() >= 2,
            by_first_day(groups_days(out@)),
            groups_days(out@).to_multiset().add(groups_days(rest@).to_multiset())
                == all.to_multiset(),
        decreases rest@.len(),
    {
        let ghost rest_before = rest@;
        let g = match rest.pop() {
            Some(g) => g,
            None => {
                proof {
                    assert(false);
                }
                return out;
            },
        };
        assert(rest_before =~= rest@.push(g));
        assert(groups_days(rest_before) =~= groups_days(rest@).push(group_days(g)));
        let first = g.dates[0].days();
        assert(first == group_days(g)[0]);
        let mut pos: usize = 0;
        while pos < out.len() && out[pos].dates[0].days() <= first
            invariant
                pos <= out@.len(),
                forall|k: int| 0 <= k < out@.len() ==> #[trigger] out@[k].dates@.len() >= 2,
                forall|k: int| 0 <= k < pos ==> #[trigger] out@[k].dates@[0]@ <= first,
            decreases out.len() - pos,
        {
            pos = pos + 1;
        }
        assert forall|k: int| 0 <= k < pos implies #[trigger] groups_days(out@)[k][0] <= first by {
            assert(groups_days(out@)[k] == group_days(out@[k]));
            assert(out@[k].dates@[0]@ <= first);
        }
        if pos < out.len() {
            assert(groups_days(out@)[pos as int] == group_days(out@[pos as int]));
        }
        let ghost before = groups_days(out@);
        let ghost before_out = out@;
        if pos < out.len() {
            assert(before[pos as int][0] > first);
        }
        out.insert(pos, g);
        proof {
            let gd = group_days(g);
            assert(groups_days(out@) =~= before.insert(pos as int, gd));
            vstd::seq_lib::to_multiset_insert(before, pos as int, gd);
            vstd::seq_lib::to_multiset_build(groups_days(rest@), gd);
            broadcast use vstd::multiset::group_multiset_axioms;
            assert(groups_days(out@).to_multiset().add(groups_days(rest@).to_multiset())
                =~= before.to_multiset().add(groups_days(rest_before).to_multiset()));
            let now = groups_days(out@);
            assert forall|i: int, j: int| 0 <= i < j < now.len() implies now[i][0] <= now[j][0] by {
                if j < pos {
                } else if i > pos {
                    assert(now[i] == before[i - 1] && now[j] == before[j - 1]);
                } else if i == pos {
                    if pos < before.len() {
                        assert(before[pos as int][0] <= before[j - 1][0]);
                    }
                } else {
                    if j > pos {
                        assert(now[j] == before[j - 1]);
                        assert(before[i][0] <= first);
                    }
                }
            }
            assert forall|k: int| 0 <= k < out@.len() implies #[trigger] out@[k].dates@.len() >= 2 by {
                if k < pos {
                } else if k > pos {
                    assert(out@[k] == before_out[k - 1]);
                }
            }
        }
    }
    assert(groups_days(rest@) =~= Seq::<Seq<i32>>::empty());
    out
}

/// Every group lists its days in order, and has at least two of them.
pub proof fn law_group_days_in_order(prints: Seq<Fingerprint>, m: int)
    ensures
        forall|k: int| 0 <= k < groups_upto(prints, m).len() ==> sorted_by(
            #[trigger] groups_upto(prints, m)[k],
            day_order(),
        ) && groups_upto(prints, m)[k].len() >= 2,
    decreases m,
{
    if m > 0 {
        law_group_days_in_order(prints, m - 1);
        if is_leader(prints, m - 1) && class_days(prints, m - 1).len() >= 2 {
            let c = class_days(prints, m - 1);
            lemma_day_order_total();
            c.lemma_sort_by_ensures(day_order());
            vstd::seq_lib::to_multiset_len(c);
            vstd::seq_lib::to_multiset_len(c.sort_by(day_order()));
            let g = groups_upto(prints, m);
            let sc = c.sort_by(day_order());
            assert(sc.len() == c.len());
            assert(g == groups_upto(prints, m - 1).push(sc));
            assert forall|k: int| 0 <= k < g.len() implies sorted_by(#[trigger] g[k], day_order()) && g[k].len() >= 2 by {
                if k < g.len() - 1 {
                    assert(g[k] == groups_upto(prints, m - 1)[k]);
                } else {
                    assert(g[k] == sc);
                }
            }
        } else {
            assert(groups_upto(prints, m) == groups_upto(prints, m - 1));
        }
    }
}

proof fn lemma_leader_from(prints: Seq<Fingerprint>, i: int, m: int) -> (r: int)
    requires
        0 <= m <= i < prints.len(),
        forall|j: int| 0 <= j < m ==> !connected(prints, i, j),
    ensures
        0 <= r <= i,
        is_leader(prints, r),
        connected(prints, r, i),
    decreases i - m,
{
    lemma_connected_refl(prints, i);
    if connected(prints, i, m) {
        lemma_connected_symmetric(prints, i, m);
        assert forall|j: int| 0 <= j < m implies !connected(prints, m, j) by {
            if connected(prints, m, j) {
                lemma_connected_trans(prints, i, m, j);
            }
        }
        m
    } else {
        lemma_leader_from(prints, i, m + 1)
    }
}

proof fn lemma_class_has(prints: Seq<Fingerprint>, r: int, m: int, x: int)
    requires
        0 <= x < m <= prints.len(),
        connected(prints, r, x),
    ensures
        class_days_upto(prints, r, m).contains(prints[x].date@),
    decreases m,
{
    let c = class_days_upto(prints, r, m);
    if x == m - 1 {
        assert(c.last() == prints[x].date@);
        assert(c[c.len() - 1] == prints[x].date@);
    } else {
        lemma_class_has(prints, r, m - 1, x);
        let prev = class_days_upto(prints, r, m - 1);
        let k = choose|k: int| 0 <= k < prev.len() && prev[k] == prints[x].date@;
        assert(c[k] == prev[k]);
    }
}

proof fn lemma_class_two(prints: Seq<Fingerprint>, r: int, m: int, i: int, j: int)
    requires
        0 <= i < j < m <= prints.len(),
        connected(prints, r, i),
        connected(prints, r, j),
    ensures
        class_days_upto(prints, r, m).len() >= 2,
    decreases m,
{
    if j == m - 1 {
        lemma_class_has(prints, r, m - 1, i);
    } else {
        lemma_class_two(prints, r, m - 1, i, j);
    }
}

proof fn lemma_group_listed(prints: Seq<Fingerprint>, r: int, m: int) -> (k: int)
    requires
        0 <= r < m <= prints.len(),
        is_leader(prints, r),
        class_days(prints, r).len() >= 2,
    ensures
        0 <= k < groups_upto(prints, m).len(),
        groups_upto(prints, m)[k] == class_days(prints, r).sort_by(day_order()),
    decreases m,
{
    if r == m - 1 {
        (groups_upto(prints, m).len() - 1) as int
    } else {
        let k = lemma_group_listed(prints, r, m - 1);
        if is_leader(prints, m - 1) && class_days(prints, m - 1).len() >= 2 {
            assert(groups_upto(prints, m)[k] == groups_upto(prints, m - 1)[k]);
        }
        k
    }
}

/// Two entries that point at the same media URL are one picture: some group holds the days of
/// both.
pub proof fn law_a_shared_url_is_one_picture(prints: Seq<Fingerprint>, i: int, j: int)
    requires
        0 <= i < prints.len(),
        0 <= j < prints.len(),
        i != j,
        url_key(prints[i]) is Some,
        url_key(prints[i]) == url_key(prints[j]),
    ensures
        exists|k: int|
            0 <= k < picture_groups(prints).len() && #[trigger] picture_groups(prints)[k].contains(
                prints[i].date@,
            ) && picture_groups(prints)[k].contains(prints[j].date@),
{
    broadcast use vstd::seq_lib::group_to_multiset_ensures;

    assert(linked(prints, i, j));
    lemma_connected_link(prints, i, j);
    let r = lemma_leader_from(prints, i, 0);
    lemma_connected_trans(prints, r, i, j);
    let n = prints.len() as int;
    if i < j {
        lemma_class_two(prints, r, n, i, j);
    } else {
        lemma_class_two(prints, r, n, j, i);
    }
    lemma_class_has(prints, r, n, i);
    lemma_class_has(prints, r, n, j);
    let k = lemma_group_listed(prints, r, n);
    let c = class_days(prints, r);
    lemma_day_order_total();
    c.lemma_sort_by_ensures(day_order());
    let g = c.sort_by(day_order());
    assert(c.to_multiset().count(prints[i].date@) > 0);
    assert(g.to_multiset().count(prints[i].date@) > 0);
    assert(c.to_multiset().count(prints[j].date@) > 0);
    assert(g.to_multiset().count(prints[j].date@) > 0);
    assert(picture_groups(prints)[k].contains(prints[i].date@));
}

/// An entry with neither a media URL nor a hash detailed enough to match on is its own picture:
/// it is connected to no other entry, so it joins no group.
pub proof fn law_nothing_to_match_stands_alone(prints: Seq<Fingerprint>, i: int, j: int)
    requires
        0 <= i < prints.len(),
        0 <= j < prints.len(),
        url_key(prints[i]) is None,
        !usable_hash(prints[i]),
        connected(prints, i, j),
    ensures
        j == i,
{
    let path = choose|path: Seq<int>|
        #[trigger] is_chain(prints, path) && path[0] == i && path[path.len() - 1] == j;
    if path.len() > 1 {
        assert(step_linked(prints, path, 0));
    }
}

proof fn lemma_ones_zero(width: nat)
    ensures
        ones(0, width) == 0,
    decreases width,
{
    if width > 0 {
        lemma_ones_zero((width - 1) as nat);
    }
}

proof fn lemma_hamming_self(a: Seq<u8>)
    ensures
        hamming(a, a) == 0,
    decreases a.len(),
{
    if a.len() > 0 {
        lemma_hamming_self(a.drop_last());
        let x = a.last();
        assert(x ^ x == 0u8) by (bit_vector);
        lemma_ones_zero(8);
    }
}

/// The distance between two hashes does not depend on their order, and a hash is at no
/// distance from itself.
pub proof fn law_distance_is_symmetric(a: Seq<u8>, b: Seq<u8>)
    ensures
        hash_distance(a, b) == hash_distance(b, a),
        hash_distance(a, a) == 0,
{
    lemma_hamming_symmetric(a, b);
    lemma_hamming_self(a);
}

/// For hashes of whole eight-byte words (every stored hash is), two hashes are alike exactly
/// when they have one length and are at most `max` bits apart; hashes of different lengths
/// never are.
pub proof fn law_alike_is_within_distance(a: Seq<u8>, b: Seq<u8>, max: nat)
    requires
        a.len() != b.len() || a.len() % 8 == 0,
    ensures
        similar(a, b, max) == (a.len() == b.len() && hash_distance(a, b) <= max),
{
    if a.len() == b.len() {
        assert(a.len() / 8 * 8 == a.len()) by (nonlinear_arith)
            requires
                a.len() % 8 == 0,
        ;
        assert(a.take(a.len() as int) =~= a);
        assert(b.take(b.len() as int) =~= b);
    }
}

/// What `group` returns carries the shared-URL law over: where two entries point at the same
/// media URL, one of the returned groups holds the days of both.
pub proof fn law_group_keeps_shared_urls_together(prints: Seq<Fingerprint>, out: Seq<Seq<i32>>, i: int, j: int)
    requires
        out.to_multiset() == picture_groups(prints).to_multiset(),
        0 <= i < prints.len(),
        0 <= j < prints.len(),
        i != j,
        url_key(prints[i]) is Some,
        url_key(prints[i]) == url_key(prints[j]),
    ensures
        exists|k: int|
            0 <= k < out.len() && #[trigger] out[k].contains(prints[i].date@) && out[k].contains(prints[j].date@),
{
    broadcast use vstd::seq_lib::group_to_multiset_ensures;

    law_a_shared_url_is_one_picture(prints, i, j);
    let pg = picture_groups(prints);
    let k0 = choose|k: int|
        0 <= k < pg.len() && #[trigger] pg[k].contains(prints[i].date@) && pg[k].contains(prints[j].date@);
    let g = pg[k0];
    assert(pg.contains(g));
    assert(pg.to_multiset().count(g) > 0);
    assert(out.contains(g));
    let k = choose|k: int| 0 <= k < out.len() && out[k] == g;
    assert(out[k].contains(prints[i].date@));
}

} // verus!
