//! Benchmark: which tiles are sampled, and how samples are summed up.

use crate::decoder::TileSource;
use crate::text::{chars_of, decimal, push_decimal};
use vstd::prelude::*;

verus! {

/// Benchmark options.
#[derive(Debug, Clone, PartialEq)]
pub struct BenchOptions {
    pub zooms: Vec<u8>,
    pub tiles_per_zoom: u32,
    pub seed: u64,
}

impl Default for BenchOptions {
    fn default() -> (o: BenchOptions)
        ensures
            o.zooms@ == seq![8u8, 10, 12, 14],
            o.tiles_per_zoom == 8,
            o.seed == 1,
    {
        let zooms: Vec<u8> = vec![8u8, 10, 12, 14];
        assert(zooms@ =~= seq![8u8, 10, 12, 14]);
        BenchOptions { zooms, tiles_per_zoom: 8, seed: 1 }
    }
}

/// A tile that may be sampled, with the number of features in it.
#[derive(Debug, Clone, Copy, PartialEq, Eq, Structural)]
pub struct Candidate {
    pub x: u32,
    pub y: u32,
    pub hits: usize,
}

/// Candidates that are gathered for one zoom.
pub const MAX_CANDIDATES: usize = 64;

/// Random points that are tried for one zoom.
pub const MAX_ATTEMPTS: u32 = 500;

/// Samples tiles of one zoom, weighted by feature density: probe random
/// points, count hits via the index only, then pick tiles with probability
/// proportional to their feature count — approximating "tiles a viewer
/// actually looks at".
#[derive(Debug, Clone, PartialEq)]
pub struct Sampler {
    pub candidates: Vec<Candidate>,
    pub attempts: u32,
}

/// Whether a tile is among the candidates.
pub open spec fn is_candidate(cs: Seq<Candidate>, x: u32, y: u32) -> bool {
    exists|i: int| 0 <= i < cs.len() && (#[trigger] cs[i]).x == x && cs[i].y == y
}

/// The candidates are different tiles with features in them.
pub open spec fn fair(cs: Seq<Candidate>) -> bool {
    &&& forall|i: int| 0 <= i < cs.len() ==> (#[trigger] cs[i]).hits > 0
    &&& forall|i: int, j: int|
        0 <= i < j < cs.len() ==> !((#[trigger] cs[i]).x == (#[trigger] cs[j]).x && cs[i].y
            == cs[j].y)
}

/// The hits of the first `k` candidates.
pub open spec fn hits_before(cs: Seq<Candidate>, k: int) -> nat
    decreases k,
{
    if k <= 0 {
        0
    } else {
        hits_before(cs, k - 1) + cs[k - 1].hits as nat
    }
}

/// The candidate that a number picks, when the candidates from `i` on stand
/// one after the other, each as long as it has hits; the first of all where
/// the number lies behind them.
pub open spec fn picked(cs: Seq<Candidate>, pick: int, i: int) -> int
    decreases cs.len() - i,
{
    if i >= cs.len() {
        0
    } else if pick < cs[i].hits {
        i
    } else {
        picked(cs, pick - cs[i].hits, i + 1)
    }
}

/// The candidates with the one at `i` taken out: the last one takes its place.
pub open spec fn without(cs: Seq<Candidate>, i: int) -> Seq<Candidate> {
    cs.update(i, cs.last()).drop_last()
}

impl Sampler {
    pub fn new() -> (s: Sampler)
        ensures
            s.candidates@ == Seq::<Candidate>::empty(),
            s.attempts == 0,
            fair(s.candidates@),
    {
        let candidates: Vec<Candidate> = Vec::new();
        assert(candidates@ =~= Seq::<Candidate>::empty());
        Sampler { candidates, attempts: 0 }
    }

    /// Whether more points are to be tried.
    pub fn wants_more(&self) -> (r: bool)
        ensures
            r == (self.candidates@.len() < MAX_CANDIDATES && self.attempts < MAX_ATTEMPTS),
    {
        self.candidates.len() < MAX_CANDIDATES && self.attempts < MAX_ATTEMPTS
    }

    /// Counts a point that fell into tile x/y; whether the tile is new, so
    /// that its features have to be counted.
    pub fn attempt(&mut self, x: u32, y: u32) -> (fresh: bool)
        requires
            old(self).attempts < MAX_ATTEMPTS,
        ensures
            final(self).candidates@ == old(self).candidates@,
            final(self).attempts == old(self).attempts + 1,
            fresh == !is_candidate(old(self).candidates@, x, y),
    {
        self.attempts = self.attempts + 1;
        let n: usize = self.candidates.len();
        let mut i: usize = 0;
        while i < n
            invariant
                i <= n,
                n == self.candidates@.len(),
                self.candidates@ == old(self).candidates@,
                self.attempts == old(self).attempts + 1,
                forall|j: int|
                    0 <= j < i ==> !((#[trigger] self.candidates@[j]).x == x
                        && self.candidates@[j].y == y),
            decreases n - i,
        {
            if self.candidates[i].x == x && self.candidates[i].y == y {
                return false;
            }
            i = i + 1;
        }
        true
    }

    /// Takes a new tile in, if it has features.
    pub fn add(&mut self, x: u32, y: u32, hits: usize)
        requires
            fair(old(self).candidates@),
            !is_candidate(old(self).candidates@, x, y),
        ensures
            fair(final(self).candidates@),
            final(self).candidates@ == if hits > 0 {
                old(self).candidates@.push(Candidate { x, y, hits })
            } else {
                old(self).candidates@
            },
            final(self).attempts == old(self).attempts,
    {
        if hits > 0 {
            self.candidates.push(Candidate { x, y, hits });
        }
    }

    /// The hits of all candidates.
    pub fn total(&self) -> (n: usize)
        requires
            hits_before(self.candidates@, self.candidates@.len() as int) <= usize::MAX,
        ensures
            n == hits_before(self.candidates@, self.candidates@.len() as int),
    {
        let count: usize = self.candidates.len();
        let mut n: usize = 0;
        let mut i: usize = 0;
        while i < count
            invariant
                i <= count,
                count == self.candidates@.len(),
                hits_before(self.candidates@, count as int) <= usize::MAX,
                n == hits_before(self.candidates@, i as int),
            decreases count - i,
        {
            proof {
                lemma_hits_mono(self.candidates@, i + 1, count as int);
            }
            n = n + self.candidates[i].hits;
            i = i + 1;
        }
        n
    }

    /// Takes out the candidate that a number below [`Sampler::total`] picks.
    pub fn take(&mut self, pick: usize) -> (tile: (u32, u32))
        requires
            old(self).candidates@.len() > 0,
        ensures
            ({
                let cs = old(self).candidates@;
                let i = picked(cs, pick as int, 0);
                &&& 0 <= i < cs.len()
                &&& tile == (cs[i].x, cs[i].y)
                &&& final(self).candidates@ == without(cs, i)
            }),
            final(self).attempts == old(self).attempts,
    {
        let n: usize = self.candidates.len();
        let mut rest: usize = pick;
        let mut idx: usize = 0;
        let mut i: usize = 0;
        let ghost cs = self.candidates@;
        while i < n
            invariant_except_break
                i <= n,
                idx == 0,
                picked(cs, pick as int, 0) == picked(cs, rest as int, i as int),
            invariant
                n == cs.len(),
                n > 0,
                cs == self.candidates@,
            ensures
                idx == picked(cs, pick as int, 0),
                idx < n,
            decreases n - i,
        {
            let hits: usize = self.candidates[i].hits;
            if rest < hits {
                idx = i;
                break;
            }
            rest = rest - hits;
            i = i + 1;
        }
        let c: Candidate = self.candidates.swap_remove(idx);
        assert(self.candidates@ =~= without(cs, idx as int));
        (c.x, c.y)
    }
}

proof fn lemma_hits_mono(cs: Seq<Candidate>, i: int, j: int)
    requires
        0 <= i <= j <= cs.len(),
    ensures
        hits_before(cs, i) <= hits_before(cs, j),
    decreases j,
{
    if i < j {
        lemma_hits_mono(cs, i, j - 1);
    }
}

/// A number below the total picks the candidate in whose run it lies, so
/// each candidate is picked by as many numbers as it has hits.
pub proof fn law_pick_follows_weight(cs: Seq<Candidate>, pick: int, k: int)
    requires
        0 <= k < cs.len(),
        hits_before(cs, k) <= pick < hits_before(cs, k + 1),
    ensures
        picked(cs, pick, 0) == k,
{
    lemma_pick_from(cs, pick, 0, k);
}

proof fn lemma_pick_from(cs: Seq<Candidate>, pick: int, i: int, k: int)
    requires
        0 <= i <= k < cs.len(),
        hits_before(cs, k) <= pick < hits_before(cs, k + 1),
    ensures
        picked(cs, pick - hits_before(cs, i), i) == k,
    decreases k - i,
{
    if i < k {
        lemma_hits_mono(cs, i + 1, k);
        assert(hits_before(cs, i + 1) == hits_before(cs, i) + cs[i].hits as nat);
        lemma_pick_from(cs, pick, i + 1, k);
    } else {
        assert(hits_before(cs, i + 1) == hits_before(cs, i) + cs[i].hits as nat);
    }
}

/// Numbers in ascending order.
pub open spec fn ascending_numbers(s: Seq<u64>) -> bool {
    forall|i: int, j: int| 0 <= i <= j < s.len() ==> #[trigger] s[i] <= #[trigger] s[j]
}

/// `s` with `x` put behind every number that is not greater.
pub open spec fn insert_number(s: Seq<u64>, x: u64) -> Seq<u64>
    decreases s.len(),
{
    if s.len() == 0 || s.last() <= x {
        s.push(x)
    } else {
        insert_number(s.drop_last(), x).push(s.last())
    }
}

/// The numbers in ascending order.
pub open spec fn sorted(s: Seq<u64>) -> Seq<u64>
    decreases s.len(),
{
    if s.len() == 0 {
        s
    } else {
        insert_number(sorted(s.drop_last()), s.last())
    }
}

/// Sorting only reorders, and gives an ascending order.
pub proof fn law_sorted_numbers(s: Seq<u64>)
    ensures
        sorted(s).len() == s.len(),
        ascending_numbers(sorted(s)),
        sorted(s).to_multiset() == s.to_multiset(),
    decreases s.len(),
{
    broadcast use vstd::seq_lib::group_to_multiset_ensures;

    if s.len() > 0 {
        let init = s.drop_last();
        law_sorted_numbers(init);
        lemma_insert_number(sorted(init), s.last());
        assert(s =~= init.push(s.last()));
    }
}

proof fn lemma_insert_number(s: Seq<u64>, x: u64)
    requires
        ascending_numbers(s),
    ensures
        insert_number(s, x).len() == s.len() + 1,
        ascending_numbers(insert_number(s, x)),
        insert_number(s, x).to_multiset() == s.to_multiset().insert(x),
        insert_number(s, x).last() == if s.len() > 0 && s.last() > x {
            s.last()
        } else {
            x
        },
    decreases s.len(),
{
    broadcast use vstd::seq_lib::group_to_multiset_ensures;

    if s.len() > 0 && s.last() > x {
        let init = s.drop_last();
        lemma_insert_number(init, x);
        let t = insert_number(init, x);
        assert(init.len() > 0 ==> init.last() <= s.last());
        assert forall|i: int| 0 <= i < t.len() implies #[trigger] t[i] <= s.last() by {
            assert(t[i] <= t[t.len() - 1]);
        }
        assert(s =~= init.push(s.last()));
        assert(t.push(s.last()).to_multiset() =~= s.to_multiset().insert(x));
    }
}

/// The number in the middle of the sorted values, the upper one of two.
pub open spec fn median_of(s: Seq<u64>) -> u64 {
    sorted(s)[s.len() as int / 2]
}

/// The median: the number in the middle of the sorted values, the upper one
/// of two.
#[verifier::spinoff_prover]
pub fn median(values: &Vec<u64>) -> (m: u64)
    requires
        values@.len() > 0,
    ensures
        m == median_of(values@),
{
    let n: usize = values.len();
    let mut out: Vec<u64> = Vec::new();
    let mut i: usize = 0;
    assert(values@.take(0) =~= Seq::<u64>::empty());
    while i < n
        invariant
            i <= n,
            n == values@.len(),
            out@ == sorted(values@.take(i as int)),
        decreases n - i,
    {
        let x: u64 = values[i];
        let ghost before = out@;
        let mut k: usize = out.len();
        proof {
            let now = values@.take(i + 1);
            assert(now.drop_last() =~= values@.take(i as int));
            assert(now.last() == x);
            assert(before.take(k as int) =~= before);
            assert(insert_number(before, x) + before.skip(k as int) =~= insert_number(before, x));
        }
        while k > 0 && out[k - 1] > x
            invariant
                k <= out@.len(),
                out@ == before,
                insert_number(before, x) == insert_number(before.take(k as int), x) + before.skip(
                    k as int,
                ),
            decreases k,
        {
            proof {
                let part = before.take(k as int);
                assert(part.drop_last() =~= before.take(k - 1));
                assert(insert_number(part, x) + before.skip(k as int) =~= insert_number(
                    before.take(k - 1),
                    x,
                ) + before.skip(k - 1));
            }
            k = k - 1;
        }
        out.insert(k, x);
        assert(out@ =~= insert_number(before.take(k as int), x) + before.skip(k as int));
        i = i + 1;
    }
    assert(values@.take(n as int) =~= values@);
    proof {
        law_sorted_numbers(values@);
    }
    out[n / 2]
}

/// The name of a data path in a report.
pub open spec fn label_of(s: TileSource) -> Seq<char> {
    match s {
        TileSource::Overview(i) => "Overview("@ + decimal(i as nat) + ")"@,
        TileSource::BodyImportance => "BodyImportance"@,
        TileSource::BodyLive => "BodyLive"@,
    }
}

pub fn source_label(s: TileSource) -> (text: String)
    ensures
        text@ == label_of(s),
{
    match s {
        TileSource::Overview(i) => {
            let mut text: String = "Overview(".to_owned();
            push_decimal(&mut text, i as u64);
            text.append(")");
            text
        },
        TileSource::BodyImportance => "BodyImportance".to_owned(),
        TileSource::BodyLive => "BodyLive".to_owned(),
    }
}

/// `a` comes before `b` in lexicographic order, from position `i` on.
pub open spec fn text_before(a: Seq<char>, b: Seq<char>, i: int) -> bool
    decreases b.len() - i,
{
    if i >= b.len() {
        false
    } else if i >= a.len() {
        true
    } else {
        a[i] < b[i] || (a[i] == b[i] && text_before(a, b, i + 1))
    }
}

fn is_before(a: &Vec<char>, b: &Vec<char>) -> (r: bool)
    ensures
        r == text_before(a@, b@, 0),
{
    let n: usize = a.len();
    let m: usize = b.len();
    let mut i: usize = 0;
    while i < n && i < m
        invariant
            i <= n,
            i <= m,
            n == a@.len(),
            m == b@.len(),
            text_before(a@, b@, 0) == text_before(a@, b@, i as int),
        decreases n - i,
    {
        if a[i] < b[i] {
            return true;
        }
        if a[i] != b[i] {
            return false;
        }
        i = i + 1;
    }
    i < m
}

/// How often a data path occurs.
pub open spec fn uses(s: Seq<TileSource>, x: TileSource) -> nat
    decreases s.len(),
{
    if s.len() == 0 {
        0
    } else {
        uses(s.drop_last(), x) + if s.last() == x {
            1nat
        } else {
            0
        }
    }
}

/// `a` is to be reported rather than `b`: it occurs more often, or as often
/// and its name comes later.
pub open spec fn ahead(s: Seq<TileSource>, a: TileSource, b: TileSource) -> bool {
    ||| uses(s, a) > uses(s, b)
    ||| uses(s, a) == uses(s, b) && text_before(label_of(b), label_of(a), 0)
}

/// The most common among the first `k` data paths.
pub open spec fn commonest(s: Seq<TileSource>, k: int) -> Option<TileSource>
    decreases k,
{
    if k <= 0 {
        None
    } else {
        match commonest(s, k - 1) {
            None => Some(s[k - 1]),
            Some(b) => if ahead(s, s[k - 1], b) {
                Some(s[k - 1])
            } else {
                Some(b)
            },
        }
    }
}

fn count_uses(s: &Vec<TileSource>, x: TileSource) -> (n: usize)
    ensures
        n == uses(s@, x),
{
    let len: usize = s.len();
    let mut n: usize = 0;
    let mut i: usize = 0;
    assert(s@.take(0) =~= Seq::<TileSource>::empty());
    while i < len
        invariant
            i <= len,
            n <= i,
            len == s@.len(),
            n == uses(s@.take(i as int), x),
        decreases len - i,
    {
        proof {
            let now = s@.take(i + 1);
            assert(now.drop_last() =~= s@.take(i as int));
            assert(now.last() == s@[i as int]);
        }
        if s[i] == x {
            n = n + 1;
        }
        i = i + 1;
    }
    assert(s@.take(len as int) =~= s@);
    n
}

/// The data path that served the most samples; of several the one whose name
/// comes last.
pub fn most_common(sources: &Vec<TileSource>) -> (r: Option<TileSource>)
    ensures
        r == commonest(sources@, sources@.len() as int),
{
    let n: usize = sources.len();
    let mut best: Option<TileSource> = None;
    let mut i: usize = 0;
    while i < n
        invariant
            i <= n,
            n == sources@.len(),
            best == commonest(sources@, i as int),
        decreases n - i,
    {
        let x: TileSource = sources[i];
        best = match best {
            None => Some(x),
            Some(b) => {
                let cx: usize = count_uses(sources, x);
                let cb: usize = count_uses(sources, b);
                let text: String = source_label(x);
                let other: String = source_label(b);
                let later: bool = is_before(
                    &chars_of(other.as_str()),
                    &chars_of(text.as_str()),
                );
                if cx > cb || (cx == cb && later) {
                    Some(x)
                } else {
                    Some(b)
                }
            },
        };
        i = i + 1;
    }
    best
}

/// No data path occurs more often than the one that is reported.
pub proof fn law_reported_path_is_commonest(s: Seq<TileSource>, k: int, i: int)
    requires
        0 <= i < k <= s.len(),
    ensures
        commonest(s, k) is Some,
        uses(s, s[i]) <= uses(s, commonest(s, k)->0),
    decreases k,
{
    if i < k - 1 {
        law_reported_path_is_commonest(s, k - 1, i);
    } else if k > 1 {
        law_reported_path_is_commonest(s, k - 1, k - 2);
    }
}

proof fn lemma_insert_filtered(s: Seq<u64>, x: u64, p: spec_fn(u64) -> bool)
    ensures
        insert_number(s, x).filter(p).len() == s.filter(p).len() + if p(x) {
            1nat
        } else {
            0
        },
    decreases s.len(),
{
    reveal(Seq::filter);
    if s.len() == 0 || s.last() <= x {
        assert(s.push(x).drop_last() =~= s);
    } else {
        let init = s.drop_last();
        lemma_insert_filtered(init, x, p);
        let t = insert_number(init, x);
        assert(t.push(s.last()).drop_last() =~= t);
    }
}

proof fn lemma_sorted_filtered(s: Seq<u64>, p: spec_fn(u64) -> bool)
    ensures
        sorted(s).filter(p).len() == s.filter(p).len(),
    decreases s.len(),
{
    reveal(Seq::filter);
    if s.len() > 0 {
        lemma_sorted_filtered(s.drop_last(), p);
        lemma_insert_filtered(sorted(s.drop_last()), s.last(), p);
    }
}

proof fn lemma_filtered_from(s: Seq<u64>, k: int, p: spec_fn(u64) -> bool)
    requires
        0 <= k <= s.len(),
        forall|i: int| k <= i < s.len() ==> !p(#[trigger] s[i]),
    ensures
        s.filter(p).len() <= k,
    decreases s.len(),
{
    reveal(Seq::filter);
    if s.len() > 0 {
        let init = s.drop_last();
        if k < s.len() {
            assert(!p(s[s.len() - 1]));
            lemma_filtered_from(init, k, p);
        } else {
            lemma_filtered_from(init, k - 1, p);
        }
    }
}

proof fn lemma_filtered_to(s: Seq<u64>, k: int, p: spec_fn(u64) -> bool)
    requires
        0 <= k <= s.len(),
        forall|i: int| 0 <= i < k ==> p(#[trigger] s[i]),
    ensures
        s.filter(p).len() >= k,
    decreases s.len(),
{
    reveal(Seq::filter);
    if s.len() > 0 {
        let init = s.drop_last();
        let less = if k < s.len() {
            k
        } else {
            k - 1
        };
        assert forall|i: int| 0 <= i < less implies p(#[trigger] init[i]) by {
            assert(init[i] == s[i]);
        }
        lemma_filtered_to(init, less, p);
        if k == s.len() {
            assert(p(s[k - 1]));
        }
    }
}

/// The median is one of the values. No more than half of them are less, and
/// more than half of them are not greater.
pub proof fn law_median_is_in_the_middle(s: Seq<u64>)
    requires
        s.len() > 0,
    ensures
        ({
            let m = median_of(s);
            &&& s.contains(m)
            &&& 2 * s.filter(|x: u64| x < m).len() <= s.len()
            &&& 2 * s.filter(|x: u64| x <= m).len() > s.len()
        }),
{
    broadcast use vstd::seq_lib::group_to_multiset_ensures;

    let m = median_of(s);
    let t = sorted(s);
    let k = s.len() as int / 2;
    let less = |x: u64| x < m;
    let upto = |x: u64| x <= m;
    law_sorted_numbers(s);
    assert(t[k] == m);
    assert(t.contains(m));
    assert(t.to_multiset().count(m) > 0);
    lemma_sorted_filtered(s, less);
    lemma_sorted_filtered(s, upto);
    lemma_filtered_from(t, k, less);
    lemma_filtered_to(t, k + 1, upto);
}

/// The hits of candidates add up, and taking one out leaves the others.
pub proof fn law_candidates(cs: Seq<Candidate>, c: Candidate, i: int)
    requires
        0 <= i < cs.len(),
    ensures
        hits_before(cs, 0) == 0,
        hits_before(cs.push(c), cs.len() as int) == hits_before(cs, cs.len() as int),
        hits_before(cs.push(c), cs.len() as int + 1) == hits_before(cs, cs.len() as int) + c.hits,
        without(cs, i).len() == cs.len() - 1,
        without(cs, i).to_multiset() == cs.to_multiset().remove(cs[i]),
{
    broadcast use vstd::seq_lib::group_to_multiset_ensures;

    lemma_hits_of_prefix(cs, cs.push(c), cs.len() as int);
    let last = cs.last();
    let moved = cs.update(i, last);
    assert(moved.drop_last().push(last) =~= moved);
    assert(cs.drop_last().push(last) =~= cs);
    if i == cs.len() - 1 {
        assert(moved =~= cs);
        assert(without(cs, i).to_multiset() =~= cs.to_multiset().remove(cs[i]));
    } else {
        let init = cs.drop_last();
        assert(without(cs, i) =~= init.update(i, last));
        vstd::seq_lib::to_multiset_update(init, i, last);
        assert(without(cs, i).to_multiset() =~= cs.to_multiset().remove(cs[i]));
    }
}

proof fn lemma_hits_of_prefix(a: Seq<Candidate>, b: Seq<Candidate>, k: int)
    requires
        0 <= k <= a.len() <= b.len(),
        forall|i: int| 0 <= i < a.len() ==> #[trigger] a[i] == b[i],
    ensures
        hits_before(a, k) == hits_before(b, k),
    decreases k,
{
    if k > 0 {
        lemma_hits_of_prefix(a, b, k - 1);
        assert(a[k - 1] == b[k - 1]);
    }
}

/// How often a data path occurs is the number of places where it stands.
pub proof fn law_uses_are_places(s: Seq<TileSource>, x: TileSource)
    ensures
        uses(s, x) == s.filter(|y: TileSource| y == x).len(),
    decreases s.len(),
{
    reveal(Seq::filter);
    if s.len() > 0 {
        law_uses_are_places(s.drop_last(), x);
    }
}

/// Up to `k` two texts are equal.
pub open spec fn same_until(a: Seq<char>, b: Seq<char>, i: int, k: int) -> bool {
    forall|j: int| i <= j < k ==> #[trigger] a[j] == b[j]
}

/// At `k` the first text ends, or has the lesser character, and the other one
/// goes on.
pub open spec fn less_at(a: Seq<char>, b: Seq<char>, k: int) -> bool {
    k < b.len() && (k >= a.len() || a[k] < b[k])
}

/// A text comes before another one exactly if at the first place where they
/// differ it ends or has the lesser character.
pub proof fn law_order_of_texts(a: Seq<char>, b: Seq<char>, i: int)
    requires
        0 <= i <= a.len(),
    ensures
        text_before(a, b, i) <==> exists|k: int|
            i <= k <= a.len() && #[trigger] less_at(a, b, k) && same_until(a, b, i, k),
    decreases b.len() - i,
{
    if i < b.len() && i < a.len() {
        law_order_of_texts(a, b, i + 1);
        if text_before(a, b, i) {
            if a[i] < b[i] {
                assert(less_at(a, b, i) && same_until(a, b, i, i));
            } else {
                let k = choose|k: int|
                    i + 1 <= k <= a.len() && #[trigger] less_at(a, b, k) && same_until(
                        a,
                        b,
                        i + 1,
                        k,
                    );
                assert(less_at(a, b, k) && same_until(a, b, i, k));
            }
        }
        if exists|k: int|
            i <= k <= a.len() && #[trigger] less_at(a, b, k) && same_until(a, b, i, k) {
            let k = choose|k: int|
                i <= k <= a.len() && #[trigger] less_at(a, b, k) && same_until(a, b, i, k);
            if k > i {
                assert(a[i] == b[i]);
                assert(less_at(a, b, k) && same_until(a, b, i + 1, k));
            }
        }
    } else if i < b.len() {
        assert(less_at(a, b, i) && same_until(a, b, i, i));
    }
}

proof fn lemma_before_is_transitive(a: Seq<char>, b: Seq<char>, c: Seq<char>, i: int)
    requires
        0 <= i,
        text_before(a, b, i),
        text_before(b, c, i),
    ensures
        text_before(a, c, i),
    decreases b.len() - i,
{
    if i < a.len() && i < b.len() && i < c.len() && a[i] == b[i] && b[i] == c[i] {
        lemma_before_is_transitive(a, b, c, i + 1);
    }
}

/// The data path that is reported occurs; and of those that occur as often,
/// none has a name that comes later.
pub proof fn law_last_name_is_reported(s: Seq<TileSource>, k: int, i: int)
    requires
        0 <= i < k <= s.len(),
    ensures
        commonest(s, k) is Some,
        s.contains(commonest(s, k)->0),
        uses(s, s[i]) == uses(s, commonest(s, k)->0) ==> !text_before(
            label_of(commonest(s, k)->0),
            label_of(s[i]),
            0,
        ),
    decreases k,
{
    let now = commonest(s, k)->0;
    let x = s[k - 1];
    assert(s.contains(x));
    if k == 1 {
        lemma_not_before_itself(label_of(x), 0);
    } else {
        let j = if i < k - 1 {
            i
        } else {
            k - 2
        };
        law_last_name_is_reported(s, k - 1, j);
        law_reported_path_is_commonest(s, k - 1, j);
        let before = commonest(s, k - 1)->0;
        if i == k - 1 {
            lemma_not_before_itself(label_of(x), 0);
        } else if now != before && uses(s, s[i]) == uses(s, now) {
            // the new one is ahead of the one before, and as common
            if text_before(label_of(now), label_of(s[i]), 0) && text_before(
                label_of(before),
                label_of(now),
                0,
            ) {
                lemma_before_is_transitive(
                    label_of(before),
                    label_of(now),
                    label_of(s[i]),
                    0,
                );
            }
        }
    }
}

proof fn lemma_not_before_itself(a: Seq<char>, i: int)
    requires
        0 <= i,
    ensures
        !text_before(a, a, i),
    decreases a.len() - i,
{
    if i < a.len() {
        lemma_not_before_itself(a, i + 1);
    }
}

} // verus!
