//! Source selection: falseticker rejection by interval intersection (RFC 5905
//! section 11.2.1). Offsets and distances are whole nanoseconds.

use vstd::prelude::*;

use crate::arith::{lemma_mean_within, toward_zero};
use crate::natural::{steps_between, Natural};

verus! {

/// One source's current estimate, as fed to selection.
#[derive(Clone, Copy, Debug, PartialEq, Eq, Structural)]
pub struct SourceEstimate {
    /// Caller's identifier for the source (index, socket id, ...).
    pub id: usize,
    /// Nanoseconds to add to the local clock.
    pub offset: i64,
    /// Root distance: delay/2 + dispersion, nanoseconds. Bounds the interval;
    /// anything below one nanosecond counts as one.
    pub root_distance: i64,
    pub stratum: u8,
}

/// What selection came to.
#[derive(Debug)]
pub struct Selection {
    /// ids of sources judged truechimers, best first: lowest stratum, then
    /// tightest interval, then the order in which they were given.
    pub truechimers: Vec<usize>,
    /// The stretch of offsets that the majority agrees on, if there is one.
    pub interval: Option<(i128, i128)>,
    /// Combined offset of the truechimers, weighted by one over their distance.
    pub offset: Option<i64>,
}

impl SourceEstimate {
    /// Half the width of the correctness interval.
    pub open spec fn reach(self) -> int {
        if self.root_distance < 1 {
            1
        } else {
            self.root_distance as int
        }
    }

    /// The low end of the correctness interval.
    pub open spec fn low(self) -> int {
        self.offset - self.reach()
    }

    /// The high end of the correctness interval.
    pub open spec fn high(self) -> int {
        self.offset + self.reach()
    }
}

/// Whether `x` lies in a source's correctness interval.
pub open spec fn holds(source: SourceEstimate, x: int) -> bool {
    source.low() <= x <= source.high()
}

/// How many of the numbers below `n` satisfy `counts`.
pub open spec fn how_many(n: nat, counts: spec_fn(int) -> bool) -> nat
    decreases n,
{
    if n == 0 {
        0
    } else {
        how_many((n - 1) as nat, counts) + if counts(n - 1) {
            1nat
        } else {
            0
        }
    }
}

/// How many sources have `x` in their interval.
pub open spec fn support(sources: Seq<SourceEstimate>, x: int) -> nat {
    how_many(sources.len(), |i: int| holds(sources[i], x))
}

/// Whether no point lies in the intervals of a majority.
pub open spec fn no_majority(sources: Seq<SourceEstimate>) -> bool {
    forall|x: int| 2 * #[trigger] support(sources, x) <= sources.len()
}

/// Whether `[lo, hi]` is what the largest number of sources agree on: a majority
/// has `lo` in its intervals, no point lies in more of them, and of several such
/// points `lo` is the least; the stretch is all that those sources have in
/// common.
pub open spec fn best_agreement(sources: Seq<SourceEstimate>, lo: int, hi: int) -> bool {
    &&& lo <= hi
    &&& 2 * support(sources, lo) > sources.len()
    &&& forall|x: int| #[trigger]
        support(sources, x) <= support(sources, lo) && (support(sources, x) == support(sources, lo)
            ==> lo <= x)
    &&& forall|x: int| #[trigger] shared(sources, lo, x) <==> lo <= x <= hi
}

/// Whether every source that has `lo` in its interval also has `x` in it.
pub open spec fn shared(sources: Seq<SourceEstimate>, lo: int, x: int) -> bool {
    forall|i: int|
        0 <= i < sources.len() && holds(#[trigger] sources[i], lo) ==> holds(sources[i], x)
}

/// Whether a source's interval covers `[lo, hi]`.
pub open spec fn survives(source: SourceEstimate, lo: int, hi: int) -> bool {
    source.low() <= lo && hi <= source.high()
}

/// Whether the intervals of some sources have a point in common.
pub open spec fn is_clique(sources: Seq<SourceEstimate>, set: Set<int>) -> bool {
    &&& set.finite()
    &&& forall|i: int| #[trigger] set.contains(i) ==> 0 <= i < sources.len()
    &&& exists|x: int| #[trigger] all_hold(sources, set, x)
}

/// Whether `x` lies in the intervals of all of some sources.
pub open spec fn all_hold(sources: Seq<SourceEstimate>, set: Set<int>, x: int) -> bool {
    forall|i: int| set.contains(i) ==> holds(#[trigger] sources[i], x)
}

/// Whether `picked` lists a clique that is a majority, each of its sources once,
/// and no clique is larger.
pub open spec fn is_largest_clique(sources: Seq<SourceEstimate>, picked: Seq<int>) -> bool {
    &&& picked.no_duplicates()
    &&& is_clique(sources, picked.to_set())
    &&& forall|set: Set<int>| #[trigger] is_clique(sources, set) ==> set.len() <= picked.len()
    &&& 2 * picked.len() > sources.len()
}

/// Whether source `a` ranks strictly before source `b`.
pub open spec fn ranks_before(sources: Seq<SourceEstimate>, a: int, b: int) -> bool {
    let x = sources[a];
    let y = sources[b];
    x.stratum < y.stratum || (x.stratum == y.stratum && (x.root_distance < y.root_distance || (
    x.root_distance == y.root_distance && a < b)))
}

/// Whether `picked` lists the surviving sources, each once, best first.
pub open spec fn lists_survivors(
    sources: Seq<SourceEstimate>,
    lo: int,
    hi: int,
    picked: Seq<int>,
) -> bool {
    &&& forall|i: int|
        #![trigger picked.contains(i)]
        #![trigger sources[i]]
        picked.contains(i) <==> 0 <= i < sources.len() && survives(sources[i], lo, hi)
    &&& forall|a: int, b: int|
        0 <= a < b < picked.len() ==> ranks_before(
            sources,
            #[trigger] picked[a],
            #[trigger] picked[b],
        )
}

/// Whether `truechimers` holds the ids of the surviving sources, best first.
pub open spec fn names_survivors(
    sources: Seq<SourceEstimate>,
    lo: int,
    hi: int,
    truechimers: Seq<usize>,
) -> bool {
    exists|picked: Seq<int>| #[trigger]
        lists_survivors(sources, lo, hi, picked) && truechimers == picked.map_values(
            |i: int| sources[i].id,
        )
}

/// Whether key `a` comes strictly before key `b`, by value and then by place.
spec fn key_before(keys: Seq<(i128, i128)>, a: int, b: int) -> bool {
    keys[a].0 < keys[b].0 || (keys[a].0 == keys[b].0 && (keys[a].1 < keys[b].1 || (keys[a].1
        == keys[b].1 && a < b)))
}

spec fn ordered(keys: Seq<(i128, i128)>, order: Seq<usize>, n: int) -> bool {
    &&& order.len() == n <= usize::MAX
    &&& forall|a: int| 0 <= a < order.len() ==> (#[trigger] order[a]) < n
    &&& forall|i: int| 0 <= i < n ==> #[trigger] order.contains(i as usize)
    &&& forall|a: int, b: int|
        0 <= a < b < order.len() ==> key_before(
            keys,
            (#[trigger] order[a]) as int,
            (#[trigger] order[b]) as int,
        )
}

/// The places of the keys in ascending order, equal keys in the order given.
fn stable_order(keys: &Vec<(i128, i128)>) -> (order: Vec<usize>)
    ensures
        ordered(keys@, order@, keys@.len() as int),
{
    let mut order: Vec<usize> = Vec::new();
    let mut i: usize = 0;
    while i < keys.len()
        invariant
            i <= keys@.len(),
            ordered(keys@, order@, i as int),
        decreases keys@.len() - i,
    {
        let key: (i128, i128) = keys[i];
        let mut at: usize = order.len();
        while at > 0 && (keys[order[at - 1]].0 > key.0 || (keys[order[at - 1]].0 == key.0
            && keys[order[at - 1]].1 > key.1))
            invariant
                i < keys@.len(),
                at <= order@.len(),
                key == keys@[i as int],
                ordered(keys@, order@, i as int),
                forall|b: int|
                    at <= b < order@.len() ==> key_before(
                        keys@,
                        i as int,
                        (#[trigger] order@[b]) as int,
                    ),
            decreases at,
        {
            at = at - 1;
        }
        let ghost before = order@;
        order.insert(at, i);
        proof {
            let after = order@;
            assert(after == before.insert(at as int, i));
            if at > 0 {
                assert(key_before(keys@, before[at - 1] as int, i as int));
            }
            assert forall|a: int| 0 <= a < at implies key_before(
                keys@,
                (#[trigger] before[a]) as int,
                i as int,
            ) by {
                if a < at - 1 {
                    assert(key_before(keys@, before[a] as int, before[at - 1] as int));
                }
            }
            assert forall|a: int| 0 <= a < after.len() implies (#[trigger] after[a]) < i + 1 by {
                if a < at {
                    assert(after[a] == before[a]);
                } else if a > at {
                    assert(after[a] == before[a - 1]);
                }
            }
            assert forall|j: int| 0 <= j < i + 1 implies #[trigger] after.contains(j as usize) by {
                if j == i {
                    assert(after[at as int] == i);
                } else {
                    assert(before.contains(j as usize));
                    let w = before.index_of(j as usize);
                    assert(after[if w < at { w } else { w + 1 }] == j);
                }
            }
            assert forall|a: int, b: int| 0 <= a < b < after.len() implies key_before(
                keys@,
                (#[trigger] after[a]) as int,
                (#[trigger] after[b]) as int,
            ) by {
                let oa = if a < at { a } else { a - 1 };
                let ob = if b < at { b } else { b - 1 };
                if a != at {
                    assert(after[a] == before[oa]);
                }
                if b != at {
                    assert(after[b] == before[ob]);
                }
                if a != at && b != at {
                    assert(key_before(keys@, before[oa] as int, before[ob] as int));
                }
            }
        }
        i = i + 1;
    }
    order
}

fn reach_of(source: &SourceEstimate) -> (reach: i128)
    ensures
        reach == source.reach(),
{
    if source.root_distance < 1 {
        1
    } else {
        source.root_distance as i128
    }
}

pub(crate) proof fn lemma_same_count(n: nat, a: spec_fn(int) -> bool, b: spec_fn(int) -> bool)
    requires
        forall|i: int| 0 <= i < n ==> #[trigger] a(i) == b(i),
    ensures
        how_many(n, a) == how_many(n, b),
    decreases n,
{
    if n > 0 {
        lemma_same_count((n - 1) as nat, a, b);
        assert(a(n - 1) == b(n - 1));
    }
}

pub(crate) proof fn lemma_more_count(n: nat, a: spec_fn(int) -> bool, b: spec_fn(int) -> bool)
    requires
        forall|i: int| 0 <= i < n && #[trigger] a(i) ==> b(i),
    ensures
        how_many(n, a) <= how_many(n, b) <= n,
    decreases n,
{
    if n > 0 {
        lemma_more_count((n - 1) as nat, a, b);
        assert(a(n - 1) ==> b(n - 1));
    }
}

/// The source whose low end is the highest among the first `n` that hold `x`.
proof fn lemma_highest_low(sources: Seq<SourceEstimate>, x: int, n: nat) -> (top: int)
    requires
        n <= sources.len(),
        how_many(n, |i: int| holds(sources[i], x)) > 0,
    ensures
        0 <= top < n,
        holds(sources[top], x),
        forall|i: int|
            0 <= i < n && holds(#[trigger] sources[i], x) ==> sources[i].low()
                <= sources[top].low(),
    decreases n,
{
    let m = (n - 1) as nat;
    let counts = |i: int| holds(sources[i], x);
    if how_many(m, counts) > 0 {
        let before = lemma_highest_low(sources, x, m);
        if holds(sources[n - 1], x) && sources[n - 1].low() > sources[before].low() {
            n - 1
        } else {
            before
        }
    } else {
        assert forall|i: int| 0 <= i < m implies !holds(#[trigger] sources[i], x) by {
            if holds(sources[i], x) {
                lemma_counted(m, counts, i);
            }
        }
        n - 1
    }
}

proof fn lemma_counted(n: nat, counts: spec_fn(int) -> bool, i: int)
    requires
        0 <= i < n,
        counts(i),
    ensures
        how_many(n, counts) > 0,
    decreases n,
{
    if i < n - 1 {
        lemma_counted((n - 1) as nat, counts, i);
    }
}

/// A point's support is not above that of the highest low end below it.
proof fn lemma_low_ends_suffice(sources: Seq<SourceEstimate>, x: int) -> (top: int)
    requires
        support(sources, x) > 0,
    ensures
        0 <= top < sources.len(),
        sources[top].low() <= x,
        support(sources, x) <= support(sources, sources[top].low()),
{
    let top = lemma_highest_low(sources, x, sources.len());
    let y = sources[top].low();
    let a = |i: int| holds(sources[i], x);
    let b = |i: int| holds(sources[i], y);
    assert forall|i: int| 0 <= i < sources.len() && #[trigger] a(i) implies b(i) by {
        assert(holds(sources[i], x));
    }
    lemma_more_count(sources.len(), a, b);
    top
}

/// A set of numbers below `n` has no more members than are counted.
proof fn lemma_set_is_counted(n: nat, set: Set<int>, counts: spec_fn(int) -> bool)
    requires
        set.finite(),
        forall|i: int| #[trigger] set.contains(i) ==> 0 <= i < n && counts(i),
    ensures
        set.len() <= how_many(n, counts),
    decreases n,
{
    if n == 0 {
        assert(set =~= Set::empty());
    } else {
        lemma_set_is_counted((n - 1) as nat, set.remove(n - 1), counts);
        if set.contains(n - 1) {
            assert(counts(n - 1));
        } else {
            assert(set.remove(n - 1) =~= set);
        }
    }
}

/// A list without repetitions of exactly the numbers that count is as long as
/// they are many.
proof fn lemma_list_is_counted(n: nat, list: Seq<int>, counts: spec_fn(int) -> bool)
    requires
        list.no_duplicates(),
        forall|i: int| #[trigger] list.contains(i) <==> 0 <= i < n && counts(i),
    ensures
        list.len() == how_many(n, counts),
    decreases n,
{
    if n == 0 {
        if list.len() > 0 {
            assert(list.contains(list[0]));
        }
    } else if counts(n - 1) {
        assert(list.contains(n - 1));
        let at = list.index_of(n - 1);
        let rest = list.remove(at);
        assert forall|i: int| #[trigger] rest.contains(i) <==> 0 <= i < n - 1 && counts(i) by {
            if rest.contains(i) {
                let k = rest.index_of(i);
                assert(rest[k] == list[if k < at { k } else { k + 1 }]);
                assert(list.contains(i));
            }
            if 0 <= i < n - 1 && counts(i) {
                assert(list.contains(i));
                let k = list.index_of(i);
                assert(rest[if k < at { k } else { k - 1 }] == i);
            }
        }
        assert(rest.no_duplicates()) by {
            assert forall|x: int, y: int|
                0 <= x < rest.len() && 0 <= y < rest.len() && x != y implies rest[x] != rest[y] by {
                assert(rest[x] == list[if x < at { x } else { x + 1 }]);
                assert(rest[y] == list[if y < at { y } else { y + 1 }]);
            }
        }
        lemma_list_is_counted((n - 1) as nat, rest, counts);
    } else {
        assert forall|i: int| #[trigger] list.contains(i) <==> 0 <= i < n - 1 && counts(i) by {
        }
        lemma_list_is_counted((n - 1) as nat, list, counts);
    }
}

/// The survivors of the best agreement are a largest clique: their intervals
/// share a point, no larger set of sources shares one, and they are a majority.
pub proof fn the_survivors_are_a_largest_clique(
    sources: Seq<SourceEstimate>,
    lo: int,
    hi: int,
    picked: Seq<int>,
)
    requires
        best_agreement(sources, lo, hi),
        lists_survivors(sources, lo, hi, picked),
    ensures
        is_largest_clique(sources, picked),
        picked.len() == support(sources, lo),
{
    let counts = |i: int| holds(sources[i], lo);
    assert(picked.no_duplicates()) by {
        assert forall|x: int, y: int|
            0 <= x < picked.len() && 0 <= y < picked.len() && x != y implies picked[x]
            != picked[y] by {
            if x < y {
                assert(ranks_before(sources, picked[x], picked[y]));
            } else {
                assert(ranks_before(sources, picked[y], picked[x]));
            }
        }
    }
    assert(shared(sources, lo, hi));
    assert forall|i: int| #[trigger] picked.contains(i) <==> 0 <= i < sources.len() && counts(
        i,
    ) by {
        assert(picked.contains(i) <==> 0 <= i < sources.len() && survives(sources[i], lo, hi));
        if 0 <= i < sources.len() {
            assert(holds(sources[i], lo) ==> holds(sources[i], hi));
        }
    }
    lemma_list_is_counted(sources.len(), picked, counts);
    let set = picked.to_set();
    assert forall|i: int| #[trigger] set.contains(i) implies 0 <= i < sources.len() by {
        assert(picked.contains(i));
    }
    assert(all_hold(sources, set, lo)) by {
        assert forall|i: int| set.contains(i) implies holds(#[trigger] sources[i], lo) by {
            assert(picked.contains(i));
            assert(counts(i));
        }
    }
    vstd::seq_lib::seq_to_set_is_finite(picked);
    assert forall|set: Set<int>| #[trigger] is_clique(sources, set) implies set.len()
        <= picked.len() by {
        lemma_clique_is_supported(sources, set);
    }
}

proof fn lemma_clique_is_supported(sources: Seq<SourceEstimate>, set: Set<int>) -> (x: int)
    requires
        is_clique(sources, set),
    ensures
        set.len() <= support(sources, x),
{
    let x = choose|x: int| #[trigger] all_hold(sources, set, x);
    let counts = |i: int| holds(sources[i], x);
    assert forall|i: int| #[trigger] set.contains(i) implies 0 <= i < sources.len() && counts(
        i,
    ) by {
        assert(holds(sources[i], x));
    }
    lemma_set_is_counted(sources.len(), set, counts);
    x
}

fn low_of(source: &SourceEstimate) -> (low: i128)
    ensures
        low == source.low(),
        -0x1_0000_0000_0000_0000 <= low <= 0x1_0000_0000_0000_0000,
{
    source.offset as i128 - reach_of(source)
}

fn high_of(source: &SourceEstimate) -> (high: i128)
    ensures
        high == source.high(),
        -0x1_0000_0000_0000_0000 <= high <= 0x1_0000_0000_0000_0000,
{
    source.offset as i128 + reach_of(source)
}

/// How many sources have `x` in their interval.
fn count_holding(sources: &[SourceEstimate], x: i128) -> (count: usize)
    ensures
        count == support(sources@, x as int),
        count <= sources@.len(),
{
    let ghost counts = |i: int| holds(sources@[i], x as int);
    let mut count: usize = 0;
    let mut i: usize = 0;
    while i < sources.len()
        invariant
            i <= sources@.len(),
            counts == (|i: int| holds(sources@[i], x as int)),
            count == how_many(i as nat, counts),
            count <= i,
        decreases sources@.len() - i,
    {
        if low_of(&sources[i]) <= x && x <= high_of(&sources[i]) {
            count = count + 1;
        }
        i = i + 1;
    }
    count
}

/// The least point that the most sources have in their intervals, and how many
/// do.
fn best_point(sources: &[SourceEstimate]) -> (best: (i128, usize))
    requires
        sources@.len() > 0,
    ensures
        best.1 == support(sources@, best.0 as int),
        best.1 > 0,
        exists|i: int| 0 <= i < sources@.len() && (#[trigger] sources@[i]).low() == best.0,
        forall|x: int| #[trigger]
            support(sources@, x) <= best.1 && (support(sources@, x) == best.1 ==> best.0 <= x),
{
    let mut point: i128 = low_of(&sources[0]);
    let mut count: usize = count_holding(sources, point);
    let ghost counts = |i: int| holds(sources@[i], point as int);
    proof {
        assert(counts(0));
        lemma_counted(sources@.len(), counts, 0);
        assert(sources@[0].low() == point);
    }
    let mut i: usize = 1;
    while i < sources.len()
        invariant
            1 <= i <= sources@.len(),
            count == support(sources@, point as int),
            count > 0,
            exists|j: int| 0 <= j < i && (#[trigger] sources@[j]).low() == point,
            forall|j: int|
                0 <= j < i ==> {
                    let own = support(sources@, (#[trigger] sources@[j]).low());
                    own <= count && (own == count ==> point <= sources@[j].low())
                },
        decreases sources@.len() - i,
    {
        let own: i128 = low_of(&sources[i]);
        let held: usize = count_holding(sources, own);
        if held > count || (held == count && own < point) {
            point = own;
            count = held;
            assert(sources@[i as int].low() == point);
        }
        i = i + 1;
    }
    proof {
        assert forall|x: int| #[trigger]
            support(sources@, x) <= count && (support(sources@, x) == count ==> point <= x) by {
            if support(sources@, x) > 0 {
                let top = lemma_low_ends_suffice(sources@, x);
                assert(support(sources@, sources@[top].low()) <= count);
            }
        }
    }
    (point, count)
}

/// The agreement of the most sources, if they are a majority.
fn agreement(sources: &[SourceEstimate]) -> (found: Option<(i128, i128)>)
    ensures
        match found {
            Some((lo, hi)) => best_agreement(sources@, lo as int, hi as int),
            None => no_majority(sources@),
        },
{
    let n: usize = sources.len();
    if n == 0 {
        return None;
    }
    let (lo, count): (i128, usize) = best_point(sources);
    if count <= n / 2 {
        assert forall|x: int| 2 * #[trigger] support(sources@, x) <= sources@.len() by {
            assert(support(sources@, x) <= count);
        }
        return None;
    }
    let ghost w = choose|i: int| 0 <= i < sources@.len() && (#[trigger] sources@[i]).low() == lo;
    let mut hi: i128 = 0x1_0000_0000_0000_0000;
    let mut i: usize = 0;
    while i < n
        invariant
            i <= n == sources@.len(),
            lo <= 0x1_0000_0000_0000_0000,
            lo <= hi <= 0x1_0000_0000_0000_0000,
            forall|j: int|
                0 <= j < i && holds(#[trigger] sources@[j], lo as int) ==> hi <= sources@[j].high(),
            hi < 0x1_0000_0000_0000_0000 ==> exists|j: int|
                0 <= j < i && holds(#[trigger] sources@[j], lo as int) && sources@[j].high() == hi,
        decreases n - i,
    {
        let high: i128 = high_of(&sources[i]);
        if low_of(&sources[i]) <= lo && lo <= high && high < hi {
            hi = high;
            assert(holds(sources@[i as int], lo as int) && sources@[i as int].high() == hi);
        }
        i = i + 1;
    }
    proof {
        assert(holds(sources@[w], lo as int));
        assert forall|x: int| #[trigger] shared(sources@, lo as int, x) <==> lo <= x <= hi by {
            if shared(sources@, lo as int, x) {
                assert(holds(sources@[w], x));
                let j = choose|j: int|
                    0 <= j < n && holds(#[trigger] sources@[j], lo as int) && sources@[j].high()
                        == hi;
                if hi < 0x1_0000_0000_0000_0000 {
                    assert(holds(sources@[j], x));
                } else {
                    assert(sources@[w].high() <= hi);
                }
            }
        }
    }
    Some((lo, hi))
}

/// The product of the distances of the survivors of the first `n` sources: what
/// each of them divides.
pub open spec fn product(sources: Seq<SourceEstimate>, lo: int, hi: int, n: nat) -> int
    decreases n,
{
    if n == 0 {
        1
    } else {
        let before = product(sources, lo, hi, (n - 1) as nat);
        if survives(sources[n - 1], lo, hi) {
            before * sources[n - 1].reach()
        } else {
            before
        }
    }
}

/// Whether the distances of the survivors of the first `n` sources all divide
/// `scale`.
pub open spec fn is_scale(
    sources: Seq<SourceEstimate>,
    lo: int,
    hi: int,
    scale: int,
    n: nat,
) -> bool {
    &&& scale >= 1
    &&& forall|i: int|
        0 <= i < n && survives(#[trigger] sources[i], lo, hi) ==> scale % sources[i].reach() == 0
}

/// The weights of the survivors of the first `n` sources, one over the distance
/// each, and their offsets times their weights: both times `scale`, which every
/// distance divides.
pub open spec fn weighted(
    sources: Seq<SourceEstimate>,
    lo: int,
    hi: int,
    scale: int,
    n: nat,
) -> (int, int)
    decreases n,
{
    if n == 0 {
        (0, 0)
    } else {
        let (weights, offsets) = weighted(sources, lo, hi, scale, (n - 1) as nat);
        let source = sources[n - 1];
        if survives(source, lo, hi) {
            let w = scale / source.reach();
            (weights + w, offsets + w * source.offset)
        } else {
            (weights, offsets)
        }
    }
}

/// The mean of the survivors' offsets, each weighted by one over its distance, in
/// whole nanoseconds, rounded toward zero.
pub open spec fn combined_offset(sources: Seq<SourceEstimate>, lo: int, hi: int) -> Option<int> {
    let scale = product(sources, lo, hi, sources.len());
    let (weights, offsets) = weighted(sources, lo, hi, scale, sources.len());
    if weights == 0 {
        None
    } else {
        Some(toward_zero(offsets, weights))
    }
}

/// A larger scale scales the sums.
pub(crate) proof fn lemma_scaled(
    sources: Seq<SourceEstimate>,
    lo: int,
    hi: int,
    scale: int,
    m: int,
    n: nat,
)
    requires
        n <= sources.len(),
        m >= 1,
        is_scale(sources, lo, hi, scale, n),
    ensures
        is_scale(sources, lo, hi, scale * m, n),
        ({
            let (weights, offsets) = weighted(sources, lo, hi, scale, n);
            weighted(sources, lo, hi, scale * m, n) == (weights * m, offsets * m)
        }),
    decreases n,
{
    assert(scale * m >= 1) by (nonlinear_arith)
        requires
            scale >= 1,
            m >= 1,
    ;
    if n > 0 {
        let k = (n - 1) as nat;
        lemma_scaled(sources, lo, hi, scale, m, k);
        let last = sources[n - 1];
        if survives(last, lo, hi) {
            let (weights, offsets) = weighted(sources, lo, hi, scale, k);
            let r = last.reach();
            let w = scale / r;
            let o = last.offset as int;
            assert(scale == r * w) by {
                vstd::arithmetic::div_mod::lemma_fundamental_div_mod(scale, r);
            }
            assert(scale * m == (w * m) * r) by (nonlinear_arith)
                requires
                    scale == r * w,
            ;
            assert(((w * m) * r) / r == w * m && ((w * m) * r) % r == 0) by {
                vstd::arithmetic::div_mod::lemma_div_multiples_vanish(w * m, r);
                vstd::arithmetic::div_mod::lemma_mod_multiples_basic(w * m, r);
                assert(r * (w * m) == (w * m) * r) by (nonlinear_arith);
            }
            assert((weights + w) * m == weights * m + w * m) by (nonlinear_arith);
            assert((offsets + w * o) * m == offsets * m + (w * m) * o) by (nonlinear_arith);
        }
        assert forall|i: int|
            0 <= i < n && survives(#[trigger] sources[i], lo, hi) implies (scale * m)
            % sources[i].reach() == 0 by {
            if i == n - 1 {
                assert(sources[i] == last);
            }
        }
    } else {
        assert(0 * m == 0);
    }
}

/// The product is a scale, and with one more survivor each sum grows by what that
/// one adds.
pub(crate) proof fn lemma_product(sources: Seq<SourceEstimate>, lo: int, hi: int, n: nat)
    requires
        n <= sources.len(),
    ensures
        is_scale(sources, lo, hi, product(sources, lo, hi, n), n),
        n > 0 ==> ({
            let k = (n - 1) as nat;
            let last = sources[n - 1];
            let before = product(sources, lo, hi, k);
            let (weights, offsets) = weighted(sources, lo, hi, before, k);
            let r = last.reach();
            weighted(sources, lo, hi, product(sources, lo, hi, n), n) == if survives(last, lo, hi) {
                (weights * r + before, offsets * r + before * last.offset)
            } else {
                (weights, offsets)
            }
        }),
    decreases n,
{
    if n > 0 {
        let k = (n - 1) as nat;
        lemma_product(sources, lo, hi, k);
        let last = sources[n - 1];
        let before = product(sources, lo, hi, k);
        if survives(last, lo, hi) {
            let r = last.reach();
            lemma_scaled(sources, lo, hi, before, r, k);
            vstd::arithmetic::div_mod::lemma_div_multiples_vanish(before, r);
            vstd::arithmetic::div_mod::lemma_mod_multiples_basic(before, r);
            assert(r * before == before * r) by (nonlinear_arith);
            assert forall|i: int|
                0 <= i < n && survives(#[trigger] sources[i], lo, hi) implies (before * r)
                % sources[i].reach() == 0 by {
                if i == n - 1 {
                    assert(sources[i] == last);
                }
            }
        }
    }
}

/// Where every survivor's offset is within bounds, so is the weighted sum, and
/// every survivor has a weight.
pub(crate) proof fn lemma_weighted(
    sources: Seq<SourceEstimate>,
    lo: int,
    hi: int,
    scale: int,
    n: nat,
    low: int,
    high: int,
)
    requires
        n <= sources.len(),
        is_scale(sources, lo, hi, scale, n),
        forall|i: int|
            0 <= i < n && survives(#[trigger] sources[i], lo, hi) ==> low <= sources[i].offset
                <= high,
    ensures
        ({
            let (weights, offsets) = weighted(sources, lo, hi, scale, n);
            &&& weights >= 0
            &&& low * weights <= offsets <= high * weights
            &&& weights > 0 <==> exists|i: int|
                0 <= i < n && survives(#[trigger] sources[i], lo, hi)
        }),
    decreases n,
{
    if n > 0 {
        let m = (n - 1) as nat;
        lemma_weighted(sources, lo, hi, scale, m, low, high);
        let (weights, offsets) = weighted(sources, lo, hi, scale, m);
        let last = sources[n - 1];
        if survives(last, lo, hi) {
            let r = last.reach();
            let w = scale / r;
            let o = last.offset as int;
            vstd::arithmetic::div_mod::lemma_fundamental_div_mod(scale, r);
            assert(w >= 1) by (nonlinear_arith)
                requires
                    scale == r * w,
                    scale >= 1,
                    r >= 1,
            ;
            assert(low * (weights + w) <= offsets + w * o <= high * (weights + w))
                by (nonlinear_arith)
                requires
                    low * weights <= offsets <= high * weights,
                    low <= o <= high,
                    w >= 0,
            ;
            assert(survives(sources[n - 1], lo, hi));
        } else if exists|i: int| 0 <= i < n && survives(#[trigger] sources[i], lo, hi) {
            let i = choose|i: int| 0 <= i < n && survives(#[trigger] sources[i], lo, hi);
            assert(0 <= i < m && survives(sources[i], lo, hi));
        }
    } else {
        assert(low * 0 == 0 && high * 0 == 0);
    }
}

/// The combined offset lies among the offsets that it combines.
pub proof fn the_combined_offset_is_among_the_survivors(
    sources: Seq<SourceEstimate>,
    lo: int,
    hi: int,
    low: int,
    high: int,
)
    requires
        forall|i: int|
            0 <= i < sources.len() && survives(#[trigger] sources[i], lo, hi) ==> low
                <= sources[i].offset <= high,
    ensures
        match combined_offset(sources, lo, hi) {
            Some(o) => low <= o <= high,
            None => forall|i: int|
                0 <= i < sources.len() ==> !survives(#[trigger] sources[i], lo, hi),
        },
{
    let scale = product(sources, lo, hi, sources.len());
    lemma_product(sources, lo, hi, sources.len());
    lemma_weighted(sources, lo, hi, scale, sources.len(), low, high);
    let (weights, offsets) = weighted(sources, lo, hi, scale, sources.len());
    if weights > 0 {
        lemma_mean_within(offsets, weights, low, high);
    }
}

fn is_survivor(source: &SourceEstimate, lo: i128, hi: i128) -> (yes: bool)
    ensures
        yes == survives(*source, lo as int, hi as int),
{
    low_of(source) <= lo && hi <= high_of(source)
}

/// The mean of the survivors' offsets, each weighted by one over its distance.
fn combine(sources: &[SourceEstimate], lo: i128, hi: i128) -> (offset: Option<i64>)
    ensures
        match combined_offset(sources@, lo as int, hi as int) {
            Some(o) => offset is Some && offset->Some_0 == o,
            None => offset is None,
        },
{
    let mut scale: Natural = Natural::zero();
    scale.times_plus(1, 1);
    let mut weights: Natural = Natural::zero();
    let mut above: Natural = Natural::zero();
    let mut below: Natural = Natural::zero();
    let mut any: bool = false;
    let mut i: usize = 0;
    while i < sources.len()
        invariant
            i <= sources@.len(),
            scale.value() == product(sources@, lo as int, hi as int, i as nat),
            (weights.value() as int, above.value() - below.value()) == weighted(
                sources@,
                lo as int,
                hi as int,
                product(sources@, lo as int, hi as int, i as nat),
                i as nat,
            ),
            any ==> weights.value() > 0,
            !any ==> weights.value() == 0,
        decreases sources@.len() - i,
    {
        proof {
            lemma_product(sources@, lo as int, hi as int, (i + 1) as nat);
            lemma_product(sources@, lo as int, hi as int, i as nat);
        }
        if is_survivor(&sources[i], lo, hi) {
            let reach: u64 = reach_of(&sources[i]) as u64;
            let o: i64 = sources[i].offset;
            let far: u64 = if o < 0 {
                (-(o as i128)) as u64
            } else {
                o as u64
            };
            let mut share: Natural = scale.copy();
            share.times_plus(far, 0);
            let ghost (w, a, b, s, r) = (
                weights.value() as int,
                above.value() as int,
                below.value() as int,
                scale.value() as int,
                reach as int,
            );
            weights.times_plus(reach, 0);
            weights.plus(&scale);
            above.times_plus(reach, 0);
            below.times_plus(reach, 0);
            if o < 0 {
                below.plus(&share);
            } else {
                above.plus(&share);
            }
            scale.times_plus(reach, 0);
            any = true;
            proof {
                assert((a - b) * r == a * r - b * r) by (nonlinear_arith);
                assert(s * (-(far as int)) == -(s * far)) by (nonlinear_arith);
                assert(w * r >= 0) by (nonlinear_arith)
                    requires
                        w >= 0,
                        r >= 0,
                ;
            }
        }
        i = i + 1;
    }
    if !any {
        return None;
    }
    proof {
        lemma_product(sources@, lo as int, hi as int, sources@.len());
        lemma_weighted(
            sources@,
            lo as int,
            hi as int,
            product(sources@, lo as int, hi as int, sources@.len()),
            sources@.len(),
            i64::MIN as int,
            i64::MAX as int,
        );
        let w = weights.value() as int;
        assert(i64::MIN * w == -(w * 0x8000_0000_0000_0000)) by (nonlinear_arith);
        assert(i64::MAX * w == w * 0x7fff_ffff_ffff_ffff) by (nonlinear_arith);
    }
    if above.is_less(&below) {
        let far: u64 = steps_between(&above, &below, &weights, 0x8000_0000_0000_0000);
        Some((-(far as i128)) as i64)
    } else {
        let far: u64 = steps_between(&below, &above, &weights, 0x7fff_ffff_ffff_ffff);
        Some(far as i64)
    }
}

/// Find the largest clique of sources whose correctness intervals share a
/// common point, list it best first, and combine its offsets. Where no majority
/// shares a point, nobody is listed. Of several largest cliques the one that
/// shares the least point is taken.
pub fn select(sources: &[SourceEstimate]) -> (selection: Selection)
    ensures
        match selection.interval {
            Some((lo, hi)) => best_agreement(sources@, lo as int, hi as int) && names_survivors(
                sources@,
                lo as int,
                hi as int,
                selection.truechimers@,
            ),
            None => no_majority(sources@) && selection.truechimers@.len() == 0,
        },
        if selection.truechimers@.len() > 0 {
            exists|picked: Seq<int>| #[trigger]
                is_largest_clique(sources@, picked) && selection.truechimers@ == picked.map_values(
                    |i: int| sources@[i].id,
                )
        } else {
            forall|set: Set<int>| #[trigger]
                is_clique(sources@, set) ==> 2 * set.len() <= sources@.len()
        },
        match selection.interval {
            Some((lo, hi)) => match combined_offset(sources@, lo as int, hi as int) {
                Some(o) => selection.offset is Some && selection.offset->Some_0 == o,
                None => false,
            },
            None => selection.offset is None,
        },
{
    let (lo, hi): (i128, i128) = match agreement(sources) {
        Some(range) => range,
        None => {
            proof {
                assert forall|set: Set<int>| #[trigger] is_clique(sources@, set) implies 2
                    * set.len() <= sources@.len() by {
                    let x = lemma_clique_is_supported(sources@, set);
                    assert(2 * support(sources@, x) <= sources@.len());
                }
            }
            return Selection { truechimers: Vec::new(), interval: None, offset: None };
        },
    };
    let mut kept: Vec<usize> = Vec::new();
    let mut keys: Vec<(i128, i128)> = Vec::new();
    let mut i: usize = 0;
    while i < sources.len()
        invariant
            i <= sources@.len(),
            keys@.len() == kept@.len(),
            forall|k: int|
                0 <= k < kept@.len() ==> {
                    &&& (#[trigger] kept@[k]) < i
                    &&& survives(sources@[kept@[k] as int], lo as int, hi as int)
                    &&& keys@[k].0 == sources@[kept@[k] as int].stratum
                    &&& keys@[k].1 == sources@[kept@[k] as int].root_distance
                },
            forall|a: int, b: int|
                0 <= a < b < kept@.len() ==> (#[trigger] kept@[a]) < (#[trigger] kept@[b]),
            forall|j: int|
                0 <= j < i && survives(#[trigger] sources@[j], lo as int, hi as int)
                    ==> kept@.contains(j as usize),
        decreases sources@.len() - i,
    {
        let source: SourceEstimate = sources[i];
        let ghost before = kept@;
        if is_survivor(&source, lo, hi) {
            kept.push(i);
            keys.push((source.stratum as i128, source.root_distance as i128));
            assert(kept@[kept@.len() - 1] == i);
            assert(kept@.contains(i));
        }
        proof {
            assert forall|j: int|
                0 <= j < i + 1 && survives(
                    #[trigger] sources@[j],
                    lo as int,
                    hi as int,
                ) implies kept@.contains(j as usize) by {
                if j < i {
                    assert(before.contains(j as usize));
                    let w = before.index_of(j as usize);
                    assert(kept@[w] == j as usize);
                }
            }
        }
        i = i + 1;
    }
    let order: Vec<usize> = stable_order(&keys);
    let mut truechimers: Vec<usize> = Vec::new();
    let mut k: usize = 0;
    while k < order.len()
        invariant
            k <= order@.len(),
            ordered(keys@, order@, keys@.len() as int),
            keys@.len() == kept@.len(),
            forall|a: int| 0 <= a < kept@.len() ==> (#[trigger] kept@[a]) < sources@.len(),
            truechimers@.len() == k,
            forall|a: int|
                0 <= a < k ==> (#[trigger] truechimers@[a])
                    == sources@[kept@[order@[a] as int] as int].id,
        decreases order@.len() - k,
    {
        assert(order@[k as int] < kept@.len());
        assert(kept@[order@[k as int] as int] < sources@.len());
        truechimers.push(sources[kept[order[k]]].id);
        k = k + 1;
    }
    proof {
        let picked = Seq::new(order@.len(), |a: int| kept@[order@[a] as int] as int);
        assert(lists_survivors(sources@, lo as int, hi as int, picked)) by {
            assert forall|j: int|
                0 <= j < sources@.len() && survives(
                    #[trigger] sources@[j],
                    lo as int,
                    hi as int,
                ) implies picked.contains(j) by {
                assert(kept@.contains(j as usize));
                let w = kept@.index_of(j as usize);
                assert(order@.contains(w as usize));
                let a = order@.index_of(w as usize);
                assert(picked[a] == j);
            }
            assert forall|j: int| #[trigger] picked.contains(j) implies 0 <= j < sources@.len()
                && survives(sources@[j], lo as int, hi as int) by {
                let a = picked.index_of(j);
                assert(picked[a] == j);
                assert(order@[a] < kept@.len());
                assert(kept@[order@[a] as int] < sources@.len());
            }
            assert forall|a: int, b: int| 0 <= a < b < picked.len() implies ranks_before(
                sources@,
                #[trigger] picked[a],
                #[trigger] picked[b],
            ) by {
                assert(key_before(keys@, order@[a] as int, order@[b] as int));
                assert(order@[a] < kept@.len() && order@[b] < kept@.len());
                assert(kept@[order@[a] as int] < sources@.len());
                assert(kept@[order@[b] as int] < sources@.len());
            }
        }
        assert(truechimers@ =~= picked.map_values(|i: int| sources@[i].id));
        the_survivors_are_a_largest_clique(sources@, lo as int, hi as int, picked);
        lemma_product(sources@, lo as int, hi as int, sources@.len());
        lemma_weighted(
            sources@,
            lo as int,
            hi as int,
            product(sources@, lo as int, hi as int, sources@.len()),
            sources@.len(),
            i64::MIN as int,
            i64::MAX as int,
        );
        assert(picked.contains(picked[0]));
        assert(survives(sources@[picked[0]], lo as int, hi as int));
    }
    let offset: Option<i64> = combine(sources, lo, hi);
    Selection { truechimers, interval: Some((lo, hi)), offset }
}

} // verus!
