//! The number at a place of some numbers in ascending order, found by counting.

use vstd::prelude::*;

verus! {

/// How many of the first `n` numbers are below `v`.
pub open spec fn below(s: Seq<i128>, v: i128, n: nat) -> nat
    decreases n,
{
    if n == 0 {
        0
    } else {
        below(s, v, (n - 1) as nat) + if s[n - 1] < v {
            1nat
        } else {
            0
        }
    }
}

/// How many of the first `n` numbers are `v` or below.
pub open spec fn at_most(s: Seq<i128>, v: i128, n: nat) -> nat
    decreases n,
{
    if n == 0 {
        0
    } else {
        at_most(s, v, (n - 1) as nat) + if s[n - 1] <= v {
            1nat
        } else {
            0
        }
    }
}

/// Whether `v` is what stands at place `k` when the numbers are sorted.
pub open spec fn is_ranked(s: Seq<i128>, k: nat, v: i128) -> bool {
    &&& s.contains(v)
    &&& below(s, v, s.len()) <= k < at_most(s, v, s.len())
}

/// Whether `v` is the number in the middle; of an even count, the upper of the
/// two.
pub open spec fn is_median(s: Seq<i128>, v: i128) -> bool {
    is_ranked(s, s.len() / 2, v)
}

/// The number in the middle.
pub open spec fn median(s: Seq<i128>) -> i128 {
    choose|v: i128| is_median(s, v)
}

fn count_at_most(s: &[i128], v: i128) -> (count: usize)
    ensures
        count == at_most(s@, v, s@.len()),
{
    let mut count: usize = 0;
    let mut i: usize = 0;
    while i < s.len()
        invariant
            i <= s@.len(),
            count == at_most(s@, v, i as nat),
            count <= i,
        decreases s@.len() - i,
    {
        if s[i] <= v {
            count = count + 1;
        }
        i = i + 1;
    }
    count
}

/// The number at place `k` of the numbers in ascending order.
pub fn ranked(s: &[i128], k: usize) -> (v: i128)
    requires
        k < s@.len(),
    ensures
        is_ranked(s@, k as nat, v),
{
    // The answer is the least value with more than `k` numbers at or below it.
    let mut best: i128 = s[0];
    let mut found: bool = false;
    let mut i: usize = 0;
    while i < s.len()
        invariant
            k < s@.len(),
            i <= s@.len(),
            found ==> s@.contains(best) && k < at_most(s@, best, s@.len()),
            forall|j: int|
                0 <= j < i && k < at_most(s@, #[trigger] s@[j], s@.len()) ==> found && best <= s@[j],
        decreases s@.len() - i,
    {
        let v: i128 = s[i];
        assert(s@[i as int] == v);
        if !found || v < best {
            if count_at_most(s, v) > k {
                best = v;
                found = true;
            }
        }
        i = i + 1;
    }
    proof {
        lemma_some_value_reaches(s@, k as nat);
        lemma_least_is_ranked(s@, k as nat, best);
    }
    best
}

/// The number in the middle.
pub fn middle(s: &[i128]) -> (v: i128)
    requires
        s@.len() > 0,
    ensures
        v == median(s@),
        s@.contains(v),
{
    let v: i128 = ranked(s, s.len() / 2);
    proof {
        assert(is_median(s@, v));
        a_place_holds_one_number(s@, s@.len() / 2, v, median(s@));
    }
    v
}

/// There is one number at each place.
pub proof fn a_place_holds_one_number(s: Seq<i128>, k: nat, v: i128, w: i128)
    requires
        is_ranked(s, k, v),
        is_ranked(s, k, w),
    ensures
        v == w,
{
    if v < w {
        lemma_at_most_below(s, v, w, s.len());
    } else if w < v {
        lemma_at_most_below(s, w, v, s.len());
    }
}

proof fn lemma_at_most_below(s: Seq<i128>, v: i128, w: i128, n: nat)
    requires
        v < w,
    ensures
        at_most(s, v, n) <= below(s, w, n),
    decreases n,
{
    if n > 0 {
        lemma_at_most_below(s, v, w, (n - 1) as nat);
    }
}

/// The largest number is one that all numbers are at or below.
proof fn lemma_some_value_reaches(s: Seq<i128>, k: nat)
    requires
        k < s.len(),
    ensures
        exists|j: int| 0 <= j < s.len() && k < at_most(s, #[trigger] s[j], s.len()),
{
    let top = lemma_top(s, s.len());
    lemma_all_at_most(s, s[top], s.len());
    assert(k < at_most(s, s[top], s.len()));
}

proof fn lemma_top(s: Seq<i128>, n: nat) -> (top: int)
    requires
        0 < n <= s.len(),
    ensures
        0 <= top < n,
        forall|i: int| 0 <= i < n ==> (#[trigger] s[i]) <= s[top],
    decreases n,
{
    if n == 1 {
        0
    } else {
        let t = lemma_top(s, (n - 1) as nat);
        if s[n - 1] > s[t] {
            n - 1
        } else {
            t
        }
    }
}

proof fn lemma_all_at_most(s: Seq<i128>, v: i128, n: nat)
    requires
        n <= s.len(),
        forall|i: int| 0 <= i < n ==> (#[trigger] s[i]) <= v,
    ensures
        at_most(s, v, n) == n,
    decreases n,
{
    if n > 0 {
        lemma_all_at_most(s, v, (n - 1) as nat);
    }
}

/// Where numbers are below `v`, the largest of them.
proof fn lemma_largest_below(s: Seq<i128>, v: i128, n: nat) -> (w: int)
    requires
        n <= s.len(),
        below(s, v, n) > 0,
    ensures
        0 <= w < n,
        s[w] < v,
        forall|i: int| 0 <= i < n && (#[trigger] s[i]) < v ==> s[i] <= s[w],
    decreases n,
{
    if below(s, v, (n - 1) as nat) == 0 {
        lemma_none_below(s, v, (n - 1) as nat);
        n - 1
    } else {
        let w = lemma_largest_below(s, v, (n - 1) as nat);
        if s[n - 1] < v && s[n - 1] > s[w] {
            n - 1
        } else {
            w
        }
    }
}

proof fn lemma_none_below(s: Seq<i128>, v: i128, n: nat)
    requires
        n <= s.len(),
        below(s, v, n) == 0,
    ensures
        forall|i: int| 0 <= i < n ==> (#[trigger] s[i]) >= v,
    decreases n,
{
    if n > 0 {
        lemma_none_below(s, v, (n - 1) as nat);
    }
}

proof fn lemma_counts_agree(s: Seq<i128>, v: i128, w: i128, n: nat)
    requires
        n <= s.len(),
        forall|i: int| 0 <= i < n ==> ((#[trigger] s[i]) < v <==> s[i] <= w),
    ensures
        below(s, v, n) == at_most(s, w, n),
    decreases n,
{
    if n > 0 {
        lemma_counts_agree(s, v, w, (n - 1) as nat);
        assert(s[n - 1] < v <==> s[n - 1] <= w);
    }
}

/// The least value with more than `k` numbers at or below it is the one at place
/// `k`.
proof fn lemma_least_is_ranked(s: Seq<i128>, k: nat, v: i128)
    requires
        s.contains(v),
        k < at_most(s, v, s.len()),
        forall|j: int| 0 <= j < s.len() && k < at_most(s, #[trigger] s[j], s.len()) ==> v <= s[j],
    ensures
        is_ranked(s, k, v),
{
    if below(s, v, s.len()) > k {
        let w = lemma_largest_below(s, v, s.len());
        lemma_counts_agree(s, v, s[w], s.len());
        assert(k < at_most(s, s[w], s.len()));
    }
}

/// There is a number in the middle, and it is the median.
pub(crate) proof fn lemma_median(s: Seq<i128>)
    requires
        s.len() > 0,
    ensures
        is_median(s, median(s)),
{
    lemma_ranked_exists(s, s.len() / 2);
    let k = s.len() / 2;
    let v = choose|v: i128| is_ranked(s, k, v);
    assert(is_median(s, v));
}

/// Of numbers in ascending order the median is the one half way along.
pub proof fn the_median_stands_in_the_middle(s: Seq<i128>)
    requires
        s.len() > 0,
        forall|i: int, j: int| 0 <= i <= j < s.len() ==> (#[trigger] s[i]) <= (#[trigger] s[j]),
    ensures
        median(s) == s[s.len() as int / 2],
{
    let k = s.len() as int / 2;
    let v = s[k];
    lemma_up_to(s, v, k, s.len());
    lemma_median(s);
    assert(is_ranked(s, k as nat, v));
    a_place_holds_one_number(s, k as nat, v, median(s));
}

proof fn lemma_up_to(s: Seq<i128>, v: i128, k: int, n: nat)
    requires
        0 <= k < s.len(),
        n <= s.len(),
        v == s[k],
        forall|i: int, j: int| 0 <= i <= j < s.len() ==> (#[trigger] s[i]) <= (#[trigger] s[j]),
    ensures
        below(s, v, n) <= k,
        at_most(s, v, n) >= if n > k {
            k + 1
        } else {
            n as int
        },
    decreases n,
{
    if n > 0 {
        lemma_up_to(s, v, k, (n - 1) as nat);
        lemma_below_len(s, v, (n - 1) as nat);
    }
}

proof fn lemma_below_len(s: Seq<i128>, v: i128, n: nat)
    ensures
        below(s, v, n) <= n,
    decreases n,
{
    if n > 0 {
        lemma_below_len(s, v, (n - 1) as nat);
    }
}

proof fn lemma_ranked_exists(s: Seq<i128>, k: nat)
    requires
        k < s.len(),
    ensures
        exists|v: i128| is_ranked(s, k, v),
{
    lemma_some_value_reaches(s, k);
    let w = choose|j: int| 0 <= j < s.len() && k < at_most(s, #[trigger] s[j], s.len());
    let best = lemma_least_reaching(s, k, w);
    lemma_least_is_ranked(s, k, best);
    assert(is_ranked(s, k, best));
}

/// The least of the numbers that have more than `k` at or below them.
proof fn lemma_least_reaching(s: Seq<i128>, k: nat, w: int) -> (best: i128)
    requires
        0 <= w < s.len(),
        k < at_most(s, s[w], s.len()),
    ensures
        s.contains(best),
        k < at_most(s, best, s.len()),
        forall|j: int| 0 <= j < s.len() && k < at_most(s, #[trigger] s[j], s.len()) ==> best <= s[j],
    decreases s[w] - i128::MIN,
{
    if exists|j: int| 0 <= j < s.len() && k < at_most(s, #[trigger] s[j], s.len()) && s[j] < s[w] {
        let j = choose|j: int|
            0 <= j < s.len() && k < at_most(s, #[trigger] s[j], s.len()) && s[j] < s[w];
        lemma_least_reaching(s, k, j)
    } else {
        s[w]
    }
}

} // verus!
