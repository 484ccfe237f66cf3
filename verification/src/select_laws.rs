//! What selection promises: a majority that agrees is always found, there is one
//! answer, it does not hang on the order of the sources, and the combined offset
//! is the mean of the survivors, weighted by one over their distance.

use vstd::prelude::*;

use crate::arith::toward_zero;
use crate::select::{
    best_agreement, combined_offset, holds, how_many, is_scale, lemma_product, lemma_same_count,
    lemma_scaled, lemma_weighted, lists_survivors, no_majority, product, shared, support, survives,
    weighted, SourceEstimate,
};

verus! {

/// Where the intervals of a majority have a point in common, the edges of the
/// intervals with them, selection does not come up empty, and what it finds is
/// agreed on by at least as many.
pub proof fn an_agreeing_majority_is_found(sources: Seq<SourceEstimate>, x: int, lo: int, hi: int)
    requires
        2 * support(sources, x) > sources.len(),
    ensures
        !no_majority(sources),
        best_agreement(sources, lo, hi) ==> support(sources, lo) >= support(sources, x) && (
        support(sources, lo) == support(sources, x) ==> lo <= x),
{
}

/// There is one best agreement, or none.
pub proof fn there_is_one_best_agreement(
    sources: Seq<SourceEstimate>,
    lo: int,
    hi: int,
    other_lo: int,
    other_hi: int,
)
    requires
        best_agreement(sources, lo, hi),
        best_agreement(sources, other_lo, other_hi),
    ensures
        lo == other_lo,
        hi == other_hi,
{
    assert(support(sources, lo) <= support(sources, other_lo));
    assert(support(sources, other_lo) <= support(sources, lo));
    assert(lo == other_lo);
    assert(shared(sources, lo, hi));
    assert(shared(sources, lo, other_hi));
}

proof fn lemma_support_without(sources: Seq<SourceEstimate>, k: int, x: int)
    requires
        0 <= k < sources.len(),
    ensures
        support(sources, x) == support(sources.remove(k), x) + if holds(sources[k], x) {
            1nat
        } else {
            0
        },
    decreases sources.len(),
{
    let n = sources.len();
    let rest = sources.remove(k);
    let a = |i: int| holds(sources[i], x);
    let b = |i: int| holds(rest[i], x);
    if k == n - 1 {
        assert forall|i: int| 0 <= i < n - 1 implies #[trigger] a(i) == b(i) by {
            assert(rest[i] == sources[i]);
        }
        lemma_same_count((n - 1) as nat, a, b);
    } else {
        let fewer = sources.drop_last();
        lemma_support_without(fewer, k, x);
        let c = |i: int| holds(fewer[i], x);
        assert forall|i: int| 0 <= i < n - 1 implies #[trigger] a(i) == c(i) by {
            assert(fewer[i] == sources[i]);
        }
        lemma_same_count((n - 1) as nat, a, c);
        let d = |i: int| holds(fewer.remove(k)[i], x);
        assert forall|i: int| 0 <= i < n - 2 implies #[trigger] b(i) == d(i) by {
            assert(fewer.remove(k)[i] == rest[i]);
        }
        lemma_same_count((n - 2) as nat, b, d);
        assert(rest[n - 2] == sources[n - 1]);
    }
}

proof fn lemma_support_by_multiset(
    sources: Seq<SourceEstimate>,
    others: Seq<SourceEstimate>,
    x: int,
)
    requires
        sources.to_multiset() == others.to_multiset(),
    ensures
        support(sources, x) == support(others, x),
        sources.len() == others.len(),
    decreases sources.len(),
{
    broadcast use vstd::seq_lib::group_to_multiset_ensures;

    assert(sources.len() == sources.to_multiset().len());
    assert(others.len() == others.to_multiset().len());
    if sources.len() > 0 {
        let last = sources.last();
        assert(sources.contains(last));
        assert(sources.to_multiset().count(last) > 0);
        assert(others.to_multiset().count(last) > 0);
        let k = others.index_of(last);
        let m = sources.len() - 1;
        assert(sources.remove(m).to_multiset() =~= sources.to_multiset().remove(last));
        assert(others.remove(k).to_multiset() =~= others.to_multiset().remove(last));
        lemma_support_by_multiset(sources.remove(m), others.remove(k), x);
        lemma_support_without(sources, m, x);
        lemma_support_without(others, k, x);
    }
}

/// The order in which the sources are given does not matter to what they agree
/// on.
pub proof fn the_order_of_the_sources_does_not_matter(
    sources: Seq<SourceEstimate>,
    others: Seq<SourceEstimate>,
    lo: int,
    hi: int,
)
    requires
        sources.to_multiset() == others.to_multiset(),
    ensures
        best_agreement(sources, lo, hi) == best_agreement(others, lo, hi),
        no_majority(sources) == no_majority(others),
{
    lemma_order_one_way(sources, others, lo, hi);
    lemma_order_one_way(others, sources, lo, hi);
}

proof fn lemma_order_one_way(
    sources: Seq<SourceEstimate>,
    others: Seq<SourceEstimate>,
    lo: int,
    hi: int,
)
    requires
        sources.to_multiset() == others.to_multiset(),
    ensures
        best_agreement(sources, lo, hi) ==> best_agreement(others, lo, hi),
        no_majority(sources) ==> no_majority(others),
{
    lemma_support_by_multiset(sources, others, lo);
    assert forall|x: int| #[trigger] support(others, x) == support(sources, x) by {
        lemma_support_by_multiset(sources, others, x);
    }
    assert forall|x: int| #[trigger] shared(others, lo, x) == shared(sources, lo, x) by {
        lemma_shared_by_multiset(sources, others, lo, x);
        lemma_shared_by_multiset(others, sources, lo, x);
    }
}

proof fn lemma_shared_by_multiset(
    sources: Seq<SourceEstimate>,
    others: Seq<SourceEstimate>,
    lo: int,
    x: int,
)
    requires
        sources.to_multiset() == others.to_multiset(),
    ensures
        shared(sources, lo, x) ==> shared(others, lo, x),
{
    broadcast use vstd::seq_lib::group_to_multiset_ensures;

    if shared(sources, lo, x) {
        assert forall|i: int|
            0 <= i < others.len() && holds(#[trigger] others[i], lo) implies holds(others[i], x) by {
            assert(others.contains(others[i]));
            assert(others.to_multiset().count(others[i]) > 0);
            assert(sources.to_multiset().count(others[i]) > 0);
            let k = sources.index_of(others[i]);
            assert(holds(sources[k], lo));
        }
    }
}

proof fn lemma_rounded(offsets: int, weights: int, m: int)
    requires
        weights > 0,
        m > 0,
    ensures
        toward_zero(offsets * m, weights * m) == toward_zero(offsets, weights),
        ({
            let left = offsets - toward_zero(offsets, weights) * weights;
            -weights < left < weights
        }),
{
    let x = if offsets < 0 {
        -offsets
    } else {
        offsets
    };
    vstd::arithmetic::div_mod::lemma_fundamental_div_mod(x, weights);
    let q = x / weights;
    assert(weights * q == q * weights && (-q) * weights == -(q * weights)) by (nonlinear_arith);
    assert((x * m) / (weights * m) == q) by {
        vstd::arithmetic::div_mod::lemma_div_denominator(x * m, m, weights);
        vstd::arithmetic::div_mod::lemma_div_multiples_vanish(x, m);
        assert(m * x == x * m && m * weights == weights * m) by (nonlinear_arith);
        assert(weights * m > 0) by (nonlinear_arith)
            requires
                weights > 0,
                m > 0,
        ;
    }
    assert(offsets < 0 ==> offsets * m < 0 && -(offsets * m) == x * m) by (nonlinear_arith)
        requires
            m > 0,
            offsets < 0 ==> x == -offsets,
    ;
    assert(offsets >= 0 ==> offsets * m >= 0) by (nonlinear_arith)
        requires
            m > 0,
    ;
}

/// The combined offset is the mean of the survivors' offsets, each weighted by
/// one over its distance: over whatever common denominator the weights are
/// written, the offset is their mean, rounded toward zero, and so less than a
/// nanosecond from it.
pub proof fn the_combined_offset_is_the_weighted_mean(
    sources: Seq<SourceEstimate>,
    lo: int,
    hi: int,
    scale: int,
)
    requires
        is_scale(sources, lo, hi, scale, sources.len()),
    ensures
        ({
            let (weights, offsets) = weighted(sources, lo, hi, scale, sources.len());
            match combined_offset(sources, lo, hi) {
                None => weights == 0,
                Some(o) => weights > 0 && o == toward_zero(offsets, weights) && -weights < offsets
                    - o * weights < weights,
            }
        }),
{
    let n = sources.len();
    let whole = product(sources, lo, hi, n);
    lemma_product(sources, lo, hi, n);
    lemma_scaled(sources, lo, hi, scale, whole, n);
    lemma_scaled(sources, lo, hi, whole, scale, n);
    assert(scale * whole == whole * scale) by (nonlinear_arith);
    lemma_weighted(sources, lo, hi, scale, n, i64::MIN as int, i64::MAX as int);
    lemma_weighted(sources, lo, hi, whole, n, i64::MIN as int, i64::MAX as int);
    let (weights, offsets) = weighted(sources, lo, hi, scale, n);
    let (others, sums) = weighted(sources, lo, hi, whole, n);
    if weights > 0 {
        lemma_rounded(offsets, weights, whole);
        lemma_rounded(sums, others, scale);
    }
}

/// Of two survivors each pulls in proportion to the other's distance.
pub proof fn two_survivors_meet_by_their_distances(
    a: SourceEstimate,
    b: SourceEstimate,
    lo: int,
    hi: int,
)
    requires
        survives(a, lo, hi),
        survives(b, lo, hi),
    ensures
        combined_offset(seq![a, b], lo, hi) is Some,
        ({
            let o = combined_offset(seq![a, b], lo, hi)->Some_0;
            let sum = a.reach() + b.reach();
            let left = a.offset * b.reach() + b.offset * a.reach() - o * sum;
            -sum < left < sum
        }),
{
    let sources = seq![a, b];
    let (r, q) = (a.reach(), b.reach());
    let scale = r * q;
    assert(scale >= 1) by (nonlinear_arith)
        requires
            scale == r * q,
            r >= 1,
            q >= 1,
    ;
    vstd::arithmetic::div_mod::lemma_div_multiples_vanish(r, q);
    vstd::arithmetic::div_mod::lemma_mod_multiples_basic(r, q);
    vstd::arithmetic::div_mod::lemma_div_multiples_vanish(q, r);
    vstd::arithmetic::div_mod::lemma_mod_multiples_basic(q, r);
    assert(q * r == r * q) by (nonlinear_arith);
    assert(is_scale(sources, lo, hi, scale, 2));
    reveal_with_fuel(weighted, 3);
    let (x, y) = (a.offset as int, b.offset as int);
    assert(q * x == x * q && r * y == y * r) by (nonlinear_arith);
    assert(weighted(sources, lo, hi, scale, 2) == (q + r, q * x + r * y));
    the_combined_offset_is_the_weighted_mean(sources, lo, hi, scale);
}

/// The distance that a source is taken at: a nanosecond at least.
pub open spec fn distance(source: SourceEstimate) -> int {
    if source.root_distance < 1 {
        1
    } else {
        source.root_distance as int
    }
}

/// Two sources can both be right exactly where their offsets are no further apart than
/// their distances together: then, and only then, some time lies within the distance
/// of each.
pub proof fn two_sources_can_both_be_right(a: SourceEstimate, b: SourceEstimate)
    ensures
        (exists|x: int| #[trigger] holds(a, x) && holds(b, x)) <==> -(distance(a) + distance(b))
            <= a.offset - b.offset <= distance(a) + distance(b),
        forall|x: int| #[trigger]
            holds(a, x) <==> a.offset - distance(a) <= x <= a.offset + distance(a),
{
    if -(distance(a) + distance(b)) <= a.offset - b.offset <= distance(a) + distance(b) {
        let x = if a.offset - distance(a) > b.offset - distance(b) {
            a.offset - distance(a)
        } else {
            b.offset - distance(b)
        };
        assert(holds(a, x) && holds(b, x));
    }
}

/// The best come first: of two that are listed, the first has the lower stratum, or the
/// same and the smaller distance, or the same of both and was given earlier.
pub proof fn the_best_come_first(
    sources: Seq<SourceEstimate>,
    lo: int,
    hi: int,
    picked: Seq<int>,
    i: int,
    j: int,
)
    requires
        lists_survivors(sources, lo, hi, picked),
        0 <= i < j < picked.len(),
    ensures
        ({
            let a = sources[picked[i]];
            let b = sources[picked[j]];
            &&& a.stratum <= b.stratum
            &&& a.stratum == b.stratum ==> a.root_distance <= b.root_distance
            &&& a.stratum == b.stratum && a.root_distance == b.root_distance ==> picked[i]
                < picked[j]
        }),
{
}

proof fn lemma_counts_all_but(n: nat, k: int, counts: spec_fn(int) -> bool)
    requires
        0 <= k,
        forall|i: int| 0 <= i < n && i != k ==> #[trigger] counts(i),
        !counts(k),
    ensures
        how_many(n, counts) == if n > k {
            n - 1
        } else {
            n as int
        },
    decreases n,
{
    if n > 0 {
        lemma_counts_all_but((n - 1) as nat, k, counts);
        if n - 1 != k {
            assert(counts(n - 1));
        }
    }
}

proof fn lemma_counts_one_at_most(n: nat, k: int, counts: spec_fn(int) -> bool)
    requires
        forall|i: int| 0 <= i < n && i != k ==> !#[trigger] counts(i),
    ensures
        how_many(n, counts) <= 1,
        n <= k ==> how_many(n, counts) == 0,
    decreases n,
{
    if n > 0 {
        lemma_counts_one_at_most((n - 1) as nat, k, counts);
        if n - 1 != k {
            assert(!counts(n - 1));
        }
    }
}

proof fn lemma_counted_below(n: nat, k: int, counts: spec_fn(int) -> bool)
    requires
        0 <= k < n,
        how_many(n, counts) >= n - 1,
        !counts(k),
    ensures
        forall|i: int| 0 <= i < n && i != k ==> #[trigger] counts(i),
    decreases n,
{
    let m = (n - 1) as nat;
    lemma_counts_bound(m, counts);
    if k == n - 1 {
        lemma_counted_whole(m, counts);
    } else {
        assert(counts(n - 1)) by {
            if !counts(n - 1) {
                lemma_missing_two(m, k, counts);
            }
        }
        lemma_counted_below(m, k, counts);
    }
}

proof fn lemma_counts_bound(n: nat, counts: spec_fn(int) -> bool)
    ensures
        how_many(n, counts) <= n,
    decreases n,
{
    if n > 0 {
        lemma_counts_bound((n - 1) as nat, counts);
    }
}

proof fn lemma_counted_whole(n: nat, counts: spec_fn(int) -> bool)
    requires
        how_many(n, counts) == n,
    ensures
        forall|i: int| 0 <= i < n ==> #[trigger] counts(i),
    decreases n,
{
    if n > 0 {
        lemma_counts_bound((n - 1) as nat, counts);
        lemma_counted_whole((n - 1) as nat, counts);
    }
}

proof fn lemma_missing_two(n: nat, k: int, counts: spec_fn(int) -> bool)
    requires
        0 <= k < n,
        !counts(k),
    ensures
        how_many(n, counts) <= n - 1,
    decreases n,
{
    let m = (n - 1) as nat;
    lemma_counts_bound(m, counts);
    if k < n - 1 {
        lemma_missing_two(m, k, counts);
    }
}

/// A liar is left out: where all sources but one, two at least, agree on some time, and
/// that one is further from each of them than its distance and theirs together, all
/// the others are listed and that one is not.
pub proof fn a_liar_is_left_out(
    sources: Seq<SourceEstimate>,
    lo: int,
    hi: int,
    picked: Seq<int>,
    liar: int,
    x: int,
)
    requires
        sources.len() >= 3,
        0 <= liar < sources.len(),
        forall|i: int| 0 <= i < sources.len() && i != liar ==> holds(#[trigger] sources[i], x),
        forall|i: int|
            0 <= i < sources.len() && i != liar ==> (#[trigger] sources[i]).offset
                - sources[liar].offset > distance(sources[i]) + distance(sources[liar])
                || sources[liar].offset - sources[i].offset > distance(sources[i]) + distance(
                sources[liar],
            ),
        best_agreement(sources, lo, hi),
        lists_survivors(sources, lo, hi, picked),
    ensures
        !picked.contains(liar),
        forall|i: int| 0 <= i < sources.len() && i != liar ==> #[trigger] picked.contains(i),
{
    let n = sources.len();
    let at_x = |i: int| holds(sources[i], x);
    let at_lo = |i: int| holds(sources[i], lo);
    let other = if liar == 0 {
        1
    } else {
        0
    };
    two_sources_can_both_be_right(sources[liar], sources[other]);
    assert(holds(sources[other], x));
    assert(!holds(sources[liar], x));
    assert forall|i: int| 0 <= i < n && i != liar implies #[trigger] at_x(i) by {
        assert(holds(sources[i], x));
    }
    lemma_counts_all_but(n, liar, at_x);
    assert(support(sources, x) == n - 1);
    assert(support(sources, lo) >= n - 1);
    if holds(sources[liar], lo) {
        assert forall|i: int| 0 <= i < n && i != liar implies !#[trigger] at_lo(i) by {
            two_sources_can_both_be_right(sources[liar], sources[i]);
        }
        lemma_counts_one_at_most(n, liar, at_lo);
    }
    assert(!at_lo(liar));
    lemma_counted_below(n, liar, at_lo);
    assert(shared(sources, lo, hi));
    assert forall|i: int| 0 <= i < n && i != liar implies #[trigger] picked.contains(i) by {
        assert(at_lo(i));
        assert(holds(sources[i], lo));
        assert(holds(sources[i], hi));
        assert(survives(sources[i], lo, hi));
    }
    assert(!survives(sources[liar], lo, hi));
    assert(sources[liar] == sources[liar]);
}

/// Half of the sources is no majority: what is agreed on is agreed on by more than half, and
/// two sources that cannot both be right agree on nothing.
pub proof fn half_is_no_majority(sources: Seq<SourceEstimate>, lo: int, hi: int)
    ensures
        best_agreement(sources, lo, hi) ==> support(sources, lo) > sources.len() - support(
            sources,
            lo,
        ) && !no_majority(sources),
        sources.len() == 0 ==> no_majority(sources),
        sources.len() == 2 && (sources[0].offset - sources[1].offset > distance(sources[0])
            + distance(sources[1]) || sources[1].offset - sources[0].offset > distance(sources[0])
            + distance(sources[1])) ==> no_majority(sources),
{
    reveal_with_fuel(how_many, 3);
    if sources.len() == 2 {
        assert forall|x: int| 2 * #[trigger] support(sources, x) <= 2 || (holds(sources[0], x)
            && holds(sources[1], x)) by {}
    }
}

} // verus!
