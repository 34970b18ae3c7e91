//! Ranking lots by gain ratio: the realised gain per unit of proceeds.
//!
//! Ratios are compared exactly, by cross-multiplication. A sale with no
//! proceeds has no ratio; such sales rank after all others. Sales of equal
//! rank keep the order in which their lots were given.

use vstd::prelude::*;
use crate::record::SellRecord;
use crate::totals::{
    all_wf, lemma_totals_concat, lemma_totals_push, total_amount, total_cap_gains,
};

verus! {

/// The gain ratio of `a` is at most that of `b`. A sale without proceeds
/// counts as having the largest ratio of all.
pub open spec fn ratio_le(a: SellRecord, b: SellRecord) -> bool {
    if b.amount == 0 {
        true
    } else if a.amount == 0 {
        false
    } else {
        a.cap_gains * b.amount <= b.cap_gains * a.amount
    }
}

/// The gain ratio of `a` is strictly below that of `b`.
pub open spec fn ratio_lt(a: SellRecord, b: SellRecord) -> bool {
    !ratio_le(b, a)
}

/// The sale at position `i` of `recs` is ranked before the one at `j`: its
/// ratio is smaller, or the ratios are equal and it comes first in `recs`.
pub open spec fn precedes(recs: Seq<SellRecord>, i: int, j: int) -> bool {
    ratio_lt(recs[i], recs[j]) || (ratio_le(recs[i], recs[j]) && i < j)
}

/// `order` lists the positions of `recs` from `lo` up to but not including
/// `hi`, each once, best rank first.
pub open spec fn is_ranking_of_range(
    recs: Seq<SellRecord>,
    order: Seq<usize>,
    lo: int,
    hi: int,
) -> bool {
    &&& order.len() == hi - lo
    &&& forall|i: int| 0 <= i < order.len() ==> lo <= #[trigger] order[i] < hi
    &&& forall|i: int, j: int|
        0 <= i < j < order.len() ==> precedes(
            recs,
            #[trigger] order[i] as int,
            #[trigger] order[j] as int,
        )
    &&& forall|k: int| lo <= k < hi ==> #[trigger] order.contains(k as usize)
}

/// `order` is the ranking of `recs`: every position once, by ascending gain
/// ratio, equal ratios in the order of `recs`.
pub open spec fn is_ranking(recs: Seq<SellRecord>, order: Seq<usize>) -> bool {
    is_ranking_of_range(recs, order, 0, recs.len() as int)
}

/// The sales of `recs` in the order that `order` gives.
pub open spec fn ranked(recs: Seq<SellRecord>, order: Seq<usize>) -> Seq<SellRecord> {
    Seq::new(order.len(), |i: int| recs[order[i] as int])
}

/// Comparing gain ratios is transitive.
pub proof fn lemma_ratio_le_transitive(a: SellRecord, b: SellRecord, c: SellRecord)
    requires
        ratio_le(a, b),
        ratio_le(b, c),
    ensures
        ratio_le(a, c),
{
    if c.amount != 0 {
        let (ga, gb, gc) = (a.cap_gains as int, b.cap_gains as int, c.cap_gains as int);
        let (xa, xb, xc) = (a.amount as int, b.amount as int, c.amount as int);
        assert(ga * xc <= gc * xa) by (nonlinear_arith)
            requires
                xa > 0,
                xb > 0,
                xc > 0,
                ga * xb <= gb * xa,
                gb * xc <= gc * xb,
        {
            assert((ga * xb) * xc <= (gb * xa) * xc);
            assert((gb * xc) * xa <= (gc * xb) * xa);
            assert((ga * xc) * xb <= (gc * xa) * xb);
        }
    }
}

/// Any two sales can be compared.
pub proof fn lemma_ratio_le_total(a: SellRecord, b: SellRecord)
    ensures
        ratio_le(a, b) || ratio_le(b, a),
{
}

/// Ranking order is transitive.
pub proof fn lemma_precedes_transitive(recs: Seq<SellRecord>, i: int, j: int, k: int)
    requires
        precedes(recs, i, j),
        precedes(recs, j, k),
    ensures
        precedes(recs, i, k),
{
    let (a, b, c) = (recs[i], recs[j], recs[k]);
    lemma_ratio_le_total(a, b);
    lemma_ratio_le_total(b, c);
    lemma_ratio_le_transitive(a, b, c);
    if ratio_le(c, a) {
        // then all three ratios are equal
        lemma_ratio_le_transitive(c, a, b);
        lemma_ratio_le_transitive(b, c, a);
    }
}

/// Of two different positions exactly one is ranked before the other.
pub proof fn lemma_precedes_total(recs: Seq<SellRecord>, i: int, j: int)
    ensures
        i != j ==> (precedes(recs, i, j) <==> !precedes(recs, j, i)),
        !precedes(recs, i, i),
{
}

/// A list of sales has one ranking only: two rankings of the same sales are
/// the same list of positions.
pub proof fn lemma_ranking_unique(recs: Seq<SellRecord>, first: Seq<usize>, second: Seq<usize>)
    requires
        is_ranking(recs, first),
        is_ranking(recs, second),
    ensures
        first == second,
{
    lemma_rankings_agree(recs, first, second, recs.len() as int);
    assert(first =~= second);
}

/// Two rankings of the same sales agree on their first `m` places.
proof fn lemma_rankings_agree(recs: Seq<SellRecord>, first: Seq<usize>, second: Seq<usize>, m: int)
    requires
        is_ranking(recs, first),
        is_ranking(recs, second),
        0 <= m <= recs.len(),
    ensures
        forall|i: int| 0 <= i < m ==> first[i] == second[i],
    decreases m,
{
    if m > 0 {
        lemma_rankings_agree(recs, first, second, m - 1);
        let i = m - 1;
        let x = first[i];
        let y = second[i];
        assert(second.contains(x as usize));
        let p = choose|p: int| 0 <= p < second.len() && second[p] == x;
        assert(first.contains(y as usize));
        let q = choose|q: int| 0 <= q < first.len() && first[q] == y;
        if p < i {
            // x would stand twice in `first`
            assert(first[p] == x);
            lemma_precedes_total(recs, first[p] as int, first[i] as int);
        } else if q < i {
            assert(second[q] == y);
            lemma_precedes_total(recs, second[q] as int, second[i] as int);
        } else if p > i {
            // y is ranked before x in `second`, so it cannot follow x in `first`
            lemma_precedes_total(recs, x as int, y as int);
            assert(precedes(recs, second[i] as int, second[p] as int));
            if q > i {
                assert(precedes(recs, first[i] as int, first[q] as int));
            }
        }
    }
}

/// Whether the gain ratio of `a` is strictly below that of `b`.
pub fn ratio_less(a: &SellRecord, b: &SellRecord) -> (r: bool)
    requires
        a.wf(),
        b.wf(),
    ensures
        r == ratio_lt(*a, *b),
{
    if a.amount == 0 {
        false
    } else if b.amount == 0 {
        true
    } else {
        let pa: i128 = a.share_price as i128;
        let pb: i128 = b.share_price as i128;
        let ua: i128 = pa - a.share_price_purchased as i128;
        let ub: i128 = pb - b.share_price_purchased as i128;
        proof {
            let (sa, sb) = (a.num_shares as int, b.num_shares as int);
            assert(pa > 0 && sa > 0) by (nonlinear_arith)
                requires
                    pa * sa > 0,
                    pa >= 0,
                    sa >= 0,
            ;
            assert(pb > 0 && sb > 0) by (nonlinear_arith)
                requires
                    pb * sb > 0,
                    pb >= 0,
                    sb >= 0,
            ;
            assert(-0x1_0000_0000_0000_0000 < ua * pb < 0x1_0000_0000_0000_0000)
                by (nonlinear_arith)
                requires
                    -0x1_0000_0000 < ua < 0x1_0000_0000,
                    0 <= pb < 0x1_0000_0000,
            ;
            assert(-0x1_0000_0000_0000_0000 < ub * pa < 0x1_0000_0000_0000_0000)
                by (nonlinear_arith)
                requires
                    -0x1_0000_0000 < ub < 0x1_0000_0000,
                    0 <= pa < 0x1_0000_0000,
            ;
            let k = sa * sb;
            assert(k > 0) by (nonlinear_arith)
                requires
                    k == sa * sb,
                    sa > 0,
                    sb > 0,
            ;
            assert((ua * sa) * (pb * sb) == (ua * pb) * k) by (nonlinear_arith)
                requires
                    k == sa * sb,
            ;
            assert((ub * sb) * (pa * sa) == (ub * pa) * k) by (nonlinear_arith)
                requires
                    k == sa * sb,
            ;
            assert(((ua * pb) * k < (ub * pa) * k) <==> (ua * pb < ub * pa)) by (nonlinear_arith)
                requires
                    k > 0,
            ;
        }
        ua * pb < ub * pa
    }
}

/// Ranks the sales by ascending gain ratio. Sales of equal ratio keep their
/// order, and sales without proceeds come last.
pub fn rank(recs: &Vec<SellRecord>) -> (order: Vec<usize>)
    requires
        all_wf(recs@),
    ensures
        is_ranking(recs@, order@),
        total_amount(ranked(recs@, order@)) == total_amount(recs@),
        total_cap_gains(ranked(recs@, order@)) == total_cap_gains(recs@),
{
    proof {
        assert(recs@.subrange(0, recs@.len() as int) =~= recs@);
    }
    rank_range(recs, 0, recs.len())
}

/// Ranks the sales from position `lo` up to `hi` by sorting each half and
/// merging the two.
fn rank_range(recs: &Vec<SellRecord>, lo: usize, hi: usize) -> (order: Vec<usize>)
    requires
        all_wf(recs@),
        lo <= hi <= recs@.len(),
    ensures
        is_ranking_of_range(recs@, order@, lo as int, hi as int),
        total_amount(ranked(recs@, order@)) == total_amount(recs@.subrange(lo as int, hi as int)),
        total_cap_gains(ranked(recs@, order@)) == total_cap_gains(
            recs@.subrange(lo as int, hi as int),
        ),
    decreases hi - lo,
{
    if hi - lo == 0 {
        let order: Vec<usize> = Vec::new();
        proof {
            assert(ranked(recs@, order@) =~= recs@.subrange(lo as int, hi as int));
        }
        order
    } else if hi - lo == 1 {
        let mut order: Vec<usize> = Vec::new();
        order.push(lo);
        proof {
            assert(ranked(recs@, order@) =~= recs@.subrange(lo as int, hi as int));
            assert(order@[0] == lo);
        }
        order
    } else {
        let mid: usize = lo + (hi - lo) / 2;
        let first = rank_range(recs, lo, mid);
        let second = rank_range(recs, mid, hi);
        proof {
            let (front, back) = (
                recs@.subrange(lo as int, mid as int),
                recs@.subrange(mid as int, hi as int),
            );
            assert(recs@.subrange(lo as int, hi as int) =~= front + back);
            lemma_totals_concat(front, back);
        }
        merge(recs, &first, &second, lo, mid, hi)
    }
}

/// Merges the rankings of two neighbouring ranges into the ranking of both.
/// Of two sales of equal ratio the one from the first range goes first.
fn merge(
    recs: &Vec<SellRecord>,
    first: &Vec<usize>,
    second: &Vec<usize>,
    lo: usize,
    mid: usize,
    hi: usize,
) -> (order: Vec<usize>)
    requires
        all_wf(recs@),
        lo <= mid <= hi <= recs@.len(),
        is_ranking_of_range(recs@, first@, lo as int, mid as int),
        is_ranking_of_range(recs@, second@, mid as int, hi as int),
    ensures
        is_ranking_of_range(recs@, order@, lo as int, hi as int),
        total_amount(ranked(recs@, order@)) == total_amount(ranked(recs@, first@)) + total_amount(
            ranked(recs@, second@),
        ),
        total_cap_gains(ranked(recs@, order@)) == total_cap_gains(ranked(recs@, first@))
            + total_cap_gains(ranked(recs@, second@)),
{
    let mut order: Vec<usize> = Vec::new();
    let mut i: usize = 0;
    let mut j: usize = 0;
    proof {
        assert(ranked(recs@, first@.take(0)) =~= ranked(recs@, order@));
        assert(ranked(recs@, second@.take(0)) =~= ranked(recs@, order@));
    }
    while i < first.len() || j < second.len()
        invariant
            all_wf(recs@),
            lo <= mid <= hi <= recs@.len(),
            is_ranking_of_range(recs@, first@, lo as int, mid as int),
            is_ranking_of_range(recs@, second@, mid as int, hi as int),
            i <= first@.len(),
            j <= second@.len(),
            order@.len() == i + j,
            forall|p: int| 0 <= p < order@.len() ==> lo <= #[trigger] order@[p] < hi,
            forall|p: int, q: int|
                0 <= p < q < order@.len() ==> precedes(
                    recs@,
                    #[trigger] order@[p] as int,
                    #[trigger] order@[q] as int,
                ),
            forall|p: int, q: int|
                0 <= p < order@.len() && i <= q < first@.len() ==> precedes(
                    recs@,
                    #[trigger] order@[p] as int,
                    #[trigger] first@[q] as int,
                ),
            forall|p: int, q: int|
                0 <= p < order@.len() && j <= q < second@.len() ==> precedes(
                    recs@,
                    #[trigger] order@[p] as int,
                    #[trigger] second@[q] as int,
                ),
            forall|q: int| 0 <= q < i ==> order@.contains(#[trigger] first@[q]),
            forall|q: int| 0 <= q < j ==> order@.contains(#[trigger] second@[q]),
            total_amount(ranked(recs@, order@)) == total_amount(
                ranked(recs@, first@.take(i as int)),
            ) + total_amount(ranked(recs@, second@.take(j as int))),
            total_cap_gains(ranked(recs@, order@)) == total_cap_gains(
                ranked(recs@, first@.take(i as int)),
            ) + total_cap_gains(ranked(recs@, second@.take(j as int))),
        decreases first@.len() - i + second@.len() - j,
    {
        let from_second = if i == first.len() {
            true
        } else if j == second.len() {
            false
        } else {
            ratio_less(&recs[second[j]], &recs[first[i]])
        };
        let ghost before = order@;
        let next: usize = if from_second {
            second[j]
        } else {
            first[i]
        };
        proof {
            // the sale taken is ranked before all that are left
            assert forall|q: int| i <= q < first@.len() && first@[q] != next implies precedes(
                recs@,
                next as int,
                #[trigger] first@[q] as int,
            ) by {
                if from_second {
                    if q > i {
                        assert(precedes(recs@, first@[i as int] as int, first@[q] as int));
                        lemma_precedes_transitive(
                            recs@,
                            next as int,
                            first@[i as int] as int,
                            first@[q] as int,
                        );
                    }
                } else {
                    assert(precedes(recs@, first@[i as int] as int, first@[q] as int));
                }
            }
            assert forall|q: int| j <= q < second@.len() && second@[q] != next implies precedes(
                recs@,
                next as int,
                #[trigger] second@[q] as int,
            ) by {
                if from_second {
                    assert(precedes(recs@, second@[j as int] as int, second@[q] as int));
                } else {
                    assert(first@[i as int] < mid <= second@[j as int]);
                    assert(precedes(recs@, next as int, second@[j as int] as int));
                    if q > j {
                        assert(precedes(recs@, second@[j as int] as int, second@[q] as int));
                        lemma_precedes_transitive(
                            recs@,
                            next as int,
                            second@[j as int] as int,
                            second@[q] as int,
                        );
                    }
                }
            }
        }
        order.push(next);
        proof {
            let after = order@;
            assert(forall|p: int| 0 <= p < before.len() ==> after[p] == before[p]);
            assert(ranked(recs@, after) =~= ranked(recs@, before).push(recs@[next as int]));
            lemma_totals_push(ranked(recs@, before), recs@[next as int], 0);
            if from_second {
                assert(ranked(recs@, second@.take(j + 1)) =~= ranked(
                    recs@,
                    second@.take(j as int),
                ).push(recs@[next as int]));
                lemma_totals_push(ranked(recs@, second@.take(j as int)), recs@[next as int], 0);
            } else {
                assert(ranked(recs@, first@.take(i + 1)) =~= ranked(
                    recs@,
                    first@.take(i as int),
                ).push(recs@[next as int]));
                lemma_totals_push(ranked(recs@, first@.take(i as int)), recs@[next as int], 0);
            }
            assert forall|q: int| 0 <= q < i implies after.contains(#[trigger] first@[q]) by {
                let p = choose|p: int| 0 <= p < before.len() && before[p] == first@[q];
                assert(after[p] == first@[q]);
            }
            assert forall|q: int| 0 <= q < j implies after.contains(#[trigger] second@[q]) by {
                let p = choose|p: int| 0 <= p < before.len() && before[p] == second@[q];
                assert(after[p] == second@[q]);
            }
            assert(after[before.len() as int] == next);
            assert forall|p: int, q: int| 0 <= p < q < after.len() implies precedes(
                recs@,
                #[trigger] after[p] as int,
                #[trigger] after[q] as int,
            ) by {
                if q == before.len() {
                    assert(after[p] == before[p]);
                    if from_second {
                        assert(precedes(recs@, before[p] as int, second@[j as int] as int));
                    } else {
                        assert(precedes(recs@, before[p] as int, first@[i as int] as int));
                    }
                }
            }
        }
        if from_second {
            j = j + 1;
        } else {
            i = i + 1;
        }
        proof {
            let after = order@;
            assert forall|p: int, q: int|
                0 <= p < after.len() && i <= q < first@.len() implies precedes(
                recs@,
                #[trigger] after[p] as int,
                #[trigger] first@[q] as int,
            ) by {
                if p < before.len() {
                    assert(after[p] == before[p]);
                } else {
                    lemma_apart(recs@, first@, second@, lo as int, mid as int, hi as int);
                }
            }
            assert forall|p: int, q: int|
                0 <= p < after.len() && j <= q < second@.len() implies precedes(
                recs@,
                #[trigger] after[p] as int,
                #[trigger] second@[q] as int,
            ) by {
                if p < before.len() {
                    assert(after[p] == before[p]);
                } else {
                    lemma_apart(recs@, first@, second@, lo as int, mid as int, hi as int);
                }
            }
        }
    }
    proof {
        assert(first@.take(i as int) =~= first@);
        assert(second@.take(j as int) =~= second@);
        assert forall|k: int| lo <= k < hi implies #[trigger] order@.contains(k as usize) by {
            if k < mid {
                assert(first@.contains(k as usize));
                let q = choose|q: int| 0 <= q < first@.len() && first@[q] == k as usize;
                assert(order@.contains(first@[q]));
            } else {
                assert(second@.contains(k as usize));
                let q = choose|q: int| 0 <= q < second@.len() && second@[q] == k as usize;
                assert(order@.contains(second@[q]));
            }
        }
    }
    order
}

/// The rankings of two neighbouring ranges share no position, and none
/// stands twice in either.
proof fn lemma_apart(
    recs: Seq<SellRecord>,
    first: Seq<usize>,
    second: Seq<usize>,
    lo: int,
    mid: int,
    hi: int,
)
    requires
        is_ranking_of_range(recs, first, lo, mid),
        is_ranking_of_range(recs, second, mid, hi),
    ensures
        forall|p: int, q: int|
            0 <= p < first.len() && 0 <= q < second.len() ==> #[trigger] first[p]
                != #[trigger] second[q],
        forall|p: int, q: int|
            0 <= p < q < first.len() ==> #[trigger] first[p] != #[trigger] first[q],
        forall|p: int, q: int|
            0 <= p < q < second.len() ==> #[trigger] second[p] != #[trigger] second[q],
{
    assert forall|p: int, q: int| 0 <= p < q < first.len() implies #[trigger] first[p]
        != #[trigger] first[q] by {
        lemma_precedes_total(recs, first[p] as int, first[q] as int);
    }
    assert forall|p: int, q: int| 0 <= p < q < second.len() implies #[trigger] second[p]
        != #[trigger] second[q] by {
        lemma_precedes_total(recs, second[p] as int, second[q] as int);
    }
}

} // verus!
