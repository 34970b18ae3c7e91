//! Totals over a list of sales, and how they behave.

use vstd::prelude::*;
use crate::record::{SellRecord, RATE_SCALE};

verus! {

/// Sum of the proceeds of the sales.
pub open spec fn total_amount(s: Seq<SellRecord>) -> int
    decreases s.len(),
{
    if s.len() == 0 {
        0
    } else {
        total_amount(s.drop_last()) + s.last().amount
    }
}

/// Sum of the realised gains of the sales.
pub open spec fn total_cap_gains(s: Seq<SellRecord>) -> int
    decreases s.len(),
{
    if s.len() == 0 {
        0
    } else {
        total_cap_gains(s.drop_last()) + s.last().cap_gains
    }
}

/// Sum of the proceeds net of tax at `rate` parts per million, in millionths.
pub open spec fn total_net_ppm(s: Seq<SellRecord>, rate: int) -> int
    decreases s.len(),
{
    if s.len() == 0 {
        0
    } else {
        total_net_ppm(s.drop_last(), rate) + s.last().net_ppm(rate)
    }
}

/// Every sale in `s` has the amount and gain that its price and shares give.
pub open spec fn all_wf(s: Seq<SellRecord>) -> bool {
    forall|i: int| 0 <= i < s.len() ==> (#[trigger] s[i]).wf()
}

/// Adding a sale adds its figures to the totals.
pub proof fn lemma_totals_push(s: Seq<SellRecord>, r: SellRecord, rate: int)
    ensures
        total_amount(s.push(r)) == total_amount(s) + r.amount,
        total_cap_gains(s.push(r)) == total_cap_gains(s) + r.cap_gains,
        total_net_ppm(s.push(r), rate) == total_net_ppm(s, rate) + r.net_ppm(rate),
{
    assert(s.push(r).drop_last() =~= s);
}

/// The net total is the total amount less the rate's share of the total gain.
pub proof fn lemma_total_net_ppm(s: Seq<SellRecord>, rate: int)
    ensures
        total_net_ppm(s, rate) == total_amount(s) * RATE_SCALE - total_cap_gains(s) * rate,
    decreases s.len(),
{
    if s.len() > 0 {
        lemma_total_net_ppm(s.drop_last(), rate);
        let g = total_cap_gains(s.drop_last());
        let h = s.last().cap_gains as int;
        assert((g + h) * rate == g * rate + h * rate) by (nonlinear_arith);
    }
}

/// Selling more lots never lowers the net total: no sale has negative net
/// proceeds.
pub proof fn lemma_net_monotone(s: Seq<SellRecord>, k: int, rate: int)
    requires
        all_wf(s),
        0 <= rate < RATE_SCALE,
        0 <= k <= s.len(),
    ensures
        0 <= total_net_ppm(s.take(k), rate) <= total_net_ppm(s, rate),
    decreases s.len() - k,
{
    if k == s.len() {
        assert(s.take(k) =~= s);
        lemma_net_nonnegative(s, rate);
    } else {
        lemma_net_monotone(s, k + 1, rate);
        assert(s.take(k + 1).drop_last() =~= s.take(k));
        s[k].lemma_net_ppm(rate);
        lemma_net_nonnegative(s.take(k), rate);
    }
}

/// The net total of any sales is not negative.
pub proof fn lemma_net_nonnegative(s: Seq<SellRecord>, rate: int)
    requires
        all_wf(s),
        0 <= rate < RATE_SCALE,
    ensures
        0 <= total_net_ppm(s, rate),
    decreases s.len(),
{
    if s.len() > 0 {
        lemma_net_nonnegative(s.drop_last(), rate);
        s.last().lemma_net_ppm(rate);
    }
}

/// The totals of two lists put together are the sums of their totals.
pub proof fn lemma_totals_concat(front: Seq<SellRecord>, back: Seq<SellRecord>)
    ensures
        total_amount(front + back) == total_amount(front) + total_amount(back),
        total_cap_gains(front + back) == total_cap_gains(front) + total_cap_gains(back),
    decreases back.len(),
{
    if back.len() == 0 {
        assert(front + back =~= front);
    } else {
        assert((front + back).drop_last() =~= front + back.drop_last());
        lemma_totals_concat(front, back.drop_last());
    }
}

} // verus!
