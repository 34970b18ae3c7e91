//! What a list of sales comes to, and its order for presentation.

use vstd::prelude::*;
use vstd::arithmetic::div_mod::{lemma_fundamental_div_mod, lemma_fundamental_div_mod_converse};
use vstd::seq_lib::to_multiset_insert;
use crate::record::{lemma_product_bound, SellRecord, RATE_SCALE};
use crate::totals::{all_wf, total_amount, total_cap_gains};

verus! {

/// The most sales that can be summed up: their totals then fit in 128 bits.
pub const MAX_SALES: usize = 0x4000_0000;

/// The totals of a list of sales.
#[derive(Clone, Copy, Debug, PartialEq, Eq)]
pub struct SellSummary {
    /// Sum of the proceeds.
    pub amount: u128,
    /// Sum of the realised gains.
    pub cap_gains: i128,
    /// Tax on the gains at the flat rate, in whole amount units.
    pub taxes: i128,
    /// Proceeds less taxes.
    pub net_amount: i128,
}

/// Tax on `gains` at `rate` parts per million, rounded towards zero. A loss
/// gives a negative tax.
pub open spec fn tax_on(gains: int, rate: int) -> int {
    if gains >= 0 {
        (gains * rate) / (RATE_SCALE as int)
    } else {
        -(((-gains) * rate) / (RATE_SCALE as int))
    }
}

/// The sales are in order of purchase, the most recent first.
pub open spec fn most_recent_first(s: Seq<SellRecord>) -> bool {
    forall|i: int, j: int|
        0 <= i < j < s.len() ==> (#[trigger] s[i]).date_purchased >= (#[trigger] s[j]).date_purchased
}

/// Tax on a gain of the given size, rounded down.
fn tax_on_size(size: u128, tax_rate: u32) -> (tax: u128)
    requires
        tax_rate < RATE_SCALE,
    ensures
        tax == (size * tax_rate) / (RATE_SCALE as int),
        tax <= size,
{
    let scale: u128 = RATE_SCALE as u128;
    let rate: u128 = tax_rate as u128;
    let q: u128 = size / scale;
    let r: u128 = size % scale;
    proof {
        lemma_fundamental_div_mod(size as int, scale as int);
        lemma_product_bound(q as int, rate as int, q as int, scale as int);
        lemma_product_bound(r as int, rate as int, scale as int, scale as int);
        assert(scale * q == q * scale) by (nonlinear_arith);
    }
    let low: u128 = r * rate;
    proof {
        lemma_fundamental_div_mod(low as int, scale as int);
        assert(low / scale <= r) by (nonlinear_arith)
            requires
                low == scale * (low / scale) + low % scale,
                low % scale >= 0,
                low == r * rate,
                0 <= rate < scale,
                r >= 0,
        ;
        assert(q * rate <= q * scale) by (nonlinear_arith)
            requires
                0 <= rate < scale,
                q >= 0,
        ;
    }
    let tax: u128 = q * rate + low / scale;
    proof {
        let rest = (low % scale) as int;
        assert(size * rate == tax * scale + rest) by (nonlinear_arith)
            requires
                size == scale * q + r,
                low == r * rate,
                low == scale * (low / scale) + rest,
                tax == q * rate + low / scale,
        ;
        lemma_fundamental_div_mod_converse(size * rate, scale as int, tax as int, rest);
        assert(tax <= size) by (nonlinear_arith)
            requires
                size * rate == tax * scale + rest,
                rest >= 0,
                0 <= rate < scale,
                size >= 0,
                tax >= 0,
        ;
    }
    tax
}

/// Sums up the sales and works out the tax on their gains at `tax_rate`
/// parts per million.
pub fn summarize(sales: &Vec<SellRecord>, tax_rate: u32) -> (sum: SellSummary)
    requires
        all_wf(sales@),
        sales@.len() <= MAX_SALES,
        tax_rate < RATE_SCALE,
    ensures
        sum.amount == total_amount(sales@),
        sum.cap_gains == total_cap_gains(sales@),
        sum.taxes == tax_on(total_cap_gains(sales@), tax_rate as int),
        sum.net_amount == sum.amount - sum.taxes,
{
    let mut amount: u128 = 0;
    let mut cap_gains: i128 = 0;
    let mut i: usize = 0;
    let ghost limit: int = 0xffff_fffe_ffff_ffff_0000_0001;
    proof {
        assert(sales@.take(0) =~= Seq::<SellRecord>::empty());
    }
    while i < sales.len()
        invariant
            i <= sales@.len() <= MAX_SALES,
            all_wf(sales@),
            limit == 0xffff_fffe_ffff_ffff_0000_0001,
            amount == total_amount(sales@.take(i as int)),
            cap_gains == total_cap_gains(sales@.take(i as int)),
            amount <= i * limit,
            -(i * limit) <= cap_gains <= i * limit,
        decreases sales@.len() - i,
    {
        let sale = &sales[i];
        proof {
            let (p, b, s) = (
                sale.share_price as int,
                sale.share_price_purchased as int,
                sale.num_shares as int,
            );
            assert(sale.wf());
            lemma_product_bound(p, s, u32::MAX as int, u64::MAX as int);
            if p >= b {
                lemma_product_bound(p - b, s, u32::MAX as int, u64::MAX as int);
            } else {
                lemma_product_bound(b - p, s, u32::MAX as int, u64::MAX as int);
                assert((p - b) * s == -((b - p) * s)) by (nonlinear_arith);
            }
            assert(0xffff_ffff * 0xffff_ffff_ffff_ffff == 0xffff_fffe_ffff_ffff_0000_0001int);
            assert(sales@.take(i + 1).drop_last() =~= sales@.take(i as int));
            assert((i + 1) * limit == i * limit + limit) by (nonlinear_arith);
            assert(i * limit <= 0x3fff_ffff * limit) by (nonlinear_arith)
                requires
                    i <= 0x3fff_ffff,
                    limit >= 0,
            ;
            assert(0x3fff_ffff * 0xffff_fffe_ffff_ffff_0000_0001int + 0xffff_fffe_ffff_ffff_0000_0001int
                < 0x4000_0000_0000_0000_0000_0000_0000_0000);
        }
        amount = amount + sale.amount;
        cap_gains = cap_gains + sale.cap_gains;
        i = i + 1;
    }
    proof {
        assert(sales@.take(i as int) =~= sales@);
        assert(i * limit <= 0x4000_0000 * limit) by (nonlinear_arith)
            requires
                i <= 0x4000_0000,
                limit >= 0,
        ;
        assert(0x4000_0000 * 0xffff_fffe_ffff_ffff_0000_0001int < 0x3fff_ffff_ffff_ffff_ffff_ffff_ffff_ffff);
    }
    let taxes: i128 = if cap_gains >= 0 {
        tax_on_size(cap_gains as u128, tax_rate) as i128
    } else {
        -(tax_on_size((-cap_gains) as u128, tax_rate) as i128)
    };
    SellSummary { amount, cap_gains, taxes, net_amount: amount as i128 - taxes }
}

/// Orders the sales by date of purchase, the most recent first.
pub fn sort_most_recent_first(sales: &Vec<SellRecord>) -> (sorted: Vec<SellRecord>)
    ensures
        most_recent_first(sorted@),
        sorted@.to_multiset() == sales@.to_multiset(),
        sorted@.len() == sales@.len(),
{
    let mut sorted: Vec<SellRecord> = Vec::new();
    let mut k: usize = 0;
    proof {
        assert(sales@.take(0) =~= sorted@);
    }
    while k < sales.len()
        invariant
            k <= sales@.len(),
            sorted@.len() == k,
            most_recent_first(sorted@),
            sorted@.to_multiset() == sales@.take(k as int).to_multiset(),
        decreases sales@.len() - k,
    {
        let sale = sales[k];
        let mut p: usize = sorted.len();
        while p > 0 && sorted[p - 1].date_purchased < sale.date_purchased
            invariant
                p <= sorted@.len(),
                forall|q: int|
                    p <= q < sorted@.len() ==> (#[trigger] sorted@[q]).date_purchased
                        < sale.date_purchased,
            decreases p,
        {
            p = p - 1;
        }
        let ghost before = sorted@;
        sorted.insert(p, sale);
        proof {
            to_multiset_insert(before, p as int, sale);
            assert(sales@.take(k + 1) =~= sales@.take(k as int).push(sale));
            sales@.take(k as int).to_multiset_ensures();
            let after = sorted@;
            assert forall|i: int, j: int| 0 <= i < j < after.len() implies (#[trigger] after[i]).date_purchased
                >= (#[trigger] after[j]).date_purchased by {
                if j < p {
                    assert(after[i] == before[i] && after[j] == before[j]);
                } else if j == p {
                    assert(after[i] == before[i]);
                    if i < p - 1 {
                        assert(before[i].date_purchased >= before[p - 1].date_purchased);
                    }
                } else if i < p {
                    assert(after[i] == before[i] && after[j] == before[j - 1]);
                } else if i == p {
                    assert(after[j] == before[j - 1]);
                } else {
                    assert(after[i] == before[i - 1] && after[j] == before[j - 1]);
                }
            }
        }
        k = k + 1;
    }
    proof {
        assert(sales@.take(k as int) =~= sales@);
    }
    sorted
}

} // verus!
