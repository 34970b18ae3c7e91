//! Walking a ranking until the target is raised, and splitting the lot at
//! which it is passed.

use vstd::prelude::*;
use vstd::arithmetic::div_mod::lemma_fundamental_div_mod;
use crate::error::AccountError;
use crate::ranking::ranked;
use crate::totals::{all_wf, lemma_net_monotone, lemma_totals_push, total_net_ppm};
use crate::record::{lemma_product_bound, unit_net_ppm, Record, SellRecord, RATE_SCALE, SHARE_UNITS};

verus! {

/// Whole shares of `rec` that must be sold to raise more than
/// `shortfall_ppm` millionths net of tax: the shortfall divided by the net
/// proceeds of one share, rounded down, plus one.
pub open spec fn whole_shares_needed(rec: SellRecord, shortfall_ppm: int, rate: int) -> int {
    shortfall_ppm / (SHARE_UNITS * unit_net_ppm(
        rec.share_price as int,
        rec.share_price_purchased as int,
        rate,
    )) + 1
}

/// The sale that closes a selection when `rec` is the lot at which the target
/// is passed. If fewer whole shares are needed than the lot holds, only those
/// are sold; otherwise the whole lot is.
pub open spec fn final_sale(rec: SellRecord, shortfall_ppm: int, rate: int) -> SellRecord {
    let n = whole_shares_needed(rec, shortfall_ppm, rate);
    if n < rec.num_shares / SHARE_UNITS {
        SellRecord {
            num_shares: (n * SHARE_UNITS) as u64,
            amount: (rec.share_price * (n * SHARE_UNITS)) as u128,
            cap_gains: ((rec.share_price - rec.share_price_purchased) * (n * SHARE_UNITS)) as i128,
            ..rec
        }
    } else {
        rec
    }
}

/// `sale` sells some of a lot of `held` share units, and no more than all:
/// its share count is above zero, unless the lot holds nothing, and at most
/// `held`.
pub open spec fn shares_within(sale: SellRecord, held: u64) -> bool {
    &&& sale.num_shares <= held
    &&& held > 0 ==> sale.num_shares > 0
}

/// What is sold of the sales `ranked`, taken in their order, to raise
/// `target` net of tax, given that selling all of them raises at least that.
///
/// Sales are taken whole while the net proceeds so far do not exceed the
/// target. The sale with which they first do is the last one, and it is cut
/// down to the whole shares needed where that is less than the lot. If the
/// net proceeds of all sales equal the target, all are sold whole.
pub open spec fn is_selection(
    ranked: Seq<SellRecord>,
    target: int,
    rate: int,
    sel: Seq<SellRecord>,
) -> bool {
    let goal = target * RATE_SCALE;
    if total_net_ppm(ranked, rate) <= goal {
        sel == ranked
    } else {
        let k = sel.len() - 1;
        &&& 0 <= k < ranked.len()
        &&& total_net_ppm(ranked.take(k), rate) <= goal < total_net_ppm(ranked.take(k + 1), rate)
        &&& sel == ranked.take(k).push(
            final_sale(ranked[k], goal - total_net_ppm(ranked.take(k), rate), rate),
        )
    }
}

/// What is sold is fixed by the sales, their order, the target and the rate:
/// two selections from the same are the same.
pub proof fn lemma_selection_unique(
    ranked: Seq<SellRecord>,
    target: int,
    rate: int,
    first: Seq<SellRecord>,
    second: Seq<SellRecord>,
)
    requires
        all_wf(ranked),
        0 <= rate < RATE_SCALE,
        is_selection(ranked, target, rate, first),
        is_selection(ranked, target, rate, second),
    ensures
        first == second,
{
    let goal = target * RATE_SCALE;
    if total_net_ppm(ranked, rate) > goal {
        let k = first.len() - 1;
        let m = second.len() - 1;
        if k < m {
            assert(all_wf(ranked.take(m)));
            lemma_net_monotone(ranked.take(m), k + 1, rate);
            assert(ranked.take(m).take(k + 1) =~= ranked.take(k + 1));
        } else if m < k {
            assert(all_wf(ranked.take(k)));
            lemma_net_monotone(ranked.take(k), m + 1, rate);
            assert(ranked.take(k).take(m + 1) =~= ranked.take(m + 1));
        }
    }
}

/// A lot sold in part yields in proportion to the shares sold: amount and
/// gain of the part are to those of the whole lot as the shares of the part
/// are to the shares of the lot.
pub proof fn lemma_split_sale_in_proportion(rec: SellRecord, shortfall_ppm: int, rate: int)
    requires
        rec.wf(),
        0 <= rate < RATE_SCALE,
        0 <= shortfall_ppm < rec.net_ppm(rate),
    ensures
        ({
            let part = final_sale(rec, shortfall_ppm, rate);
            &&& part.wf()
            &&& 0 < part.num_shares <= rec.num_shares
            &&& part.amount * rec.num_shares == part.num_shares * rec.amount
            &&& part.cap_gains * rec.num_shares == part.num_shares * rec.cap_gains
        }),
{
    let part = final_sale(rec, shortfall_ppm, rate);
    let unit = unit_net_ppm(rec.share_price as int, rec.share_price_purchased as int, rate);
    let per_share = SHARE_UNITS * unit;
    let n = whole_shares_needed(rec, shortfall_ppm, rate);
    let (p, b) = (rec.share_price as int, rec.share_price_purchased as int);
    let s = rec.num_shares as int;
    rec.lemma_net_ppm(rate);
    assert(unit > 0 && s > 0) by (nonlinear_arith)
        requires
            s * unit > 0,
            unit >= 0,
    ;
    if n < rec.num_shares / SHARE_UNITS {
        lemma_fundamental_div_mod(shortfall_ppm, per_share);
        assert(shortfall_ppm / per_share >= 0) by (nonlinear_arith)
            requires
                shortfall_ppm == per_share * (shortfall_ppm / per_share) + shortfall_ppm
                    % per_share,
                0 <= shortfall_ppm % per_share < per_share,
                shortfall_ppm >= 0,
        ;
        let t = n * SHARE_UNITS;
        assert(0 < t <= s);
        lemma_product_bound(p, t, u32::MAX as int, u64::MAX as int);
        assert(0xffff_ffff * 0xffff_ffff_ffff_ffff < 0x1_0000_0000_0000_0000_0000_0000int);
        if p >= b {
            lemma_product_bound(p - b, t, u32::MAX as int, u64::MAX as int);
        } else {
            lemma_product_bound(b - p, t, u32::MAX as int, u64::MAX as int);
            assert((p - b) * t == -((b - p) * t)) by (nonlinear_arith);
        }
        assert((p * t) * s == t * (p * s)) by (nonlinear_arith);
        assert(((p - b) * t) * s == t * ((p - b) * s)) by (nonlinear_arith);
    } else {
        assert(part.amount * s == s * part.amount) by (nonlinear_arith);
        assert(part.cap_gains * s == s * part.cap_gains) by (nonlinear_arith);
    }
}

/// Net proceeds of `rec` at `tax_rate` parts per million, in millionths.
pub fn net_proceeds_ppm(rec: &SellRecord, tax_rate: u32) -> (net: u128)
    requires
        rec.wf(),
        tax_rate < RATE_SCALE,
    ensures
        net == rec.net_ppm(tax_rate as int),
        net <= u64::MAX * (u32::MAX * RATE_SCALE),
{
    let unit = unit_net(rec, tax_rate);
    proof {
        rec.lemma_net_ppm(tax_rate as int);
        assert(0xffff_ffff_ffff_ffff * (0xffff_ffff * 1_000_000)
            < 0x1_0000_0000_0000_0000_0000_0000_0000_0000int);
    }
    (rec.num_shares as u128) * unit
}

/// Net proceeds of one share unit of `rec`, in millionths.
fn unit_net(rec: &SellRecord, tax_rate: u32) -> (unit: u128)
    requires
        tax_rate < RATE_SCALE,
    ensures
        unit == unit_net_ppm(
            rec.share_price as int,
            rec.share_price_purchased as int,
            tax_rate as int,
        ),
        unit <= u32::MAX * RATE_SCALE,
{
    let keep: u128 = (RATE_SCALE - tax_rate) as u128;
    proof {
        let (p, b, t) = (rec.share_price as int, rec.share_price_purchased as int, tax_rate as int);
        lemma_product_bound(p, keep as int, u32::MAX as int, RATE_SCALE as int);
        lemma_product_bound(b, t, u32::MAX as int, RATE_SCALE as int);
        assert(p * (RATE_SCALE - t) + b * t <= u32::MAX * RATE_SCALE) by (nonlinear_arith)
            requires
                0 <= p <= u32::MAX,
                0 <= b <= u32::MAX,
                0 <= t < RATE_SCALE,
        ;
    }
    (rec.share_price as u128) * keep + (rec.share_price_purchased as u128) * (tax_rate as u128)
}

/// Cuts the lot at which the target is passed down to the whole shares that
/// are needed. `shortfall_ppm` is what was still to raise before this lot, in
/// millionths; the lot raises more than that.
pub fn split_sale(rec: &SellRecord, shortfall_ppm: u128, tax_rate: u32) -> (sale: SellRecord)
    requires
        rec.wf(),
        tax_rate < RATE_SCALE,
        shortfall_ppm < rec.net_ppm(tax_rate as int),
    ensures
        sale == final_sale(*rec, shortfall_ppm as int, tax_rate as int),
        sale.wf(),
        0 < sale.num_shares <= rec.num_shares,
        sale.net_ppm(tax_rate as int) > shortfall_ppm,
        sale.lot(rec.num_shares) == rec.lot(rec.num_shares),
        sale.share_price == rec.share_price,
{
    let unit = unit_net(rec, tax_rate);
    proof {
        rec.lemma_net_ppm(tax_rate as int);
        assert(unit > 0 && rec.num_shares > 0) by (nonlinear_arith)
            requires
                rec.num_shares * unit > 0,
                unit >= 0,
        ;
        assert(1000 * (0xffff_ffff * 1_000_000) < 0x1_0000_0000_0000_0000int);
    }
    let per_share: u128 = (SHARE_UNITS as u128) * unit;
    let n: u128 = shortfall_ppm / per_share + 1;
    let whole: u64 = rec.num_shares / SHARE_UNITS;
    proof {
        lemma_fundamental_div_mod(shortfall_ppm as int, per_share as int);
        assert(n * per_share > shortfall_ppm) by (nonlinear_arith)
            requires
                n == shortfall_ppm / per_share + 1,
                shortfall_ppm == per_share * (shortfall_ppm / per_share) + shortfall_ppm
                    % per_share,
                0 <= shortfall_ppm % per_share < per_share,
        ;
    }
    if n < whole as u128 {
        let shares: u64 = (n as u64) * SHARE_UNITS;
        let lot = Record {
            date: rec.date_purchased,
            fund: rec.fund,
            num_shares: rec.num_shares,
            share_price: rec.share_price_purchased,
        };
        let sale = SellRecord::new(&lot, rec.share_price, shares);
        proof {
            sale.lemma_net_ppm(tax_rate as int);
            assert((n * SHARE_UNITS) * unit == n * (SHARE_UNITS * unit)) by (nonlinear_arith);
        }
        sale
    } else {
        *rec
    }
}

/// Sells the lots in the order given until the target is raised net of tax.
///
/// `recs` holds the sale of each lot as a whole, `order` the positions of
/// `recs` in the order in which to sell. Fails if selling everything raises
/// less than the target.
pub fn sell_in_order(
    recs: &Vec<SellRecord>,
    order: &Vec<usize>,
    sell_target: u64,
    tax_rate: u32,
) -> (res: Result<Vec<SellRecord>, AccountError>)
    requires
        all_wf(recs@),
        forall|i: int| 0 <= i < order@.len() ==> #[trigger] order@[i] < recs@.len(),
        tax_rate < RATE_SCALE,
    ensures
        res is Err <==> total_net_ppm(ranked(recs@, order@), tax_rate as int) < sell_target
            * RATE_SCALE,
        res is Err ==> res == Err::<Vec<SellRecord>, AccountError>(AccountError::InsufficientFunds),
        res matches Ok(sel) ==> {
            &&& is_selection(ranked(recs@, order@), sell_target as int, tax_rate as int, sel@)
            &&& total_net_ppm(sel@, tax_rate as int) >= sell_target * RATE_SCALE
            &&& sel@.len() <= order@.len()
            &&& all_wf(sel@)
            &&& forall|i: int|
                0 <= i < sel@.len() ==> shares_within(
                    #[trigger] sel@[i],
                    recs@[order@[i] as int].num_shares,
                )
        },
{
    let ghost all = ranked(recs@, order@);
    let ghost rate = tax_rate as int;
    let goal: u128 = (sell_target as u128) * (RATE_SCALE as u128);
    let mut net: u128 = 0;
    let mut result: Vec<SellRecord> = Vec::new();
    let mut i: usize = 0;
    proof {
        lemma_product_bound(sell_target as int, RATE_SCALE as int, u64::MAX as int, RATE_SCALE as int);
        assert(all.take(0) =~= Seq::<SellRecord>::empty());
    }
    while i < order.len()
        invariant
            i <= order@.len(),
            all == ranked(recs@, order@),
            all_wf(recs@),
            all_wf(all),
            forall|j: int| 0 <= j < order@.len() ==> #[trigger] order@[j] < recs@.len(),
            rate == tax_rate as int,
            tax_rate < RATE_SCALE,
            goal == sell_target * RATE_SCALE,
            goal <= u64::MAX * RATE_SCALE,
            result@ == all.take(i as int),
            net == total_net_ppm(all.take(i as int), rate),
            net <= goal,
        decreases order@.len() - i,
    {
        let rec = recs[order[i]];
        let lot_net = net_proceeds_ppm(&rec, tax_rate);
        proof {
            assert(rec == all[i as int]);
            assert(all.take(i + 1) =~= all.take(i as int).push(rec));
            lemma_totals_push(all.take(i as int), rec, rate);
            assert(0xffff_ffff_ffff_ffff * 1_000_000 + 0xffff_ffff_ffff_ffff * (0xffff_ffff
                * 1_000_000) < 0x1_0000_0000_0000_0000_0000_0000_0000_0000int);
        }
        if net + lot_net > goal {
            let last = split_sale(&rec, goal - net, tax_rate);
            result.push(last);
            proof {
                lemma_net_monotone(all, i + 1, rate);
                lemma_totals_push(all.take(i as int), last, rate);
                assert(result@.len() - 1 == i);
                assert forall|j: int| 0 <= j < result@.len() implies (#[trigger] result@[j]).wf()
                    && shares_within(result@[j], recs@[order@[j] as int].num_shares) by {
                    if j < i {
                        assert(result@[j] == all[j]);
                    }
                }
            }
            return Ok(result);
        }
        result.push(rec);
        net = net + lot_net;
        i = i + 1;
    }
    proof {
        assert(all.take(i as int) =~= all);
    }
    if net < goal {
        Err(AccountError::InsufficientFunds)
    } else {
        Ok(result)
    }
}

} // verus!
