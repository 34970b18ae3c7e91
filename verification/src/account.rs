//! An account: the lots it holds, and the choice of what to sell.

use std::collections::HashMap;
use std::collections::HashSet;
use vstd::prelude::*;
use crate::error::AccountError;
use crate::ranking::{is_ranking, lemma_ranking_unique, rank, ranked, ratio_le, precedes};
use crate::record::{sale_of, Record, SellRecord, RATE_SCALE};
use crate::selection::{is_selection, lemma_selection_unique, sell_in_order, shares_within};
use crate::totals::{all_wf, lemma_total_net_ppm, total_net_ppm};

verus! {

broadcast use vstd::std_specs::hash::group_hash_axioms;

/// The funds of the lots, each once, in the order in which they first occur.
pub open spec fn distinct_funds(records: Seq<Record>) -> Seq<u64>
    decreases records.len(),
{
    if records.len() == 0 {
        Seq::empty()
    } else {
        let before = distinct_funds(records.drop_last());
        if before.contains(records.last().fund) {
            before
        } else {
            before.push(records.last().fund)
        }
    }
}

/// Some lot holds a fund that has no price.
pub open spec fn price_missing(records: Seq<Record>, prices: Map<u64, u32>) -> bool {
    exists|i: int| 0 <= i < records.len() && !prices.contains_key(#[trigger] records[i].fund)
}

/// `fund` is the first of `funds` that has no price.
pub open spec fn first_unpriced(funds: Seq<u64>, prices: Map<u64, u32>, fund: u64) -> bool {
    exists|k: int|
        0 <= k < funds.len() && #[trigger] funds[k] == fund && !prices.contains_key(fund) && forall|
            j: int,
        | 0 <= j < k ==> prices.contains_key(#[trigger] funds[j])
}

/// The sale of each lot as a whole at the price of its fund.
pub open spec fn whole_sales(records: Seq<Record>, prices: Map<u64, u32>) -> Seq<SellRecord> {
    Seq::new(
        records.len(),
        |i: int| sale_of(records[i], prices[records[i].fund], records[i].num_shares),
    )
}

/// The ranking of `sales`: their positions by ascending gain ratio, equal
/// ratios in the order given.
pub open spec fn ranking_of(sales: Seq<SellRecord>) -> Seq<usize> {
    choose|order: Seq<usize>| is_ranking(sales, order)
}

/// A fund is among the distinct funds exactly if some lot holds it.
pub proof fn lemma_distinct_funds(records: Seq<Record>, fund: u64)
    ensures
        distinct_funds(records).contains(fund) <==> exists|i: int|
            0 <= i < records.len() && #[trigger] records[i].fund == fund,
        distinct_funds(records).no_duplicates(),
    decreases records.len(),
{
    if records.len() > 0 {
        let init = records.drop_last();
        let before = distinct_funds(init);
        let last = records.last().fund;
        lemma_distinct_funds(init, fund);
        lemma_distinct_funds(init, last);
        if distinct_funds(records).contains(fund) {
            if before.contains(fund) {
                let i = choose|i: int| 0 <= i < init.len() && #[trigger] init[i].fund == fund;
                assert(records[i].fund == fund);
            } else {
                assert(records[records.len() - 1].fund == fund);
            }
        }
        if exists|i: int| 0 <= i < records.len() && #[trigger] records[i].fund == fund {
            let i = choose|i: int| 0 <= i < records.len() && #[trigger] records[i].fund == fund;
            if i < init.len() {
                assert(init[i].fund == fund);
                let q = choose|q: int| 0 <= q < before.len() && before[q] == fund;
                assert(distinct_funds(records)[q] == fund);
            } else if before.contains(last) {
            } else {
                assert(before.push(last)[before.len() as int] == fund);
            }
        }
    }
}

/// At most one fund is the first without a price.
pub proof fn lemma_first_unpriced_unique(
    funds: Seq<u64>,
    prices: Map<u64, u32>,
    first: u64,
    second: u64,
)
    requires
        first_unpriced(funds, prices, first),
        first_unpriced(funds, prices, second),
    ensures
        first == second,
{
    let k = choose|k: int|
        0 <= k < funds.len() && #[trigger] funds[k] == first && !prices.contains_key(first)
            && forall|j: int| 0 <= j < k ==> prices.contains_key(#[trigger] funds[j]);
    let m = choose|m: int|
        0 <= m < funds.len() && #[trigger] funds[m] == second && !prices.contains_key(second)
            && forall|j: int| 0 <= j < m ==> prices.contains_key(#[trigger] funds[j]);
    if k < m {
        assert(prices.contains_key(funds[k]));
    } else if m < k {
        assert(prices.contains_key(funds[m]));
    }
}

/// The lots of a portfolio and the funds they are in.
pub struct Account {
    pub records: Vec<Record>,
    pub funds: Vec<u64>,
}

impl Account {
    /// `funds` lists the funds of the lots, each once, in order of first
    /// occurrence.
    pub open spec fn wf(&self) -> bool {
        self.funds@ == distinct_funds(self.records@)
    }

    /// An account of the given lots.
    pub fn new(records: Vec<Record>) -> (account: Account)
        ensures
            account.records@ == records@,
            account.wf(),
    {
        let mut funds: Vec<u64> = Vec::new();
        let mut seen: HashSet<u64> = HashSet::new();
        let mut i: usize = 0;
        proof {
            assert(records@.take(0) =~= Seq::<Record>::empty());
        }
        while i < records.len()
            invariant
                i <= records@.len(),
                funds@ == distinct_funds(records@.take(i as int)),
                forall|fund: u64| seen@.contains(fund) <==> funds@.contains(fund),
            decreases records@.len() - i,
        {
            let fund = records[i].fund;
            proof {
                assert(records@.take(i + 1).drop_last() =~= records@.take(i as int));
            }
            if !seen.contains(&fund) {
                let ghost before = funds@;
                seen.insert(fund);
                funds.push(fund);
                proof {
                    assert forall|other: u64| seen@.contains(other) <==> funds@.contains(
                        other,
                    ) by {
                        if before.contains(other) {
                            let q = choose|q: int| 0 <= q < before.len() && before[q] == other;
                            assert(funds@[q] == other);
                        }
                        if other == fund {
                            assert(funds@[before.len() as int] == other);
                        }
                    }
                }
            }
            i = i + 1;
        }
        proof {
            assert(records@.take(i as int) =~= records@);
        }
        Account { records, funds }
    }

    /// The sale of every lot as a whole at the current prices.
    ///
    /// Fails if a fund of any lot has no price, whatever else the account
    /// holds, and then names the first such fund.
    pub fn make_sell_records(&self, fund_prices: &HashMap<u64, u32>) -> (res: Result<
        Vec<SellRecord>,
        AccountError,
    >)
        requires
            self.wf(),
        ensures
            res is Err <==> price_missing(self.records@, fund_prices@),
            res matches Err(e) ==> (e matches AccountError::MissingPrice { fund } && first_unpriced(
                self.funds@,
                fund_prices@,
                fund,
            )),
            res matches Ok(sales) ==> sales@ == whole_sales(self.records@, fund_prices@) && all_wf(
                sales@,
            ),
    {
        let mut k: usize = 0;
        while k < self.funds.len()
            invariant
                k <= self.funds@.len(),
                self.wf(),
                forall|j: int| 0 <= j < k ==> fund_prices@.contains_key(#[trigger] self.funds@[j]),
            decreases self.funds@.len() - k,
        {
            let fund = self.funds[k];
            if !fund_prices.contains_key(&fund) {
                proof {
                    lemma_distinct_funds(self.records@, fund);
                    assert(self.funds@.contains(fund));
                }
                return Err(AccountError::MissingPrice { fund });
            }
            k = k + 1;
        }
        proof {
            assert forall|i: int| 0 <= i < self.records@.len() implies fund_prices@.contains_key(
                #[trigger] self.records@[i].fund,
            ) by {
                lemma_distinct_funds(self.records@, self.records@[i].fund);
                let q = choose|q: int|
                    0 <= q < self.funds@.len() && self.funds@[q] == self.records@[i].fund;
                assert(fund_prices@.contains_key(self.funds@[q]));
            }
        }
        let mut sales: Vec<SellRecord> = Vec::new();
        let mut i: usize = 0;
        while i < self.records.len()
            invariant
                i <= self.records@.len(),
                forall|j: int|
                    0 <= j < self.records@.len() ==> fund_prices@.contains_key(
                        #[trigger] self.records@[j].fund,
                    ),
                sales@ == whole_sales(self.records@, fund_prices@).take(i as int),
                all_wf(sales@),
            decreases self.records@.len() - i,
        {
            let record = self.records[i];
            let price: u32 = match fund_prices.get(&record.fund) {
                Some(price) => *price,
                None => {
                    proof {
                        assert(fund_prices@.contains_key(self.records@[i as int].fund));
                    }
                    0
                },
            };
            let sale = SellRecord::new(&record, price, record.num_shares);
            sales.push(sale);
            proof {
                let all = whole_sales(self.records@, fund_prices@);
                assert(fund_prices@.contains_key(self.records@[i as int].fund));
                assert(sale == all[i as int]);
                assert(sales@ =~= all.take(i + 1));
            }
            i = i + 1;
        }
        proof {
            let all = whole_sales(self.records@, fund_prices@);
            assert(all.take(i as int) =~= all);
        }
        Ok(sales)
    }

    /// Chooses what to sell to raise `sell_target` net of a flat tax of
    /// `tax_rate` parts per million on realised gains, preferring the lots
    /// with the smallest gain per unit of proceeds.
    ///
    /// The lots are taken whole in ranking order until the net proceeds pass
    /// the target; the lot with which they do is cut down to the whole shares
    /// needed. Losses are ranked and summed like gains.
    pub fn minimum_cap_gains(
        &self,
        fund_prices: &HashMap<u64, u32>,
        sell_target: u64,
        tax_rate: u32,
    ) -> (res: Result<Vec<SellRecord>, AccountError>)
        requires
            self.wf(),
            tax_rate < RATE_SCALE,
        ensures
            price_missing(self.records@, fund_prices@) ==> (res matches Err(
                AccountError::MissingPrice { fund },
            ) && first_unpriced(self.funds@, fund_prices@, fund)),
            !price_missing(self.records@, fund_prices@) ==> {
                let sales = whole_sales(self.records@, fund_prices@);
                let lacking = total_net_ppm(sales, tax_rate as int) < sell_target * RATE_SCALE;
                &&& lacking ==> res == Err::<Vec<SellRecord>, AccountError>(
                    AccountError::InsufficientFunds,
                )
                &&& !lacking ==> (res matches Ok(sel) && {
                    &&& is_ranking(sales, ranking_of(sales))
                    &&& is_selection(
                        ranked(sales, ranking_of(sales)),
                        sell_target as int,
                        tax_rate as int,
                        sel@,
                    )
                    &&& total_net_ppm(sel@, tax_rate as int) >= sell_target * RATE_SCALE
                    &&& all_wf(sel@)
                    &&& forall|i: int|
                        0 <= i < sel@.len() ==> shares_within(
                            #[trigger] sel@[i],
                            self.records@[ranking_of(sales)[i] as int].num_shares,
                        )
                    &&& forall|i: int, j: int|
                        0 <= i < j < sel@.len() - 1 ==> ratio_le(
                            #[trigger] sel@[i],
                            #[trigger] sel@[j],
                        )
                })
            },
    {
        let sales = match self.make_sell_records(fund_prices) {
            Ok(sales) => sales,
            Err(e) => {
                return Err(e);
            },
        };
        let order = rank(&sales);
        proof {
            lemma_ranking_unique(sales@, order@, ranking_of(sales@));
            lemma_total_net_ppm(sales@, tax_rate as int);
            lemma_total_net_ppm(ranked(sales@, order@), tax_rate as int);
        }
        let res = sell_in_order(&sales, &order, sell_target, tax_rate);
        proof {
            if res is Ok {
                lemma_whole_sales_in_rank_order(
                    sales@,
                    order@,
                    sell_target as int,
                    tax_rate as int,
                    res->Ok_0@,
                );
            }
        }
        res
    }
}

/// The outcome is fixed by the sales, the target and the rate: the sales
/// have one ranking, and along it one selection. So whatever meets what
/// [`Account::minimum_cap_gains`] promises of its result is the same list of
/// sales, in the same order.
pub proof fn lemma_selection_determined(
    sales: Seq<SellRecord>,
    target: int,
    rate: int,
    first_order: Seq<usize>,
    second_order: Seq<usize>,
    first: Seq<SellRecord>,
    second: Seq<SellRecord>,
)
    requires
        all_wf(sales),
        0 <= rate < RATE_SCALE,
        is_ranking(sales, first_order),
        is_ranking(sales, second_order),
        is_selection(ranked(sales, first_order), target, rate, first),
        is_selection(ranked(sales, second_order), target, rate, second),
    ensures
        first_order == second_order,
        first_order == ranking_of(sales),
        first == second,
{
    lemma_ranking_unique(sales, first_order, second_order);
    lemma_ranking_unique(sales, first_order, ranking_of(sales));
    lemma_selection_unique(ranked(sales, first_order), target, rate, first, second);
}

/// The lots that a selection sells whole are in ranking order: along the
/// selection, leaving out its last sale, the gain ratio never falls.
pub proof fn lemma_whole_sales_in_rank_order(
    sales: Seq<SellRecord>,
    order: Seq<usize>,
    target: int,
    rate: int,
    sel: Seq<SellRecord>,
)
    requires
        is_ranking(sales, order),
        is_selection(ranked(sales, order), target, rate, sel),
    ensures
        forall|i: int, j: int|
            0 <= i < j < sel.len() - 1 ==> ratio_le(#[trigger] sel[i], #[trigger] sel[j]),
{
    let all = ranked(sales, order);
    assert forall|i: int, j: int| 0 <= i < j < sel.len() - 1 implies ratio_le(
        #[trigger] sel[i],
        #[trigger] sel[j],
    ) by {
        assert(sel[i] == all[i] && sel[j] == all[j]);
        assert(precedes(sales, order[i] as int, order[j] as int));
    }
}

} // verus!
