use std::collections::HashMap;

use capgains::account::Account;
use capgains::error::AccountError;
use capgains::ranking::{rank, ratio_less};
use capgains::record::{Record, SellRecord};
use capgains::selection::{net_proceeds_ppm, sell_in_order, split_sale};

const FUND_F: u64 = 1;
const FUND_G: u64 = 2;

fn lot(date: i32, fund: u64, shares: u64, basis: u32) -> Record {
    Record { date, fund, num_shares: shares, share_price: basis }
}

fn prices(entries: &[(u64, u32)]) -> HashMap<u64, u32> {
    let mut table = HashMap::new();
    for (fund, price) in entries {
        table.insert(*fund, *price);
    }
    table
}

fn net_ppm(sales: &[SellRecord], rate: u32) -> i128 {
    let mut amount: i128 = 0;
    let mut gains: i128 = 0;
    for s in sales {
        amount += s.amount as i128;
        gains += s.cap_gains;
    }
    amount * 1_000_000 - gains * rate as i128
}

#[test]
fn sale_figures_are_price_times_shares() {
    let s = SellRecord::new(&lot(7, FUND_F, 10_000, 50), 100, 10_000);
    assert_eq!(s.date_purchased, 7);
    assert_eq!(s.fund, FUND_F);
    assert_eq!(s.num_shares, 10_000);
    assert_eq!(s.share_price_purchased, 50);
    assert_eq!(s.share_price, 100);
    assert_eq!(s.amount, 1_000_000);
    assert_eq!(s.cap_gains, 500_000);
}

#[test]
fn sale_at_a_loss_has_negative_gain() {
    let s = SellRecord::new(&lot(0, FUND_F, 3_000, 120), 100, 3_000);
    assert_eq!(s.amount, 300_000);
    assert_eq!(s.cap_gains, -60_000);
}

#[test]
fn sale_figures_fit_at_the_largest_inputs() {
    let s = SellRecord::new(&lot(0, FUND_F, u64::MAX, 0), u32::MAX, u64::MAX);
    assert_eq!(s.amount, u32::MAX as u128 * u64::MAX as u128);
    assert_eq!(s.cap_gains, u32::MAX as i128 * u64::MAX as i128);
    let t = SellRecord::new(&lot(0, FUND_F, u64::MAX, u32::MAX), 0, u64::MAX);
    assert_eq!(t.amount, 0);
    assert_eq!(t.cap_gains, -(u32::MAX as i128 * u64::MAX as i128));
}

#[test]
fn account_lists_each_fund_once_in_order_of_first_occurrence() {
    let account = Account::new(vec![
        lot(1, 9, 1000, 10),
        lot(2, 4, 1000, 10),
        lot(3, 9, 1000, 10),
        lot(4, 7, 1000, 10),
        lot(5, 4, 1000, 10),
    ]);
    assert_eq!(account.funds, vec![9, 4, 7]);
    assert_eq!(account.records.len(), 5);
}

#[test]
fn empty_account_has_no_funds() {
    let account = Account::new(Vec::new());
    assert!(account.funds.is_empty());
    assert!(account.records.is_empty());
}

#[test]
fn two_lots_second_is_split() {
    let account = Account::new(vec![lot(1, FUND_F, 10_000, 50), lot(2, FUND_F, 5_000, 80)]);
    let table = prices(&[(FUND_F, 100)]);
    let sel = account.minimum_cap_gains(&table, 600_000, 0).unwrap();
    assert_eq!(sel.len(), 2);
    assert_eq!(sel[0], SellRecord::new(&lot(2, FUND_F, 5_000, 80), 100, 5_000));
    assert_eq!(sel[0].amount, 500_000);
    assert_eq!(sel[0].cap_gains, 100_000);
    assert_eq!(sel[1].date_purchased, 1);
    assert_eq!(sel[1].num_shares, 2_000);
    assert_eq!(sel[1].amount, 200_000);
    assert_eq!(sel[1].cap_gains, 100_000);
    let amount: u128 = sel.iter().map(|s| s.amount).sum();
    let gains: i128 = sel.iter().map(|s| s.cap_gains).sum();
    assert_eq!(amount, 700_000);
    assert_eq!(gains, 200_000);
}

#[test]
fn insufficient_funds_when_everything_raises_too_little() {
    let account = Account::new(vec![lot(1, FUND_F, 10_000, 50), lot(2, FUND_F, 5_000, 80)]);
    let table = prices(&[(FUND_F, 100)]);
    assert_eq!(
        account.minimum_cap_gains(&table, 1_500_001, 0),
        Err(AccountError::InsufficientFunds)
    );
}

#[test]
fn insufficient_funds_counts_the_tax() {
    // Everything sold: amount 1_500_000, gain 600_000; at 25% the net is 1_350_000.
    let account = Account::new(vec![lot(1, FUND_F, 10_000, 50), lot(2, FUND_F, 5_000, 80)]);
    let table = prices(&[(FUND_F, 100)]);
    assert_eq!(
        account.minimum_cap_gains(&table, 1_350_001, 250_000),
        Err(AccountError::InsufficientFunds)
    );
    let all = account.minimum_cap_gains(&table, 1_350_000, 250_000).unwrap();
    assert_eq!(all.len(), 2);
    assert_eq!(all[0].num_shares, 5_000);
    assert_eq!(all[1].num_shares, 10_000);
}

#[test]
fn target_equal_to_everything_sells_everything() {
    let account = Account::new(vec![lot(1, FUND_F, 10_000, 50), lot(2, FUND_F, 5_000, 80)]);
    let table = prices(&[(FUND_F, 100)]);
    let sel = account.minimum_cap_gains(&table, 1_500_000, 0).unwrap();
    assert_eq!(
        sel,
        vec![
            SellRecord::new(&lot(2, FUND_F, 5_000, 80), 100, 5_000),
            SellRecord::new(&lot(1, FUND_F, 10_000, 50), 100, 10_000),
        ]
    );
}

#[test]
fn missing_price_is_reported_even_if_target_could_be_met() {
    let account = Account::new(vec![lot(1, FUND_F, 10_000, 50), lot(2, FUND_G, 5_000, 80)]);
    let table = prices(&[(FUND_F, 100)]);
    assert_eq!(
        account.minimum_cap_gains(&table, 100_000, 0),
        Err(AccountError::MissingPrice { fund: FUND_G })
    );
    assert_eq!(
        account.make_sell_records(&table),
        Err(AccountError::MissingPrice { fund: FUND_G })
    );
}

#[test]
fn missing_price_names_the_first_fund_without_one() {
    let account = Account::new(vec![
        lot(1, 5, 1_000, 50),
        lot(2, 8, 1_000, 50),
        lot(3, 6, 1_000, 50),
        lot(4, 8, 1_000, 50),
    ]);
    let table = prices(&[(5, 100)]);
    assert_eq!(
        account.minimum_cap_gains(&table, 1, 0),
        Err(AccountError::MissingPrice { fund: 8 })
    );
}

#[test]
fn missing_price_comes_before_insufficient_funds() {
    let account = Account::new(vec![lot(1, FUND_F, 1_000, 50), lot(2, FUND_G, 1_000, 80)]);
    let table = prices(&[(FUND_F, 100)]);
    assert_eq!(
        account.minimum_cap_gains(&table, u64::MAX, 0),
        Err(AccountError::MissingPrice { fund: FUND_G })
    );
}

#[test]
fn make_sell_records_keeps_the_order_of_the_lots() {
    let account = Account::new(vec![lot(1, FUND_F, 10_000, 50), lot(2, FUND_G, 2_500, 80)]);
    let table = prices(&[(FUND_F, 100), (FUND_G, 40)]);
    let sales = account.make_sell_records(&table).unwrap();
    assert_eq!(
        sales,
        vec![
            SellRecord::new(&lot(1, FUND_F, 10_000, 50), 100, 10_000),
            SellRecord::new(&lot(2, FUND_G, 2_500, 80), 40, 2_500),
        ]
    );
    assert_eq!(sales[1].amount, 100_000);
    assert_eq!(sales[1].cap_gains, -100_000);
}

#[test]
fn ratio_comparison_is_exact() {
    let a = SellRecord::new(&lot(0, FUND_F, 1_000, 2), 3, 1_000); // ratio 1/3
    let b = SellRecord::new(&lot(0, FUND_F, 7_000, 4), 6, 7_000); // ratio 1/3
    let c = SellRecord::new(&lot(0, FUND_F, 1, 199_999), 300_000, 1); // just above 1/3
    assert!(!ratio_less(&a, &b));
    assert!(!ratio_less(&b, &a));
    assert!(ratio_less(&a, &c));
    assert!(!ratio_less(&c, &a));
    assert!(ratio_less(&b, &c));
}

#[test]
fn losses_rank_before_gains() {
    let loss = SellRecord::new(&lot(0, FUND_F, 1_000, 150), 100, 1_000);
    let gain = SellRecord::new(&lot(0, FUND_F, 1_000, 50), 100, 1_000);
    assert!(ratio_less(&loss, &gain));
    assert!(!ratio_less(&gain, &loss));
}

#[test]
fn sales_without_proceeds_rank_last() {
    let none = SellRecord::new(&lot(0, FUND_F, 0, 50), 100, 0);
    let free = SellRecord::new(&lot(0, FUND_F, 1_000, 50), 0, 1_000);
    let gain = SellRecord::new(&lot(0, FUND_F, 1_000, 1), 100, 1_000);
    assert!(ratio_less(&gain, &none));
    assert!(ratio_less(&gain, &free));
    assert!(!ratio_less(&none, &gain));
    assert!(!ratio_less(&none, &free));
    assert!(!ratio_less(&free, &none));
    let order = rank(&vec![none, gain, free, gain]);
    assert_eq!(order, vec![1, 3, 0, 2]);
}

#[test]
fn ranking_is_ascending_and_stable() {
    let at = |basis: u32, shares: u64| SellRecord::new(&lot(0, FUND_F, shares, basis), 100, shares);
    // ratios: 0.5, 0.2, 0.5, -0.1, 0.2
    let sales = vec![at(50, 1_000), at(80, 2_000), at(50, 3_000), at(110, 500), at(80, 1)];
    assert_eq!(rank(&sales), vec![3, 1, 4, 0, 2]);
    assert_eq!(rank(&Vec::new()), Vec::<usize>::new());
}

#[test]
fn whole_lots_come_out_in_ranking_order() {
    let account = Account::new(vec![
        lot(1, FUND_F, 1_000, 50),
        lot(2, FUND_F, 1_000, 80),
        lot(3, FUND_F, 1_000, 50),
        lot(4, FUND_F, 1_000, 110),
        lot(5, FUND_F, 1_000, 80),
    ]);
    let table = prices(&[(FUND_F, 100)]);
    let sel = account.minimum_cap_gains(&table, 450_000, 0).unwrap();
    let dates: Vec<i32> = sel.iter().map(|s| s.date_purchased).collect();
    assert_eq!(dates, vec![4, 2, 5, 1, 3]);
    for w in sel[..sel.len() - 1].windows(2) {
        assert!(!ratio_less(&w[1], &w[0]));
    }
}

#[test]
fn lot_is_kept_whole_when_the_shares_needed_are_not_fewer() {
    // 2.5 shares at 100: two whole shares. Raising 150 needs 2, which is not fewer.
    let account = Account::new(vec![lot(1, FUND_F, 2_500, 50)]);
    let table = prices(&[(FUND_F, 100)]);
    let sel = account.minimum_cap_gains(&table, 150_000, 0).unwrap();
    assert_eq!(sel, vec![SellRecord::new(&lot(1, FUND_F, 2_500, 50), 100, 2_500)]);
    // Raising 50 needs 1 of the 2 whole shares.
    let sel = account.minimum_cap_gains(&table, 50_000, 0).unwrap();
    assert_eq!(sel, vec![SellRecord::new(&lot(1, FUND_F, 2_500, 50), 100, 1_000)]);
}

#[test]
fn target_on_a_share_boundary_takes_one_more_share() {
    // Exactly three shares' worth: floor(300 / 100) + 1 = 4 shares.
    let account = Account::new(vec![lot(1, FUND_F, 10_000, 50)]);
    let table = prices(&[(FUND_F, 100)]);
    let sel = account.minimum_cap_gains(&table, 300_000, 0).unwrap();
    assert_eq!(sel.len(), 1);
    assert_eq!(sel[0].num_shares, 4_000);
    assert_eq!(sel[0].amount, 400_000);
    assert_eq!(sel[0].cap_gains, 200_000);
}

#[test]
fn split_counts_the_tax_on_the_gain() {
    // Per share: 100 less 20% of the gain of 50 = 90 net. Target 600 after a
    // first lot worth 500 - 0.2 * 100 = 480 net: floor(120 / 90) + 1 = 2.
    let account = Account::new(vec![lot(1, FUND_F, 10_000, 50), lot(2, FUND_F, 5_000, 80)]);
    let table = prices(&[(FUND_F, 100)]);
    let sel = account.minimum_cap_gains(&table, 600_000, 200_000).unwrap();
    assert_eq!(sel.len(), 2);
    assert_eq!(sel[0].num_shares, 5_000);
    assert_eq!(sel[1].num_shares, 2_000);
    assert_eq!(sel[1].amount, 200_000);
    assert_eq!(sel[1].cap_gains, 100_000);
    assert_eq!(net_ppm(&sel, 200_000), 660_000_000_000);
    assert!(net_ppm(&sel, 200_000) >= 600_000i128 * 1_000_000);
}

#[test]
fn net_proceeds_are_amount_less_tax_on_gain() {
    let s = SellRecord::new(&lot(0, FUND_F, 10_000, 50), 100, 10_000);
    assert_eq!(net_proceeds_ppm(&s, 0), 1_000_000_000_000);
    assert_eq!(net_proceeds_ppm(&s, 200_000), 900_000_000_000);
    let loss = SellRecord::new(&lot(0, FUND_F, 1_000, 150), 100, 1_000);
    assert_eq!(net_proceeds_ppm(&loss, 100_000), 105_000_000_000);
}

#[test]
fn split_sale_scales_amount_and_gain_with_the_shares() {
    let whole = SellRecord::new(&lot(3, FUND_F, 10_000, 50), 100, 10_000);
    let part = split_sale(&whole, 100_000_000_000, 0);
    assert_eq!(part.num_shares, 2_000);
    assert_eq!(part.date_purchased, 3);
    assert_eq!(part.fund, FUND_F);
    assert_eq!(part.amount * whole.num_shares as u128, whole.amount * part.num_shares as u128);
    assert_eq!(part.cap_gains * whole.num_shares as i128, whole.cap_gains * part.num_shares as i128);
    // nothing still to raise: one share is sold
    assert_eq!(split_sale(&whole, 0, 0).num_shares, 1_000);
    // nearly all of it: the lot stays whole
    assert_eq!(split_sale(&whole, 999_999_999_999, 0), whole);
}

#[test]
fn sell_in_order_follows_the_order_given() {
    let a = SellRecord::new(&lot(1, FUND_F, 10_000, 50), 100, 10_000);
    let b = SellRecord::new(&lot(2, FUND_F, 5_000, 80), 100, 5_000);
    let sel = sell_in_order(&vec![a, b], &vec![0, 1], 600_000, 0).unwrap();
    assert_eq!(sel.len(), 1);
    assert_eq!(sel[0].num_shares, 7_000);
    let sel = sell_in_order(&vec![a, b], &vec![1, 0], 600_000, 0).unwrap();
    assert_eq!(sel.len(), 2);
    assert_eq!(sel[1].num_shares, 2_000);
    assert_eq!(
        sell_in_order(&vec![a, b], &vec![1], 600_000, 0),
        Err(AccountError::InsufficientFunds)
    );
}

#[test]
fn repeated_calls_give_the_same_selection() {
    let account = Account::new(vec![
        lot(1, FUND_F, 1_500, 50),
        lot(2, FUND_G, 7_250, 80),
        lot(3, FUND_F, 3_000, 50),
        lot(4, FUND_G, 1_000, 20),
    ]);
    let table = prices(&[(FUND_F, 100), (FUND_G, 40)]);
    let first = account.minimum_cap_gains(&table, 500_000, 150_000);
    let second = account.minimum_cap_gains(&table, 500_000, 150_000);
    assert!(first.is_ok());
    assert_eq!(first, second);
}

#[test]
fn empty_account_raises_nothing() {
    let account = Account::new(Vec::new());
    let table = prices(&[]);
    assert_eq!(account.minimum_cap_gains(&table, 0, 0), Ok(Vec::new()));
    assert_eq!(account.minimum_cap_gains(&table, 1, 0), Err(AccountError::InsufficientFunds));
}

#[test]
fn selection_never_sells_more_than_a_lot_holds() {
    let lots = vec![
        lot(1, FUND_F, 1_500, 50),
        lot(2, FUND_G, 7_250, 80),
        lot(3, FUND_F, 3_000, 150),
        lot(4, FUND_G, 12_345, 20),
    ];
    let account = Account::new(lots.clone());
    let table = prices(&[(FUND_F, 100), (FUND_G, 40)]);
    for target in [1u64, 99_999, 100_000, 450_000, 600_000, 900_000, 1_233_800] {
        for rate in [0u32, 150_000, 999_999] {
            match account.minimum_cap_gains(&table, target, rate) {
                Ok(sel) => {
                    assert!(net_ppm(&sel, rate) >= target as i128 * 1_000_000);
                    for s in &sel {
                        let from = lots.iter().find(|l| l.date == s.date_purchased).unwrap();
                        assert!(s.num_shares <= from.num_shares);
                        assert_eq!(s.amount, s.share_price as u128 * s.num_shares as u128);
                    }
                }
                Err(e) => {
                    assert_eq!(e, AccountError::InsufficientFunds);
                    let all = account.make_sell_records(&table).unwrap();
                    assert!(net_ppm(&all, rate) < target as i128 * 1_000_000);
                }
            }
        }
    }
}

#[test]
fn ranking_of_many_sales_matches_a_stable_sort() {
    let mut state: u64 = 12345;
    let mut step = || {
        state = state.wrapping_mul(6364136223846793005).wrapping_add(1442695040888963407);
        (state >> 33) as u32
    };
    let mut sales = Vec::new();
    for i in 0..200 {
        let price = step() % 7;
        let basis = step() % 7;
        let shares = (step() % 4) as u64 * 500;
        sales.push(SellRecord::new(&lot(i, FUND_F, shares, basis), price, shares));
    }
    let mut expected: Vec<usize> = (0..sales.len()).collect();
    expected.sort_by(|&a, &b| {
        let (x, y) = (&sales[a], &sales[b]);
        match (x.amount == 0, y.amount == 0) {
            (true, true) => std::cmp::Ordering::Equal,
            (true, false) => std::cmp::Ordering::Greater,
            (false, true) => std::cmp::Ordering::Less,
            (false, false) => {
                (x.cap_gains * y.amount as i128).cmp(&(y.cap_gains * x.amount as i128))
            }
        }
    });
    assert_eq!(rank(&sales), expected);
}

#[test]
fn account_of_many_lots_lists_its_funds_once() {
    let lots: Vec<Record> = (0..100).map(|i| lot(i, (i as u64 * 7) % 10, 1_000, 10)).collect();
    let account = Account::new(lots);
    assert_eq!(account.funds, vec![0, 7, 4, 1, 8, 5, 2, 9, 6, 3]);
}
