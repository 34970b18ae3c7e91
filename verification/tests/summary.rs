use capgains::record::{Record, SellRecord};
use capgains::summary::{sort_most_recent_first, summarize, SellSummary};

fn sale(date: i32, shares: u64, basis: u32, price: u32) -> SellRecord {
    let lot = Record { date, fund: 1, num_shares: shares, share_price: basis };
    SellRecord::new(&lot, price, shares)
}

#[test]
fn summary_adds_amounts_and_gains() {
    let sales = vec![sale(1, 5_000, 80, 100), sale(2, 2_000, 50, 100)];
    assert_eq!(
        summarize(&sales, 0),
        SellSummary { amount: 700_000, cap_gains: 200_000, taxes: 0, net_amount: 700_000 }
    );
}

#[test]
fn summary_takes_the_tax_off_the_amount() {
    let sales = vec![sale(1, 5_000, 80, 100), sale(2, 2_000, 50, 100)];
    assert_eq!(
        summarize(&sales, 150_000),
        SellSummary { amount: 700_000, cap_gains: 200_000, taxes: 30_000, net_amount: 670_000 }
    );
}

#[test]
fn summary_rounds_the_tax_towards_zero() {
    // gain 7 at 333_333 ppm: 2.333331 rounds to 2
    let gain = vec![sale(1, 7, 0, 1)];
    assert_eq!(
        summarize(&gain, 333_333),
        SellSummary { amount: 7, cap_gains: 7, taxes: 2, net_amount: 5 }
    );
    // loss 7 at the same rate: -2.333331 rounds to -2
    let loss = vec![sale(1, 7, 2, 1)];
    assert_eq!(
        summarize(&loss, 333_333),
        SellSummary { amount: 7, cap_gains: -7, taxes: -2, net_amount: 9 }
    );
}

#[test]
fn summary_of_nothing_is_zero() {
    assert_eq!(
        summarize(&Vec::new(), 999_999),
        SellSummary { amount: 0, cap_gains: 0, taxes: 0, net_amount: 0 }
    );
}

#[test]
fn summary_of_the_largest_sale() {
    let big = vec![sale(1, u64::MAX, 0, u32::MAX)];
    let amount = u32::MAX as u128 * u64::MAX as u128;
    let taxes = (amount * 999_999 / 1_000_000) as i128;
    assert_eq!(
        summarize(&big, 999_999),
        SellSummary {
            amount,
            cap_gains: amount as i128,
            taxes,
            net_amount: amount as i128 - taxes,
        }
    );
}

#[test]
fn sales_are_ordered_most_recent_first() {
    let sales = vec![sale(5, 1, 1, 1), sale(9, 2, 1, 1), sale(-3, 3, 1, 1), sale(9, 4, 1, 1), sale(7, 5, 1, 1)];
    let sorted = sort_most_recent_first(&sales);
    let dates: Vec<i32> = sorted.iter().map(|s| s.date_purchased).collect();
    assert_eq!(dates, vec![9, 9, 7, 5, -3]);
    let mut shares: Vec<u64> = sorted.iter().map(|s| s.num_shares).collect();
    shares.sort();
    assert_eq!(shares, vec![1, 2, 3, 4, 5]);
    assert_eq!(sort_most_recent_first(&Vec::new()), Vec::new());
}
