use capgains::prices::{price_table, FundPrice};

#[test]
fn price_table_holds_every_fund_of_the_list() {
    let table = price_table(&vec![
        FundPrice { fund: 3, share_price: 100 },
        FundPrice { fund: 8, share_price: 250 },
    ]);
    assert_eq!(table.len(), 2);
    assert_eq!(table.get(&3), Some(&100));
    assert_eq!(table.get(&8), Some(&250));
    assert_eq!(table.get(&5), None);
}

#[test]
fn last_price_of_a_fund_counts() {
    let table = price_table(&vec![
        FundPrice { fund: 3, share_price: 100 },
        FundPrice { fund: 8, share_price: 250 },
        FundPrice { fund: 3, share_price: 120 },
    ]);
    assert_eq!(table.len(), 2);
    assert_eq!(table.get(&3), Some(&120));
}

#[test]
fn empty_list_gives_an_empty_table() {
    assert!(price_table(&Vec::new()).is_empty());
}
