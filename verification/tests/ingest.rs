use capgains::ingest::gather_records;
use capgains::record::Record;

fn lot(date: i32) -> Record {
    Record { date, fund: 1, num_shares: 1_000, share_price: 10 }
}

#[test]
fn readable_rows_are_gathered_in_order() {
    let rows = vec![Some(lot(1)), Some(lot(2)), Some(lot(3))];
    assert_eq!(gather_records(&rows), Ok(vec![lot(1), lot(2), lot(3)]));
    assert_eq!(gather_records(&Vec::new()), Ok(Vec::new()));
}

#[test]
fn unreadable_rows_at_the_end_are_passed_over() {
    let rows = vec![Some(lot(1)), Some(lot(2)), None, None];
    assert_eq!(gather_records(&rows), Ok(vec![lot(1), lot(2)]));
    assert_eq!(gather_records(&vec![None]), Ok(Vec::new()));
}

#[test]
fn unreadable_row_before_a_lot_is_a_fault() {
    let rows = vec![Some(lot(1)), None, Some(lot(3))];
    assert_eq!(gather_records(&rows), Err(1));
    let rows = vec![None, None, Some(lot(3)), None, Some(lot(5))];
    assert_eq!(gather_records(&rows), Err(1));
    let rows = vec![Some(lot(1)), Some(lot(2)), None, None, None, Some(lot(6)), None];
    assert_eq!(gather_records(&rows), Err(4));
}
