//! Taking in the rows of a transaction history.
//!
//! A history may end in rows that are no lots, such as a footer. Those are
//! passed over. A row that cannot be read and is followed by one that can is
//! a fault in the history.

use vstd::prelude::*;
use crate::record::Record;

verus! {

/// Row `j` could not be read, and the row after it could.
pub open spec fn unreadable_before_lot(rows: Seq<Option<Record>>, j: int) -> bool {
    &&& 0 <= j
    &&& j + 1 < rows.len()
    &&& rows[j] is None
    &&& rows[j + 1] is Some
}

/// Some unreadable row is followed by a lot.
pub open spec fn has_fault(rows: Seq<Option<Record>>) -> bool {
    exists|j: int| unreadable_before_lot(rows, j)
}

/// Gathers the lots of a history from its rows, where `None` stands for a row
/// that could not be read.
///
/// Gives the lots in the order of the rows, passing over unreadable rows at
/// the end. Fails with the position of the first unreadable row that is
/// followed by a lot.
pub fn gather_records(rows: &Vec<Option<Record>>) -> (res: Result<Vec<Record>, usize>)
    ensures
        res is Err <==> has_fault(rows@),
        res matches Err(j) ==> unreadable_before_lot(rows@, j as int) && forall|i: int|
            0 <= i < j ==> !unreadable_before_lot(rows@, i),
        res matches Ok(lots) ==> {
            &&& lots@.len() <= rows@.len()
            &&& forall|i: int| 0 <= i < lots@.len() ==> rows@[i] == Some(#[trigger] lots@[i])
            &&& forall|i: int| lots@.len() <= i < rows@.len() ==> (#[trigger] rows@[i]) is None
        },
{
    let mut lots: Vec<Record> = Vec::new();
    let mut i: usize = 0;
    while i < rows.len() && rows[i].is_some()
        invariant
            i <= rows@.len(),
            lots@.len() == i,
            forall|k: int| 0 <= k < i ==> rows@[k] == Some(#[trigger] lots@[k]),
        decreases rows@.len() - i,
    {
        lots.push(rows[i].unwrap());
        i = i + 1;
    }
    let mut j: usize = i;
    while j < rows.len()
        invariant
            i <= j <= rows@.len(),
            i < rows@.len() ==> rows@[i as int] is None,
            lots@.len() == i,
            forall|k: int| 0 <= k < i ==> rows@[k] == Some(#[trigger] lots@[k]),
            forall|k: int| i <= k < j ==> (#[trigger] rows@[k]) is None,
        decreases rows@.len() - j,
    {
        if rows[j].is_some() {
            proof {
                assert(unreadable_before_lot(rows@, j - 1));
                assert forall|k: int| 0 <= k < j - 1 implies !unreadable_before_lot(rows@, k) by {
                    if k < i {
                        assert(rows@[k] == Some(lots@[k]));
                    } else {
                        assert(rows@[k + 1] is None);
                    }
                }
            }
            return Err(j - 1);
        }
        j = j + 1;
    }
    proof {
        assert forall|k: int| !unreadable_before_lot(rows@, k) by {
            if 0 <= k && k + 1 < rows@.len() {
                if k < i {
                    assert(rows@[k] == Some(lots@[k]));
                } else {
                    assert(rows@[k + 1] is None);
                }
            }
        }
    }
    Ok(lots)
}

} // verus!
