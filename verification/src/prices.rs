//! The current prices of the funds.

use std::collections::HashMap;
use vstd::prelude::*;

verus! {

broadcast use vstd::std_specs::hash::group_hash_axioms;

/// The current price of one fund, as a price list gives it.
#[derive(Clone, Copy, Debug, PartialEq, Eq)]
pub struct FundPrice {
    /// The fund.
    pub fund: u64,
    /// Its price per share.
    pub share_price: u32,
}

/// The price table that a price list makes: each fund with the price that
/// the list gives last for it.
pub open spec fn table_of(list: Seq<FundPrice>) -> Map<u64, u32>
    decreases list.len(),
{
    if list.len() == 0 {
        Map::empty()
    } else {
        table_of(list.drop_last()).insert(list.last().fund, list.last().share_price)
    }
}

/// A fund has a price in the table exactly if the list names it.
pub proof fn lemma_table_funds(list: Seq<FundPrice>, fund: u64)
    ensures
        table_of(list).contains_key(fund) <==> exists|i: int|
            0 <= i < list.len() && #[trigger] list[i].fund == fund,
    decreases list.len(),
{
    if list.len() > 0 {
        let init = list.drop_last();
        lemma_table_funds(init, fund);
        if list.last().fund == fund {
            assert(list[list.len() - 1].fund == fund);
        } else {
            if table_of(init).contains_key(fund) {
                let i = choose|i: int| 0 <= i < init.len() && #[trigger] init[i].fund == fund;
                assert(list[i].fund == fund);
            }
            if exists|i: int| 0 <= i < list.len() && #[trigger] list[i].fund == fund {
                let i = choose|i: int| 0 <= i < list.len() && #[trigger] list[i].fund == fund;
                assert(init[i].fund == fund);
            }
        }
    }
}

/// The price of a fund in the table is that of the last entry of the list
/// that names the fund.
pub proof fn lemma_table_price(list: Seq<FundPrice>, i: int)
    requires
        0 <= i < list.len(),
        forall|j: int| i < j < list.len() ==> (#[trigger] list[j]).fund != list[i].fund,
    ensures
        table_of(list).contains_key(list[i].fund),
        table_of(list)[list[i].fund] == list[i].share_price,
    decreases list.len(),
{
    if i < list.len() - 1 {
        let init = list.drop_last();
        assert(list[list.len() - 1].fund != list[i].fund);
        assert forall|j: int| i < j < init.len() implies (#[trigger] init[j]).fund
            != init[i].fund by {
            assert(list[j].fund != list[i].fund);
        }
        lemma_table_price(init, i);
    }
}

/// Makes the price table of a price list. Where the list names a fund more
/// than once, the last price counts.
pub fn price_table(list: &Vec<FundPrice>) -> (table: HashMap<u64, u32>)
    ensures
        table@ == table_of(list@),
{
    let mut table: HashMap<u64, u32> = HashMap::new();
    let mut i: usize = 0;
    proof {
        assert(list@.take(0) =~= Seq::<FundPrice>::empty());
    }
    while i < list.len()
        invariant
            i <= list@.len(),
            table@ == table_of(list@.take(i as int)),
        decreases list@.len() - i,
    {
        proof {
            assert(list@.take(i + 1).drop_last() =~= list@.take(i as int));
        }
        table.insert(list[i].fund, list[i].share_price);
        i = i + 1;
    }
    proof {
        assert(list@.take(i as int) =~= list@);
    }
    table
}

} // verus!
