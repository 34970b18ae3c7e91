//! The ways in which a selection can fail.

use vstd::prelude::*;

verus! {

/// Why no selection was made.
#[derive(Clone, Copy, Debug, PartialEq, Eq)]
pub enum AccountError {
    /// A fund that some lot holds has no price.
    MissingPrice { fund: u64 },
    /// Selling every lot would not raise the target net of tax.
    InsufficientFunds,
}

} // verus!
