//! Choosing which purchase lots of a portfolio to sell so that a cash target
//! is raised with as little realised capital gain as possible.
//!
//! All quantities are exact integers. Shares are counted in thousandths of a
//! share, prices in the smallest unit of the currency, and the flat tax rate
//! in parts per million. An amount is a price multiplied by a share count, so
//! its unit is one currency unit times one thousandth of a share.

pub mod error;
pub mod record;
pub mod date;
pub mod decimal;
pub mod prices;
pub mod totals;
pub mod ranking;
pub mod selection;
pub mod ingest;
pub mod account;
pub mod summary;
