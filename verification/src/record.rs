//! Purchase lots and the figures derived from selling them at a given price.
//!
//! A sale's gain ratio, its gain per unit of proceeds, is not stored: it is
//! the fraction of `cap_gains` over `amount`, and fractions are compared
//! exactly where lots are ranked.

use vstd::prelude::*;

verus! {

/// Share units that make up one whole share.
pub const SHARE_UNITS: u64 = 1000;

/// Decimal places of a share count: one share unit is the last of them.
pub const SHARE_PLACES: u32 = 3;

/// Decimal places of a tax rate written as a fraction of one.
pub const RATE_PLACES: u32 = 6;

/// Denominator of the flat tax rate: a rate of `RATE_SCALE` would be 100%.
pub const RATE_SCALE: u32 = 1_000_000;

/// One purchase of shares of a fund.
#[derive(Clone, Copy, Debug, PartialEq, Eq)]
pub struct Record {
    /// Day of the purchase, counted from day 1 on 1 January of the year 1.
    pub date: i32,
    /// The fund that was bought.
    pub fund: u64,
    /// Share units bought.
    pub num_shares: u64,
    /// Price paid per share: the cost basis.
    pub share_price: u32,
}

/// The sale of a lot, whole or in part, at the current price of its fund.
#[derive(Clone, Copy, Debug, PartialEq, Eq)]
pub struct SellRecord {
    /// Day on which the lot was bought.
    pub date_purchased: i32,
    /// The fund of the lot.
    pub fund: u64,
    /// Share units sold.
    pub num_shares: u64,
    /// The cost basis per share.
    pub share_price_purchased: u32,
    /// The current price per share.
    pub share_price: u32,
    /// Proceeds of the sale: price times share units.
    pub amount: u128,
    /// Realised gain: price minus cost basis, times share units. Negative for a loss.
    pub cap_gains: i128,
}

/// The sale of `shares` share units of `record` at `price`.
pub open spec fn sale_of(record: Record, price: u32, shares: u64) -> SellRecord {
    SellRecord {
        date_purchased: record.date,
        fund: record.fund,
        num_shares: shares,
        share_price_purchased: record.share_price,
        share_price: price,
        amount: (price * shares) as u128,
        cap_gains: ((price - record.share_price) * shares) as i128,
    }
}

/// Proceeds net of tax, per share unit, in millionths of an amount unit.
pub open spec fn unit_net_ppm(price: int, basis: int, rate: int) -> int {
    price * (RATE_SCALE - rate) + basis * rate
}

/// A product of two numbers that are not negative is bounded by the product
/// of their bounds.
pub proof fn lemma_product_bound(a: int, b: int, x: int, y: int)
    requires
        0 <= a <= x,
        0 <= b <= y,
    ensures
        0 <= a * b <= x * y,
{
    assert(0 <= a * b <= x * y) by (nonlinear_arith)
        requires
            0 <= a <= x,
            0 <= b <= y,
    ;
}

impl SellRecord {
    /// The amount and the gain are the ones that price, cost basis and share
    /// count give.
    pub open spec fn wf(&self) -> bool {
        &&& self.amount == self.share_price * self.num_shares
        &&& self.cap_gains == (self.share_price - self.share_price_purchased) * self.num_shares
    }

    /// The lot this sale was taken from, given how many share units it held.
    pub open spec fn lot(&self, shares: u64) -> Record {
        Record {
            date: self.date_purchased,
            fund: self.fund,
            num_shares: shares,
            share_price: self.share_price_purchased,
        }
    }

    /// Proceeds net of tax at `rate` parts per million, in millionths:
    /// the amount less the rate's share of the gain.
    pub open spec fn net_ppm(&self, rate: int) -> int {
        self.amount * RATE_SCALE - self.cap_gains * rate
    }

    /// Figures for selling `shares` share units of `record` at `price`.
    pub fn new(record: &Record, price: u32, shares: u64) -> (r: SellRecord)
        ensures
            r == sale_of(*record, price, shares),
            r.wf(),
    {
        proof {
            lemma_product_bound(price as int, shares as int, u32::MAX as int, u64::MAX as int);
            if price >= record.share_price {
                lemma_product_bound(
                    price - record.share_price,
                    shares as int,
                    u32::MAX as int,
                    u64::MAX as int,
                );
            } else {
                lemma_product_bound(
                    record.share_price - price,
                    shares as int,
                    u32::MAX as int,
                    u64::MAX as int,
                );
                assert((price - record.share_price) * shares == -((record.share_price - price)
                    * shares)) by (nonlinear_arith);
            }
            assert(0xffff_ffff * 0xffff_ffff_ffff_ffff < 0x1_0000_0000_0000_0000_0000_0000int);
        }
        SellRecord {
            date_purchased: record.date,
            fund: record.fund,
            num_shares: shares,
            share_price_purchased: record.share_price,
            share_price: price,
            amount: (price as u128) * (shares as u128),
            cap_gains: (price as i128 - record.share_price as i128) * (shares as i128),
        }
    }

    /// The net proceeds are the share count times the net proceeds per share
    /// unit, and so never negative at a rate below 100%.
    pub proof fn lemma_net_ppm(&self, rate: int)
        requires
            self.wf(),
            0 <= rate < RATE_SCALE,
        ensures
            self.net_ppm(rate) == self.num_shares * unit_net_ppm(
                self.share_price as int,
                self.share_price_purchased as int,
                rate,
            ),
            0 <= unit_net_ppm(self.share_price as int, self.share_price_purchased as int, rate)
                <= u32::MAX * RATE_SCALE,
            0 <= self.net_ppm(rate) <= u64::MAX * (u32::MAX * RATE_SCALE),
            self.amount <= self.net_ppm(rate),
    {
        let p = self.share_price as int;
        let b = self.share_price_purchased as int;
        let s = self.num_shares as int;
        let d = RATE_SCALE as int;
        let u = unit_net_ppm(p, b, rate);
        assert((p * s) * d - ((p - b) * s) * rate == s * (p * (d - rate) + b * rate))
            by (nonlinear_arith);
        assert(0 <= u <= u32::MAX * d && p <= u) by (nonlinear_arith)
            requires
                u == p * (d - rate) + b * rate,
                0 <= p <= u32::MAX,
                0 <= b <= u32::MAX,
                0 <= rate < d,
        ;
        lemma_product_bound(s, u, u64::MAX as int, u32::MAX * d);
        assert(p * s <= s * u) by (nonlinear_arith)
            requires
                0 <= s,
                p <= u,
        ;
    }
}

} // verus!
