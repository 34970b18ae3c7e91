//! Reading the decimal numbers of a transaction history exactly, as whole
//! numbers of a unit.
//!
//! A number is written with digits and at most one decimal point. Commas
//! between them are passed over, and so are dollar signs before and after:
//! `$1,234.50` read to two places is 123450.

use vstd::prelude::*;

verus! {

/// What has been read of a number so far.
pub struct Reading {
    /// How many digits were read.
    pub digits: nat,
    /// The digits read, taken as one whole number.
    pub value: nat,
    /// How many of the digits came after the decimal point, once there was one.
    pub places: Option<nat>,
}

/// `text` without the dollar signs at its ends.
pub open spec fn trim_dollars(text: Seq<u8>) -> Seq<u8>
    decreases text.len(),
{
    if text.len() > 0 && text[0] == 0x24 {
        trim_dollars(text.drop_first())
    } else if text.len() > 0 && text.last() == 0x24 {
        trim_dollars(text.drop_last())
    } else {
        text
    }
}

/// Reads `text` from left to right: digits add to the value, commas are
/// passed over, one decimal point may occur. `None` if anything else occurs.
pub open spec fn read(text: Seq<u8>) -> Option<Reading>
    decreases text.len(),
{
    if text.len() == 0 {
        Some(Reading { digits: 0, value: 0, places: None })
    } else {
        match read(text.drop_last()) {
            None => None,
            Some(r) => {
                let b = text.last();
                if b == 0x2c {
                    Some(r)
                } else if 0x30 <= b <= 0x39 {
                    Some(
                        Reading {
                            digits: r.digits + 1,
                            value: r.value * 10 + (b - 0x30) as nat,
                            places: match r.places {
                                Some(n) => Some(n + 1),
                                None => None,
                            },
                        },
                    )
                } else if b == 0x2e && r.places is None {
                    Some(Reading { places: Some(0), ..r })
                } else {
                    None
                }
            },
        }
    }
}

/// Ten to the power `n`.
pub open spec fn pow10(n: nat) -> nat
    decreases n,
{
    if n == 0 {
        1
    } else {
        10 * pow10((n - 1) as nat)
    }
}

/// The number that `text` writes, in units of which ten to the power
/// `places` make one: `None` if `text` writes no number, or one with more
/// than `places` digits after the decimal point.
pub open spec fn decimal_units(text: Seq<u8>, places: nat) -> Option<nat> {
    match read(trim_dollars(text)) {
        None => None,
        Some(r) => {
            let after = match r.places {
                Some(n) => n,
                None => 0,
            };
            if r.digits == 0 || after > places {
                None
            } else {
                Some(r.value * pow10((places - after) as nat))
            }
        },
    }
}

/// What was read of the beginning of a number stays: the rest can only add
/// digits.
pub proof fn lemma_read_prefix(text: Seq<u8>, k: int)
    requires
        0 <= k <= text.len(),
        read(text) is Some,
    ensures
        read(text.take(k)) is Some,
        read(text.take(k))->0.value <= read(text)->0.value,
        read(text.take(k))->0.digits <= read(text)->0.digits,
        read(text.take(k))->0.places matches Some(n) ==> (read(text)->0.places matches Some(m)
            && n <= m),
    decreases text.len() - k,
{
    if k == text.len() {
        assert(text.take(k) =~= text);
    } else {
        assert(text.drop_last().take(k) =~= text.take(k));
        lemma_read_prefix(text.drop_last(), k);
    }
}

/// A power of ten is at least one.
pub proof fn lemma_pow10_positive(n: nat)
    ensures
        pow10(n) >= 1,
    decreases n,
{
    if n > 0 {
        lemma_pow10_positive((n - 1) as nat);
    }
}

/// Reads the number that `text` writes, in units of which ten to the power
/// `places` make one. `None` if `text` writes no such number, or one that is
/// too large.
pub fn read_decimal(text: &[u8], places: u32) -> (res: Option<u64>)
    ensures
        res == match decimal_units(text@, places as nat) {
            Some(v) => if v <= u64::MAX {
                Some(v as u64)
            } else {
                None
            },
            None => None,
        },
{
    let mut start: usize = 0;
    proof {
        assert(text@.subrange(0, text@.len() as int) =~= text@);
    }
    while start < text.len() && text[start] == 0x24
        invariant
            start <= text@.len(),
            trim_dollars(text@) == trim_dollars(text@.subrange(start as int, text@.len() as int)),
        decreases text@.len() - start,
    {
        proof {
            assert(text@.subrange(start as int, text@.len() as int).drop_first()
                =~= text@.subrange(start + 1, text@.len() as int));
        }
        start = start + 1;
    }
    let mut end: usize = text.len();
    while end > start && text[end - 1] == 0x24
        invariant
            start <= end <= text@.len(),
            start < text@.len() ==> text@[start as int] != 0x24,
            trim_dollars(text@) == trim_dollars(text@.subrange(start as int, end as int)),
        decreases end,
    {
        proof {
            assert(text@.subrange(start as int, end as int).drop_last() =~= text@.subrange(
                start as int,
                end - 1,
            ));
        }
        end = end - 1;
    }
    let ghost body = text@.subrange(start as int, end as int);
    assert(trim_dollars(text@) == body);
    let mut value: u64 = 0;
    let mut any_digit = false;
    let mut point = false;
    let mut after: u32 = 0;
    let mut i: usize = start;
    proof {
        assert(body.take(0) =~= Seq::<u8>::empty());
    }
    while i < end
        invariant
            start <= i <= end <= text@.len(),
            body == text@.subrange(start as int, end as int),
            trim_dollars(text@) == body,
            read(body.take(i - start)) == Some(
                Reading {
                    digits: read(body.take(i - start))->0.digits,
                    value: value as nat,
                    places: if point {
                        Some(after as nat)
                    } else {
                        None
                    },
                },
            ),
            any_digit <==> read(body.take(i - start))->0.digits > 0,
            after <= places,
            !point ==> after == 0,
        decreases end - i,
    {
        let b = text[i];
        proof {
            assert(body.take(i - start + 1).drop_last() =~= body.take(i - start));
            assert(body.take(i - start + 1).last() == b);
            if read(body) is Some {
                lemma_read_prefix(body, i - start + 1);
            }
        }
        if b == 0x2c {
        } else if 0x30 <= b && b <= 0x39 {
            if point {
                if after == places {
                    return None;
                }
                after = after + 1;
            }
            let d: u64 = (b - 0x30) as u64;
            if value > (u64::MAX - d) / 10 {
                proof {
                    assert(value * 10 + d > u64::MAX);
                    if read(body) is Some {
                        let r = read(body)->0;
                        let rest = match r.places {
                            Some(n) => n,
                            None => 0,
                        };
                        if rest <= places {
                            lemma_pow10_positive((places - rest) as nat);
                            assert(r.value * pow10((places - rest) as nat) >= r.value)
                                by (nonlinear_arith)
                                requires
                                    pow10((places - rest) as nat) >= 1,
                            ;
                        }
                    }
                }
                return None;
            }
            value = value * 10 + d;
            any_digit = true;
        } else if b == 0x2e && !point {
            point = true;
        } else {
            return None;
        }
        i = i + 1;
    }
    proof {
        assert(body.take(i - start) =~= body);
    }
    if !any_digit {
        return None;
    }
    let mut left: u32 = places - after;
    let ghost written = value;
    let ghost total = (places - after) as nat;
    assert(decimal_units(text@, places as nat) == Some(written as nat * pow10(total)));
    while left > 0
        invariant
            left <= total,
            decimal_units(text@, places as nat) == Some(written as nat * pow10(total)),
            value * pow10(left as nat) == written * pow10(total),
        decreases left,
    {
        proof {
            lemma_pow10_positive((left - 1) as nat);
            assert(value * (10 * pow10((left - 1) as nat)) == (value * 10) * pow10(
                (left - 1) as nat,
            )) by (nonlinear_arith);
        }
        if value > u64::MAX / 10 {
            proof {
                assert((value * 10) * pow10((left - 1) as nat) >= value * 10) by (nonlinear_arith)
                    requires
                        pow10((left - 1) as nat) >= 1,
                ;
            }
            return None;
        }
        value = value * 10;
        left = left - 1;
    }
    proof {
        assert(pow10(0) == 1);
        assert(value * pow10(left as nat) == value) by (nonlinear_arith)
            requires
                pow10(left as nat) == 1,
        ;
    }
    Some(value)
}

} // verus!
