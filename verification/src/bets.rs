//! Bets on the moneyline: what a winning bet pays, and which bets are picked.

use vstd::prelude::*;

use crate::numbers::{parse_i32, read_i32};
use crate::text::{chars_of, trim, trim_of};

verus! {

/// The bits of the binary64 number nearest to 8.1.
pub const PICK_FROM_BITS: u64 = 0x4020_3333_3333_3333;

/// The bits of the binary64 number nearest to 19.9.
pub const PICK_TO_BITS: u64 = 0x4033_e666_6666_6666;

/// What is bet on each pick, in dollars: a lost bet costs as much.
pub const STAKE: u32 = 100;

/// The profit on a winning bet of $100, as a fraction: at +390 it is 390, at -220 it is 10000
/// divided by 220.
pub open spec fn win_fraction(ml: Seq<char>) -> Option<(int, int)> {
    match read_i32(trim(ml)) {
        Some(n) => if n > 0 {
            Some((n, 1))
        } else if n < 0 {
            Some((10_000, -n))
        } else {
            None
        },
        None => None,
    }
}

/// The negation of the moneyline stays in the range of `i32`.
pub open spec fn ml_in_range(ml: Seq<char>) -> bool {
    read_i32(trim(ml)) != Some(i32::MIN as int)
}

/// An expected value, given by its binary64 bits, is one of a pick: from 8.1 to 19.9.
pub open spec fn is_pick_value(bits: u64) -> bool {
    PICK_FROM_BITS <= bits <= PICK_TO_BITS
}

/// Tells whether a moneyline can be negated.
pub fn ml_fits(ml: &str) -> (r: bool)
    ensures
        r == ml_in_range(ml@),
{
    let cs = chars_of(ml);
    match parse_i32(trim_of(&cs)) {
        Some(n) => n > i32::MIN,
        None => true,
    }
}

/// Profit on a winning $100 bet for a given moneyline, as a numerator and a denominator.
pub fn ml_win_amount(ml: &str) -> (r: Option<(u32, u32)>)
    requires
        ml_in_range(ml@),
    ensures
        match r {
            Some(f) => win_fraction(ml@) == Some((f.0 as int, f.1 as int)) && f.0 > 0 && f.1 > 0,
            None => win_fraction(ml@) is None,
        },
{
    let cs = chars_of(ml);
    match parse_i32(trim_of(&cs)) {
        Some(n) => if n > 0 {
            Some((n as u32, 1))
        } else if n < 0 {
            Some((10_000, (-n) as u32))
        } else {
            None
        },
        None => None,
    }
}

/// Tells whether an expected value, given by its binary64 bits, is from 8.1 to 19.9. Numbers
/// greater than zero are ordered as their bits are; the bits of a negative number and of a number
/// that is no number are greater than these.
pub fn is_pick(bits: u64) -> (r: bool)
    ensures
        r == is_pick_value(bits),
{
    PICK_FROM_BITS <= bits && bits <= PICK_TO_BITS
}

/// A bet of $100 at a negative moneyline `-n` wins what makes a stake of `n` win $100: the profit
/// times `n` is 10000. At a positive moneyline the profit is the moneyline. At no other text is
/// there a profit.
pub proof fn law_profit_is_in_proportion(ml: Seq<char>)
    ensures
        match read_i32(trim(ml)) {
            Some(n) => {
                &&& n != 0 <==> win_fraction(ml) is Some
                &&& win_fraction(ml) matches Some((p, q)) ==> {
                    &&& p > 0 && q > 0
                    &&& n > 0 ==> p == n * q
                    &&& n < 0 ==> p * (-n) == 100 * 100 * q
                }
            },
            None => win_fraction(ml) is None,
        },
{
}

/// The values of picks are an interval that holds the numbers nearest to 8.1 and 19.9 and ends
/// with them: what lies between two picks is one, and the numbers next to the two ends are none.
pub proof fn law_picks_are_an_interval(low: u64, bits: u64, high: u64)
    ensures
        low <= bits <= high && is_pick_value(low) && is_pick_value(high) ==> is_pick_value(bits),
        is_pick_value(0x4020_3333_3333_3333) && !is_pick_value(0x4020_3333_3333_3332),
        is_pick_value(0x4033_e666_6666_6666) && !is_pick_value(0x4033_e666_6666_6667),
{
}

} // verus!
