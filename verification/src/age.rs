//! How long ago something was.

use vstd::prelude::*;
use vstd::string::*;

use crate::number::{self, to_decimal};

verus! {

pub const MINUTE: i64 = 60;

pub const HOUR: i64 = 3600;

pub const DAY: i64 = 86400;

pub const MONTH: i64 = 2592000;

pub const YEAR: i64 = 31536000;

/// So many seconds, in as few characters as still read.
pub open spec fn age(seconds: int) -> Seq<char> {
    let s = if seconds < 0 {
        0
    } else {
        seconds
    };
    if s < HOUR {
        number::decimal((s / MINUTE as int) as nat) + "m"@
    } else if s < DAY {
        number::decimal((s / HOUR as int) as nat) + "h"@
    } else if s < MONTH {
        number::decimal((s / DAY as int) as nat) + "d"@
    } else if s < YEAR {
        number::decimal((s / MONTH as int) as nat) + "mo"@
    } else {
        number::decimal((s / YEAR as int) as nat) + "y"@
    }
}

/// How long before `now` a commit was made, in as few characters as still read: `5m`, `3h`,
/// `2d`.
pub fn format_age(time: i64, now: i64) -> (text: String)
    ensures
        text@ == age(now - time),
{
    let since: i128 = now as i128 - time as i128;
    let seconds: u128 = if since < 0 {
        0
    } else {
        since as u128
    };
    let (amount, unit): (u128, &str) = if seconds < 3600 {
        (seconds / 60, "m")
    } else if seconds < 86400 {
        (seconds / 3600, "h")
    } else if seconds < 2592000 {
        (seconds / 86400, "d")
    } else if seconds < 31536000 {
        (seconds / 2592000, "mo")
    } else {
        (seconds / 31536000, "y")
    };
    let mut text = to_decimal(amount as u64);
    text.append(unit);
    text
}

/// An age is told in the largest unit it has a whole one of, rounded down: `n` of them and
/// less than one more. What is yet to come is no time ago.
pub proof fn law_an_age_is_told_in_its_largest_unit(n: nat, more: nat)
    ensures
        n < 60 && more < 60 ==> age((n * 60 + more) as int) == number::decimal(n) + "m"@,
        1 <= n < 24 && more < 3600 ==> age((n * 3600 + more) as int) == number::decimal(n) + "h"@,
        1 <= n < 30 && more < 86400 ==> age((n * 86400 + more) as int) == number::decimal(n) + "d"@,
        1 <= n && more < 2592000 && n * 2592000 + more < 31536000 ==> age(
            (n * 2592000 + more) as int,
        ) == number::decimal(n) + "mo"@,
        1 <= n && more < 31536000 ==> age((n * 31536000 + more) as int) == number::decimal(n)
            + "y"@,
        age(-(n as int)) == age(0),
{
}

} // verus!
