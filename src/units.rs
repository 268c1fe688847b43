//! Human-readable byte counts.

use vstd::prelude::*;

verus! {

/// The factor between two consecutive units.
pub const UNIT_STEP: u64 = 1024;

/// The largest unit: gigabytes.
pub const TOP_UNIT: usize = 3;

/// The suffix of unit `level`: bytes, kilobytes, megabytes, gigabytes.
pub open spec fn unit_suffix(level: nat) -> Seq<char> {
    if level == 0 {
        seq!['B']
    } else if level == 1 {
        seq!['K', 'B']
    } else if level == 2 {
        seq!['M', 'B']
    } else {
        seq!['G', 'B']
    }
}

/// `x` bytes expressed from unit `level` on: divided by the unit step (with
/// the remainder dropped) while it is at least one step and a larger unit
/// is left. Returns the scaled value and its unit.
pub open spec fn scale(x: nat, level: nat) -> (nat, nat)
    decreases TOP_UNIT - level,
{
    if level < TOP_UNIT && x >= UNIT_STEP {
        scale(x / (UNIT_STEP as nat), level + 1)
    } else {
        (x, level)
    }
}

/// The decimal digit for `d`, below ten.
pub open spec fn digit_char(d: nat) -> char {
    seq!['0', '1', '2', '3', '4', '5', '6', '7', '8', '9'][d as int]
}

/// The decimal form of `n`, without leading zeros.
pub open spec fn decimal(n: nat) -> Seq<char>
    decreases n,
{
    if n < 10 {
        seq![digit_char(n)]
    } else {
        decimal(n / 10).push(digit_char(n % 10))
    }
}

/// Relies on `format!` with `u64`'s `Display`, which writes the number in
/// decimal without leading zeros, followed here by `suffix`.
#[verifier::external_body]
fn decimal_with_suffix(x: u64, suffix: &str) -> (r: String)
    ensures
        r@ == decimal(x as nat) + suffix@,
{
    format!("{x}{suffix}")
}

/// `x` bytes in the largest unit up to gigabytes in which the count is at
/// least one, rounded down: `10B`, `2KB`, `1023MB`, `4096GB`.
pub fn format_size(x: u64) -> (r: String)
    ensures
        r@ == decimal(scale(x as nat, 0).0) + unit_suffix(scale(x as nat, 0).1),
{
    let mut value: u64 = x;
    let mut level: usize = 0;
    while level < TOP_UNIT && value >= UNIT_STEP
        invariant
            level <= TOP_UNIT,
            scale(value as nat, level as nat) == scale(x as nat, 0),
        decreases TOP_UNIT - level,
    {
        value = value / UNIT_STEP;
        level = level + 1;
    }
    let suffix = if level == 0 {
        "B"
    } else if level == 1 {
        "KB"
    } else if level == 2 {
        "MB"
    } else {
        "GB"
    };
    proof {
        reveal_strlit("B");
        reveal_strlit("KB");
        reveal_strlit("MB");
        reveal_strlit("GB");
        assert(suffix@ =~= unit_suffix(level as nat));
    }
    decimal_with_suffix(value, suffix)
}

} // verus!
