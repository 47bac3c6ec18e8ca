//! Small numeric helpers.
use vstd::prelude::*;

verus! {

/// Number of decimal digits of `n`; zero and negative numbers have none.
pub open spec fn digit_count(n: int) -> nat
    decreases n,
{
    if n <= 0 {
        0
    } else {
        1 + digit_count(n / 10)
    }
}

/// A number below ten thousand million has at most ten digits.
pub proof fn lemma_digit_count_bound(n: int)
    requires
        n < 10_000_000_000,
    ensures
        digit_count(n) <= 10,
{
    reveal_with_fuel(digit_count, 11);
}

/// Counts the decimal digits of `n`.
pub fn total_digits(n: i32) -> (digits: i32)
    ensures
        digits == digit_count(n as int),
        0 <= digits <= 10,
{
    let mut rest: i32 = n;
    let mut digits: i32 = 0;
    proof {
        lemma_digit_count_bound(n as int);
    }
    while rest > 0
        invariant
            0 <= digits,
            digits + digit_count(rest as int) == digit_count(n as int),
            digit_count(n as int) <= 10,
        decreases rest,
    {
        rest = rest / 10;
        digits = digits + 1;
    }
    digits
}

} // verus!
