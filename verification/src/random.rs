use crate::types::Timestamp;
use vstd::prelude::*;

verus! {

/// The number `t` with the zeros at its decimal end struck off; 0 stays 0.
pub open spec fn without_trailing_zeros(t: nat) -> nat
    decreases t,
{
    if t != 0 && t % 10 == 0 {
        without_trailing_zeros(t / 10)
    } else {
        t
    }
}

/// The pseudo-random number between 1 and `max` that the time `now` yields for the
/// counter `ran_no`. A counter of 0 counts as 1.
pub open spec fn random_number(max: int, ran_no: int, now: int) -> int {
    let t = without_trailing_zeros(now as nat) as int;
    let r = if ran_no <= 0 {
        1
    } else {
        ran_no
    };
    ((t + r) / (113 + r) * (77 + r) % max) % max + 1
}

/// A pseudo-random number lies between 1 and `max`.
pub proof fn lemma_random_number_in_range(max: int, ran_no: int, now: int)
    requires
        max >= 1,
    ensures
        1 <= random_number(max, ran_no, now) <= max,
{
}

/// Strikes the zeros off the decimal end of `t`.
fn strip_trailing_zeros(t: u64) -> (stripped: u64)
    ensures
        stripped == without_trailing_zeros(t as nat),
{
    let mut value: u64 = t;
    while value != 0 && value % 10 == 0
        invariant
            without_trailing_zeros(value as nat) == without_trailing_zeros(t as nat),
        decreases value,
    {
        value = value / 10;
    }
    value
}

/// Derives a pseudo-random number between 1 and `max` from the time `now` and the
/// counter `ran_no`. The same time and counter always give the same number, so a caller
/// who needs several numbers at one time steps the counter.
pub fn get_random_number(max: u64, ran_no: u64, now: Timestamp) -> (number: u64)
    requires
        max >= 1,
    ensures
        number == random_number(max as int, ran_no as int, now as int),
        1 <= number <= max,
{
    let time_value: u128 = strip_trailing_zeros(now) as u128;
    let step: u128 = if ran_no == 0 {
        1
    } else {
        ran_no as u128
    };
    let quotient: u128 = (time_value + step) / (113 + step);
    assert(quotient * (77 + step) <= time_value + step) by (nonlinear_arith)
        requires
            quotient == (time_value + step) / (113 + step),
            step >= 1,
            time_value >= 0,
    ;
    let scaled: u128 = quotient * (77 + step) % (max as u128);
    let number: u128 = scaled % (max as u128) + 1;
    number as u64
}

} // verus!
