//! Boat races: in how many ways the record of a race can be beaten.

use crate::errors::PuzzleError;
use crate::text::{decimal, decimal_string};
use crate::traits::AdventOfCode;
use vstd::prelude::*;

verus! {

/// Pushing the button for `push_time` of the `time` of a race beats the record `dist`.
pub open spec fn beats(time: int, dist: int, push_time: int) -> bool {
    (time - push_time) * push_time > dist
}

/// How many of the push times below `n` beat the record.
pub open spec fn records_below(time: int, dist: int, n: int) -> nat
    decreases n,
{
    if n <= 0 {
        0
    } else {
        records_below(time, dist, n - 1) + if beats(time, dist, n - 1) {
            1nat
        } else {
            0nat
        }
    }
}

/// In how many ways the record `dist` of a race that lasts `time` can be beaten.
pub fn valid_push_times_count(time: u64, dist: u64) -> (records: u64)
    ensures
        records == records_below(time as int, dist as int, time as int),
        records <= time,
{
    let mut records: u64 = 0;
    let mut push_time: u64 = 0;
    while push_time < time
        invariant
            push_time <= time,
            records <= push_time,
            records == records_below(time as int, dist as int, push_time as int),
        decreases time - push_time,
    {
        let speed = push_time as u128;
        let left_time = (time - push_time) as u128;
        assert(left_time * speed <= 0xffff_ffff_ffff_ffff * 0xffff_ffff_ffff_ffff)
            by (nonlinear_arith)
            requires
                0 <= left_time <= 0xffff_ffff_ffff_ffff,
                0 <= speed <= 0xffff_ffff_ffff_ffff,
        ;
        if left_time * speed > dist as u128 {
            records += 1;
        }
        push_time += 1;
    }
    records
}

/// The answer of the first part: the product of the ways to beat the four races.
pub open spec fn answer1() -> nat {
    records_below(48, 296, 48) * records_below(93, 1928, 93) * records_below(85, 1236, 85)
        * records_below(95, 1391, 95)
}

/// The answer of the second part: the ways to beat the one long race.
pub open spec fn answer2() -> nat {
    records_below(48938595, 296192812361391, 48938595)
}

pub struct Day6;

impl AdventOfCode for Day6 {
    fn day(&self) -> (d: u8)
        ensures
            d == 6,
    {
        6
    }

    fn run1(&mut self, _input: Option<String>) -> (r: Result<String, PuzzleError>)
        ensures
            r is Ok,
            r.unwrap()@ == decimal(answer1()),
    {
        let a = valid_push_times_count(48, 296) as u128;
        let b = valid_push_times_count(93, 1928) as u128;
        let c = valid_push_times_count(85, 1236) as u128;
        let d = valid_push_times_count(95, 1391) as u128;
        assert(a * b <= 48 * 93 && a * b * c <= 48 * 93 * 85 && a * b * c * d <= 48 * 93 * 85 * 95)
            by (nonlinear_arith)
            requires
                0 <= a <= 48,
                0 <= b <= 93,
                0 <= c <= 85,
                0 <= d <= 95,
        ;
        Ok(decimal_string(a * b * c * d))
    }

    fn run2(&mut self, _input: Option<String>) -> (r: Result<String, PuzzleError>)
        ensures
            r is Ok,
            r.unwrap()@ == decimal(answer2()),
    {
        Ok(decimal_string(valid_push_times_count(48938595, 296192812361391) as u128))
    }
}

} // verus!
