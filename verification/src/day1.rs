//! Calibration values: the first and the last digit of each line.

use crate::errors::{ParseError, PuzzleError};
use crate::numbers::{sum, sum_of};
use crate::text::{
    bytes_of, decimal, decimal_string, has_prefix, lines, nonempty_lines, nonempty_rows,
    parse_usize, rows_view, same_bytes, starts_with, string_bytes, unsigned_value,
};
use crate::traits::AdventOfCode;
use vstd::prelude::*;
use vstd::slice::slice_subrange;
use vstd::string::*;

verus! {

/// The word that names the digit `d`, 1 to 9, in letters.
pub open spec fn digit_word(d: int) -> Seq<u8> {
    if d == 1 {
        seq![111u8, 110, 101]
    } else if d == 2 {
        seq![116u8, 119, 111]
    } else if d == 3 {
        seq![116u8, 104, 114, 101, 101]
    } else if d == 4 {
        seq![102u8, 111, 117, 114]
    } else if d == 5 {
        seq![102u8, 105, 118, 101]
    } else if d == 6 {
        seq![115u8, 105, 120]
    } else if d == 7 {
        seq![115u8, 101, 118, 101, 110]
    } else if d == 8 {
        seq![101u8, 105, 103, 104, 116]
    } else {
        seq![110u8, 105, 110, 101]
    }
}

/// The value that a text names: a digit written in letters, or a number in figures.
pub open spec fn int_value(s: Seq<u8>) -> Option<nat> {
    if exists|d: int| 1 <= d <= 9 && s == #[trigger] digit_word(d) {
        Some((choose|d: int| 1 <= d <= 9 && s == #[trigger] digit_word(d)) as nat)
    } else {
        unsigned_value(s)
    }
}

pub struct IntValue {
    pub value: usize,
}

/// The word that names the digit `d` in letters.
fn word_of(d: usize) -> (w: Vec<u8>)
    requires
        1 <= d <= 9,
    ensures
        w@ == digit_word(d as int),
{
    let w: Vec<u8> = if d == 1 {
        vec![111u8, 110, 101]
    } else if d == 2 {
        vec![116u8, 119, 111]
    } else if d == 3 {
        vec![116u8, 104, 114, 101, 101]
    } else if d == 4 {
        vec![102u8, 111, 117, 114]
    } else if d == 5 {
        vec![102u8, 105, 118, 101]
    } else if d == 6 {
        vec![115u8, 105, 120]
    } else if d == 7 {
        vec![115u8, 101, 118, 101, 110]
    } else if d == 8 {
        vec![101u8, 105, 103, 104, 116]
    } else {
        vec![110u8, 105, 110, 101]
    };
    proof {
        assert(w@ =~= digit_word(d as int));
    }
    w
}

proof fn lemma_words_differ(a: int, b: int)
    requires
        1 <= a <= 9,
        1 <= b <= 9,
        a != b,
    ensures
        digit_word(a) != digit_word(b),
{
    let x = digit_word(a);
    let y = digit_word(b);
    if x.len() == y.len() {
        assert(x[0] != y[0] || x[1] != y[1] || x[2] != y[2]);
    }
}

impl IntValue {
    /// Reads a value: `one` to `nine`, or a number in figures.
    pub fn from_bytes(s: &[u8]) -> (r: Result<IntValue, ParseError>)
        ensures
            match r {
                Ok(v) => int_value(s@) == Some(v.value as nat),
                Err(e) => e == ParseError::Malformed && match int_value(s@) {
                    Some(v) => v > usize::MAX,
                    None => true,
                },
            },
    {
        let mut d: usize = 1;
        while d <= 9
            invariant
                1 <= d <= 10,
                forall|k: int| 1 <= k < d ==> s@ != #[trigger] digit_word(k),
            decreases 10 - d,
        {
            let w = word_of(d);
            if same_bytes(s, w.as_slice()) {
                proof {
                    let c = choose|c: int| 1 <= c <= 9 && s@ == #[trigger] digit_word(c);
                    if c != d {
                        lemma_words_differ(c, d as int);
                    }
                }
                return Ok(IntValue { value: d });
            }
            d += 1;
        }
        match parse_usize(s) {
            Some(v) => Ok(IntValue { value: v }),
            None => Err(ParseError::Malformed),
        }
    }
}

/// The digit that stands at place `i` of the line: in figures, or, where
/// `words` is set, in letters too.
pub open spec fn value_at(line: Seq<u8>, words: bool, i: int) -> Option<nat> {
    if 0 <= i < line.len() && 49 <= line[i] <= 57 {
        Some((line[i] - 48) as nat)
    } else if words && exists|d: int| 1 <= d <= 9 && has_prefix(line.skip(i), #[trigger] digit_word(d)) {
        Some((choose|d: int| 1 <= d <= 9 && has_prefix(line.skip(i), #[trigger] digit_word(d))) as nat)
    } else {
        None
    }
}

/// The digits that stand in the first `n` places of the line, each with its place.
pub open spec fn hits_to(line: Seq<u8>, words: bool, n: int) -> Seq<(usize, usize)>
    decreases n,
{
    if n <= 0 {
        Seq::<(usize, usize)>::empty()
    } else {
        match value_at(line, words, n - 1) {
            Some(v) => hits_to(line, words, n - 1).push(((n - 1) as usize, v as usize)),
            None => hits_to(line, words, n - 1),
        }
    }
}

pub struct Calibration {
    pub values: Vec<usize>,
}

/// The calibration value of a line: its first digit before its last.
pub open spec fn line_value(line: Seq<u8>, words: bool) -> Option<nat> {
    let hits = hits_to(line, words, line.len() as int);
    if hits.len() > 0 {
        Some((hits[0].1 * 10 + hits.last().1) as nat)
    } else {
        None
    }
}

impl Calibration {
    /// The sum of the calibration values, if it fits a `usize`.
    pub fn compute(&self) -> (r: Option<usize>)
        ensures
            match r {
                Some(t) => t == sum(self.values@),
                None => sum(self.values@) > usize::MAX,
            },
    {
        sum_of(&self.values)
    }

    /// The digits of a line with their places, from left to right.
    pub fn extract_numbers(line: &[u8], include_ascii_values: bool) -> (r: Vec<(usize, usize)>)
        ensures
            r@ == hits_to(line@, include_ascii_values, line@.len() as int),
            forall|k: int| 0 <= k < r.len() ==> 1 <= (#[trigger] r[k]).1 <= 9,
    {
        let mut r: Vec<(usize, usize)> = Vec::new();
        let mut i: usize = 0;
        while i < line.len()
            invariant
                i <= line.len(),
                r@ == hits_to(line@, include_ascii_values, i as int),
                forall|k: int| 0 <= k < r.len() ==> 1 <= (#[trigger] r[k]).1 <= 9,
            decreases line.len() - i,
        {
            let b = line[i];
            if 49 <= b && b <= 57 {
                r.push((i, (b - 48) as usize));
            } else if include_ascii_values {
                let rest = slice_subrange(line, i, line.len());
                proof {
                    assert(rest@ =~= line@.skip(i as int));
                }
                let mut d: usize = 1;
                let mut found: usize = 0;
                while d <= 9 && found == 0
                    invariant
                        1 <= d <= 10,
                        0 <= found <= 9,
                        rest@ == line@.skip(i as int),
                        found == 0 ==> forall|k: int|
                            1 <= k < d ==> !has_prefix(rest@, #[trigger] digit_word(k)),
                        found != 0 ==> has_prefix(rest@, digit_word(found as int)),
                    decreases 10 - d + (if found == 0 {
                        1int
                    } else {
                        0int
                    }),
                {
                    let w = word_of(d);
                    if starts_with(rest, w.as_slice()) {
                        found = d;
                    } else {
                        d += 1;
                    }
                }
                if found != 0 {
                    proof {
                        let c = choose|c: int|
                            1 <= c <= 9 && has_prefix(line@.skip(i as int), #[trigger] digit_word(c));
                        if c != found {
                            lemma_prefixes_differ(line@.skip(i as int), c, found as int);
                        }
                    }
                    r.push((i, found));
                }
            }
            i += 1;
        }
        r
    }

    /// The calibration values of the lines of a text, empty lines passed over.
    pub fn from_input(s: &[u8], include_ascii_values: bool) -> (r: Result<Calibration, ParseError>)
        ensures
            match r {
                Ok(c) => input_ok(s@, include_ascii_values) && crate::text::nats(c.values@)
                    == line_values(s@, include_ascii_values),
                Err(e) => e == ParseError::Malformed && !input_ok(s@, include_ascii_values),
            },
    {
        let rows = nonempty_lines(s);
        let ghost ls = nonempty_rows(lines(s@));
        let mut values: Vec<usize> = Vec::new();
        let mut i: usize = 0;
        proof {
            assert(ls.len() == rows.len());
        }
        while i < rows.len()
            invariant
                i <= rows.len(),
                rows_view(rows@) == ls,
                ls == nonempty_rows(lines(s@)),
                ls.len() == rows.len(),
                values.len() == i,
                forall|k: int|
                    0 <= k < i ==> line_value(#[trigger] ls[k], include_ascii_values) == Some(
                        values[k] as nat,
                    ),
            decreases rows.len() - i,
        {
            proof {
                assert(ls[i as int] == rows@[i as int]@);
            }
            let nums = Calibration::extract_numbers(rows[i].as_slice(), include_ascii_values);
            if nums.len() == 0 {
                return Err(ParseError::Malformed);
            }
            values.push(nums[0].1 * 10 + nums[nums.len() - 1].1);
            i += 1;
        }
        proof {
            assert(crate::text::nats(values@) =~= line_values(s@, include_ascii_values));
        }
        Ok(Calibration { values })
    }
}

proof fn lemma_prefixes_differ(s: Seq<u8>, a: int, b: int)
    requires
        1 <= a <= 9,
        1 <= b <= 9,
        a != b,
        has_prefix(s, digit_word(a)),
    ensures
        !has_prefix(s, digit_word(b)),
{
    let x = digit_word(a);
    let y = digit_word(b);
    if has_prefix(s, y) {
        assert(s.take(x.len() as int)[0] == s[0]);
        assert(s.take(x.len() as int)[1] == s[1]);
        assert(s.take(x.len() as int)[2] == s[2]);
        assert(s.take(y.len() as int)[0] == s[0]);
        assert(s.take(y.len() as int)[1] == s[1]);
        assert(s.take(y.len() as int)[2] == s[2]);
        assert(x[0] != y[0] || x[1] != y[1] || x[2] != y[2]);
    }
}

/// Every line that holds anything holds a digit.
pub open spec fn input_ok(s: Seq<u8>, words: bool) -> bool {
    forall|i: int|
        0 <= i < nonempty_rows(lines(s)).len() ==> line_value(
            #[trigger] nonempty_rows(lines(s))[i],
            words,
        ) is Some
}

/// The calibration values of the lines that hold anything.
pub open spec fn line_values(s: Seq<u8>, words: bool) -> Seq<nat> {
    nonempty_rows(lines(s)).map_values(|l: Seq<u8>| line_value(l, words).unwrap())
}

/// What a part answers to an input: the sum of the calibration values, in
/// the second part with digits in letters too, or why there is none.
pub open spec fn is_answer(input: Option<String>, part: int, r: Result<String, PuzzleError>) -> bool {
    match input {
        None => r == Err::<String, PuzzleError>(PuzzleError::MissingInput),
        Some(text) => {
            let bytes = bytes_of(text@);
            if !input_ok(bytes, part == 2) {
                r == Err::<String, PuzzleError>(PuzzleError::Parse(ParseError::Malformed))
            } else {
                let total = sum_nats(line_values(bytes, part == 2), line_values(bytes, part == 2).len() as int);
                if total <= usize::MAX {
                    r is Ok && r.unwrap()@ == decimal(total)
                } else {
                    r == Err::<String, PuzzleError>(PuzzleError::Overflow)
                }
            }
        },
    }
}

/// The sum of the first `n` numbers.
pub open spec fn sum_nats(s: Seq<nat>, n: int) -> nat
    decreases n,
{
    if n <= 0 {
        0
    } else {
        sum_nats(s, n - 1) + s[n - 1]
    }
}

proof fn lemma_sum_nats(v: Seq<usize>, n: int)
    requires
        0 <= n <= v.len(),
    ensures
        crate::numbers::sum_to(v, n) == sum_nats(crate::text::nats(v), n),
    decreases n,
{
    if n > 0 {
        lemma_sum_nats(v, n - 1);
    }
}

fn run_part(input: Option<String>, part: u8) -> (r: Result<String, PuzzleError>)
    requires
        part == 1 || part == 2,
    ensures
        is_answer(input, part as int, r),
{
    let text = match input {
        Some(t) => t,
        None => {
            return Err(PuzzleError::MissingInput);
        },
    };
    let c = match Calibration::from_input(string_bytes(&text), part == 2) {
        Ok(c) => c,
        Err(e) => {
            return Err(PuzzleError::Parse(e));
        },
    };
    proof {
        lemma_sum_nats(c.values@, c.values@.len() as int);
    }
    match c.compute() {
        Some(t) => Ok(decimal_string(t as u128)),
        None => Err(PuzzleError::Overflow),
    }
}

pub struct Day1;

impl AdventOfCode for Day1 {
    fn day(&self) -> (d: u8)
        ensures
            d == 1,
    {
        1
    }

    fn run1(&mut self, input: Option<String>) -> (r: Result<String, PuzzleError>)
        ensures
            is_answer(input, 1, r),
    {
        run_part(input, 1)
    }

    fn run2(&mut self, input: Option<String>) -> (r: Result<String, PuzzleError>)
        ensures
            is_answer(input, 2, r),
    {
        run_part(input, 2)
    }
}

} // verus!
