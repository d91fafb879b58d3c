//! Treetop tree house: which trees of a square forest can be seen from
//! outside, and how far one sees from a tree.

use crate::errors::{ParseError, PuzzleError};
use crate::text::{
    all_digits, bytes_of, decimal, decimal_string, is_digit, lines, rows_view, split_lines,
    string_bytes,
};
use crate::traits::AdventOfCode;
use vstd::prelude::*;

verus! {

/// The forests that are taken have no more rows than this.
pub const MAX_SIZE: usize = 65535;

/// The forest is square: as many trees in each row as there are rows.
pub open spec fn is_square(forest: Seq<Vec<usize>>) -> bool {
    forall|i: int| 0 <= i < forest.len() ==> (#[trigger] forest[i]).len() == forest.len()
}

/// The heights of the trees that one passes going from a tree in a
/// direction, the nearest first: `dir` is 0 for up, 1 for down, 2 for left, 3 for right.
pub open spec fn line_from(forest: Seq<Vec<usize>>, row: int, col: int, dir: int) -> Seq<usize> {
    let n = forest.len() as int;
    if dir == 0 {
        Seq::new(row as nat, |k: int| forest[row - 1 - k][col])
    } else if dir == 1 {
        Seq::new((n - 1 - row) as nat, |k: int| forest[row + 1 + k][col])
    } else if dir == 2 {
        Seq::new(col as nat, |k: int| forest[row][col - 1 - k])
    } else {
        Seq::new((n - 1 - col) as nat, |k: int| forest[row][col + 1 + k])
    }
}

/// How many trees one sees along a line from a tree of height `h`: all up
/// to the first that is as high.
pub open spec fn seen(line: Seq<usize>, h: usize) -> nat
    decreases line.len(),
{
    if line.len() == 0 {
        0
    } else if line[0] >= h {
        1
    } else {
        1 + seen(line.skip(1), h)
    }
}

/// Every tree of the line is lower than `h`.
pub open spec fn all_lower(line: Seq<usize>, h: usize) -> bool {
    forall|k: int| 0 <= k < line.len() ==> #[trigger] line[k] < h
}

proof fn lemma_seen(line: Seq<usize>, h: usize, k: int)
    requires
        0 <= k <= line.len(),
        forall|j: int| 0 <= j < k ==> #[trigger] line[j] < h,
        k == line.len() || line[k] >= h,
    ensures
        seen(line, h) == if k == line.len() {
            k
        } else {
            k + 1
        },
    decreases k,
{
    if k > 0 {
        let rest = line.skip(1);
        assert forall|j: int| 0 <= j < k - 1 implies #[trigger] rest[j] < h by {
            assert(rest[j] == line[j + 1]);
        }
        lemma_seen(rest, h, k - 1);
        assert(line[0] < h);
    }
}

/// How many trees one sees from a tree in a direction, and whether one sees
/// all of them and over them.
fn look(forest: &Vec<Vec<usize>>, row: usize, col: usize, dir: u8) -> (r: (usize, bool))
    requires
        is_square(forest@),
        row < forest.len(),
        col < forest.len(),
        dir < 4,
    ensures
        r.0 == seen(line_from(forest@, row as int, col as int, dir as int), forest@[row as int][
            col as int
        ]),
        r.1 == all_lower(line_from(forest@, row as int, col as int, dir as int), forest@[
            row as int
        ][col as int]),
        r.0 <= forest.len(),
{
    let n = forest.len();
    let tree = forest[row][col];
    let ghost line = line_from(forest@, row as int, col as int, dir as int);
    let len: usize = if dir == 0 {
        row
    } else if dir == 1 {
        n - 1 - row
    } else if dir == 2 {
        col
    } else {
        n - 1 - col
    };
    let mut k: usize = 0;
    while k < len
        invariant
            k <= len,
            len == line.len(),
            len < n,
            n == forest.len(),
            is_square(forest@),
            row < n,
            col < n,
            dir < 4,
            line == line_from(forest@, row as int, col as int, dir as int),
            tree == forest@[row as int][col as int],
            dir == 0 ==> len == row,
            dir == 1 ==> len == n - 1 - row,
            dir == 2 ==> len == col,
            dir == 3 ==> len == n - 1 - col,
            forall|j: int| 0 <= j < k ==> #[trigger] line[j] < tree,
        decreases len - k,
    {
        let other = if dir == 0 {
            forest[row - 1 - k][col]
        } else if dir == 1 {
            forest[row + 1 + k][col]
        } else if dir == 2 {
            forest[row][col - 1 - k]
        } else {
            forest[row][col + 1 + k]
        };
        proof {
            assert(line[k as int] == other);
        }
        if other >= tree {
            proof {
                lemma_seen(line, tree, k as int);
            }
            return (k + 1, false);
        }
        k += 1;
    }
    proof {
        lemma_seen(line, tree, k as int);
    }
    (k, true)
}

/// The scenic score of a tree: the product of the numbers of trees that one
/// sees from it upwards, to the left and to the right, and of those that
/// one sees looking from the lower edge of the forest up to the tree.
pub open spec fn score(forest: Seq<Vec<usize>>, row: int, col: int) -> nat {
    let h = forest[row][col];
    seen(line_from(forest, row, col, 0), h) * seen(line_from(forest, row, col, 1).reverse(), h)
        * seen(line_from(forest, row, col, 2), h) * seen(line_from(forest, row, col, 3), h)
}

/// How many trees one sees looking from the lower edge of the forest up to a tree.
fn look_from_below(forest: &Vec<Vec<usize>>, row: usize, col: usize) -> (r: usize)
    requires
        is_square(forest@),
        row < forest.len(),
        col < forest.len(),
    ensures
        r == seen(
            line_from(forest@, row as int, col as int, 1).reverse(),
            forest@[row as int][col as int],
        ),
        r <= forest.len(),
{
    let n = forest.len();
    let tree = forest[row][col];
    let ghost line = line_from(forest@, row as int, col as int, 1).reverse();
    let len = n - 1 - row;
    let mut k: usize = 0;
    while k < len
        invariant
            k <= len,
            len == n - 1 - row,
            len == line.len(),
            n == forest.len(),
            is_square(forest@),
            row < n,
            col < n,
            line == line_from(forest@, row as int, col as int, 1).reverse(),
            tree == forest@[row as int][col as int],
            forall|j: int| 0 <= j < k ==> #[trigger] line[j] < tree,
        decreases len - k,
    {
        let other = forest[n - 1 - k][col];
        proof {
            assert(line[k as int] == other);
        }
        if other >= tree {
            proof {
                lemma_seen(line, tree, k as int);
            }
            return k + 1;
        }
        k += 1;
    }
    proof {
        lemma_seen(line, tree, k as int);
    }
    k
}

/// The scenic score of the tree in a row and a column of a square forest.
pub fn scenic_score(forest: &Vec<Vec<usize>>, row: usize, col: usize) -> (r: u64)
    requires
        is_square(forest@),
        forest.len() <= MAX_SIZE,
        row < forest.len(),
        col < forest.len(),
    ensures
        r == score(forest@, row as int, col as int),
{
    let up = look(forest, row, col, 0).0 as u64;
    let down = look_from_below(forest, row, col) as u64;
    let left = look(forest, row, col, 2).0 as u64;
    let right = look(forest, row, col, 3).0 as u64;
    assert(up * down <= 65535 * 65535 && up * down * left <= 65535 * 65535 * 65535 && up * down
        * left * right <= 65535 * 65535 * 65535 * 65535) by (nonlinear_arith)
        requires
            0 <= up <= 65535,
            0 <= down <= 65535,
            0 <= left <= 65535,
            0 <= right <= 65535,
    ;
    up * down * left * right
}

/// The tree can be seen from outside the forest: in one direction every
/// tree up to the edge is lower.
pub open spec fn visible(forest: Seq<Vec<usize>>, row: int, col: int) -> bool {
    let h = forest[row][col];
    all_lower(line_from(forest, row, col, 0), h) || all_lower(line_from(forest, row, col, 1), h)
        || all_lower(line_from(forest, row, col, 2), h) || all_lower(
        line_from(forest, row, col, 3),
        h,
    )
}

/// How many of the first `k` trees of a square forest, counted row by row, can be seen from outside.
pub open spec fn visible_to(forest: Seq<Vec<usize>>, k: int) -> nat
    decreases k,
{
    if k <= 0 || forest.len() == 0 {
        0
    } else {
        visible_to(forest, k - 1) + if visible(
            forest,
            (k - 1) / (forest.len() as int),
            (k - 1) % (forest.len() as int),
        ) {
            1nat
        } else {
            0nat
        }
    }
}

/// The greatest scenic score among the first `k` trees of a square forest, counted row by row.
pub open spec fn best_to(forest: Seq<Vec<usize>>, k: int) -> nat
    decreases k,
{
    if k <= 0 || forest.len() == 0 {
        0
    } else {
        let rest = best_to(forest, k - 1);
        let here = score(forest, (k - 1) / (forest.len() as int), (k - 1) % (forest.len() as int));
        if here > rest {
            here
        } else {
            rest
        }
    }
}

/// How many trees of a square forest can be seen from outside.
pub fn count_visible(forest: &Vec<Vec<usize>>) -> (r: u64)
    requires
        is_square(forest@),
        forest.len() <= MAX_SIZE,
    ensures
        r == visible_to(forest@, (forest@.len() * forest@.len()) as int),
{
    let n = forest.len();
    let mut count: u64 = 0;
    let mut row: usize = 0;
    while row < n
        invariant
            row <= n,
            n == forest.len(),
            n <= MAX_SIZE,
            is_square(forest@),
            count == visible_to(forest@, row * n),
            count <= row * n,
        decreases n - row,
    {
        let mut col: usize = 0;
        while col < n
            invariant
                col <= n,
                row < n,
                n == forest.len(),
                n <= MAX_SIZE,
                is_square(forest@),
                count == visible_to(forest@, row * n + col),
                count <= row * n + col,
            decreases n - col,
        {
            proof {
                lemma_cell(n as int, row as int, col as int);
            }
            let up = look(forest, row, col, 0).1;
            let down = look(forest, row, col, 1).1;
            let left = look(forest, row, col, 2).1;
            let right = look(forest, row, col, 3).1;
            if up || down || left || right {
                count += 1;
            }
            col += 1;
        }
        proof {
            assert(row * n + n == (row + 1) * n) by (nonlinear_arith);
        }
        row += 1;
    }
    proof {
        assert(row * n == (forest@.len() * forest@.len()) as int);
    }
    count
}

proof fn lemma_cell(n: int, row: int, col: int)
    requires
        0 <= row < n <= MAX_SIZE,
        0 <= col < n,
    ensures
        (row * n + col) / n == row,
        (row * n + col) % n == col,
        0 <= row * n + col < 65535 * 65535,
{
    vstd::arithmetic::div_mod::lemma_fundamental_div_mod_converse(row * n + col, n, row, col);
    assert(0 <= row * n + col < 65535 * 65535) by (nonlinear_arith)
        requires
            0 <= row < n <= 65535,
            0 <= col < n,
    ;
}

/// The greatest scenic score of a tree of a square forest, zero for a forest without trees.
pub fn best_score(forest: &Vec<Vec<usize>>) -> (r: u64)
    requires
        is_square(forest@),
        forest.len() <= MAX_SIZE,
    ensures
        r == best_to(forest@, (forest@.len() * forest@.len()) as int),
{
    let n = forest.len();
    let mut max_score: u64 = 0;
    let mut row: usize = 0;
    while row < n
        invariant
            row <= n,
            n == forest.len(),
            n <= MAX_SIZE,
            is_square(forest@),
            max_score == best_to(forest@, row * n),
        decreases n - row,
    {
        let mut col: usize = 0;
        while col < n
            invariant
                col <= n,
                row < n,
                n == forest.len(),
                n <= MAX_SIZE,
                is_square(forest@),
                max_score == best_to(forest@, row * n + col),
            decreases n - col,
        {
            proof {
                lemma_cell(n as int, row as int, col as int);
            }
            let s = scenic_score(forest, row, col);
            if s > max_score {
                max_score = s;
            }
            col += 1;
        }
        proof {
            assert(row * n + n == (row + 1) * n) by (nonlinear_arith);
        }
        row += 1;
    }
    proof {
        assert(row * n == (forest@.len() * forest@.len()) as int);
    }
    max_score
}

// ----- reading a forest -----
/// The lines write a square forest of no more than 65535 rows: figures
/// only, as many in each line as there are lines.
pub open spec fn forest_ok(ls: Seq<Seq<u8>>) -> bool {
    &&& ls.len() <= MAX_SIZE
    &&& forall|i: int| 0 <= i < ls.len() ==> all_digits(#[trigger] ls[i]) && ls[i].len() == ls.len()
}

/// The forest is what the lines write.
pub open spec fn is_forest(ls: Seq<Seq<u8>>, forest: Seq<Vec<usize>>) -> bool {
    &&& forest.len() == ls.len()
    &&& forall|i: int| 0 <= i < ls.len() ==> (#[trigger] forest[i]).len() == ls[i].len()
    &&& forall|i: int, j: int|
        0 <= i < ls.len() && 0 <= j < ls[i].len() ==> #[trigger] forest[i][j] == ls[i][j] - 48
}

/// Reads a forest: a line for each row, a figure for the height of each tree.
pub fn parse_forest(input: &[u8]) -> (r: Result<Vec<Vec<usize>>, ParseError>)
    ensures
        match r {
            Ok(f) => forest_ok(lines(input@)) && is_forest(lines(input@), f@) && is_square(f@)
                && f.len() <= MAX_SIZE,
            Err(e) => e == ParseError::Malformed && !forest_ok(lines(input@)),
        },
{
    let rows = split_lines(input);
    let ghost ls = lines(input@);
    proof {
        assert(ls.len() == rows.len());
    }
    let n = rows.len();
    if n > MAX_SIZE {
        return Err(ParseError::Malformed);
    }
    let mut forest: Vec<Vec<usize>> = Vec::new();
    let mut i: usize = 0;
    while i < n
        invariant
            i <= n,
            n == rows.len(),
            n <= MAX_SIZE,
            rows_view(rows@) == ls,
            ls == lines(input@),
            ls.len() == n,
            forest.len() == i,
            forall|k: int|
                0 <= k < i ==> all_digits(#[trigger] ls[k]) && ls[k].len() == n && forest[k].len()
                    == n,
            forall|k: int, j: int|
                0 <= k < i && 0 <= j < n ==> #[trigger] forest[k][j] == ls[k][j] - 48,
        decreases n - i,
    {
        let line = &rows[i];
        proof {
            assert(ls[i as int] == line@);
        }
        if line.len() != n {
            return Err(ParseError::Malformed);
        }
        let mut row: Vec<usize> = Vec::new();
        let mut j: usize = 0;
        while j < n
            invariant
                j <= n,
                line.len() == n,
                i < n,
                ls.len() == n,
                ls == lines(input@),
                ls[i as int] == line@,
                row.len() == j,
                forall|k: int| 0 <= k < j ==> is_digit(#[trigger] line@[k]),
                forall|k: int| 0 <= k < j ==> #[trigger] row[k] == line@[k] - 48,
            decreases n - j,
        {
            let b = line[j];
            if b < 48 || b > 57 {
                proof {
                    assert(!is_digit(ls[i as int][j as int]));
                }
                return Err(ParseError::Malformed);
            }
            row.push((b - 48) as usize);
            j += 1;
        }
        forest.push(row);
        i += 1;
    }
    Ok(forest)
}

/// The number of trees of the forest that can be seen from outside.
pub fn run1(input: &[u8]) -> (r: Result<String, PuzzleError>)
    ensures
        is_answer_of(input@, 1, r),
{
    let forest = match parse_forest(input) {
        Ok(f) => f,
        Err(e) => {
            return Err(PuzzleError::Parse(e));
        },
    };
    Ok(decimal_string(count_visible(&forest) as u128))
}

/// What a part answers to the bytes of an input.
pub open spec fn is_answer_of(input: Seq<u8>, part: int, r: Result<String, PuzzleError>) -> bool {
    let ls = lines(input);
    if !forest_ok(ls) {
        r == Err::<String, PuzzleError>(PuzzleError::Parse(ParseError::Malformed))
    } else {
        exists|forest: Seq<Vec<usize>>|
            {
                &&& #[trigger] is_forest(ls, forest)
                &&& r is Ok
                &&& r.unwrap()@ == decimal(
                    if part == 1 {
                        visible_to(forest, (forest.len() * forest.len()) as int)
                    } else {
                        best_to(forest, (forest.len() * forest.len()) as int)
                    },
                )
            }
    }
}

pub struct Day8;

impl AdventOfCode for Day8 {
    fn day(&self) -> (d: u8)
        ensures
            d == 8,
    {
        8
    }

    fn run1(&mut self, input: Option<String>) -> (r: Result<String, PuzzleError>)
        ensures
            match input {
                None => r == Err::<String, PuzzleError>(PuzzleError::MissingInput),
                Some(text) => is_answer_of(bytes_of(text@), 1, r),
            },
    {
        match input {
            Some(text) => run1(string_bytes(&text)),
            None => Err(PuzzleError::MissingInput),
        }
    }

    fn run2(&mut self, input: Option<String>) -> (r: Result<String, PuzzleError>)
        ensures
            match input {
                None => r == Err::<String, PuzzleError>(PuzzleError::MissingInput),
                Some(text) => is_answer_of(bytes_of(text@), 2, r),
            },
    {
        let text = match input {
            Some(t) => t,
            None => {
                return Err(PuzzleError::MissingInput);
            },
        };
        let forest = match parse_forest(string_bytes(&text)) {
            Ok(f) => f,
            Err(e) => {
                return Err(PuzzleError::Parse(e));
            },
        };
        Ok(decimal_string(best_score(&forest) as u128))
    }
}

} // verus!
