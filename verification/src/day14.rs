//! Regolith reservoir: sand that falls into a cave of rock.

use crate::errors::{ParseError, PuzzleError};
use crate::text::{
    bytes_of, decimal, decimal_string, lines, parse_i64, push_char, rows_view, signed_value, split,
    split_at_word, split_bytes, split_lines, split_on, string_bytes,
};
use crate::traits::AdventOfCode;
use std::collections::HashSet;
use vstd::prelude::*;
use vstd::string::*;

verus! {

broadcast use vstd::std_specs::hash::group_hash_axioms;

/// The greatest coordinate of a rock that a cave takes.
pub const REACH: i64 = 1_000_000_000;

/// The number that names the place at column `x` and row `y`.
pub open spec fn place_key(x: int, y: int) -> int {
    (x + 0x8000_0000) * 0x1_0000_0000 + (y + 0x8000_0000)
}

/// The place lies where places have numbers.
pub open spec fn in_reach(x: int, y: int) -> bool {
    -0x8000_0000 <= x < 0x8000_0000 && -0x8000_0000 <= y < 0x8000_0000
}

/// There is a unit of rock or sand at column `x` and row `y`.
pub open spec fn unit_at(units: Set<u64>, x: int, y: int) -> bool {
    units.contains(place_key(x, y) as u64)
}

/// No unit lies lower than the row `lowest`, and one lies in it, unless
/// there is no unit and `lowest` is -1.
pub open spec fn is_lowest(units: Set<u64>, lowest: int) -> bool {
    &&& -1 <= lowest <= REACH
    &&& forall|x: int, y: int| in_reach(x, y) && #[trigger] unit_at(units, x, y) ==> 0 <= y <= lowest
    &&& lowest >= 0 ==> exists|x: int| in_reach(x, lowest) && #[trigger] unit_at(units, x, lowest)
}

fn key(x: i64, y: i64) -> (k: u64)
    requires
        in_reach(x as int, y as int),
    ensures
        k == place_key(x as int, y as int),
{
    ((x + 0x8000_0000) as u64) * 0x1_0000_0000 + ((y + 0x8000_0000) as u64)
}

proof fn lemma_keys_differ(x: int, y: int, a: int, b: int)
    requires
        in_reach(x, y),
        in_reach(a, b),
        place_key(x, y) == place_key(a, b),
    ensures
        x == a,
        y == b,
{
}

/// What a unit of sand at `p` does next: nothing more where no unit lies
/// lower, for it falls for ever; else it falls one row, straight down, to
/// the left or to the right, whichever is free first, or it rests.
pub open spec fn next_place(units: Set<u64>, lowest: int, p: (int, int)) -> Option<(bool, (int, int))> {
    if !(lowest > p.1) {
        None
    } else if !unit_at(units, p.0, p.1 + 1) {
        Some((false, (p.0, p.1 + 1)))
    } else if !unit_at(units, p.0 - 1, p.1 + 1) {
        Some((false, (p.0 - 1, p.1 + 1)))
    } else if !unit_at(units, p.0 + 1, p.1 + 1) {
        Some((false, (p.0 + 1, p.1 + 1)))
    } else {
        Some((true, p))
    }
}

/// Where a unit of sand at `p` ends, and whether it rests there.
pub open spec fn lands(units: Set<u64>, lowest: int, p: (int, int)) -> (bool, (int, int))
    decreases lowest - p.1,
{
    match next_place(units, lowest, p) {
        None => (false, p),
        Some((true, q)) => (true, q),
        Some((false, q)) => lands(units, lowest, q),
    }
}

/// How many units of sand come to rest before one falls for ever, if that
/// happens among the first `fuel + 1` units that are poured in.
pub open spec fn pour(units: Set<u64>, lowest: int, fuel: nat) -> Option<nat>
    decreases fuel,
{
    let end = lands(units, lowest, (500, 0));
    if !end.0 {
        Some(0)
    } else if fuel == 0 {
        None
    } else {
        match pour(
            units.insert(place_key(end.1.0, end.1.1) as u64),
            if end.1.1 > lowest {
                end.1.1
            } else {
                lowest
            },
            (fuel - 1) as nat,
        ) {
            Some(n) => Some(n + 1),
            None => None,
        }
    }
}

/// The units after the sand is poured in: each unit lies where it came to
/// rest, and the last one where it left or, where the units run out,
/// where it came to rest.
pub open spec fn poured(units: Set<u64>, lowest: int, fuel: nat) -> Set<u64>
    decreases fuel,
{
    let end = lands(units, lowest, (500, 0));
    let next = units.insert(place_key(end.1.0, end.1.1) as u64);
    if !end.0 || fuel == 0 {
        next
    } else {
        poured(next, if end.1.1 > lowest {
            end.1.1
        } else {
            lowest
        }, (fuel - 1) as nat)
    }
}

/// Sand that falls from the source never comes to the place at column `x`
/// and row `y`: it is no rock, it lies in the columns from `lo` to `hi`, and
/// each of the three places above it is rock or is never reached itself.
pub open spec fn never_reached(units: Set<u64>, lo: int, hi: int, x: int, y: int) -> bool
    decreases y,
{
    &&& y >= 1
    &&& lo <= x <= hi
    &&& !unit_at(units, x, y)
    &&& (unit_at(units, x - 1, y - 1) || never_reached(units, lo, hi, x - 1, y - 1))
    &&& (unit_at(units, x, y - 1) || never_reached(units, lo, hi, x, y - 1))
    &&& (unit_at(units, x + 1, y - 1) || never_reached(units, lo, hi, x + 1, y - 1))
}

/// The rock of a cave, with the sand that has come to rest in it.
pub struct Cave {
    pub units: HashSet<u64>,
    pub min_x: i64,
    pub max_x: i64,
    pub max_y: i64,
    pub unreachables: HashSet<u64>,
    /// The lowest row in which a unit lies, or -1.
    pub lowest: i64,
}

impl Cave {
    pub open spec fn wf(&self) -> bool {
        &&& is_lowest(self.units@, self.lowest as int)
        &&& 0 <= self.max_y <= REACH
        &&& -1 <= self.min_x <= REACH + 1
        &&& -1 <= self.max_x <= REACH + 1
    }

    /// Moves a unit of sand one row down, if it can move. Returns whether
    /// the sand rests, or nothing where it falls for ever.
    pub fn step(&self, sand: &mut [i64; 2]) -> (r: Option<bool>)
        requires
            self.wf(),
            -REACH <= old(sand)[0] <= 2 * REACH,
            0 <= old(sand)[1] <= REACH,
        ensures
            match next_place(
                self.units@,
                self.lowest as int,
                (old(sand)[0] as int, old(sand)[1] as int),
            ) {
                None => r is None && *final(sand) == *old(sand),
                Some((rests, q)) => r == Some(rests) && final(sand)[0] == q.0 && final(sand)[1]
                    == q.1,
            },
    {
        if !(self.lowest > sand[1]) {
            return None;
        }
        if !self.units.contains(&key(sand[0], sand[1] + 1)) {
            sand[1] = sand[1] + 1;
            return Some(false);
        }
        if !self.units.contains(&key(sand[0] - 1, sand[1] + 1)) {
            sand[0] = sand[0] - 1;
            sand[1] = sand[1] + 1;
            return Some(false);
        }
        if !self.units.contains(&key(sand[0] + 1, sand[1] + 1)) {
            sand[0] = sand[0] + 1;
            sand[1] = sand[1] + 1;
            return Some(false);
        }
        Some(true)
    }

    /// Pours sand in at column 500 of row 0, unit by unit, until a unit falls
    /// for ever, `limit` units at most after the first. Returns how many units
    /// have come to rest.
    pub fn simulate(&mut self, limit: usize) -> (r: Option<usize>)
        requires
            old(self).wf(),
        ensures
            final(self).wf(),
            match r {
                Some(n) => pour(old(self).units@, old(self).lowest as int, limit as nat) == Some(
                    n as nat,
                ),
                None => pour(old(self).units@, old(self).lowest as int, limit as nat) is None,
            },
            final(self).units@ == poured(old(self).units@, old(self).lowest as int, limit as nat),
            final(self).min_x == old(self).min_x,
            final(self).max_x == old(self).max_x,
            final(self).max_y == old(self).max_y,
            final(self).unreachables@ == old(self).unreachables@,
    {
        let mut resting: usize = 0;
        let mut left = limit;
        loop
            invariant
                self.wf(),
                resting + left == limit,
                self.min_x == old(self).min_x,
                self.max_x == old(self).max_x,
                self.max_y == old(self).max_y,
                self.unreachables@ == old(self).unreachables@,
                poured(self.units@, self.lowest as int, left as nat) == poured(
                    old(self).units@,
                    old(self).lowest as int,
                    limit as nat,
                ),
                match pour(self.units@, self.lowest as int, left as nat) {
                    Some(n) => pour(old(self).units@, old(self).lowest as int, limit as nat)
                        == Some((n + resting) as nat),
                    None => pour(old(self).units@, old(self).lowest as int, limit as nat) is None,
                },
            decreases left + 1,
        {
            let mut sand: [i64; 2] = [500, 0];
            let mut rests = false;
            let ghost units = self.units@;
            let ghost lowest = self.lowest as int;
            loop
                invariant
                    self.wf(),
                    self.units@ == units,
                    self.lowest == lowest,
                    0 <= sand[1] <= REACH,
                    500 - sand[1] <= sand[0] <= 500 + sand[1],
                    lands(units, lowest, (500, 0)) == lands(
                        units,
                        lowest,
                        (sand[0] as int, sand[1] as int),
                    ),
                ensures
                    0 <= sand[1] <= REACH,
                    500 - sand[1] <= sand[0] <= 500 + sand[1],
                    lands(units, lowest, (500, 0)) == (rests, (sand[0] as int, sand[1] as int)),
                    rests ==> sand[1] < lowest,
                decreases lowest - sand[1] + 1,
            {
                match self.step(&mut sand) {
                    None => {
                        rests = false;
                        break ;
                    },
                    Some(true) => {
                        rests = true;
                        break ;
                    },
                    Some(false) => {},
                }
            }
            self.units.insert(key(sand[0], sand[1]));
            if sand[1] > self.lowest {
                self.lowest = sand[1];
            }
            proof {
                let now = self.units@;
                assert(is_lowest(now, self.lowest as int)) by {
                    assert forall|x: int, y: int| in_reach(x, y) && #[trigger] unit_at(now, x, y) implies 0
                        <= y <= self.lowest by {
                        if !unit_at(units, x, y) {
                            lemma_keys_differ(x, y, sand[0] as int, sand[1] as int);
                        }
                    }
                    if sand[1] as int > lowest {
                        assert(unit_at(now, sand[0] as int, self.lowest as int));
                    } else if lowest >= 0 {
                        let x = choose|x: int| in_reach(x, lowest) && #[trigger] unit_at(units, x, lowest);
                        assert(unit_at(now, x, lowest));
                    } else {
                        assert(unit_at(now, sand[0] as int, self.lowest as int));
                    }
                }
            }
            if !rests {
                return Some(resting);
            }
            if left == 0 {
                return None;
            }
            left -= 1;
            resting += 1;
        }
    }

    /// Marks the places below the rock that sand from the source never reaches.
    pub fn build_unreachables(&mut self)
        requires
            old(self).wf(),
            old(self).unreachables@ == Set::<u64>::empty(),
        ensures
            final(self).units == old(self).units,
            final(self).min_x == old(self).min_x,
            final(self).max_x == old(self).max_x,
            final(self).max_y == old(self).max_y,
            final(self).lowest == old(self).lowest,
            final(self).unreachables@.finite(),
            forall|x: int, y: int|
                in_reach(x, y) ==> (#[trigger] unit_at(final(self).unreachables@, x, y) <==> y
                    <= old(self).max_y + 1 && never_reached(
                    old(self).units@,
                    old(self).min_x as int,
                    old(self).max_x as int,
                    x,
                    y,
                )),
    {
        let lo = self.min_x;
        let hi = self.max_x;
        let ghost units = self.units@;
        let mut y: i64 = 1;
        while y < self.max_y + 2
            invariant
                1 <= y <= self.max_y + 2,
                self.wf(),
                self.units == old(self).units,
                self.min_x == old(self).min_x,
                self.max_x == old(self).max_x,
                self.max_y == old(self).max_y,
                self.lowest == old(self).lowest,
                lo == self.min_x,
                hi == self.max_x,
                units == self.units@,
                self.unreachables@.finite(),
                forall|a: int, b: int|
                    in_reach(a, b) ==> (#[trigger] unit_at(self.unreachables@, a, b) <==> b < y
                        && never_reached(units, lo as int, hi as int, a, b)),
            decreases self.max_y + 2 - y,
        {
            let mut x: i64 = lo;
            while x <= hi
                invariant
                    lo <= x <= hi + 1 || (hi < lo && x == lo),
                    1 <= y <= self.max_y + 1,
                    self.wf(),
                    self.units == old(self).units,
                    self.min_x == old(self).min_x,
                    self.max_x == old(self).max_x,
                    self.max_y == old(self).max_y,
                    self.lowest == old(self).lowest,
                    lo == self.min_x,
                    hi == self.max_x,
                    units == self.units@,
                    self.unreachables@.finite(),
                    forall|a: int, b: int|
                        in_reach(a, b) ==> (#[trigger] unit_at(self.unreachables@, a, b) <==> (b < y
                            || (b == y && a < x)) && never_reached(units, lo as int, hi as int, a, b)),
                decreases hi + 1 - x,
            {
                if !self.units.contains(&key(x, y)) {
                    let mut blocked: u8 = 0;
                    let mut d: i64 = -1;
                    while d <= 1
                        invariant
                            -1 <= d <= 2,
                            blocked <= d + 1,
                            lo <= x <= hi,
                            1 <= y <= self.max_y + 1,
                            self.wf(),
                            units == self.units@,
                            lo == self.min_x,
                            hi == self.max_x,
                            forall|a: int, b: int|
                                in_reach(a, b) ==> (#[trigger] unit_at(self.unreachables@, a, b) <==> (b
                                    < y || (b == y && a < x)) && never_reached(
                                    units,
                                    lo as int,
                                    hi as int,
                                    a,
                                    b,
                                )),
                            blocked == d + 1 <==> forall|e: int|
                                -1 <= e < d ==> unit_at(units, x + e, y - 1) || #[trigger] never_reached(
                                    units,
                                    lo as int,
                                    hi as int,
                                    x + e,
                                    y - 1,
                                ),
                        decreases 2 - d,
                    {
                        let k = key(x + d, y - 1);
                        proof {
                            assert(unit_at(self.unreachables@, x + d, y - 1) <==> never_reached(
                                units,
                                lo as int,
                                hi as int,
                                x + d,
                                y - 1,
                            ));
                        }
                        if self.units.contains(&k) || self.unreachables.contains(&k) {
                            blocked += 1;
                        }
                        d += 1;
                    }
                    if blocked == 3 {
                        let ghost before = self.unreachables@;
                        self.unreachables.insert(key(x, y));
                        proof {
                            assert(unit_at(units, x + (-1), y - 1) || never_reached(
                                units,
                                lo as int,
                                hi as int,
                                x + (-1),
                                y - 1,
                            ));
                            assert(unit_at(units, x + 0, y - 1) || never_reached(
                                units,
                                lo as int,
                                hi as int,
                                x + 0,
                                y - 1,
                            ));
                            assert(unit_at(units, x + 1, y - 1) || never_reached(
                                units,
                                lo as int,
                                hi as int,
                                x + 1,
                                y - 1,
                            ));
                            assert(never_reached(units, lo as int, hi as int, x as int, y as int));
                            assert forall|a: int, b: int| in_reach(a, b) implies (#[trigger] unit_at(
                                self.unreachables@,
                                a,
                                b,
                            ) <==> (b < y || (b == y && a < x + 1)) && never_reached(
                                units,
                                lo as int,
                                hi as int,
                                a,
                                b,
                            )) by {
                                if unit_at(self.unreachables@, a, b) && !unit_at(before, a, b) {
                                    lemma_keys_differ(a, b, x as int, y as int);
                                }
                                if (a, b) == (x as int, y as int) {
                                } else {
                                    assert(unit_at(before, a, b) <==> unit_at(self.unreachables@, a, b)) by {
                                        if unit_at(self.unreachables@, a, b) && !unit_at(before, a, b) {
                                            lemma_keys_differ(a, b, x as int, y as int);
                                        }
                                    }
                                }
                            }
                        }
                    } else {
                        proof {
                            assert(!never_reached(units, lo as int, hi as int, x as int, y as int)) by {
                                let e = choose|e: int|
                                    -1 <= e < 2 && !(unit_at(units, x + e, y - 1) || #[trigger] never_reached(
                                        units,
                                        lo as int,
                                        hi as int,
                                        x + e,
                                        y - 1,
                                    ));
                            }
                        }
                    }
                }
                x += 1;
            }
            proof {
                assert forall|a: int, b: int| in_reach(a, b) implies (#[trigger] unit_at(
                    self.unreachables@,
                    a,
                    b,
                ) <==> b < y + 1 && never_reached(units, lo as int, hi as int, a, b)) by {
                    if b == y && a >= x {
                        assert(!(lo <= a <= hi));
                    }
                }
            }
            y += 1;
        }
    }

    /// How many units of sand come to rest when the sand piles up to the
    /// source, on a floor two rows below the rock: the places of the pile,
    /// but for the rock and for what sand never reaches.
    pub fn compute2(&self) -> (r: Option<usize>)
        requires
            self.wf(),
        ensures
            match r {
                Some(n) => n == (self.max_y + 2) * (self.max_y + 2) - self.units@.len()
                    - self.unreachables@.len(),
                None => (self.max_y + 2) * (self.max_y + 2) - self.units@.len()
                    - self.unreachables@.len() < 0 || (self.max_y + 2) * (self.max_y + 2)
                    - self.units@.len() - self.unreachables@.len() > usize::MAX,
            },
    {
        let side = (self.max_y + 2) as i128;
        assert(0 <= side * side <= 1_000_000_002 * 1_000_000_002) by (nonlinear_arith)
            requires
                2 <= side <= 1_000_000_002,
        ;
        let left = side * side - self.units.len() as i128 - self.unreachables.len() as i128;
        if left < 0 || left > usize::MAX as i128 {
            None
        } else {
            Some(left as usize)
        }
    }
}

// ----- reading a cave -----
/// The arrow between two points of a path.
pub open spec fn arrow() -> Seq<u8> {
    seq![32u8, 45, 62, 32]
}

/// The point that a text writes: two numbers from 0 to `REACH` with a comma
/// between them; what follows a second comma is passed over.
pub open spec fn point_of(text: Seq<u8>) -> Option<(int, int)> {
    let parts = split(text, 44);
    if parts.len() < 2 {
        None
    } else if exists|i: int|
        0 <= i < parts.len() && !(signed_value(#[trigger] parts[i]) is Some && i64::MIN
            <= signed_value(parts[i]).unwrap() <= i64::MAX) {
        None
    } else {
        let x = signed_value(parts[0]).unwrap();
        let y = signed_value(parts[1]).unwrap();
        if 0 <= x <= REACH && 0 <= y <= REACH {
            Some((x, y))
        } else {
            None
        }
    }
}

/// Every point of a line is written well.
pub open spec fn line_ok(line: Seq<u8>) -> bool {
    forall|j: int|
        0 <= j < split_on(line, arrow()).len() ==> point_of(#[trigger] split_on(line, arrow())[j])
            is Some
}

/// The points of a line.
pub open spec fn points_of(line: Seq<u8>) -> Seq<(int, int)> {
    split_on(line, arrow()).map_values(|t: Seq<u8>| point_of(t).unwrap())
}

/// The place lies in the rectangle of which `a` and `b` are corners.
pub open spec fn in_rect(a: (int, int), b: (int, int), x: int, y: int) -> bool {
    &&& (a.0 <= x <= b.0 || b.0 <= x <= a.0)
    &&& (a.1 <= y <= b.1 || b.1 <= y <= a.1)
}

/// The place is rock of the first `m` points of a path: it lies in the
/// rectangle of two points that follow each other.
pub open spec fn rock_in_path(pts: Seq<(int, int)>, m: int, x: int, y: int) -> bool
    decreases m,
{
    m >= 2 && (rock_in_path(pts, m - 1, x, y) || in_rect(pts[m - 2], pts[m - 1], x, y))
}

/// The place is rock of the first `n` lines.
pub open spec fn rock_to(ls: Seq<Seq<u8>>, n: int, x: int, y: int) -> bool
    decreases n,
{
    n >= 1 && (rock_to(ls, n - 1, x, y) || rock_in_path(
        points_of(ls[n - 1]),
        points_of(ls[n - 1]).len() as int,
        x,
        y,
    ))
}

/// The least column, the greatest column and the greatest row of rock.
pub struct Bounds {
    pub min_x: int,
    pub max_x: int,
    pub max_y: int,
}

/// The bounds widened by the rectangle of which `a` and `b` are corners.
pub open spec fn widened(b0: Bounds, a: (int, int), b: (int, int)) -> Bounds {
    let lo = if a.0 < b.0 {
        a.0
    } else {
        b.0
    };
    let hi = if a.0 < b.0 {
        b.0
    } else {
        a.0
    };
    let low = if a.1 < b.1 {
        b.1
    } else {
        a.1
    };
    Bounds {
        min_x: if lo < b0.min_x {
            lo
        } else {
            b0.min_x
        },
        max_x: if hi > b0.max_x {
            hi
        } else {
            b0.max_x
        },
        max_y: if low > b0.max_y {
            low
        } else {
            b0.max_y
        },
    }
}

pub open spec fn bounds_in_path(pts: Seq<(int, int)>, m: int, b0: Bounds) -> Bounds
    decreases m,
{
    if m < 2 {
        b0
    } else {
        widened(bounds_in_path(pts, m - 1, b0), pts[m - 2], pts[m - 1])
    }
}

/// The bounds of the rock of the first `n` lines; without rock, the least
/// column is one more than `REACH`, and the others are 0.
pub open spec fn bounds_to(ls: Seq<Seq<u8>>, n: int) -> Bounds
    decreases n,
{
    if n <= 0 {
        Bounds { min_x: REACH + 1, max_x: 0, max_y: 0 }
    } else {
        bounds_in_path(
            points_of(ls[n - 1]),
            points_of(ls[n - 1]).len() as int,
            bounds_to(ls, n - 1),
        )
    }
}

/// Every unit is at a place with coordinates from 0 to `REACH`.
pub open spec fn all_placed(units: Set<u64>) -> bool {
    forall|k: u64| #[trigger]
        units.contains(k) ==> exists|x: int, y: int|
            0 <= x <= REACH && 0 <= y <= REACH && k == #[trigger] place_key(x, y)
}

/// The cave is what the lines write.
pub open spec fn is_cave(ls: Seq<Seq<u8>>, cave: Cave) -> bool {
    &&& cave.wf()
    &&& all_placed(cave.units@)
    &&& forall|x: int, y: int|
        in_reach(x, y) ==> (#[trigger] unit_at(cave.units@, x, y) <==> rock_to(
            ls,
            ls.len() as int,
            x,
            y,
        ))
    &&& cave.min_x == bounds_to(ls, ls.len() as int).min_x
    &&& cave.max_x == bounds_to(ls, ls.len() as int).max_x
    &&& cave.max_y == bounds_to(ls, ls.len() as int).max_y
    &&& cave.unreachables@ == Set::<u64>::empty()
}

/// Reads a point.
fn parse_point(text: &[u8]) -> (r: Option<[i64; 2]>)
    ensures
        match r {
            Some(p) => point_of(text@) == Some((p[0] as int, p[1] as int)),
            None => point_of(text@) is None,
        },
{
    let parts = split_bytes(text, 44);
    let ghost ps = split(text@, 44);
    let mut vals: Vec<i64> = Vec::new();
    let mut i: usize = 0;
    proof {
        assert(ps.len() == parts.len());
    }
    while i < parts.len()
        invariant
            i <= parts.len(),
            rows_view(parts@) == ps,
            ps == split(text@, 44),
            ps.len() == parts.len(),
            vals.len() == i,
            forall|k: int| 0 <= k < i ==> signed_value(#[trigger] ps[k]) == Some(vals[k] as int),
        decreases parts.len() - i,
    {
        proof {
            assert(ps[i as int] == parts@[i as int]@);
        }
        match parse_i64(parts[i].as_slice()) {
            Some(v) => {
                vals.push(v);
            },
            None => {
                proof {
                    if ps.len() >= 2 {
                        assert(!(signed_value(ps[i as int]) is Some && i64::MIN <= signed_value(
                            ps[i as int],
                        ).unwrap() <= i64::MAX));
                    }
                }
                return None;
            },
        }
        i += 1;
    }
    if vals.len() < 2 {
        return None;
    }
    if vals[0] < 0 || vals[0] > REACH || vals[1] < 0 || vals[1] > REACH {
        return None;
    }
    Some([vals[0], vals[1]])
}

impl Cave {
    /// Adds the rock of the rectangle of which `a` and `b` are corners.
    fn add_rock(&mut self, a: [i64; 2], b: [i64; 2])
        requires
            old(self).wf(),
            all_placed(old(self).units@),
            0 <= a[0] <= REACH && 0 <= a[1] <= REACH,
            0 <= b[0] <= REACH && 0 <= b[1] <= REACH,
        ensures
            final(self).wf(),
            all_placed(final(self).units@),
            final(self).unreachables == old(self).unreachables,
            forall|x: int, y: int|
                in_reach(x, y) ==> (#[trigger] unit_at(final(self).units@, x, y) <==> unit_at(
                    old(self).units@,
                    x,
                    y,
                ) || in_rect((a[0] as int, a[1] as int), (b[0] as int, b[1] as int), x, y)),
            (Bounds {
                min_x: final(self).min_x as int,
                max_x: final(self).max_x as int,
                max_y: final(self).max_y as int,
            }) == widened(
                Bounds {
                    min_x: old(self).min_x as int,
                    max_x: old(self).max_x as int,
                    max_y: old(self).max_y as int,
                },
                (a[0] as int, a[1] as int),
                (b[0] as int, b[1] as int),
            ),
    {
        let x0 = if a[0] < b[0] {
            a[0]
        } else {
            b[0]
        };
        let x1 = if a[0] < b[0] {
            b[0]
        } else {
            a[0]
        };
        let y0 = if a[1] < b[1] {
            a[1]
        } else {
            b[1]
        };
        let y1 = if a[1] < b[1] {
            b[1]
        } else {
            a[1]
        };
        let ghost before = self.units@;
        let mut x: i64 = x0;
        while x <= x1
            invariant
                x0 <= x <= x1 + 1,
                0 <= x0 <= x1 <= REACH,
                0 <= y0 <= y1 <= REACH,
                is_lowest(self.units@, self.lowest as int),
                all_placed(self.units@),
                self.unreachables == old(self).unreachables,
                self.min_x == old(self).min_x,
                self.max_x == old(self).max_x,
                self.max_y == old(self).max_y,
                forall|c: int, d: int|
                    in_reach(c, d) ==> (#[trigger] unit_at(self.units@, c, d) <==> unit_at(
                        before,
                        c,
                        d,
                    ) || (x0 <= c < x && y0 <= d <= y1)),
            decreases x1 + 1 - x,
        {
            let mut y: i64 = y0;
            while y <= y1
                invariant
                    y0 <= y <= y1 + 1,
                    x0 <= x <= x1,
                    0 <= x0 <= x1 <= REACH,
                    0 <= y0 <= y1 <= REACH,
                    is_lowest(self.units@, self.lowest as int),
                    all_placed(self.units@),
                    self.unreachables == old(self).unreachables,
                    self.min_x == old(self).min_x,
                    self.max_x == old(self).max_x,
                    self.max_y == old(self).max_y,
                    forall|c: int, d: int|
                        in_reach(c, d) ==> (#[trigger] unit_at(self.units@, c, d) <==> unit_at(
                            before,
                            c,
                            d,
                        ) || (x0 <= c < x && y0 <= d <= y1) || (c == x && y0 <= d < y)),
                decreases y1 + 1 - y,
            {
                let ghost units = self.units@;
                let ghost lowest = self.lowest as int;
                self.units.insert(key(x, y));
                if y > self.lowest {
                    self.lowest = y;
                }
                proof {
                    let now = self.units@;
                    assert forall|c: int, d: int|
                        in_reach(c, d) implies (#[trigger] unit_at(now, c, d) <==> unit_at(
                        units,
                        c,
                        d,
                    ) || (c == x && d == y)) by {
                        if unit_at(now, c, d) && !unit_at(units, c, d) {
                            lemma_keys_differ(c, d, x as int, y as int);
                        }
                    }
                    assert(is_lowest(now, self.lowest as int)) by {
                        if y as int > lowest {
                            assert(unit_at(now, x as int, self.lowest as int));
                        } else if lowest >= 0 {
                            let c = choose|c: int| in_reach(c, lowest) && #[trigger] unit_at(units, c, lowest);
                            assert(unit_at(now, c, lowest));
                        } else {
                            assert(unit_at(now, x as int, self.lowest as int));
                        }
                    }
                    assert forall|k: u64| #[trigger] now.contains(k) implies exists|c: int, d: int|
                        0 <= c <= REACH && 0 <= d <= REACH && k == #[trigger] place_key(c, d) by {
                        if !units.contains(k) {
                            assert(k == place_key(x as int, y as int));
                        }
                    }
                }
                y += 1;
            }
            x += 1;
        }
        if x0 < self.min_x {
            self.min_x = x0;
        }
        if x1 > self.max_x {
            self.max_x = x1;
        }
        if y1 > self.max_y {
            self.max_y = y1;
        }
    }

    /// Reads a cave: a path of rock a line, its points with arrows between them.
    pub fn from_bytes(s: &[u8]) -> (r: Result<Cave, ParseError>)
        ensures
            match r {
                Ok(cave) => (forall|i: int| 0 <= i < lines(s@).len() ==> line_ok(#[trigger] lines(s@)[i]))
                    && is_cave(lines(s@), cave),
                Err(e) => e == ParseError::Malformed && exists|i: int|
                    0 <= i < lines(s@).len() && !line_ok(#[trigger] lines(s@)[i]),
            },
    {
        let rows = split_lines(s);
        let ghost ls = lines(s@);
        let mut cave = Cave {
            units: HashSet::new(),
            min_x: REACH + 1,
            max_x: 0,
            max_y: 0,
            unreachables: HashSet::new(),
            lowest: -1,
        };
        let sep: [u8; 4] = [32, 45, 62, 32];
        proof {
            assert(sep@ =~= arrow());
            assert(ls.len() == rows.len());
        }
        let mut i: usize = 0;
        while i < rows.len()
            invariant
                i <= rows.len(),
                rows_view(rows@) == ls,
                ls == lines(s@),
                ls.len() == rows.len(),
                sep@ == arrow(),
                cave.wf(),
                all_placed(cave.units@),
                cave.unreachables@ == Set::<u64>::empty(),
                forall|k: int| 0 <= k < i ==> line_ok(#[trigger] ls[k]),
                forall|x: int, y: int|
                    in_reach(x, y) ==> (#[trigger] unit_at(cave.units@, x, y) <==> rock_to(
                        ls,
                        i as int,
                        x,
                        y,
                    )),
                (Bounds {
                    min_x: cave.min_x as int,
                    max_x: cave.max_x as int,
                    max_y: cave.max_y as int,
                }) == bounds_to(ls, i as int),
            decreases rows.len() - i,
        {
            proof {
                assert(ls[i as int] == rows@[i as int]@);
            }
            let texts = split_at_word(rows[i].as_slice(), sep.as_slice());
            let ghost ts = split_on(ls[i as int], arrow());
            let ghost units0 = cave.units@;
            let ghost bounds0 = bounds_to(ls, i as int);
            let mut last: Option<[i64; 2]> = None;
            let mut j: usize = 0;
            proof {
                assert(ts.len() == texts.len());
            }
            while j < texts.len()
                invariant
                    j <= texts.len(),
                    i < rows.len(),
                    rows_view(texts@) == ts,
                    ts == split_on(ls[i as int], arrow()),
                    ts.len() == texts.len(),
                    ls == lines(s@),
                    ls.len() == rows.len(),
                    cave.wf(),
                    all_placed(cave.units@),
                    cave.unreachables@ == Set::<u64>::empty(),
                    forall|k: int| 0 <= k < j ==> point_of(#[trigger] ts[k]) is Some,
                    j > 0 ==> last is Some && point_of(ts[j - 1]) == Some(
                        (last.unwrap()[0] as int, last.unwrap()[1] as int),
                    ),
                    j == 0 ==> last is None,
                    forall|x: int, y: int|
                        in_reach(x, y) ==> (#[trigger] unit_at(cave.units@, x, y) <==> unit_at(
                            units0,
                            x,
                            y,
                        ) || rock_in_path(
                            ts.map_values(|t: Seq<u8>| point_of(t).unwrap()),
                            j as int,
                            x,
                            y,
                        )),
                    (Bounds {
                        min_x: cave.min_x as int,
                        max_x: cave.max_x as int,
                        max_y: cave.max_y as int,
                    }) == bounds_in_path(
                        ts.map_values(|t: Seq<u8>| point_of(t).unwrap()),
                        j as int,
                        bounds0,
                    ),
                decreases texts.len() - j,
            {
                proof {
                    assert(ts[j as int] == texts@[j as int]@);
                }
                let curr = match parse_point(texts[j].as_slice()) {
                    Some(p) => p,
                    None => {
                        proof {
                            assert(!line_ok(ls[i as int]));
                        }
                        return Err(ParseError::Malformed);
                    },
                };
                match last {
                    Some(old) => {
                        cave.add_rock(curr, old);
                    },
                    None => {},
                }
                last = Some(curr);
                j += 1;
            }
            proof {
                assert(ts.map_values(|t: Seq<u8>| point_of(t).unwrap()) == points_of(ls[i as int]));
            }
            i += 1;
        }
        Ok(cave)
    }
}

/// What a part answers to an input: the units of sand that come to rest
/// before one falls for ever, or those that rest when the sand has piled up
/// to the source, or why there is no answer.
pub open spec fn is_answer(input: Option<String>, part: int, r: Result<String, PuzzleError>) -> bool {
    match input {
        None => r == Err::<String, PuzzleError>(PuzzleError::MissingInput),
        Some(text) => {
            let ls = lines(bytes_of(text@));
            if exists|i: int| 0 <= i < ls.len() && !line_ok(#[trigger] ls[i]) {
                r == Err::<String, PuzzleError>(PuzzleError::Parse(ParseError::Malformed))
            } else if part == 1 {
                exists|cave: Cave|
                    {
                        &&& #[trigger] is_cave(ls, cave)
                        &&& match pour(cave.units@, cave.lowest as int, (usize::MAX - 1) as nat) {
                            Some(n) => r is Ok && r.unwrap()@ == decimal(n),
                            None => r == Err::<String, PuzzleError>(PuzzleError::TooLarge),
                        }
                    }
            } else {
                exists|cave: Cave, marked: Set<u64>|
                    {
                        &&& #[trigger] is_marked(ls, cave, marked)
                        &&& {
                            let left = (cave.max_y + 2) * (cave.max_y + 2) - cave.units@.len()
                                - marked.len();
                            if 0 <= left <= usize::MAX {
                                r is Ok && r.unwrap()@ == decimal(left as nat)
                            } else {
                                r == Err::<String, PuzzleError>(PuzzleError::Overflow)
                            }
                        }
                    }
            }
        },
    }
}

/// The cave is what the lines write, and the marked places are those that sand never reaches.
pub open spec fn is_marked(ls: Seq<Seq<u8>>, cave: Cave, marked: Set<u64>) -> bool {
    &&& is_cave(ls, cave)
    &&& marked.finite()
    &&& forall|x: int, y: int|
        in_reach(x, y) ==> (#[trigger] unit_at(marked, x, y) <==> y <= cave.max_y + 1
            && never_reached(cave.units@, cave.min_x as int, cave.max_x as int, x, y))
}

fn run_part(input: Option<String>, part: u8) -> (r: Result<String, PuzzleError>)
    requires
        part == 1 || part == 2,
    ensures
        is_answer(input, part as int, r),
{
    let text = match input {
        Some(t) => t,
        None => {
            return Err(PuzzleError::MissingInput);
        },
    };
    let mut cave = match Cave::from_bytes(string_bytes(&text)) {
        Ok(c) => c,
        Err(e) => {
            return Err(PuzzleError::Parse(e));
        },
    };
    let ghost start = cave;
    if part == 1 {
        proof {
            assert(is_cave(lines(bytes_of(text@)), start));
        }
        match cave.simulate(usize::MAX - 1) {
            Some(n) => Ok(decimal_string(n as u128)),
            None => Err(PuzzleError::TooLarge),
        }
    } else {
        cave.build_unreachables();
        proof {
            assert(is_marked(lines(bytes_of(text@)), start, cave.unreachables@));
        }
        match cave.compute2() {
            Some(n) => Ok(decimal_string(n as u128)),
            None => Err(PuzzleError::Overflow),
        }
    }
}

pub struct Day14;

impl AdventOfCode for Day14 {
    fn day(&self) -> (d: u8)
        ensures
            d == 14,
    {
        14
    }

    fn run1(&mut self, input: Option<String>) -> (r: Result<String, PuzzleError>)
        ensures
            is_answer(input, 1, r),
    {
        run_part(input, 1)
    }

    fn run2(&mut self, input: Option<String>) -> (r: Result<String, PuzzleError>)
        ensures
            is_answer(input, 2, r),
    {
        run_part(input, 2)
    }
}

// ----- drawing -----
/// The sign of a place: the source, a unit, a place that sand never
/// reaches, or air.
pub open spec fn sign_at(units: Set<u64>, unreachables: Set<u64>, x: int, y: int) -> char {
    if x == 500 && y == 0 {
        '+'
    } else if unit_at(units, x, y) {
        '#'
    } else if unreachables.contains(place_key(x, y) as u64) {
        'X'
    } else {
        '.'
    }
}

/// The signs of the row `y` from the column `from` up to the column `to`, without it.
pub open spec fn drawn_row(units: Set<u64>, unreachables: Set<u64>, y: int, from: int, to: int) -> Seq<char>
    decreases to - from,
{
    if to <= from {
        Seq::empty()
    } else {
        drawn_row(units, unreachables, y, from, to - 1).push(sign_at(units, unreachables, to - 1, y))
    }
}

/// The rows from 0 up to `n`, without it, each on a line: the columns from
/// `from` up to `to`, without it.
pub open spec fn drawn_rows(units: Set<u64>, unreachables: Set<u64>, from: int, to: int, n: int) -> Seq<char>
    decreases n,
{
    if n <= 0 {
        Seq::empty()
    } else {
        drawn_rows(units, unreachables, from, to, n - 1) + drawn_row(
            units,
            unreachables,
            n - 1,
            from,
            to,
        ).push('\n')
    }
}

impl Cave {
    /// The cave as it is drawn: the rows down to three below the lowest
    /// rock, the columns from ten before the first rock to ten behind the last.
    pub open spec fn drawn(&self) -> Seq<char> {
        drawn_rows(
            self.units@,
            self.unreachables@,
            self.min_x - 10,
            self.max_x + 11,
            self.max_y + 4,
        )
    }

    pub fn to_string(&self) -> (s: String)
        requires
            self.wf(),
        ensures
            s@ == self.drawn(),
    {
        let mut s = String::new();
        let mut y: i64 = 0;
        while y <= self.max_y + 3
            invariant
                self.wf(),
                0 <= y <= self.max_y + 4,
                s@ == drawn_rows(
                    self.units@,
                    self.unreachables@,
                    self.min_x - 10,
                    self.max_x + 11,
                    y as int,
                ),
            decreases self.max_y + 4 - y,
        {
            let ghost before = s@;
            let mut x: i64 = self.min_x - 10;
            while x <= self.max_x + 10
                invariant
                    self.wf(),
                    0 <= y <= self.max_y + 3,
                    self.min_x - 10 <= x,
                    x <= self.max_x + 11 || x == self.min_x - 10,
                    s@ == before + drawn_row(
                        self.units@,
                        self.unreachables@,
                        y as int,
                        self.min_x - 10,
                        x as int,
                    ),
                decreases self.max_x + 11 - x,
            {
                let c = if x == 500 && y == 0 {
                    '+'
                } else if self.units.contains(&key(x, y)) {
                    '#'
                } else if self.unreachables.contains(&key(x, y)) {
                    'X'
                } else {
                    '.'
                };
                push_char(&mut s, c);
                proof {
                    assert(s@ =~= before + drawn_row(
                        self.units@,
                        self.unreachables@,
                        y as int,
                        self.min_x - 10,
                        x + 1,
                    ));
                }
                x += 1;
            }
            push_char(&mut s, '\n');
            proof {
                let from = self.min_x - 10;
                let to = self.max_x + 11;
                if x > to {
                    assert(drawn_row(self.units@, self.unreachables@, y as int, from, x as int)
                        =~= drawn_row(self.units@, self.unreachables@, y as int, from, to));
                }
                assert(s@ =~= drawn_rows(self.units@, self.unreachables@, from, to, y + 1));
            }
            y += 1;
        }
        s
    }
}

} // verus!
