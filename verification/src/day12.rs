//! Hill climbing: the fewest steps up a hill, each step at most one unit higher.

use crate::errors::{ParseError, PuzzleError};
use crate::search::{SearchSpace, is_search_result, lemma_result_unique, shortest_path};
use crate::text::{bytes_of, decimal, decimal_string, lines, rows_view, split_lines, string_bytes};
use crate::traits::AdventOfCode;
use vstd::arithmetic::div_mod::{lemma_fundamental_div_mod, lemma_fundamental_div_mod_converse};
use vstd::prelude::*;

verus! {

/// The heights of a hill, row by row, with the place where the way ends.
pub struct HeightMap {
    pub map: Vec<Vec<i8>>,
    /// The column and the row of the place marked `S`.
    pub start: [usize; 2],
    /// The column and the row of the place marked `E`.
    pub end: [usize; 2],
    /// The places where a way may start: the one marked `S` and those of height `a`.
    pub starts: Vec<[usize; 2]>,
}

/// The rows are a hill: at least one row and one column, all rows as long as the first,
/// and few enough places to number them.
pub open spec fn is_hill(map: Seq<Vec<i8>>) -> bool {
    &&& map.len() > 0
    &&& map[0].len() > 0
    &&& forall|y: int| 0 <= y < map.len() ==> (#[trigger] map[y]).len() == map[0].len()
    &&& map.len() * map[0].len() <= u64::MAX
}

/// One may step from the height `from` to the height `to`.
pub open spec fn can_climb(from: i8, to: i8) -> bool {
    to - from <= 1
}

impl HeightMap {
    pub open spec fn wf(&self) -> bool {
        &&& is_hill(self.map@)
        &&& self.on_hill(self.start)
        &&& self.on_hill(self.end)
        &&& forall|i: int| 0 <= i < self.starts.len() ==> self.on_hill(#[trigger] self.starts[i])
    }

    pub open spec fn width(&self) -> int {
        self.map@[0].len() as int
    }

    pub open spec fn height(&self) -> int {
        self.map@.len() as int
    }

    /// The place at a column and a row lies on the hill.
    pub open spec fn on_hill(&self, p: [usize; 2]) -> bool {
        p[0] < self.width() && p[1] < self.height()
    }

    /// The number of the place at column `x` and row `y`.
    pub open spec fn key(&self, x: int, y: int) -> int {
        y * self.width() + x
    }

    proof fn lemma_key(&self, x: int, y: int)
        requires
            is_hill(self.map@),
            0 <= x < self.width(),
            0 <= y < self.height(),
        ensures
            0 <= self.key(x, y) < self.height() * self.width(),
            self.key(x, y) / self.width() == y,
            self.key(x, y) % self.width() == x,
    {
        let w = self.width();
        lemma_fundamental_div_mod_converse(y * w + x, w, y, x);
        assert(0 <= y * w + x < self.height() * w) by (nonlinear_arith)
            requires
                0 <= x < w,
                0 <= y < self.height(),
        ;
    }

    proof fn lemma_place(&self, k: int)
        requires
            is_hill(self.map@),
            0 <= k < self.height() * self.width(),
        ensures
            0 <= k / self.width() < self.height(),
            0 <= k % self.width() < self.width(),
            self.key(k % self.width(), k / self.width()) == k,
    {
        let w = self.width();
        lemma_fundamental_div_mod(k, w);
        let q = k / w;
        let r = k % w;
        assert(w * q == q * w) by (nonlinear_arith);
        assert(0 <= q < self.height()) by (nonlinear_arith)
            requires
                0 <= k < self.height() * w,
                k == q * w + r,
                0 <= r < w,
        ;
    }

    /// The height at column `x` and row `y`.
    pub open spec fn at(&self, x: int, y: int) -> i8 {
        self.map@[y]@[x]
    }

    /// The places next to column `x` and row `y` to which one may step from
    /// there: above, below, to the left and to the right, in this order.
    pub fn find_neighbours(&self, x: usize, y: usize) -> (ret: Vec<[usize; 2]>)
        requires
            self.wf(),
            x < self.width(),
            y < self.height(),
        ensures
            forall|i: int|
                0 <= i < ret.len() ==> self.on_hill(#[trigger] ret[i]) && self.is_step(
                    x as int,
                    y as int,
                    ret[i][0] as int,
                    ret[i][1] as int,
                ),
            forall|a: int, b: int|
                0 <= a < self.width() && 0 <= b < self.height() && #[trigger] self.is_step(
                    x as int,
                    y as int,
                    a,
                    b,
                ) ==> ret@.contains([a as usize, b as usize]),
            ret@.map_values(|p: [usize; 2]| (p[0] as int, p[1] as int)) == self.steps_around(
                x as int,
                y as int,
            ),
    {
        let h = self.map.len();
        let w = self.map[0].len();
        let pos_height = self.map[y][x];
        let mut ret: Vec<[usize; 2]> = Vec::new();
        proof {
            assert(self.map@[y as int].len() == w);
        }
        if y > 0 {
            proof {
                assert(self.map@[y - 1].len() == w);
            }
            if self.map[y - 1][x] as i16 - pos_height as i16 <= 1 {
                ret.push([x, y - 1]);
            }
        }
        let ghost r1 = ret@;
        if y < h - 1 {
            proof {
                assert(self.map@[y + 1].len() == w);
            }
            if self.map[y + 1][x] as i16 - pos_height as i16 <= 1 {
                ret.push([x, y + 1]);
            }
        }
        let ghost r2 = ret@;
        if x > 0 && self.map[y][x - 1] as i16 - pos_height as i16 <= 1 {
            ret.push([x - 1, y]);
        }
        let ghost r3 = ret@;
        if x < w - 1 && self.map[y][x + 1] as i16 - pos_height as i16 <= 1 {
            ret.push([x + 1, y]);
        }
        proof {
            assert forall|a: int, b: int|
                0 <= a < self.width() && 0 <= b < self.height() && #[trigger] self.is_step(
                    x as int,
                    y as int,
                    a,
                    b,
                ) implies ret@.contains([a as usize, b as usize]) by {
                let want = [a as usize, b as usize];
                if b == y - 1 {
                    assert(ret[0] == want);
                } else if b == y + 1 {
                    assert(ret[r1.len() as int] == want);
                } else if a == x - 1 {
                    assert(ret[r2.len() as int] == want);
                } else {
                    assert(ret[r3.len() as int] == want);
                }
            }
            let f = |p: [usize; 2]| (p[0] as int, p[1] as int);
            let got = ret@.map_values(f);
            let all = self.steps_around(x as int, y as int);
            assert(self.map@[y as int].len() == w);
            assert(got.len() == all.len());
            assert forall|k: int| 0 <= k < got.len() implies got[k] == all[k] by {
                assert(got[k] == f(ret@[k]));
                if k < r1.len() {
                    assert(ret@[k] == r1[k]);
                } else if k < r2.len() {
                    assert(ret@[k] == r2[k]);
                } else if k < r3.len() {
                    assert(ret@[k] == r3[k]);
                }
            }
            assert(got =~= all);
        }
        ret
    }

    /// The place alone, if it lies on the hill and one may step to it
    /// from column `x` and row `y`.
    pub open spec fn step_if(&self, x: int, y: int, a: int, b: int) -> Seq<(int, int)> {
        if 0 <= a < self.width() && 0 <= b < self.height() && self.is_step(x, y, a, b) {
            seq![(a, b)]
        } else {
            Seq::<(int, int)>::empty()
        }
    }

    /// The places to which one may step from column `x` and row `y`:
    /// above, below, to the left and to the right, in this order.
    pub open spec fn steps_around(&self, x: int, y: int) -> Seq<(int, int)> {
        self.step_if(x, y, x, y - 1) + self.step_if(x, y, x, y + 1) + self.step_if(x, y, x - 1, y)
            + self.step_if(x, y, x + 1, y)
    }

    /// One may step from column `x` and row `y` to column `a` and row `b`:
    /// they lie side by side, and the second is at most one unit higher.
    pub open spec fn is_step(&self, x: int, y: int, a: int, b: int) -> bool {
        &&& ((a == x && (b == y - 1 || b == y + 1)) || (b == y && (a == x - 1 || a == x + 1)))
        &&& can_climb(self.at(x, y), self.at(a, b))
    }
}

impl SearchSpace for HeightMap {
    open spec fn inv(&self) -> bool {
        self.wf()
    }

    open spec fn valid(&self, k: u64) -> bool {
        k < self.height() * self.width()
    }

    open spec fn step(&self, from: u64, to: u64, cost: u64) -> bool {
        &&& self.valid(from)
        &&& self.valid(to)
        &&& cost == 1
        &&& self.is_step(
            from as int % self.width(),
            from as int / self.width(),
            to as int % self.width(),
            to as int / self.width(),
        )
    }

    open spec fn is_goal(&self, k: u64) -> bool {
        k == self.key(self.end[0] as int, self.end[1] as int)
    }

    open spec fn key_bound(&self) -> nat {
        (self.height() * self.width()) as nat
    }

    proof fn lemma_key_bound(&self, k: u64) {
    }

    fn contains(&self, k: u64) -> (b: bool) {
        let h = self.map.len() as u64;
        let w = self.map[0].len() as u64;
        k < h * w
    }

    fn goal(&self, k: u64) -> (b: bool) {
        proof {
            self.lemma_key(self.end[0] as int, self.end[1] as int);
        }
        let w = self.map[0].len() as u64;
        k == (self.end[1] as u64) * w + (self.end[0] as u64)
    }

    fn successors(&self, k: u64) -> (r: Vec<(u64, u64)>) {
        let w = self.map[0].len();
        let h = self.map.len();
        proof {
            self.lemma_place(k as int);
            assert(w == self.width());
            assert(h == self.height());
        }
        let x = (k % (w as u64)) as usize;
        let y = (k / (w as u64)) as usize;
        proof {
            assert(x == k as int % self.width());
            assert(y == k as int / self.width());
        }
        let near = self.find_neighbours(x, y);
        let mut r: Vec<(u64, u64)> = Vec::new();
        let mut i: usize = 0;
        while i < near.len()
            invariant
                i <= near.len(),
                self.wf(),
                w == self.width(),
                r.len() == i,
                x == k as int % self.width(),
                y == k as int / self.width(),
                forall|j: int| 0 <= j < near.len() ==> self.on_hill(#[trigger] near[j]),
                forall|j: int|
                    0 <= j < i ==> (#[trigger] r[j]) == (
                        self.key(near[j][0] as int, near[j][1] as int) as u64,
                        1u64,
                    ),
            decreases near.len() - i,
        {
            let p = near[i];
            proof {
                self.lemma_key(p[0] as int, p[1] as int);
            }
            r.push(((p[1] as u64) * (w as u64) + (p[0] as u64), 1));
            i += 1;
        }
        proof {
            assert forall|j: int| 0 <= j < r.len() implies self.valid((#[trigger] r[j]).0)
                && self.step(k, r[j].0, r[j].1) by {
                assert(self.on_hill(near[j]));
                self.lemma_key(near[j][0] as int, near[j][1] as int);
                assert(self.is_step(x as int, y as int, near[j][0] as int, near[j][1] as int));
            }
            assert forall|t: u64, c: u64| #[trigger] self.step(k, t, c) implies r@.contains(
                (t, c),
            ) by {
                self.lemma_place(t as int);
                let a = t as int % self.width();
                let b = t as int / self.width();
                assert(self.is_step(x as int, y as int, a, b));
                assert(near@.contains([a as usize, b as usize]));
                let j = choose|j: int| 0 <= j < near.len() && near@[j] == [a as usize, b as usize];
                assert(near[j][0] == a && near[j][1] == b);
                assert(r[j] == (t, c));
            }
        }
        r
    }
}

/// What the search from a place to the end returns: the fewest steps, or
/// nothing where no way leads there.
pub open spec fn steps_from(hill: &HeightMap, start: [usize; 2]) -> Option<u64> {
    choose|c: Option<u64>| #[trigger]
        is_search_result(hill, hill.key(start[0] as int, start[1] as int) as u64, c)
}

/// The fewest steps from a place to the end as a length: the greatest
/// number where no way leads there, or the steps are as many or more.
pub open spec fn path_length(hill: &HeightMap, start: [usize; 2]) -> usize {
    match steps_from(hill, start) {
        Some(v) => if v < usize::MAX {
            v as usize
        } else {
            usize::MAX
        },
        None => usize::MAX,
    }
}

/// The least of the path lengths from the first `n` starts, or the greatest
/// number where there is none.
pub open spec fn least_length(hill: &HeightMap, n: int) -> usize
    decreases n,
{
    if n <= 0 {
        usize::MAX
    } else {
        let rest = least_length(hill, n - 1);
        let here = path_length(hill, hill.starts[n - 1]);
        if here < rest {
            here
        } else {
            rest
        }
    }
}

impl HeightMap {
    /// The fewest steps from a place to the place where the way ends, or
    /// the greatest number where no way leads there.
    pub fn find_path(&self, start: [usize; 2]) -> (r: usize)
        requires
            self.wf(),
            self.on_hill(start),
        ensures
            r == path_length(self, start),
            is_search_result(
                self,
                self.key(start[0] as int, start[1] as int) as u64,
                steps_from(self, start),
            ),
    {
        proof {
            self.lemma_key(start[0] as int, start[1] as int);
        }
        let w = self.map[0].len() as u64;
        let from = (start[1] as u64) * w + (start[0] as u64);
        let found = shortest_path(self, from);
        proof {
            let c = match found {
                Ok(c) => c,
                Err(_) => None,
            };
            assert(is_search_result(self, from, c));
            lemma_result_unique(self, from, c, steps_from(self, start));
        }
        match found {
            Ok(Some(c)) => if c < usize::MAX as u64 {
                c as usize
            } else {
                usize::MAX
            },
            _ => usize::MAX,
        }
    }

    /// The fewest steps from the place marked `S`.
    pub fn run1(&self) -> (r: usize)
        requires
            self.wf(),
        ensures
            r == path_length(self, self.start),
    {
        self.find_path(self.start)
    }

    /// The fewest steps from any place where a way may start.
    pub fn run2(&self) -> (min: usize)
        requires
            self.wf(),
        ensures
            min == least_length(self, self.starts@.len() as int),
    {
        let mut min = usize::MAX;
        let mut i: usize = 0;
        while i < self.starts.len()
            invariant
                i <= self.starts.len(),
                self.wf(),
                min == least_length(self, i as int),
            decreases self.starts.len() - i,
        {
            let r = self.find_path(self.starts[i]);
            if r < min {
                min = r;
            }
            i += 1;
        }
        min
    }
}

// ----- reading a hill -----
/// The height that a character of the plan stands for: `a` to `z` for 0 to
/// 25, `S` for the lowest and `E` for the highest.
pub open spec fn height_of(c: u8) -> Option<i8> {
    if c == 83 {
        Some(0i8)
    } else if c == 69 {
        Some(25i8)
    } else if 97 <= c <= 122 {
        Some((c - 97) as i8)
    } else {
        None
    }
}

/// A way may start at a place with this character.
pub open spec fn is_start(c: u8) -> bool {
    c == 83 || c == 97
}

/// The last place among the first `n` of a row that holds the character `c`.
pub open spec fn mark_in_row(row: Seq<u8>, c: u8, n: int) -> Option<int>
    decreases n,
{
    if n <= 0 {
        None
    } else if row[n - 1] == c {
        Some(n - 1)
    } else {
        mark_in_row(row, c, n - 1)
    }
}

/// The last place among the first `m` rows that holds the character `c`, as column and row.
pub open spec fn mark_to(ls: Seq<Seq<u8>>, c: u8, m: int) -> Option<[usize; 2]>
    decreases m,
{
    if m <= 0 {
        None
    } else {
        match mark_in_row(ls[m - 1], c, ls[m - 1].len() as int) {
            Some(x) => Some([x as usize, (m - 1) as usize]),
            None => mark_to(ls, c, m - 1),
        }
    }
}

/// The places among the first `n` of row `y` where a way may start.
pub open spec fn starts_in_row(row: Seq<u8>, y: int, n: int) -> Seq<[usize; 2]>
    decreases n,
{
    if n <= 0 {
        Seq::<[usize; 2]>::empty()
    } else if is_start(row[n - 1]) {
        starts_in_row(row, y, n - 1).push([(n - 1) as usize, y as usize])
    } else {
        starts_in_row(row, y, n - 1)
    }
}

/// The places among the first `m` rows where a way may start.
pub open spec fn starts_to(ls: Seq<Seq<u8>>, m: int) -> Seq<[usize; 2]>
    decreases m,
{
    if m <= 0 {
        Seq::<[usize; 2]>::empty()
    } else {
        starts_to(ls, m - 1) + starts_in_row(ls[m - 1], m - 1, ls[m - 1].len() as int)
    }
}

/// The lines are the plan of a hill: at least one line and one character a
/// line, all lines as long as the first, every character a height, and an
/// `S` and an `E` among them.
pub open spec fn plan_ok(ls: Seq<Seq<u8>>) -> bool {
    &&& ls.len() > 0
    &&& ls[0].len() > 0
    &&& forall|y: int| 0 <= y < ls.len() ==> (#[trigger] ls[y]).len() == ls[0].len()
    &&& forall|y: int, x: int|
        0 <= y < ls.len() && 0 <= x < ls[y].len() ==> height_of(#[trigger] ls[y][x]) is Some
    &&& ls.len() * ls[0].len() <= u64::MAX
    &&& mark_to(ls, 83, ls.len() as int) is Some
    &&& mark_to(ls, 69, ls.len() as int) is Some
}

/// The hill is what the plan shows.
pub open spec fn is_plan(ls: Seq<Seq<u8>>, hill: HeightMap) -> bool {
    &&& hill.map@.len() == ls.len()
    &&& forall|y: int| 0 <= y < ls.len() ==> (#[trigger] hill.map@[y]).len() == ls[y].len()
    &&& forall|y: int, x: int|
        0 <= y < ls.len() && 0 <= x < ls[y].len() ==> Some(#[trigger] hill.map@[y]@[x])
            == height_of(ls[y][x])
    &&& Some(hill.start) == mark_to(ls, 83, ls.len() as int)
    &&& Some(hill.end) == mark_to(ls, 69, ls.len() as int)
    &&& hill.starts@ == starts_to(ls, ls.len() as int)
}

proof fn lemma_mark_in_row(row: Seq<u8>, c: u8, n: int)
    requires
        0 <= n <= row.len(),
    ensures
        match mark_in_row(row, c, n) {
            Some(x) => 0 <= x < n,
            None => true,
        },
    decreases n,
{
    if n > 0 {
        lemma_mark_in_row(row, c, n - 1);
    }
}

impl HeightMap {
    /// Reads a hill from its plan.
    pub fn from_bytes(s: &[u8]) -> (r: Result<HeightMap, ParseError>)
        ensures
            match r {
                Ok(hill) => plan_ok(lines(s@)) && is_plan(lines(s@), hill) && hill.wf(),
                Err(e) => e == ParseError::Malformed && !plan_ok(lines(s@)),
            },
    {
        let rows = split_lines(s);
        let ghost ls = lines(s@);
        proof {
            assert(ls.len() == rows.len());
        }
        if rows.len() == 0 || rows[0].len() == 0 {
            proof {
                if rows.len() > 0 {
                    assert(ls[0] == rows@[0]@);
                }
            }
            return Err(ParseError::Malformed);
        }
        let w = rows[0].len();
        proof {
            assert(ls[0] == rows@[0]@);
        }
        if (rows.len() as u64).checked_mul(w as u64).is_none() {
            return Err(ParseError::Malformed);
        }
        let mut map: Vec<Vec<i8>> = Vec::new();
        let mut starts: Vec<[usize; 2]> = Vec::new();
        let mut start: Option<[usize; 2]> = None;
        let mut end: Option<[usize; 2]> = None;
        let mut y: usize = 0;
        while y < rows.len()
            invariant
                y <= rows.len(),
                rows_view(rows@) == ls,
                ls == lines(s@),
                ls.len() == rows.len(),
                ls.len() > 0,
                w == ls[0].len(),
                w > 0,
                ls.len() * w <= u64::MAX,
                map.len() == y,
                forall|b: int| 0 <= b < y ==> (#[trigger] ls[b]).len() == w,
                forall|b: int| 0 <= b < y ==> (#[trigger] map[b]).len() == w,
                forall|b: int, a: int|
                    0 <= b < y && 0 <= a < w ==> Some(#[trigger] map[b]@[a]) == height_of(ls[b][a]),
                start == mark_to(ls, 83, y as int),
                end == mark_to(ls, 69, y as int),
                starts@ == starts_to(ls, y as int),
                start is Some ==> start.unwrap()[0] < w && start.unwrap()[1] < y,
                end is Some ==> end.unwrap()[0] < w && end.unwrap()[1] < y,
                forall|i: int|
                    0 <= i < starts.len() ==> (#[trigger] starts[i])[0] < w && starts[i][1] < y,
            decreases rows.len() - y,
        {
            let line = &rows[y];
            proof {
                assert(ls[y as int] == line@);
            }
            if line.len() != w {
                return Err(ParseError::Malformed);
            }
            let mut map_line: Vec<i8> = Vec::new();
            let ghost starts_before = starts@;
            let ghost start_before = start;
            let ghost end_before = end;
            let mut x: usize = 0;
            while x < w
                invariant
                    x <= w,
                    line.len() == w,
                    y < rows.len(),
                    ls == lines(s@),
                    ls.len() == rows.len(),
                    ls[y as int] == line@,
                    map_line.len() == x,
                    forall|a: int| 0 <= a < x ==> Some(#[trigger] map_line[a]) == height_of(line@[a]),
                    starts@ == starts_before + starts_in_row(line@, y as int, x as int),
                    start == match mark_in_row(line@, 83, x as int) {
                        Some(a) => Some([a as usize, y]),
                        None => start_before,
                    },
                    end == match mark_in_row(line@, 69, x as int) {
                        Some(a) => Some([a as usize, y]),
                        None => end_before,
                    },
                    start_before is Some ==> start_before.unwrap()[0] < w && start_before.unwrap()[1]
                        < y,
                    end_before is Some ==> end_before.unwrap()[0] < w && end_before.unwrap()[1] < y,
                    forall|i: int|
                        0 <= i < starts.len() ==> (#[trigger] starts[i])[0] < w && starts[i][1] <= y,
                decreases w - x,
            {
                let c = line[x];
                let ghost list = starts@;
                if c == 83 {
                    start = Some([x, y]);
                    starts.push([x, y]);
                    map_line.push(0);
                } else if c == 69 {
                    end = Some([x, y]);
                    map_line.push(25);
                } else if 97 <= c && c <= 122 {
                    if c == 97 {
                        starts.push([x, y]);
                    }
                    map_line.push((c - 97) as i8);
                } else {
                    proof {
                        assert(height_of(ls[y as int][x as int]) is None);
                    }
                    return Err(ParseError::Malformed);
                }
                proof {
                    assert(starts@ =~= starts_before + starts_in_row(line@, y as int, x + 1));
                    lemma_mark_in_row(line@, 83, x as int);
                    lemma_mark_in_row(line@, 69, x as int);
                }
                x += 1;
            }
            map.push(map_line);
            proof {
                lemma_mark_in_row(line@, 83, w as int);
                lemma_mark_in_row(line@, 69, w as int);
            }
            y += 1;
        }
        match (start, end) {
            (Some(st), Some(en)) => {
                let hill = HeightMap { map, start: st, end: en, starts };
                proof {
                    assert(hill.map@[0].len() == w);
                    assert forall|b: int, a: int|
                        0 <= b < ls.len() && 0 <= a < ls[b].len() implies height_of(
                        #[trigger] ls[b][a],
                    ) is Some by {
                        assert(Some(hill.map@[b]@[a]) == height_of(ls[b][a]));
                    }
                    assert(plan_ok(ls));
                    assert(is_hill(hill.map@));
                    assert(hill.wf());
                    assert(is_plan(ls, hill));
                }
                Ok(hill)
            },
            _ => Err(ParseError::Malformed),
        }
    }
}

/// What a part answers to an input: the fewest steps from the start, or
/// from any place where a way may start, or why there is no answer.
pub open spec fn is_answer(input: Option<String>, part: int, r: Result<String, PuzzleError>) -> bool {
    match input {
        None => r == Err::<String, PuzzleError>(PuzzleError::MissingInput),
        Some(text) => {
            let ls = lines(bytes_of(text@));
            if !plan_ok(ls) {
                r == Err::<String, PuzzleError>(PuzzleError::Parse(ParseError::Malformed))
            } else {
                exists|hill: HeightMap|
                    {
                        &&& #[trigger] is_plan(ls, hill)
                        &&& hill.wf()
                        &&& r is Ok
                        &&& r.unwrap()@ == decimal(
                            if part == 1 {
                                path_length(&hill, hill.start) as nat
                            } else {
                                least_length(&hill, hill.starts@.len() as int) as nat
                            },
                        )
                    }
            }
        },
    }
}

fn run_part(input: Option<String>, part: u8) -> (r: Result<String, PuzzleError>)
    requires
        part == 1 || part == 2,
    ensures
        is_answer(input, part as int, r),
{
    let text = match input {
        Some(t) => t,
        None => {
            return Err(PuzzleError::MissingInput);
        },
    };
    let hill = match HeightMap::from_bytes(string_bytes(&text)) {
        Ok(h) => h,
        Err(e) => {
            return Err(PuzzleError::Parse(e));
        },
    };
    let n = if part == 1 {
        hill.run1()
    } else {
        hill.run2()
    };
    proof {
        assert(is_plan(lines(bytes_of(text@)), hill));
    }
    Ok(decimal_string(n as u128))
}

pub struct Day12;

impl AdventOfCode for Day12 {
    fn day(&self) -> (d: u8)
        ensures
            d == 12,
    {
        12
    }

    fn run1(&mut self, input: Option<String>) -> (r: Result<String, PuzzleError>)
        ensures
            is_answer(input, 1, r),
    {
        run_part(input, 1)
    }

    fn run2(&mut self, input: Option<String>) -> (r: Result<String, PuzzleError>)
        ensures
            is_answer(input, 2, r),
    {
        run_part(input, 2)
    }
}

} // verus!
