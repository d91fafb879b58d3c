//! Sea cucumbers: two herds that move over a sea floor whose edges meet.

use crate::errors::{ParseError, PuzzleError};
use crate::text::{lines, rows_view, split_lines};
use vstd::prelude::*;
use vstd::string::*;

verus! {

#[derive(Clone, Copy, Debug, PartialEq, Eq, Structural)]
pub enum SeaCucumber {
    East,
    South,
    Empty,
}

/// The sea floor: its rows from north to south, each from west to east.
pub struct SeaFloor {
    pub sea_cucumbers: Vec<Vec<SeaCucumber>>,
}

/// The rows of a floor.
pub open spec fn floor_view(rows: Seq<Vec<SeaCucumber>>) -> Seq<Seq<SeaCucumber>> {
    rows.map_values(|r: Vec<SeaCucumber>| r@)
}

/// The rows are a floor: at least one row, at least one column, all rows as long as the first.
pub open spec fn is_floor(f: Seq<Seq<SeaCucumber>>) -> bool {
    &&& f.len() > 0
    &&& f[0].len() > 0
    &&& forall|y: int| 0 <= y < f.len() ==> (#[trigger] f[y]).len() == f[0].len()
}

/// Where the sea cucumber at column `x` and row `y` wants to go.
pub open spec fn target(f: Seq<Seq<SeaCucumber>>, x: int, y: int) -> (int, int) {
    match f[y][x] {
        SeaCucumber::East => ((x + 1) % (f[0].len() as int), y),
        SeaCucumber::South => (x, (y + 1) % (f.len() as int)),
        SeaCucumber::Empty => (x, y),
    }
}

/// There is a sea cucumber at column `x` and row `y`, and the place before it is free.
pub open spec fn free_ahead(f: Seq<Seq<SeaCucumber>>, x: int, y: int) -> bool {
    f[y][x] != SeaCucumber::Empty && f[target(f, x, y).1][target(f, x, y).0] == SeaCucumber::Empty
}

/// The floor after the herd `herd` has moved: every one of the herd that
/// had a free place before it has taken that place, all at once.
pub open spec fn herd_moved(f: Seq<Seq<SeaCucumber>>, herd: SeaCucumber) -> Seq<Seq<SeaCucumber>> {
    let w = f[0].len() as int;
    let h = f.len() as int;
    Seq::new(
        f.len(),
        |y: int|
            Seq::new(
                f[0].len(),
                |x: int|
                    {
                        let from = if herd == SeaCucumber::East {
                            ((x + w - 1) % w, y)
                        } else {
                            (x, (y + h - 1) % h)
                        };
                        if f[y][x] == herd && free_ahead(f, x, y) {
                            SeaCucumber::Empty
                        } else if f[y][x] == SeaCucumber::Empty && f[from.1][from.0] == herd
                            && herd != SeaCucumber::Empty {
                            herd
                        } else {
                            f[y][x]
                        }
                    },
            ),
    )
}

/// One of the herd has a free place before it.
pub open spec fn herd_can_move(f: Seq<Seq<SeaCucumber>>, herd: SeaCucumber) -> bool {
    exists|x: int, y: int|
        0 <= y < f.len() && 0 <= x < f[0].len() && f[y][x] == herd && #[trigger] free_ahead(f, x, y)
}

/// The floor after one step: the herd that moves east first, then the herd that moves south.
pub open spec fn stepped(f: Seq<Seq<SeaCucumber>>) -> Seq<Seq<SeaCucumber>> {
    herd_moved(herd_moved(f, SeaCucumber::East), SeaCucumber::South)
}

/// A sea cucumber moves in the step.
pub open spec fn moves(f: Seq<Seq<SeaCucumber>>) -> bool {
    herd_can_move(f, SeaCucumber::East) || herd_can_move(
        herd_moved(f, SeaCucumber::East),
        SeaCucumber::South,
    )
}

proof fn lemma_wrap(x: int, w: int)
    requires
        0 <= x < w,
    ensures
        (x + 1) % w == if x + 1 == w {
            0
        } else {
            x + 1
        },
        (x + w - 1) % w == if x == 0 {
            w - 1
        } else {
            x - 1
        },
{
    if x + 1 == w {
        vstd::arithmetic::div_mod::lemma_fundamental_div_mod_converse(x + 1, w, 1, 0);
    } else {
        vstd::arithmetic::div_mod::lemma_fundamental_div_mod_converse(x + 1, w, 0, x + 1);
    }
    if x == 0 {
        vstd::arithmetic::div_mod::lemma_fundamental_div_mod_converse(x + w - 1, w, 0, w - 1);
    } else {
        vstd::arithmetic::div_mod::lemma_fundamental_div_mod_converse(x + w - 1, w, 1, x - 1);
    }
}

proof fn lemma_herd_moved(f: Seq<Seq<SeaCucumber>>, herd: SeaCucumber)
    requires
        is_floor(f),
    ensures
        is_floor(herd_moved(f, herd)),
        herd_moved(f, herd).len() == f.len(),
        herd_moved(f, herd)[0].len() == f[0].len(),
{
}

impl SeaFloor {
    pub open spec fn wf(&self) -> bool {
        is_floor(floor_view(self.sea_cucumbers@))
    }

    pub open spec fn view(&self) -> Seq<Seq<SeaCucumber>> {
        floor_view(self.sea_cucumbers@)
    }

    proof fn lemma_rows(&self)
        requires
            self.wf(),
        ensures
            self@.len() == self.sea_cucumbers.len(),
            self.sea_cucumbers.len() > 0,
            forall|y: int|
                0 <= y < self.sea_cucumbers.len() ==> (#[trigger] self.sea_cucumbers[y])@ == self@[y]
                    && self.sea_cucumbers[y].len() == self@[0].len(),
    {
        assert forall|y: int| 0 <= y < self.sea_cucumbers.len() implies (
        #[trigger] self.sea_cucumbers[y])@ == self@[y] && self.sea_cucumbers[y].len()
            == self@[0].len() by {
            assert(self@[y].len() == self@[0].len());
        }
    }

    pub fn width(&self) -> (w: usize)
        requires
            self.wf(),
        ensures
            w == self@[0].len(),
            w > 0,
    {
        proof {
            self.lemma_rows();
        }
        self.sea_cucumbers[0].len()
    }

    pub fn height(&self) -> (h: usize)
        requires
            self.wf(),
        ensures
            h == self@.len(),
            h > 0,
    {
        proof {
            self.lemma_rows();
        }
        self.sea_cucumbers.len()
    }

    /// Whether there is a sea cucumber at column `x` and row `y` with a free place before it.
    pub fn can_move(&self, x: usize, y: usize) -> (b: bool)
        requires
            self.wf(),
            x < self@[0].len(),
            y < self@.len(),
        ensures
            b == free_ahead(self@, x as int, y as int),
    {
        proof {
            self.lemma_rows();
        }
        let w = self.width();
        let h = self.height();
        proof {
            lemma_wrap(x as int, w as int);
            lemma_wrap(y as int, h as int);
        }
        let (tx, ty) = match self.sea_cucumbers[y][x] {
            SeaCucumber::Empty => {
                return false;
            },
            SeaCucumber::East => (if x + 1 == w {
                0
            } else {
                x + 1
            }, y),
            SeaCucumber::South => (x, if y + 1 == h {
                0
            } else {
                y + 1
            }),
        };
        match self.sea_cucumbers[ty][tx] {
            SeaCucumber::Empty => true,
            _ => false,
        }
    }

    /// Moves what is at column `x` and row `y` to column `tx` and row `ty`,
    /// taken round the edges, if that place is free.
    pub fn move_to(&mut self, x: usize, y: usize, tx: usize, ty: usize) -> (moved: bool)
        requires
            old(self).wf(),
            x < old(self)@[0].len(),
            y < old(self)@.len(),
        ensures
            final(self).wf(),
            final(self)@.len() == old(self)@.len(),
            final(self)@[0].len() == old(self)@[0].len(),
            ({
                let w = old(self)@[0].len() as int;
                let h = old(self)@.len() as int;
                let to = old(self)@[ty as int % h][tx as int % w];
                &&& moved == (to == SeaCucumber::Empty)
                &&& !moved ==> final(self)@ == old(self)@
                &&& moved ==> forall|a: int, b: int|
                    0 <= b < h && 0 <= a < w ==> #[trigger] final(self)@[b][a] == if a == x && b
                        == y {
                        SeaCucumber::Empty
                    } else if a == tx as int % w && b == ty as int % h {
                        old(self)@[y as int][x as int]
                    } else {
                        old(self)@[b][a]
                    }
            }),
    {
        proof {
            self.lemma_rows();
        }
        let tx = tx % self.width();
        let ty = ty % self.height();
        match self.sea_cucumbers[ty][tx] {
            SeaCucumber::Empty => {},
            _ => {
                return false;
            },
        }
        let to_move = self.sea_cucumbers[y][x];
        let ghost before = self.sea_cucumbers@;
        let mut row: Vec<SeaCucumber> = Vec::new();
        std::mem::swap(&mut row, &mut self.sea_cucumbers[ty]);
        row[tx] = to_move;
        std::mem::swap(&mut row, &mut self.sea_cucumbers[ty]);
        let ghost middle = self.sea_cucumbers@;
        std::mem::swap(&mut row, &mut self.sea_cucumbers[y]);
        row[x] = SeaCucumber::Empty;
        std::mem::swap(&mut row, &mut self.sea_cucumbers[y]);
        proof {
            assert forall|b: int| 0 <= b < before.len() implies (#[trigger] self.sea_cucumbers@[b]).len()
                == before[0].len() by {
                assert(floor_view(before)[b].len() == floor_view(before)[0].len());
                if b != ty && b != y {
                    assert(self.sea_cucumbers@[b] == before[b]);
                }
            }
            assert(is_floor(floor_view(self.sea_cucumbers@))) by {
                assert forall|b: int| 0 <= b < self@.len() implies (#[trigger] self@[b]).len()
                    == self@[0].len() by {
                    assert(self@[b] == self.sea_cucumbers@[b]@);
                }
            }
            assert forall|a: int, b: int|
                0 <= b < before.len() && 0 <= a < before[0].len() implies #[trigger] self@[b][a]
                == if a == x && b == y {
                SeaCucumber::Empty
            } else if a == tx && b == ty {
                old(self)@[y as int][x as int]
            } else {
                old(self)@[b][a]
            } by {
                assert(self@[b] == self.sea_cucumbers@[b]@);
                assert(old(self)@[b] == before[b]@);
                assert(old(self)@[y as int] == before[y as int]@);
                if b != ty && b != y {
                    assert(self.sea_cucumbers@[b] == before[b]);
                } else if b != y {
                    assert(self.sea_cucumbers@[b] == middle[b]);
                }
            }
        }
        true
    }

    /// Moves the sea cucumber at column `x` and row `y` one place on, if there is one and the place is free.
    pub fn move_cucumber_at(&mut self, x: usize, y: usize) -> (moved: bool)
        requires
            old(self).wf(),
            x < old(self)@[0].len(),
            y < old(self)@.len(),
        ensures
            final(self).wf(),
            final(self)@.len() == old(self)@.len(),
            final(self)@[0].len() == old(self)@[0].len(),
            moved == free_ahead(old(self)@, x as int, y as int),
            !moved ==> final(self)@ == old(self)@,
            moved ==> forall|a: int, b: int|
                0 <= b < old(self)@.len() && 0 <= a < old(self)@[0].len() ==> #[trigger] final(self)@[b][a] == if a == x && b == y {
                    SeaCucumber::Empty
                } else if (a, b) == target(old(self)@, x as int, y as int) {
                    old(self)@[y as int][x as int]
                } else {
                    old(self)@[b][a]
                },
    {
        proof {
            self.lemma_rows();
        }
        let w = self.width();
        let h = self.height();
        proof {
            lemma_wrap(x as int, w as int);
            lemma_wrap(y as int, h as int);
            let tx: int = if x + 1 == w {
                0
            } else {
                x + 1
            };
            let ty: int = if y + 1 == h {
                0
            } else {
                y + 1
            };
            vstd::arithmetic::div_mod::lemma_small_mod(tx as nat, w as nat);
            vstd::arithmetic::div_mod::lemma_small_mod(ty as nat, h as nat);
            vstd::arithmetic::div_mod::lemma_small_mod(x as nat, w as nat);
            vstd::arithmetic::div_mod::lemma_small_mod(y as nat, h as nat);
        }
        match self.sea_cucumbers[y][x] {
            SeaCucumber::Empty => false,
            SeaCucumber::East => {
                let tx = if x + 1 == w {
                    0
                } else {
                    x + 1
                };
                self.move_to(x, y, tx, y)
            },
            SeaCucumber::South => {
                let ty = if y + 1 == h {
                    0
                } else {
                    y + 1
                };
                self.move_to(x, y, x, ty)
            },
        }
    }

    /// The herd `herd` moves: every one of it that has a free place before
    /// it takes that place, all at once.
    fn move_herd(&mut self, herd: SeaCucumber) -> (moved: bool)
        requires
            old(self).wf(),
            herd != SeaCucumber::Empty,
        ensures
            final(self).wf(),
            final(self)@ == herd_moved(old(self)@, herd),
            moved == herd_can_move(old(self)@, herd),
    {
        proof {
            self.lemma_rows();
            lemma_herd_moved(self@, herd);
        }
        let w = self.width();
        let h = self.height();
        let ghost f = self@;
        let ghost want = herd_moved(f, herd);
        let mut rows: Vec<Vec<SeaCucumber>> = Vec::new();
        let mut moved = false;
        let mut y: usize = 0;
        while y < h
            invariant
                y <= h,
                self.wf(),
                self@ == f,
                w == f[0].len(),
                h == f.len(),
                w > 0,
                herd != SeaCucumber::Empty,
                want == herd_moved(f, herd),
                rows.len() == y,
                forall|b: int| 0 <= b < y ==> (#[trigger] rows[b])@ == want[b],
                moved == exists|a: int, b: int|
                    0 <= b < y && 0 <= a < w && f[b][a] == herd && #[trigger] free_ahead(f, a, b),
            decreases h - y,
        {
            let mut row: Vec<SeaCucumber> = Vec::new();
            let mut x: usize = 0;
            let ghost moved_before = moved;
            while x < w
                invariant
                    x <= w,
                    y < h,
                    self.wf(),
                    self@ == f,
                    w == f[0].len(),
                    h == f.len(),
                    w > 0,
                    herd != SeaCucumber::Empty,
                    want == herd_moved(f, herd),
                    row.len() == x,
                    forall|a: int| 0 <= a < x ==> #[trigger] row[a] == want[y as int][a],
                    moved_before == exists|a: int, b: int|
                        0 <= b < y && 0 <= a < w && f[b][a] == herd && #[trigger] free_ahead(
                            f,
                            a,
                            b,
                        ),
                    moved == (moved_before || exists|a: int|
                        0 <= a < x && f[y as int][a] == herd && #[trigger] free_ahead(
                            f,
                            a,
                            y as int,
                        )),
                decreases w - x,
            {
                proof {
                    self.lemma_rows();
                    lemma_wrap(x as int, w as int);
                    lemma_wrap(y as int, h as int);
                }
                let here = self.sea_cucumbers[y][x];
                let from_x = if herd == SeaCucumber::East {
                    if x == 0 {
                        w - 1
                    } else {
                        x - 1
                    }
                } else {
                    x
                };
                let from_y = if herd == SeaCucumber::East {
                    y
                } else {
                    if y == 0 {
                        h - 1
                    } else {
                        y - 1
                    }
                };
                let behind = self.sea_cucumbers[from_y][from_x];
                let goes = here == herd && self.can_move(x, y);
                let new = if goes {
                    SeaCucumber::Empty
                } else if here == SeaCucumber::Empty && behind == herd {
                    herd
                } else {
                    here
                };
                if goes {
                    moved = true;
                }
                row.push(new);
                x += 1;
            }
            proof {
                assert(row@ =~= want[y as int]);
            }
            rows.push(row);
            proof {
                assert(moved == exists|a: int, b: int|
                    0 <= b < y + 1 && 0 <= a < w && f[b][a] == herd && #[trigger] free_ahead(
                        f,
                        a,
                        b,
                    )) by {
                    if moved {
                        if moved_before {
                            let (a, b) = choose|a: int, b: int|
                                0 <= b < y && 0 <= a < w && f[b][a] == herd && #[trigger] free_ahead(
                                    f,
                                    a,
                                    b,
                                );
                            assert(0 <= b < y + 1 && free_ahead(f, a, b));
                        } else {
                            let a = choose|a: int|
                                0 <= a < w && f[y as int][a] == herd && #[trigger] free_ahead(
                                    f,
                                    a,
                                    y as int,
                                );
                            assert(0 <= y < y + 1 && free_ahead(f, a, y as int));
                        }
                    }
                    if exists|a: int, b: int|
                        0 <= b < y + 1 && 0 <= a < w && f[b][a] == herd && #[trigger] free_ahead(
                            f,
                            a,
                            b,
                        ) {
                        let (a, b) = choose|a: int, b: int|
                            0 <= b < y + 1 && 0 <= a < w && f[b][a] == herd && #[trigger] free_ahead(
                                f,
                                a,
                                b,
                            );
                        if b < y {
                            assert(moved_before);
                        } else {
                            assert(free_ahead(f, a, y as int));
                        }
                    }
                }
            }
            y += 1;
        }
        self.sea_cucumbers = rows;
        proof {
            assert(floor_view(self.sea_cucumbers@) =~= want);
        }
        moved
    }

    /// One step: the herd that moves east, then the herd that moves south.
    /// Returns whether a sea cucumber has moved.
    pub fn step(&mut self) -> (has_moved: bool)
        requires
            old(self).wf(),
        ensures
            final(self).wf(),
            final(self)@ == stepped(old(self)@),
            has_moved == moves(old(self)@),
    {
        let east = self.move_herd(SeaCucumber::East);
        let south = self.move_herd(SeaCucumber::South);
        east || south
    }
}

/// The number of the first step in which no sea cucumber moves, if it is
/// among the first `fuel + 1` steps.
pub open spec fn still_after(f: Seq<Seq<SeaCucumber>>, fuel: nat) -> Option<nat>
    decreases fuel,
{
    if !moves(f) {
        Some(1)
    } else if fuel == 0 {
        None
    } else {
        match still_after(stepped(f), (fuel - 1) as nat) {
            Some(n) => Some(n + 1),
            None => None,
        }
    }
}

/// What a character of a plan stands for.
pub open spec fn cucumber_of(c: u8) -> Option<SeaCucumber> {
    if c == 62 {
        Some(SeaCucumber::East)
    } else if c == 118 {
        Some(SeaCucumber::South)
    } else if c == 46 {
        Some(SeaCucumber::Empty)
    } else {
        None
    }
}

/// The lines are the plan of a floor: at least one line, at least one
/// character a line, all lines as long as the first, and every character one of `>`, `v` and `.`.
pub open spec fn plan_ok(ls: Seq<Seq<u8>>) -> bool {
    &&& ls.len() > 0
    &&& ls[0].len() > 0
    &&& forall|y: int| 0 <= y < ls.len() ==> (#[trigger] ls[y]).len() == ls[0].len()
    &&& forall|y: int, x: int|
        0 <= y < ls.len() && 0 <= x < ls[y].len() ==> cucumber_of(#[trigger] ls[y][x]) is Some
}

/// The floor that a plan shows.
pub open spec fn floor_of(ls: Seq<Seq<u8>>) -> Seq<Seq<SeaCucumber>> {
    Seq::new(ls.len(), |y: int| Seq::new(ls[y].len(), |x: int| cucumber_of(ls[y][x]).unwrap()))
}

impl SeaFloor {
    /// Makes steps until no sea cucumber moves, `max_steps` steps at most
    /// after the first, and returns the number of the first step in which
    /// none has moved.
    pub fn run(&mut self, max_steps: usize) -> (r: Option<usize>)
        requires
            old(self).wf(),
            max_steps < usize::MAX,
        ensures
            final(self).wf(),
            match r {
                Some(n) => still_after(old(self)@, max_steps as nat) == Some(n as nat),
                None => still_after(old(self)@, max_steps as nat) is None,
            },
    {
        let mut ret: usize = 1;
        let mut left = max_steps;
        loop
            invariant
                self.wf(),
                max_steps < usize::MAX,
                ret + left == max_steps + 1,
                match still_after(self@, left as nat) {
                    Some(n) => still_after(old(self)@, max_steps as nat) == Some(
                        (n + ret - 1) as nat,
                    ),
                    None => still_after(old(self)@, max_steps as nat) is None,
                },
            decreases left + 1,
        {
            let ghost before = self@;
            if !self.step() {
                proof {
                    assert(still_after(before, left as nat) == Some(1nat));
                }
                return Some(ret);
            }
            if left == 0 {
                return None;
            }
            left -= 1;
            ret += 1;
        }
    }

    /// Reads a floor from its plan.
    pub fn from_bytes(s: &[u8]) -> (r: Result<SeaFloor, ParseError>)
        ensures
            match r {
                Ok(f) => plan_ok(lines(s@)) && f.wf() && f@ == floor_of(lines(s@)),
                Err(e) => e == ParseError::Malformed && !plan_ok(lines(s@)),
            },
    {
        let rows = split_lines(s);
        let ghost ls = lines(s@);
        proof {
            assert(ls.len() == rows.len());
        }
        if rows.len() == 0 || rows[0].len() == 0 {
            proof {
                if rows.len() > 0 {
                    assert(ls[0] == rows@[0]@);
                }
            }
            return Err(ParseError::Malformed);
        }
        let w = rows[0].len();
        let mut sea_cucumbers: Vec<Vec<SeaCucumber>> = Vec::new();
        let mut y: usize = 0;
        proof {
            assert(ls[0] == rows@[0]@);
        }
        while y < rows.len()
            invariant
                y <= rows.len(),
                rows_view(rows@) == ls,
                ls == lines(s@),
                ls.len() == rows.len(),
                ls.len() > 0,
                w == ls[0].len(),
                w > 0,
                sea_cucumbers.len() == y,
                forall|b: int| 0 <= b < y ==> (#[trigger] ls[b]).len() == w,
                forall|b: int| 0 <= b < y ==> (#[trigger] sea_cucumbers[b])@ == floor_of(ls)[b],
                forall|b: int, a: int|
                    0 <= b < y && 0 <= a < w ==> cucumber_of(#[trigger] ls[b][a]) is Some,
            decreases rows.len() - y,
        {
            let line = &rows[y];
            proof {
                assert(ls[y as int] == line@);
            }
            if line.len() != w {
                return Err(ParseError::Malformed);
            }
            let mut line_vec: Vec<SeaCucumber> = Vec::new();
            let mut x: usize = 0;
            while x < w
                invariant
                    x <= w,
                    line.len() == w,
                    y < rows.len(),
                    ls == lines(s@),
                    ls.len() == rows.len(),
                    ls[y as int] == line@,
                    line_vec.len() == x,
                    forall|a: int| 0 <= a < x ==> cucumber_of(#[trigger] line@[a]) == Some(line_vec[a]),
                decreases w - x,
            {
                let c = line[x];
                let sc = if c == 62 {
                    SeaCucumber::East
                } else if c == 118 {
                    SeaCucumber::South
                } else if c == 46 {
                    SeaCucumber::Empty
                } else {
                    proof {
                        assert(cucumber_of(ls[y as int][x as int]) is None);
                    }
                    return Err(ParseError::Malformed);
                };
                line_vec.push(sc);
                x += 1;
            }
            proof {
                assert(line_vec@ =~= floor_of(ls)[y as int]);
            }
            sea_cucumbers.push(line_vec);
            y += 1;
        }
        let floor = SeaFloor { sea_cucumbers };
        proof {
            assert(floor@ =~= floor_of(ls));
            assert(is_floor(floor@)) by {
                assert forall|b: int| 0 <= b < floor@.len() implies (#[trigger] floor@[b]).len()
                    == floor@[0].len() by {
                    assert(ls[b].len() == w);
                }
            }
        }
        Ok(floor)
    }
}

/// What the run on the plan of a text returns: the number of the first
/// step in which no sea cucumber moves, or why there is none.
pub open spec fn is_solution(input: Seq<u8>, r: Result<usize, PuzzleError>) -> bool {
    let ls = lines(input);
    if !plan_ok(ls) {
        r == Err::<usize, PuzzleError>(PuzzleError::Parse(ParseError::Malformed))
    } else {
        match still_after(floor_of(ls), (usize::MAX - 1) as nat) {
            Some(n) => r == Ok::<usize, PuzzleError>(n as usize),
            None => r == Err::<usize, PuzzleError>(PuzzleError::TooLarge),
        }
    }
}

/// The number of the first step in which no sea cucumber of the plan moves.
pub fn run(contents: &str) -> (r: Result<usize, PuzzleError>)
    ensures
        is_solution(contents.spec_bytes(), r),
{
    let mut floor = match SeaFloor::from_bytes(contents.as_bytes()) {
        Ok(f) => f,
        Err(e) => {
            return Err(PuzzleError::Parse(e));
        },
    };
    match floor.run(usize::MAX - 1) {
        Some(n) => Ok(n),
        None => Err(PuzzleError::TooLarge),
    }
}

} // verus!
