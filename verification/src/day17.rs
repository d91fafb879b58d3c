//! Trick shot: probes launched from the origin at a target area.

use vstd::prelude::*;

verus! {

/// A target area: the least and the greatest `x`, and the least and the greatest `y`.
pub struct Target {
    pub x: [isize; 2],
    pub y: [isize; 2],
}

/// The probe is at `pos` with the velocity `v`: one step later.
pub open spec fn fly(pos: (int, int), v: (int, int)) -> ((int, int), (int, int)) {
    ((pos.0 + v.0, pos.1 + v.1), (if v.0 > 0 {
        v.0 - 1
    } else {
        0
    }, v.1 - 1))
}

impl Target {
    pub open spec fn holds(&self, p: (int, int)) -> bool {
        self.x[0] <= p.0 <= self.x[1] && self.y[0] <= p.1 <= self.y[1]
    }

    /// The probe has not yet passed the target: it is neither to the right of it nor below it.
    pub open spec fn before(&self, p: (int, int)) -> bool {
        p.0 <= self.x[1] && p.1 >= self.y[0]
    }

    /// A probe at `pos` with velocity `v` comes to be in the target before it has passed it.
    pub open spec fn hits(&self, pos: (int, int), v: (int, int), fuel: nat) -> bool
        decreases fuel,
    {
        if !self.before(pos) {
            false
        } else if self.holds(pos) {
            true
        } else if fuel == 0 {
            false
        } else {
            self.hits(fly(pos, v).0, fly(pos, v).1, (fuel - 1) as nat)
        }
    }

    /// The point lies in the target area.
    pub fn contains(&self, p: [isize; 2]) -> (b: bool)
        ensures
            b == self.holds((p[0] as int, p[1] as int)),
    {
        p[0] >= self.x[0] && p[0] <= self.x[1] && p[1] >= self.y[0] && p[1] <= self.y[1]
    }

    /// Whether a probe launched from the origin with the velocity `v` is in
    /// the target area after some step, or at the start.
    pub fn try_hit(&self, v: [isize; 2]) -> (b: bool)
        ensures
            b == exists|fuel: nat| self.hits((0, 0), (v[0] as int, v[1] as int), fuel),
    {
        let mut pos: [i128; 2] = [0, 0];
        let mut delta_v: [i128; 2] = [v[0] as i128, v[1] as i128];
        let x1 = self.x[1] as i128;
        let y0 = self.y[0] as i128;
        let ghost mut steps: nat = 0;
        let ghost top = apex(v[1] as int);
        proof {
            lemma_max_height(v[1] as int);
            lemma_max_height(-v[1] - 1);
        }
        while pos[0] <= x1 && pos[1] >= y0
            invariant
                x1 == self.x[1],
                y0 == self.y[0],
                top == apex(v[1] as int),
                0 <= top <= highest(),
                delta_v[1] <= v[1],
                pos[1] + apex(delta_v[1] as int) == top,
                pos[0] >= -fastest(),
                -fastest() <= delta_v[0] <= fastest(),
                delta_v[0] >= 0 || pos[0] == 0,
                forall|fuel: nat|
                    self.hits((0, 0), (v[0] as int, v[1] as int), (fuel + steps) as nat)
                        == self.hits(
                        (pos[0] as int, pos[1] as int),
                        (delta_v[0] as int, delta_v[1] as int),
                        fuel,
                    ),
                forall|fuel: nat|
                    fuel < steps ==> !self.hits((0, 0), (v[0] as int, v[1] as int), fuel),
            decreases
                    pos[1] - y0 + max_height(delta_v[1] as int) + 2 * highest(),
                    (if delta_v[1] >= 0 {
                        delta_v[1] + 1
                    } else {
                        0
                    }),
        {
            if pos[0] >= self.x[0] as i128 && pos[0] <= x1 && pos[1] >= y0 && pos[1]
                <= self.y[1] as i128 {
                proof {
                    assert(self.hits(
                        (pos[0] as int, pos[1] as int),
                        (delta_v[0] as int, delta_v[1] as int),
                        0,
                    ));
                    assert(self.hits((0, 0), (v[0] as int, v[1] as int), (0 + steps) as nat));
                }
                return true;
            }
            let ghost old_pos = (pos[0] as int, pos[1] as int);
            let ghost old_v = (delta_v[0] as int, delta_v[1] as int);
            proof {
                lemma_max_height(delta_v[1] as int);
                lemma_max_height(-delta_v[1] - 1);
                lemma_max_height(-delta_v[1] as int);
                lemma_max_height(delta_v[1] - 1);
            }
            pos[0] = pos[0] + delta_v[0];
            pos[1] = pos[1] + delta_v[1];
            delta_v[0] = if delta_v[0] - 1 > 0 {
                delta_v[0] - 1
            } else {
                0
            };
            delta_v[1] = delta_v[1] - 1;
            proof {
                assert(((pos[0] as int, pos[1] as int), (delta_v[0] as int, delta_v[1] as int))
                    == fly(old_pos, old_v));
                assert forall|fuel: nat|
                    self.hits(
                        (0, 0),
                        (v[0] as int, v[1] as int),
                        (fuel + steps + 1) as nat,
                    ) == self.hits(
                        (pos[0] as int, pos[1] as int),
                        (delta_v[0] as int, delta_v[1] as int),
                        fuel,
                    ) by {
                    assert(self.hits(old_pos, old_v, (fuel + 1) as nat) == self.hits(
                        (pos[0] as int, pos[1] as int),
                        (delta_v[0] as int, delta_v[1] as int),
                        fuel,
                    ));
                    assert((fuel + 1 + steps) as nat == (fuel + steps + 1) as nat);
                }
                assert forall|fuel: nat| fuel < steps + 1 implies !self.hits(
                    (0, 0),
                    (v[0] as int, v[1] as int),
                    fuel,
                ) by {
                    if fuel == steps {
                        assert(!self.hits(old_pos, old_v, 0));
                        assert(self.hits((0, 0), (v[0] as int, v[1] as int), (0 + steps) as nat)
                            == self.hits(old_pos, old_v, 0));
                    }
                }
                steps = steps + 1;
            }
        }
        proof {
            assert forall|fuel: nat| !self.hits((0, 0), (v[0] as int, v[1] as int), fuel) by {
                if fuel >= steps {
                    let rest = (fuel - steps) as nat;
                    assert(self.hits((0, 0), (v[0] as int, v[1] as int), (rest + steps) as nat)
                        == self.hits(
                        (pos[0] as int, pos[1] as int),
                        (delta_v[0] as int, delta_v[1] as int),
                        rest,
                    ));
                }
            }
        }
        false
    }
}

/// No speed is greater than this, to either side.
pub open spec fn fastest() -> int {
    0x8000_0000_0000_0000
}

/// No probe rises higher than this.
pub open spec fn highest() -> int {
    0x4000_0000_0000_0000_0000_0000_0000_0000
}

/// How far below its highest point a probe is whose upward speed is `v`.
pub open spec fn apex(v: int) -> int {
    if v >= 0 {
        max_height(v)
    } else {
        max_height(-v - 1)
    }
}

/// How high a probe rises that starts upward at the speed `v`.
pub open spec fn max_height(v: int) -> int {
    if v <= 0 {
        0
    } else {
        v * (v + 1) / 2
    }
}

proof fn lemma_max_height(v: int)
    ensures
        max_height(v) >= 0,
        v > 0 ==> max_height(v) == max_height(v - 1) + v,
        v <= 10_000 ==> max_height(v) <= 50_005_000,
        v <= fastest() ==> max_height(v) <= highest(),
        v > 0 ==> max_height(v) >= v,
{
    if v > 0 {
        assert(v * (v + 1) == (v - 1) * v + 2 * v) by (nonlinear_arith);
        assert((v - 1) * v >= 0) by (nonlinear_arith)
            requires
                v >= 1,
        ;
        assert(v * (v + 1) >= 2 * v) by (nonlinear_arith)
            requires
                v >= 1,
        ;
        if v <= 10_000 {
            assert(v * (v + 1) <= 10_000 * 10_001) by (nonlinear_arith)
                requires
                    0 < v <= 10_000,
            ;
        }
        if v <= fastest() {
            assert(v * (v + 1) <= 0x8000_0000_0000_0000 * 0x8000_0000_0000_0001) by (nonlinear_arith)
                requires
                    0 < v <= 0x8000_0000_0000_0000,
            ;
        }
    }
}

// ----- the answers -----
/// How far a target may lie for its shots to be counted: the heights and
/// the count then fit a machine word of 32 bits.
pub const SHOT_LIMIT: isize = 46_340;

impl Target {
    /// A probe launched from the origin with that velocity comes to be in the target.
    pub open spec fn reached(&self, vx: int, vy: int) -> bool {
        exists|fuel: nat| self.hits((0, 0), (vx, vy), fuel)
    }

    /// How many of the upward speeds from the least one up to `y`, not
    /// counting `y`, reach the target when the speed along is `x`.
    pub open spec fn hits_in_column(&self, x: int, y: int) -> nat
        decreases y - self.y[0],
    {
        if y <= self.y[0] {
            0
        } else {
            self.hits_in_column(x, y - 1) + if self.reached(x, y - 1) {
                1nat
            } else {
                0nat
            }
        }
    }

    /// How many velocities with a speed along from 1 up to `x`, not
    /// counting `x`, reach the target.
    pub open spec fn hits_to(&self, x: int) -> nat
        decreases x,
    {
        if x <= 1 {
            0
        } else {
            self.hits_to(x - 1) + self.hits_in_column(x - 1, -self.y[0] + 1)
        }
    }

    /// The velocity is one of those that are tried: along from 1 to the
    /// far edge of the target, upward from its lower edge to as much upward.
    pub open spec fn tried(&self, x: int, y: int) -> bool {
        1 <= x <= self.x[1] && self.y[0] <= y <= -self.y[0]
    }

    /// `m` is the greatest height of a velocity that is tried and reaches
    /// the target, and 0 where none does.
    pub open spec fn is_highest(&self, m: int) -> bool {
        &&& forall|x: int, y: int|
            self.tried(x, y) && #[trigger] self.reached(x, y) ==> height(y) <= m
        &&& m == 0 || exists|x: int, y: int|
            self.tried(x, y) && #[trigger] self.reached(x, y) && height(y) == m
    }

    /// The greatest height of a shot that reaches the target, and the
    /// number of velocities that reach it, for a target within the limit.
    pub fn shoot(&self) -> (r: (isize, usize))
        requires
            self.x[1] <= SHOT_LIMIT,
            -SHOT_LIMIT <= self.y[0] <= SHOT_LIMIT,
        ensures
            self.is_highest(r.0 as int),
            r.1 == self.hits_to(self.x[1] + 1),
    {
        let mut max_height: isize = 0;
        let mut contact_count: usize = 0;
        if self.x[1] < 1 {
            return (0, 0);
        }
        let mut x: isize = 1;
        while x <= self.x[1]
            invariant
                1 <= x <= self.x[1] + 1,
                self.x[1] <= SHOT_LIMIT,
                -SHOT_LIMIT <= self.y[0] <= SHOT_LIMIT,
                0 <= max_height,
                contact_count == self.hits_to(x as int),
                contact_count <= (x - 1) * 92_681,
                forall|a: int, b: int|
                    1 <= a < x && self.y[0] <= b <= -self.y[0] && #[trigger] self.reached(a, b)
                        ==> height(b) <= max_height,
                max_height == 0 || exists|a: int, b: int|
                    self.tried(a, b) && #[trigger] self.reached(a, b) && height(b) == max_height,
            decreases self.x[1] + 1 - x,
        {
            let mut y: isize = self.y[0];
            let ghost start = contact_count;
            while y <= -self.y[0]
                invariant
                    1 <= x <= self.x[1],
                    self.x[1] <= SHOT_LIMIT,
                    -SHOT_LIMIT <= self.y[0] <= SHOT_LIMIT,
                    self.y[0] <= y,
                    y <= -self.y[0] + 1 || y == self.y[0],
                    0 <= max_height,
                    contact_count == start + self.hits_in_column(x as int, y as int),
                    start <= (x - 1) * 92_681,
                    self.hits_in_column(x as int, y as int) <= y - self.y[0],
                    forall|a: int, b: int|
                        1 <= a < x && self.y[0] <= b <= -self.y[0] && #[trigger] self.reached(a, b)
                            ==> height(b) <= max_height,
                    forall|b: int|
                        self.y[0] <= b < y && #[trigger] self.reached(x as int, b) ==> height(b)
                            <= max_height,
                    max_height == 0 || exists|a: int, b: int|
                        self.tried(a, b) && #[trigger] self.reached(a, b) && height(b) == max_height,
                decreases -self.y[0] + 1 - y,
            {
                let hit = self.try_hit([x, y]);
                proof {
                    lemma_height(y as int);
                }
                if hit {
                    let h = (y * (1 + y)) / 2;
                    if h > max_height {
                        max_height = h;
                    }
                    contact_count += 1;
                    proof {
                        assert(self.tried(x as int, y as int));
                    }
                }
                y += 1;
            }
            proof {
                if self.y[0] > -self.y[0] {
                    assert(self.hits_in_column(x as int, -self.y[0] + 1) == 0);
                }
            }
            x += 1;
        }
        (max_height, contact_count)
    }
}

/// The height that goes with the upward speed `y`.
pub open spec fn height(y: int) -> int {
    (y * (1 + y)) / 2
}

proof fn lemma_height(y: int)
    requires
        -SHOT_LIMIT <= y <= SHOT_LIMIT,
    ensures
        0 <= y * (1 + y) <= 2_147_441_940,
        0 <= height(y) <= 1_073_720_970,
{
    assert(0 <= y * (1 + y) <= 2_147_441_940) by (nonlinear_arith)
        requires
            -46_340 <= y <= 46_340,
    ;
}

/// The target of the puzzle.
pub open spec fn the_target() -> Target {
    Target { x: [94isize, 151isize], y: [(-156) as isize, (-103) as isize] }
}

pub fn puzzle_target() -> (t: Target)
    ensures
        t == the_target(),
{
    Target { x: [94, 151], y: [-156, -103] }
}

/// The greatest height of a shot that reaches the target of the puzzle,
/// and the number of velocities that reach it.
pub fn run() -> (r: (isize, usize))
    ensures
        the_target().is_highest(r.0 as int),
        r.1 == the_target().hits_to(152),
{
    puzzle_target().shoot()
}

} // verus!
