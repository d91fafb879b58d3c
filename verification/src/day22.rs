//! Reactor reboot: cuboids of cubes that are switched on and off.

use crate::errors::{ParseError, PuzzleError};
use crate::text::{
    bytes_of, decimal, decimal_string, find_word, first_match, has_prefix, lines, nonempty_lines,
    nonempty_rows, parse_i64, rows_view, signed_decimal, signed_decimal_string, signed_value, split,
    split_bytes, split_once, split_once_byte, starts_with,
};
use vstd::prelude::*;
use vstd::slice::slice_subrange;
use vstd::string::*;

verus! {

/// The greatest coordinate, to either side, of a cuboid that is taken.
pub const LIMIT: i64 = 1_000_000;

/// A cuboid: the least and the greatest coordinate of its cubes along each axis.
#[derive(Clone, Copy, Debug, PartialEq, Eq)]
pub struct Cuboid {
    pub x: [i64; 2],
    pub y: [i64; 2],
    pub z: [i64; 2],
}

pub type Cube = (int, int, int);

impl Cuboid {
    /// The coordinates are within the limit.
    pub open spec fn bounded(&self) -> bool {
        &&& -LIMIT <= self.x[0] <= LIMIT && -LIMIT <= self.x[1] <= LIMIT
        &&& -LIMIT <= self.y[0] <= LIMIT && -LIMIT <= self.y[1] <= LIMIT
        &&& -LIMIT <= self.z[0] <= LIMIT && -LIMIT <= self.z[1] <= LIMIT
    }

    /// The cuboid holds a cube at least.
    pub open spec fn valid(&self) -> bool {
        self.bounded() && self.x[0] <= self.x[1] && self.y[0] <= self.y[1] && self.z[0] <= self.z[1]
    }

    /// The cube belongs to the cuboid.
    pub open spec fn holds(&self, p: Cube) -> bool {
        &&& self.x[0] <= p.0 <= self.x[1]
        &&& self.y[0] <= p.1 <= self.y[1]
        &&& self.z[0] <= p.2 <= self.z[1]
    }

    /// The product of the lengths of the edges: for a cuboid that holds a
    /// cube, the number of its cubes.
    pub open spec fn volume(&self) -> int {
        (self.x[1] - self.x[0] + 1) * (self.y[1] - self.y[0] + 1) * (self.z[1] - self.z[0] + 1)
    }

    pub fn area(&self) -> (a: i64)
        requires
            self.bounded(),
        ensures
            a == self.volume(),
            self.valid() ==> 1 <= a <= 8_000_012_000_006_000_001,
    {
        let dx = self.x[1] - self.x[0] + 1;
        let dy = self.y[1] - self.y[0] + 1;
        let dz = self.z[1] - self.z[0] + 1;
        assert(-2_000_001 * 2_000_001 <= dx * dy <= 2_000_001 * 2_000_001) by (nonlinear_arith)
            requires
                -2_000_001 <= dx <= 2_000_001,
                -2_000_001 <= dy <= 2_000_001,
        ;
        let side = dx * dy;
        assert(-4_000_004_000_001 * 2_000_001 <= side * dz <= 4_000_004_000_001 * 2_000_001)
            by (nonlinear_arith)
            requires
                -4_000_004_000_001 <= side <= 4_000_004_000_001,
                -2_000_001 <= dz <= 2_000_001,
        ;
        assert(dx >= 1 && dy >= 1 && dz >= 1 ==> side * dz >= 1) by (nonlinear_arith)
            requires
                side == dx * dy,
        ;
        side * dz
    }

    /// The cuboids share a cube, where both hold one.
    pub open spec fn meets(&self, other: &Cuboid) -> bool {
        &&& other.x[0] <= self.x[1] && other.x[1] >= self.x[0]
        &&& other.y[0] <= self.y[1] && other.y[1] >= self.y[0]
        &&& other.z[0] <= self.z[1] && other.z[1] >= self.z[0]
    }

    pub fn intersects(&self, other: &Cuboid) -> (b: bool)
        ensures
            b == self.meets(other),
            self.valid() && other.valid() ==> (b <==> exists|p: Cube|
                #[trigger] self.holds(p) && other.holds(p)),
    {
        let b = other.x[0] <= self.x[1] && other.x[1] >= self.x[0] && other.y[0] <= self.y[1]
            && other.y[1] >= self.y[0] && other.z[0] <= self.z[1] && other.z[1] >= self.z[0];
        proof {
            if self.valid() && other.valid() && b {
                let px = if self.x[0] > other.x[0] {
                    self.x[0] as int
                } else {
                    other.x[0] as int
                };
                let py = if self.y[0] > other.y[0] {
                    self.y[0] as int
                } else {
                    other.y[0] as int
                };
                let pz = if self.z[0] > other.z[0] {
                    self.z[0] as int
                } else {
                    other.z[0] as int
                };
                assert(self.holds((px, py, pz)) && other.holds((px, py, pz)));
            }
        }
        b
    }

    /// The part of the cuboid from `start` to `end` along each axis, if it has one.
    pub fn limited_cuboid(&self, start: i64, end: i64) -> (r: Option<Cuboid>)
        ensures
            r is None <==> self.x[1] < start || self.y[1] < start || self.z[1] < start || self.x[0]
                > end || self.y[0] > end || self.z[0] > end,
            match r {
                Some(c) => {
                    &&& c.x[0] == clamp(self.x[0] as int, start as int, end as int)
                    &&& c.y[0] == clamp(self.y[0] as int, start as int, end as int)
                    &&& c.z[0] == clamp(self.z[0] as int, start as int, end as int)
                    &&& c.x[1] == clamp_up(self.x[1] as int, start as int, end as int)
                    &&& c.y[1] == clamp_up(self.y[1] as int, start as int, end as int)
                    &&& c.z[1] == clamp_up(self.z[1] as int, start as int, end as int)
                    &&& (self.valid() && start <= end ==> forall|p: Cube|
                        #[trigger] c.holds(p) <==> self.holds(p) && start <= p.0 <= end && start
                            <= p.1 <= end && start <= p.2 <= end)
                },
                None => true,
            },
    {
        if self.x[1] < start || self.y[1] < start || self.z[1] < start || self.x[0] > end
            || self.y[0] > end || self.z[0] > end {
            return None;
        }
        Some(
            Cuboid {
                x: [low(end, high(start, self.x[0])), high(start, low(end, self.x[1]))],
                y: [low(end, high(start, self.y[0])), high(start, low(end, self.y[1]))],
                z: [low(end, high(start, self.z[0])), high(start, low(end, self.z[1]))],
            },
        )
    }
}

/// `v`, raised to `start` and then lowered to `end`.
pub open spec fn clamp(v: int, start: int, end: int) -> int {
    let raised = if v > start {
        v
    } else {
        start
    };
    if raised < end {
        raised
    } else {
        end
    }
}

/// `v`, lowered to `end` and then raised to `start`.
pub open spec fn clamp_up(v: int, start: int, end: int) -> int {
    let lowered = if v < end {
        v
    } else {
        end
    };
    if lowered > start {
        lowered
    } else {
        start
    }
}

fn low(a: i64, b: i64) -> (r: i64)
    ensures
        r == if a < b {
            a
        } else {
            b
        },
{
    if a < b {
        a
    } else {
        b
    }
}

fn high(a: i64, b: i64) -> (r: i64)
    ensures
        r == if a > b {
            a
        } else {
            b
        },
{
    if a > b {
        a
    } else {
        b
    }
}

/// One of the cuboids holds the cube.
pub open spec fn covers(cuboids: Seq<Cuboid>, p: Cube) -> bool {
    exists|i: int| 0 <= i < cuboids.len() && (#[trigger] cuboids[i]).holds(p)
}

/// No two of the cuboids share a cube, and each holds one.
pub open spec fn apart(cuboids: Seq<Cuboid>) -> bool {
    &&& forall|i: int| 0 <= i < cuboids.len() ==> (#[trigger] cuboids[i]).valid()
    &&& forall|i: int, j: int, p: Cube|
        0 <= i < j < cuboids.len() ==> !(#[trigger] cuboids[i].holds(p)
            && #[trigger] cuboids[j].holds(p))
}

proof fn lemma_covers_push(cuboids: Seq<Cuboid>, c: Cuboid)
    ensures
        forall|p: Cube| #[trigger] covers(cuboids.push(c), p) <==> covers(cuboids, p) || c.holds(p),
{
    assert forall|p: Cube| #[trigger] covers(cuboids.push(c), p) <==> covers(cuboids, p) || c.holds(
        p,
    ) by {
        let next = cuboids.push(c);
        if covers(next, p) {
            let i = choose|i: int| 0 <= i < next.len() && (#[trigger] next[i]).holds(p);
            if i < cuboids.len() {
                assert(cuboids[i].holds(p));
            }
        }
        if covers(cuboids, p) {
            let i = choose|i: int| 0 <= i < cuboids.len() && (#[trigger] cuboids[i]).holds(p);
            assert(next[i].holds(p));
        }
        if c.holds(p) {
            assert(next[cuboids.len() as int].holds(p));
        }
    }
}

proof fn lemma_covers_append(a: Seq<Cuboid>, b: Seq<Cuboid>)
    ensures
        forall|p: Cube| #[trigger] covers(a + b, p) <==> covers(a, p) || covers(b, p),
{
    assert forall|p: Cube| #[trigger] covers(a + b, p) <==> covers(a, p) || covers(b, p) by {
        let both = a + b;
        if covers(both, p) {
            let i = choose|i: int| 0 <= i < both.len() && (#[trigger] both[i]).holds(p);
            if i < a.len() {
                assert(a[i].holds(p));
            } else {
                assert(b[i - a.len()].holds(p));
            }
        }
        if covers(a, p) {
            let i = choose|i: int| 0 <= i < a.len() && (#[trigger] a[i]).holds(p);
            assert(both[i].holds(p));
        }
        if covers(b, p) {
            let i = choose|i: int| 0 <= i < b.len() && (#[trigger] b[i]).holds(p);
            assert(both[a.len() + i].holds(p));
        }
    }
}

/// Cuboids that are apart stay so when one more joins them that shares no cube with them.
proof fn lemma_apart_push(cuboids: Seq<Cuboid>, c: Cuboid)
    requires
        apart(cuboids),
        c.valid(),
        forall|p: Cube| #[trigger] c.holds(p) ==> !covers(cuboids, p),
    ensures
        apart(cuboids.push(c)),
{
    let next = cuboids.push(c);
    assert forall|i: int, j: int, p: Cube| 0 <= i < j < next.len() implies !(
    #[trigger] next[i].holds(p) && #[trigger] next[j].holds(p)) by {
        if j == cuboids.len() && next[j].holds(p) && next[i].holds(p) {
            assert(c.holds(p));
            assert(cuboids[i].holds(p));
            assert(covers(cuboids, p));
        }
    }
}

proof fn lemma_apart_append(a: Seq<Cuboid>, b: Seq<Cuboid>)
    requires
        apart(a),
        apart(b),
        forall|p: Cube| #[trigger] covers(b, p) ==> !covers(a, p),
    ensures
        apart(a + b),
{
    let both = a + b;
    assert forall|i: int, j: int, p: Cube| 0 <= i < j < both.len() implies !(
    #[trigger] both[i].holds(p) && #[trigger] both[j].holds(p)) by {
        if both[i].holds(p) && both[j].holds(p) {
            if j < a.len() {
            } else if i >= a.len() {
                assert(b[i - a.len()].holds(p) && b[j - a.len()].holds(p));
            } else {
                assert(a[i].holds(p));
                assert(b[j - a.len()].holds(p));
                assert(covers(a, p));
                assert(covers(b, p));
            }
        }
    }
}

impl Cuboid {
    /// The cuboid without the cubes of `other`, cut into cuboids that are
    /// apart: the cuboid itself where the two share no cube.
    pub fn remove(&self, other: &Cuboid) -> (cuboids: Vec<Cuboid>)
        requires
            self.valid(),
            other.valid(),
        ensures
            apart(cuboids@),
            forall|p: Cube| #[trigger] covers(cuboids@, p) <==> self.holds(p) && !other.holds(p),
            !self.meets(other) ==> cuboids@ == seq![*self],
            volume_sum(cuboids@) == self.volume() - shared_volume(*self, *other),
    {
        let cuboids = self.cut(other);
        proof {
            lemma_removed_volume(*self, *other, cuboids@);
        }
        cuboids
    }

    /// Cuts off the cuboid what lies before and behind `other` along the
    /// first axis, then along the second, then along the third.
    fn cut(&self, other: &Cuboid) -> (cuboids: Vec<Cuboid>)
        requires
            self.valid(),
            other.valid(),
        ensures
            apart(cuboids@),
            forall|p: Cube| #[trigger] covers(cuboids@, p) <==> self.holds(p) && !other.holds(p),
            !self.meets(other) ==> cuboids@ == seq![*self],
    {
        let mut cuboids: Vec<Cuboid> = Vec::new();
        let mut new_x = self.x;
        let mut new_y = self.y;
        if !self.intersects(other) && !other.intersects(self) {
            proof {
                lemma_covers_push(cuboids@, *self);
                lemma_apart_push(cuboids@, *self);
            }
            cuboids.push(*self);
            proof {
                assert(cuboids@ =~= seq![*self]);
            }
            return cuboids;
        }
        if self.x[0] <= other.x[0] && other.x[0] <= self.x[1] {
            if self.x[0] < other.x[0] {
                let c = Cuboid { x: [self.x[0], other.x[0] - 1], y: self.y, z: self.z };
                proof {
                    lemma_covers_push(cuboids@, c);
                    lemma_apart_push(cuboids@, c);
                }
                cuboids.push(c);
            }
            new_x[0] = other.x[0];
        }
        if self.x[0] <= other.x[1] && other.x[1] <= self.x[1] {
            if other.x[1] < self.x[1] {
                let c = Cuboid { x: [other.x[1] + 1, self.x[1]], y: self.y, z: self.z };
                proof {
                    lemma_covers_push(cuboids@, c);
                    lemma_apart_push(cuboids@, c);
                }
                cuboids.push(c);
            }
            new_x[1] = other.x[1];
        }
        proof {
            assert(forall|p: Cube| #[trigger]
                covers(cuboids@, p) <==> self.holds(p) && !(other.x[0] <= p.0 <= other.x[1]));
        }
        if self.y[0] <= other.y[0] && other.y[0] <= self.y[1] {
            if self.y[0] < other.y[0] {
                let c = Cuboid { x: new_x, y: [self.y[0], other.y[0] - 1], z: self.z };
                proof {
                    lemma_covers_push(cuboids@, c);
                    lemma_apart_push(cuboids@, c);
                }
                cuboids.push(c);
            }
            new_y[0] = other.y[0];
        }
        if self.y[0] <= other.y[1] && other.y[1] <= self.y[1] {
            if other.y[1] < self.y[1] {
                let c = Cuboid { x: new_x, y: [other.y[1] + 1, self.y[1]], z: self.z };
                proof {
                    lemma_covers_push(cuboids@, c);
                    lemma_apart_push(cuboids@, c);
                }
                cuboids.push(c);
            }
            new_y[1] = other.y[1];
        }
        proof {
            assert(forall|p: Cube| #[trigger]
                covers(cuboids@, p) <==> self.holds(p) && !(other.x[0] <= p.0 <= other.x[1]
                    && other.y[0] <= p.1 <= other.y[1]));
        }
        if self.z[0] <= other.z[0] && other.z[0] <= self.z[1] {
            if self.z[0] < other.z[0] {
                let c = Cuboid { x: new_x, y: new_y, z: [self.z[0], other.z[0] - 1] };
                proof {
                    lemma_covers_push(cuboids@, c);
                    lemma_apart_push(cuboids@, c);
                }
                cuboids.push(c);
            }
        }
        if self.z[0] <= other.z[1] && other.z[1] <= self.z[1] {
            if other.z[1] < self.z[1] {
                let c = Cuboid { x: new_x, y: new_y, z: [other.z[1] + 1, self.z[1]] };
                proof {
                    lemma_covers_push(cuboids@, c);
                    lemma_apart_push(cuboids@, c);
                }
                cuboids.push(c);
            }
        }
        cuboids
    }
}

} // verus!

verus! {

/// One step of the reboot: the cubes of the cuboid are switched on, or off.
#[derive(Clone, Copy, Debug)]
pub struct Step {
    pub action: bool,
    pub cuboid: Cuboid,
}

/// The steps of a reboot. With a size, only the steps count whose cuboid
/// reaches into the region from `-size` to `size` along each axis.
pub struct Reactor {
    pub steps: Vec<Step>,
    pub size: Option<i64>,
}

/// The cube is on after the steps.
pub open spec fn lit(steps: Seq<Step>, p: Cube) -> bool
    decreases steps.len(),
{
    if steps.len() == 0 {
        false
    } else if steps.last().cuboid.holds(p) {
        steps.last().action
    } else {
        lit(steps.drop_last(), p)
    }
}

pub open spec fn volume_sum(cuboids: Seq<Cuboid>) -> int
    decreases cuboids.len(),
{
    if cuboids.len() == 0 {
        0
    } else {
        volume_sum(cuboids.drop_last()) + cuboids.last().volume()
    }
}

/// `r` is the number of cubes that are on after the steps: the cubes of some
/// cuboids that are apart and cover the cubes that are on, and no others. It
/// is `None` where that number is beyond an `i64`.
pub open spec fn is_count(steps: Seq<Step>, r: Option<i64>) -> bool {
    exists|pieces: Seq<Cuboid>|
        {
            &&& apart(pieces)
            &&& forall|p: Cube| #[trigger] covers(pieces, p) <==> lit(steps, p)
            &&& #[trigger] volume_sum(pieces) <= i64::MAX ==> r == Some(volume_sum(pieces) as i64)
            &&& volume_sum(pieces) > i64::MAX ==> r is None
        }
}

pub const DOTS: [u8; 2] = [46, 46];

pub const ON: [u8; 2] = [111, 110];

/// The two numbers of a range `a..b` that stands behind an axis and an equals sign.
pub open spec fn span_of(v: Seq<u8>) -> Option<(int, int)> {
    let r = v.skip(2);
    let n = first_match(r, DOTS@, 0);
    if 0 <= n && n + 2 <= r.len() {
        match (signed_value(r.take(n)), signed_value(r.skip(n + 2))) {
            (Some(a), Some(b)) => Some((a, b)),
            _ => None,
        }
    } else {
        None
    }
}

pub open spec fn names_axis(v: Seq<u8>) -> bool {
    v.len() > 0 && (v[0] == 120 || v[0] == 121 || v[0] == 122)
}

/// A part that names an axis gives it a range, from a number up to one that
/// is no less, both within the limit.
pub open spec fn part_ok(v: Seq<u8>) -> bool {
    names_axis(v) ==> {
        &&& v.len() >= 2 && v[1] == 61
        &&& match span_of(v) {
            Some((a, b)) => -LIMIT <= a <= b <= LIMIT,
            None => false,
        }
    }
}

/// The range of the axis after the first `n` parts: that of the last part
/// that names it, and from 0 to 0 where none does.
pub open spec fn span_to(parts: Seq<Seq<u8>>, n: int, axis: u8) -> (int, int)
    decreases n,
{
    if n <= 0 || n > parts.len() {
        (0, 0)
    } else if parts[n - 1].len() > 0 && parts[n - 1][0] == axis {
        span_of(parts[n - 1]).unwrap()
    } else {
        span_to(parts, n - 1, axis)
    }
}

pub open spec fn box_to(parts: Seq<Seq<u8>>, n: int) -> Cuboid {
    Cuboid {
        x: [span_to(parts, n, 120).0 as i64, span_to(parts, n, 120).1 as i64],
        y: [span_to(parts, n, 121).0 as i64, span_to(parts, n, 121).1 as i64],
        z: [span_to(parts, n, 122).0 as i64, span_to(parts, n, 122).1 as i64],
    }
}

/// The line holds an action, a space, and parts between commas that are in order.
pub open spec fn step_ok(line: Seq<u8>) -> bool {
    split_once(line, 32) is Some && parts_ok(split(split_once(line, 32).unwrap().1, 44))
}

pub open spec fn parts_ok(parts: Seq<Seq<u8>>) -> bool {
    forall|i: int| 0 <= i < parts.len() ==> part_ok(#[trigger] parts[i])
}

/// The step that a line in order states.
pub open spec fn step_of(line: Seq<u8>) -> Step {
    let (action, ranges) = split_once(line, 32).unwrap();
    Step {
        action: has_prefix(action, ON@),
        cuboid: box_to(split(ranges, 44), split(ranges, 44).len() as int),
    }
}

/// The cuboid reaches into the region of that size, or there is no size.
pub open spec fn counted(size: Option<i64>, c: Cuboid) -> bool {
    match size {
        Some(n) => !(c.x[1] < -n || c.y[1] < -n || c.z[1] < -n || c.x[0] > n || c.y[0] > n
            || c.z[0] > n),
        None => true,
    }
}

/// The steps that the first `n` lines give a reactor of that size.
pub open spec fn steps_to(rows: Seq<Seq<u8>>, n: int, size: Option<i64>) -> Seq<Step>
    decreases n,
{
    if n <= 0 || n > rows.len() {
        seq![]
    } else if counted(size, step_of(rows[n - 1]).cuboid) {
        steps_to(rows, n - 1, size).push(step_of(rows[n - 1]))
    } else {
        steps_to(rows, n - 1, size)
    }
}

proof fn lemma_span_to(parts: Seq<Seq<u8>>, n: int, axis: u8)
    requires
        0 <= n <= parts.len(),
        forall|i: int| 0 <= i < n ==> part_ok(#[trigger] parts[i]),
        axis == 120 || axis == 121 || axis == 122,
    ensures
        -LIMIT <= span_to(parts, n, axis).0 <= span_to(parts, n, axis).1 <= LIMIT,
    decreases n,
{
    if n > 0 {
        lemma_span_to(parts, n - 1, axis);
    }
}

/// The two numbers of a range behind an axis and an equals sign.
fn parse_span(v: &[u8]) -> (r: Option<(i64, i64)>)
    requires
        v.len() >= 2,
    ensures
        match r {
            Some((a, b)) => span_of(v@) == Some((a as int, b as int)),
            None => match span_of(v@) {
                Some((a, b)) => !(i64::MIN <= a <= i64::MAX && i64::MIN <= b <= i64::MAX),
                None => true,
            },
        },
{
    let r = slice_subrange(v, 2, v.len());
    assert(r@ == v@.skip(2));
    let n = find_word(r, &DOTS);
    if n + 2 > r.len() {
        return None;
    }
    let first = slice_subrange(r, 0, n);
    let second = slice_subrange(r, n + 2, r.len());
    assert(first@ == r@.take(n as int));
    assert(second@ == r@.skip(n + 2));
    match (parse_i64(first), parse_i64(second)) {
        (Some(a), Some(b)) => Some((a, b)),
        _ => None,
    }
}

impl Reactor {
    /// Every step has a cuboid that holds a cube, and the size has a negative.
    pub open spec fn wf(&self) -> bool {
        &&& forall|i: int| 0 <= i < self.steps.len() ==> (#[trigger] self.steps[i]).cuboid.valid()
        &&& match self.size {
            Some(n) => n > i64::MIN,
            None => true,
        }
    }

    pub fn new(size: Option<i64>) -> (r: Reactor)
        requires
            size matches Some(n) ==> n > i64::MIN,
        ensures
            r.wf(),
            r.steps@ == Seq::<Step>::empty(),
            r.size == size,
    {
        Reactor { steps: Vec::new(), size }
    }

    /// Reads a step from the line and keeps it if it counts.
    pub fn parse_step(&mut self, line: &[u8]) -> (r: Result<(), ParseError>)
        requires
            old(self).wf(),
        ensures
            final(self).wf(),
            final(self).size == old(self).size,
            r is Ok <==> step_ok(line@),
            r is Err ==> r == Err::<(), ParseError>(ParseError::Malformed) && final(self).steps@
                == old(self).steps@,
            r is Ok ==> final(self).steps@ == if counted(old(self).size, step_of(line@).cuboid) {
                old(self).steps@.push(step_of(line@))
            } else {
                old(self).steps@
            },
    {
        let (action, ranges) = match split_once_byte(line, 32) {
            Some(p) => p,
            None => {
                return Err(ParseError::Malformed);
            },
        };
        let mut x: [i64; 2] = [0, 0];
        let mut y: [i64; 2] = [0, 0];
        let mut z: [i64; 2] = [0, 0];
        let parts = split_bytes(ranges.as_slice(), 44);
        let ghost ps = split(ranges@, 44);
        let mut i: usize = 0;
        while i < parts.len()
            invariant
                i <= parts.len(),
                rows_view(parts@) == ps,
                forall|k: int| 0 <= k < i ==> part_ok(#[trigger] ps[k]),
                (Cuboid { x, y, z }) == box_to(ps, i as int),
                *self == *old(self),
                old(self).wf(),
                split_once(line@, 32) == Some((action@, ranges@)),
                ps == split(ranges@, 44),
            decreases parts.len() - i,
        {
            let v = parts[i].as_slice();
            assert(v@ == ps[i as int]);
            if v.len() > 0 && (v[0] == 120 || v[0] == 121 || v[0] == 122) {
                if v.len() < 2 || v[1] != 61 {
                    proof {
                        assert(names_axis(v@));
                        assert(!part_ok(ps[i as int]));
                    }
                    return Err(ParseError::Malformed);
                }
                let (a, b) = match parse_span(v) {
                    Some(p) => p,
                    None => {
                        proof {
                        assert(names_axis(v@));
                        assert(!part_ok(ps[i as int]));
                    }
                    return Err(ParseError::Malformed);
                    },
                };
                if a < -LIMIT || a > b || b > LIMIT {
                    proof {
                        assert(names_axis(v@));
                        assert(!part_ok(ps[i as int]));
                    }
                    return Err(ParseError::Malformed);
                }
                if v[0] == 120 {
                    x = [a, b];
                } else if v[0] == 121 {
                    y = [a, b];
                } else {
                    z = [a, b];
                }
            }
            i += 1;
        }
        proof {
            lemma_span_to(ps, ps.len() as int, 120);
            lemma_span_to(ps, ps.len() as int, 121);
            lemma_span_to(ps, ps.len() as int, 122);
        }
        let s = Step { action: starts_with(action.as_slice(), &ON), cuboid: Cuboid { x, y, z } };
        assert(s == step_of(line@));
        if let Some(size) = self.size {
            match s.cuboid.limited_cuboid(-size, size) {
                None => {
                    return Ok(());
                },
                Some(_) => {},
            }
        }
        self.steps.push(s);
        Ok(())
    }
}

proof fn lemma_volume(c: Cuboid)
    requires
        c.valid(),
    ensures
        c.volume() >= 1,
{
    let dx = c.x[1] - c.x[0] + 1;
    let dy = c.y[1] - c.y[0] + 1;
    let dz = c.z[1] - c.z[0] + 1;
    assert(dx * dy * dz >= 1) by (nonlinear_arith)
        requires
            dx >= 1,
            dy >= 1,
            dz >= 1,
    ;
}

proof fn lemma_volume_sum(cuboids: Seq<Cuboid>, n: int)
    requires
        0 <= n <= cuboids.len(),
        forall|i: int| 0 <= i < cuboids.len() ==> (#[trigger] cuboids[i]).valid(),
    ensures
        0 <= volume_sum(cuboids.take(n)) <= volume_sum(cuboids),
    decreases cuboids.len(),
{
    if cuboids.len() == 0 {
        assert(cuboids.take(n) =~= cuboids);
    } else if n == cuboids.len() {
        assert(cuboids.take(n) =~= cuboids);
        lemma_volume(cuboids.last());
        lemma_volume_sum(cuboids.drop_last(), n - 1);
    } else {
        lemma_volume(cuboids.last());
        lemma_volume_sum(cuboids.drop_last(), n);
        assert(cuboids.drop_last().take(n) =~= cuboids.take(n));
    }
}

impl Reactor {
    /// The number of cubes that are on after the steps.
    pub fn run_steps(&self) -> (n: i64)
        requires
            self.wf(),
        ensures
            is_number_lit(self.steps@, n),
    {
        let r = self.count_pieces();
        proof {
            lemma_count_is_number(self.steps@, r);
            lemma_lit_fits(self.steps@);
        }
        match r {
            Some(n) => n,
            None => 0,
        }
    }

    /// Cuts the cubes that are on into cuboids that are apart, step by
    /// step, and adds up their volumes.
    fn count_pieces(&self) -> (r: Option<i64>)
        requires
            self.wf(),
        ensures
            is_count(self.steps@, r),
    {
        let mut cuboids: Vec<Cuboid> = Vec::new();
        let mut k: usize = 0;
        assert(self.steps@.take(0) =~= Seq::<Step>::empty());
        while k < self.steps.len()
            invariant
                k <= self.steps.len(),
                self.wf(),
                apart(cuboids@),
                forall|p: Cube| #[trigger] covers(cuboids@, p) <==> lit(self.steps@.take(k as int), p),
            decreases self.steps.len() - k,
        {
            let s = self.steps[k];
            let mut new_cuboids: Vec<Cuboid> = Vec::new();
            let mut j: usize = 0;
            assert(cuboids@.take(0) =~= Seq::<Cuboid>::empty());
            while j < cuboids.len()
                invariant
                    j <= cuboids.len(),
                    s.cuboid.valid(),
                    apart(cuboids@),
                    apart(new_cuboids@),
                    forall|p: Cube| #[trigger]
                        covers(new_cuboids@, p) <==> covers(cuboids@.take(j as int), p)
                            && !s.cuboid.holds(p),
                decreases cuboids.len() - j,
            {
                let mut pieces = cuboids[j].remove(&s.cuboid);
                proof {
                    let c = cuboids[j as int];
                    let before = cuboids@.take(j as int);
                    assert(cuboids@.take(j + 1) =~= before.push(c));
                    lemma_covers_push(before, c);
                    lemma_covers_append(new_cuboids@, pieces@);
                    assert forall|p: Cube| #[trigger] covers(pieces@, p) implies !covers(
                        new_cuboids@,
                        p,
                    ) by {
                        if covers(new_cuboids@, p) {
                            assert(covers(before, p));
                            let i = choose|i: int|
                                0 <= i < before.len() && (#[trigger] before[i]).holds(p);
                            assert(cuboids@[i].holds(p) && cuboids@[j as int].holds(p));
                        }
                    }
                    lemma_apart_append(new_cuboids@, pieces@);
                }
                new_cuboids.append(&mut pieces);
                j += 1;
            }
            proof {
                assert(cuboids@.take(j as int) =~= cuboids@);
                let before = self.steps@.take(k as int);
                let now = self.steps@.take(k + 1);
                assert(now.last() == s);
                assert(now.drop_last() =~= before);
                if s.action {
                    lemma_covers_push(new_cuboids@, s.cuboid);
                    lemma_apart_push(new_cuboids@, s.cuboid);
                }
            }
            if s.action {
                new_cuboids.push(s.cuboid);
            }
            cuboids = new_cuboids;
            k += 1;
        }
        assert(self.steps@.take(k as int) =~= self.steps@);
        let mut total: i64 = 0;
        let mut i: usize = 0;
        assert(cuboids@.take(0) =~= Seq::<Cuboid>::empty());
        while i < cuboids.len()
            invariant
                i <= cuboids.len(),
                apart(cuboids@),
                forall|p: Cube| #[trigger] covers(cuboids@, p) <==> lit(self.steps@, p),
                0 <= total == volume_sum(cuboids@.take(i as int)),
            decreases cuboids.len() - i,
        {
            let a = cuboids[i].area();
            proof {
                assert(cuboids@.take(i + 1).drop_last() =~= cuboids@.take(i as int));
                lemma_volume_sum(cuboids@, i + 1);
            }
            if total > i64::MAX - a {
                return None;
            }
            total += a;
            i += 1;
        }
        assert(cuboids@.take(i as int) =~= cuboids@);
        Some(total)
    }
}

/// `n` is the number of the cubes that are on after the steps.
pub open spec fn is_number_lit(steps: Seq<Step>, n: i64) -> bool {
    lit_cubes(steps).finite() && n == lit_cubes(steps).len()
}

/// The lines that hold a step: those of the text that are not empty.
pub open spec fn step_lines(text: Seq<char>) -> Seq<Seq<u8>> {
    nonempty_rows(lines(bytes_of(text)))
}

/// The size of the region that the first count is taken in.
pub const REGION: i64 = 50;

/// The numbers of cubes that are on after the steps of the text: first with
/// the steps that reach into the region alone, then with all of them.
pub fn run(contents: &str) -> (r: Result<(i64, i64), PuzzleError>)
    ensures
        r is Ok <==> forall|i: int|
            0 <= i < step_lines(contents@).len() ==> step_ok(#[trigger] step_lines(contents@)[i]),
        r is Err ==> r == Err::<(i64, i64), PuzzleError>(
            PuzzleError::Parse(ParseError::Malformed),
        ),
        match r {
            Ok((a, b)) => {
                let rows = step_lines(contents@);
                &&& is_number_lit(steps_to(rows, rows.len() as int, Some(REGION)), a)
                &&& is_number_lit(steps_to(rows, rows.len() as int, None), b)
            },
            Err(_) => true,
        },
{
    let mut reactor1 = Reactor::new(Some(REGION));
    let mut reactor2 = Reactor::new(None);
    let rows = nonempty_lines(contents.as_bytes());
    let ghost ls = step_lines(contents@);
    let mut i: usize = 0;
    while i < rows.len()
        invariant
            i <= rows.len(),
            rows_view(rows@) == ls,
            ls == step_lines(contents@),
            reactor1.wf(),
            reactor2.wf(),
            reactor1.size == Some(REGION),
            reactor2.size == None::<i64>,
            forall|k: int| 0 <= k < i ==> step_ok(#[trigger] ls[k]),
            reactor1.steps@ == steps_to(ls, i as int, Some(REGION)),
            reactor2.steps@ == steps_to(ls, i as int, None),
        decreases rows.len() - i,
    {
        let line = rows[i].as_slice();
        assert(line@ == ls[i as int]);
        match reactor1.parse_step(line) {
            Ok(()) => {},
            Err(e) => {
                return Err(PuzzleError::Parse(e));
            },
        }
        match reactor2.parse_step(line) {
            Ok(()) => {},
            Err(e) => {
                return Err(PuzzleError::Parse(e));
            },
        }
        i += 1;
    }
    Ok((reactor1.run_steps(), reactor2.run_steps()))
}

// ----- writing -----
/// A range as it is written: its axis, and its two numbers with two dots
/// between them.
pub open spec fn written_range(axis: Seq<char>, r: [i64; 2]) -> Seq<char> {
    axis + "="@ + signed_decimal(r[0] as int) + ".."@ + signed_decimal(r[1] as int)
}

fn write_range(s: &mut String, axis: &str, r: &[i64; 2])
    ensures
        final(s)@ == old(s)@ + written_range(axis@, *r),
{
    s.append(axis);
    s.append("=");
    s.append(signed_decimal_string(r[0] as i128).as_str());
    s.append("..");
    s.append(signed_decimal_string(r[1] as i128).as_str());
    proof {
        assert(s@ =~= old(s)@ + written_range(axis@, *r));
    }
}

impl Cuboid {
    /// The cuboid as it is written: its three ranges with commas between them.
    pub open spec fn written(&self) -> Seq<char> {
        written_range("x"@, self.x) + ","@ + written_range("y"@, self.y) + ","@ + written_range(
            "z"@,
            self.z,
        )
    }

    pub fn to_string(&self) -> (s: String)
        ensures
            s@ == self.written(),
    {
        let mut s = String::new();
        write_range(&mut s, "x", &self.x);
        s.append(",");
        write_range(&mut s, "y", &self.y);
        s.append(",");
        write_range(&mut s, "z", &self.z);
        proof {
            assert(s@ =~= self.written());
        }
        s
    }
}

/// The actions of the first `n` steps, each with a space behind it.
pub open spec fn actions_to(steps: Seq<Step>, n: int) -> Seq<char>
    decreases n,
{
    if n <= 0 || n > steps.len() {
        Seq::empty()
    } else {
        actions_to(steps, n - 1) + if steps[n - 1].action {
            "on "@
        } else {
            "off "@
        }
    }
}

impl Reactor {
    /// The actions of the steps and their number, on a line.
    pub open spec fn written(&self) -> Seq<char> {
        actions_to(self.steps@, self.steps.len() as int) + decimal(self.steps.len() as nat)
            + " steps\n"@
    }

    pub fn to_string(&self) -> (s: String)
        ensures
            s@ == self.written(),
    {
        let mut s = String::new();
        let mut i: usize = 0;
        while i < self.steps.len()
            invariant
                i <= self.steps.len(),
                s@ == actions_to(self.steps@, i as int),
            decreases self.steps.len() - i,
        {
            if self.steps[i].action {
                s.append("on ");
            } else {
                s.append("off ");
            }
            i += 1;
        }
        s.append(decimal_string(self.steps.len() as u128).as_str());
        s.append(" steps\n");
        s
    }
}

// ----- counting -----
/// The cubes of a cuboid.
pub open spec fn cubes_of(c: Cuboid) -> Set<Cube> {
    Set::new(|p: Cube| c.holds(p))
}

/// The cubes that the cuboids cover.
pub open spec fn covered(cuboids: Seq<Cuboid>) -> Set<Cube> {
    Set::new(|p: Cube| covers(cuboids, p))
}

/// The cubes that are on after the steps.
pub open spec fn lit_cubes(steps: Seq<Step>) -> Set<Cube> {
    Set::new(|p: Cube| lit(steps, p))
}

/// The cubes of a column at `x` and `y`, from `z0` to `z1`.
spec fn bar(x: int, y: int, z0: int, z1: int) -> Set<Cube> {
    Set::new(|p: Cube| p.0 == x && p.1 == y && z0 <= p.2 <= z1)
}

/// The cubes of a plate at `x`, from `y0` to `y1` and from `z0` to `z1`.
spec fn plate(x: int, y0: int, y1: int, z0: int, z1: int) -> Set<Cube> {
    Set::new(|p: Cube| p.0 == x && y0 <= p.1 <= y1 && z0 <= p.2 <= z1)
}

/// The cubes from `x0` to `x1`, from `y0` to `y1` and from `z0` to `z1`.
spec fn block(x0: int, x1: int, y0: int, y1: int, z0: int, z1: int) -> Set<Cube> {
    Set::new(|p: Cube| x0 <= p.0 <= x1 && y0 <= p.1 <= y1 && z0 <= p.2 <= z1)
}

proof fn lemma_bar(x: int, y: int, z0: int, z1: int)
    requires
        z0 <= z1 + 1,
    ensures
        bar(x, y, z0, z1).finite(),
        bar(x, y, z0, z1).len() == z1 - z0 + 1,
    decreases z1 - z0 + 1,
{
    if z1 < z0 {
        assert(bar(x, y, z0, z1) =~= Set::<Cube>::empty());
    } else {
        lemma_bar(x, y, z0, z1 - 1);
        assert(bar(x, y, z0, z1) =~= bar(x, y, z0, z1 - 1).insert((x, y, z1)));
    }
}

proof fn lemma_plate(x: int, y0: int, y1: int, z0: int, z1: int)
    requires
        y0 <= y1 + 1,
        z0 <= z1 + 1,
    ensures
        plate(x, y0, y1, z0, z1).finite(),
        plate(x, y0, y1, z0, z1).len() == (y1 - y0 + 1) * (z1 - z0 + 1),
    decreases y1 - y0 + 1,
{
    if y1 < y0 {
        assert(plate(x, y0, y1, z0, z1) =~= Set::<Cube>::empty());
        assert((y1 - y0 + 1) * (z1 - z0 + 1) == 0) by (nonlinear_arith)
            requires
                y1 - y0 + 1 == 0,
        ;
    } else {
        lemma_plate(x, y0, y1 - 1, z0, z1);
        lemma_bar(x, y1, z0, z1);
        let rest = plate(x, y0, y1 - 1, z0, z1);
        let last = bar(x, y1, z0, z1);
        assert(plate(x, y0, y1, z0, z1) =~= rest + last);
        assert(rest.disjoint(last));
        vstd::set_lib::lemma_set_disjoint_lens(rest, last);
        assert((y1 - y0 + 1) * (z1 - z0 + 1) == (y1 - y0) * (z1 - z0 + 1) + (z1 - z0 + 1))
            by (nonlinear_arith);
    }
}

proof fn lemma_block(x0: int, x1: int, y0: int, y1: int, z0: int, z1: int)
    requires
        x0 <= x1 + 1,
        y0 <= y1 + 1,
        z0 <= z1 + 1,
    ensures
        block(x0, x1, y0, y1, z0, z1).finite(),
        block(x0, x1, y0, y1, z0, z1).len() == (x1 - x0 + 1) * (y1 - y0 + 1) * (z1 - z0 + 1),
    decreases x1 - x0 + 1,
{
    let side = (y1 - y0 + 1) * (z1 - z0 + 1);
    if x1 < x0 {
        assert(block(x0, x1, y0, y1, z0, z1) =~= Set::<Cube>::empty());
        assert((x1 - x0 + 1) * (y1 - y0 + 1) * (z1 - z0 + 1) == 0) by (nonlinear_arith)
            requires
                x1 - x0 + 1 == 0,
        ;
    } else {
        lemma_block(x0, x1 - 1, y0, y1, z0, z1);
        lemma_plate(x1, y0, y1, z0, z1);
        let rest = block(x0, x1 - 1, y0, y1, z0, z1);
        let last = plate(x1, y0, y1, z0, z1);
        assert(block(x0, x1, y0, y1, z0, z1) =~= rest + last);
        assert(rest.disjoint(last));
        vstd::set_lib::lemma_set_disjoint_lens(rest, last);
        assert((x1 - x0 + 1) * (y1 - y0 + 1) * (z1 - z0 + 1) == (x1 - x0) * (y1 - y0 + 1) * (z1
            - z0 + 1) + (y1 - y0 + 1) * (z1 - z0 + 1)) by (nonlinear_arith);
    }
}

/// A cuboid that holds a cube has as many cubes as the product of its edges.
pub proof fn lemma_cubes_of(c: Cuboid)
    requires
        c.valid(),
    ensures
        cubes_of(c).finite(),
        cubes_of(c).len() == c.volume(),
{
    lemma_block(
        c.x[0] as int,
        c.x[1] as int,
        c.y[0] as int,
        c.y[1] as int,
        c.z[0] as int,
        c.z[1] as int,
    );
    assert(cubes_of(c) =~= block(
        c.x[0] as int,
        c.x[1] as int,
        c.y[0] as int,
        c.y[1] as int,
        c.z[0] as int,
        c.z[1] as int,
    ));
}

/// Cuboids that are apart cover as many cubes as their volumes add up to.
pub proof fn lemma_covered(cuboids: Seq<Cuboid>)
    requires
        apart(cuboids),
    ensures
        covered(cuboids).finite(),
        covered(cuboids).len() == volume_sum(cuboids),
    decreases cuboids.len(),
{
    if cuboids.len() == 0 {
        assert(covered(cuboids) =~= Set::<Cube>::empty());
    } else {
        let rest = cuboids.drop_last();
        let last = cuboids.last();
        assert(apart(rest)) by {
            assert forall|i: int| 0 <= i < rest.len() implies (#[trigger] rest[i]).valid() by {
                assert(cuboids[i].valid());
            }
            assert forall|i: int, j: int, p: Cube| 0 <= i < j < rest.len() implies !(
            #[trigger] rest[i].holds(p) && #[trigger] rest[j].holds(p)) by {
                assert(!(cuboids[i].holds(p) && cuboids[j].holds(p)));
            }
        }
        lemma_covered(rest);
        assert(cuboids[cuboids.len() - 1].valid());
        lemma_cubes_of(last);
        assert(cuboids =~= rest.push(last));
        lemma_covers_push(rest, last);
        assert(covered(cuboids) =~= covered(rest) + cubes_of(last));
        assert(covered(rest).disjoint(cubes_of(last))) by {
            assert forall|p: Cube| covered(rest).contains(p) implies !cubes_of(last).contains(p) by {
                let i = choose|i: int| 0 <= i < rest.len() && (#[trigger] rest[i]).holds(p);
                assert(!(cuboids[i].holds(p) && cuboids[cuboids.len() - 1].holds(p)));
            }
        }
        vstd::set_lib::lemma_set_disjoint_lens(covered(rest), cubes_of(last));
    }
}

/// What the steps of a reactor are counted as is the number of the cubes
/// that are on after them, where that number fits; and where it does not
/// fit, there is no count.
pub proof fn lemma_count_is_number(steps: Seq<Step>, r: Option<i64>)
    requires
        is_count(steps, r),
    ensures
        lit_cubes(steps).finite(),
        match r {
            Some(n) => n == lit_cubes(steps).len(),
            None => lit_cubes(steps).len() > i64::MAX,
        },
{
    let pieces = choose|pieces: Seq<Cuboid>|
        {
            &&& apart(pieces)
            &&& forall|p: Cube| #[trigger] covers(pieces, p) <==> lit(steps, p)
            &&& #[trigger] volume_sum(pieces) <= i64::MAX ==> r == Some(volume_sum(pieces) as i64)
            &&& volume_sum(pieces) > i64::MAX ==> r is None
        };
    lemma_covered(pieces);
    assert(lit_cubes(steps) =~= covered(pieces)) by {
        assert forall|p: Cube| lit_cubes(steps).contains(p) <==> covered(pieces).contains(p) by {
            assert(covers(pieces, p) <==> lit(steps, p));
        }
    }
}

/// A cube that is on lies within the limit along each axis.
proof fn lemma_lit_within(steps: Seq<Step>, p: Cube)
    requires
        forall|i: int| 0 <= i < steps.len() ==> (#[trigger] steps[i]).cuboid.valid(),
        lit(steps, p),
    ensures
        -LIMIT <= p.0 <= LIMIT && -LIMIT <= p.1 <= LIMIT && -LIMIT <= p.2 <= LIMIT,
    decreases steps.len(),
{
    if steps.len() > 0 {
        if steps.last().cuboid.holds(p) {
            assert(steps[steps.len() - 1].cuboid.valid());
        } else {
            let rest = steps.drop_last();
            assert forall|i: int| 0 <= i < rest.len() implies (#[trigger] rest[i]).cuboid.valid() by {
                assert(steps[i].cuboid.valid());
            }
            lemma_lit_within(rest, p);
        }
    }
}

/// The cubes that are on after steps within the limit are no more than the
/// cubes within the limit: a number that an `i64` holds.
pub proof fn lemma_lit_fits(steps: Seq<Step>)
    requires
        forall|i: int| 0 <= i < steps.len() ==> (#[trigger] steps[i]).cuboid.valid(),
        lit_cubes(steps).finite(),
    ensures
        lit_cubes(steps).len() <= 8_000_012_000_006_000_001,
{
    let all = block(-LIMIT as int, LIMIT as int, -LIMIT as int, LIMIT as int, -LIMIT as int, LIMIT as int);
    lemma_block(-LIMIT as int, LIMIT as int, -LIMIT as int, LIMIT as int, -LIMIT as int, LIMIT as int);
    assert(lit_cubes(steps).subset_of(all)) by {
        assert forall|p: Cube| lit_cubes(steps).contains(p) implies all.contains(p) by {
            lemma_lit_within(steps, p);
        }
    }
    vstd::set_lib::lemma_len_subset(lit_cubes(steps), all);
    assert(2_000_001 * 2_000_001 * 2_000_001 == 8_000_012_000_006_000_001int) by (nonlinear_arith);
}

/// The cubes that two cuboids share, where they share one: from the
/// greater of the two least coordinates to the lesser of the two greatest.
pub open spec fn common(a: Cuboid, b: Cuboid) -> Cuboid {
    Cuboid {
        x: [
            if a.x[0] > b.x[0] {
                a.x[0]
            } else {
                b.x[0]
            },
            if a.x[1] < b.x[1] {
                a.x[1]
            } else {
                b.x[1]
            },
        ],
        y: [
            if a.y[0] > b.y[0] {
                a.y[0]
            } else {
                b.y[0]
            },
            if a.y[1] < b.y[1] {
                a.y[1]
            } else {
                b.y[1]
            },
        ],
        z: [
            if a.z[0] > b.z[0] {
                a.z[0]
            } else {
                b.z[0]
            },
            if a.z[1] < b.z[1] {
                a.z[1]
            } else {
                b.z[1]
            },
        ],
    }
}

/// The number of cubes that two cuboids share.
pub open spec fn shared_volume(a: Cuboid, b: Cuboid) -> int {
    if a.meets(&b) {
        common(a, b).volume()
    } else {
        0
    }
}

/// What is left of a cuboid without another has the volume of the first
/// less the volume of what the two share.
proof fn lemma_removed_volume(a: Cuboid, b: Cuboid, pieces: Seq<Cuboid>)
    requires
        a.valid(),
        b.valid(),
        apart(pieces),
        forall|p: Cube| #[trigger] covers(pieces, p) <==> a.holds(p) && !b.holds(p),
    ensures
        volume_sum(pieces) == a.volume() - shared_volume(a, b),
{
    lemma_covered(pieces);
    lemma_cubes_of(a);
    if a.meets(&b) {
        let c = common(a, b);
        assert(c.valid());
        lemma_cubes_of(c);
        assert(cubes_of(a) =~= covered(pieces) + cubes_of(c)) by {
            assert forall|p: Cube| cubes_of(a).contains(p) <==> (covered(pieces) + cubes_of(
                c,
            )).contains(p) by {
                assert(covers(pieces, p) <==> a.holds(p) && !b.holds(p));
                assert(c.holds(p) <==> a.holds(p) && b.holds(p));
            }
        }
        assert(covered(pieces).disjoint(cubes_of(c))) by {
            assert forall|p: Cube| covered(pieces).contains(p) implies !cubes_of(c).contains(p) by {
                assert(covers(pieces, p) <==> a.holds(p) && !b.holds(p));
            }
        }
        vstd::set_lib::lemma_set_disjoint_lens(covered(pieces), cubes_of(c));
    } else {
        assert(cubes_of(a) =~= covered(pieces)) by {
            assert forall|p: Cube| cubes_of(a).contains(p) <==> covered(pieces).contains(p) by {
                assert(covers(pieces, p) <==> a.holds(p) && !b.holds(p));
            }
        }
    }
}

} // verus!
