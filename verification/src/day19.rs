//! Scanners that see beacons, each from its own place and in its own orientation.

use crate::errors::{ParseError, PuzzleError};
use crate::text::{
    bytes_of, decimal, decimal_string, has_prefix, lines, parse_i64, parse_usize, rows_view,
    signed_decimal, signed_decimal_string, signed_value, split, split_bytes, starts_with,
    unsigned_value,
};
use vstd::prelude::*;
use vstd::string::*;

verus! {

pub type Point = [i64; 3];

pub const ROTATIONS: [[[i64; 3]; 3]; 24] = [
    [[1, 0, 0], [0, 1, 0], [0, 0, 1]],
    [[0, 0, 1], [0, 1, 0], [-1, 0, 0]],
    [[-1, 0, 0], [0, 1, 0], [0, 0, -1]],
    [[0, 0, -1], [0, 1, 0], [1, 0, 0]],
    [[0, -1, 0], [1, 0, 0], [0, 0, 1]],
    [[0, 0, 1], [1, 0, 0], [0, 1, 0]],
    [[0, 1, 0], [1, 0, 0], [0, 0, -1]],
    [[0, 0, -1], [1, 0, 0], [0, -1, 0]],
    [[0, 1, 0], [-1, 0, 0], [0, 0, 1]],
    [[0, 0, 1], [-1, 0, 0], [0, -1, 0]],
    [[0, -1, 0], [-1, 0, 0], [0, 0, -1]],
    [[0, 0, -1], [-1, 0, 0], [0, 1, 0]],
    [[1, 0, 0], [0, 0, -1], [0, 1, 0]],
    [[0, 1, 0], [0, 0, -1], [-1, 0, 0]],
    [[-1, 0, 0], [0, 0, -1], [0, -1, 0]],
    [[0, -1, 0], [0, 0, -1], [1, 0, 0]],
    [[1, 0, 0], [0, -1, 0], [0, 0, -1]],
    [[0, 0, -1], [0, -1, 0], [-1, 0, 0]],
    [[-1, 0, 0], [0, -1, 0], [0, 0, 1]],
    [[0, 0, 1], [0, -1, 0], [1, 0, 0]],
    [[1, 0, 0], [0, 0, 1], [0, -1, 0]],
    [[0, -1, 0], [0, 0, 1], [-1, 0, 0]],
    [[-1, 0, 0], [0, 0, 1], [0, 1, 0]],
    [[0, 1, 0], [0, 0, 1], [1, 0, 0]],
];

/// The greatest coordinate, to either side, of a beacon as a scanner sees it.
pub const COORD_LIMIT: i64 = 1_000_000;

/// The greatest coordinate, to either side, of a scanner that others are placed by.
pub const PLACE_LIMIT: i64 = 1_000_000_000_000_000_000;

/// The number of orientations.
pub const TURNS: usize = 24;

/// The number of beacons that two scanners must share to be placed by each other.
pub const SHARED: usize = 12;

pub open spec fn within(p: Point, limit: int) -> bool {
    &&& -limit <= p[0] <= limit
    &&& -limit <= p[1] <= limit
    &&& -limit <= p[2] <= limit
}

pub open spec fn dot(p: Point, row: [i64; 3]) -> int {
    p[0] * row[0] + p[1] * row[1] + p[2] * row[2]
}

/// The point in the orientation `n`: the product of the matrix with it.
pub open spec fn turned(p: Point, n: int) -> Point {
    [
        dot(p, ROTATIONS[n][0]) as i64,
        dot(p, ROTATIONS[n][1]) as i64,
        dot(p, ROTATIONS[n][2]) as i64,
    ]
}

pub open spec fn same(p: Point, q: Point) -> bool {
    p[0] == q[0] && p[1] == q[1] && p[2] == q[2]
}

pub open spec fn minus(p: Point, q: Point) -> Point {
    [(p[0] - q[0]) as i64, (p[1] - q[1]) as i64, (p[2] - q[2]) as i64]
}

pub open spec fn plus(p: Point, q: Point) -> Point {
    [(p[0] + q[0]) as i64, (p[1] + q[1]) as i64, (p[2] + q[2]) as i64]
}

proof fn lemma_term(a: int, r: int, limit: int)
    requires
        -limit <= a <= limit,
        -1 <= r <= 1,
    ensures
        -limit <= a * r <= limit,
{
    assert(-limit <= a * r <= limit) by (nonlinear_arith)
        requires
            -limit <= a <= limit,
            -1 <= r <= 1,
    ;
}

fn row_product(p: &Point, row: &[i64; 3]) -> (r: i64)
    requires
        within(*p, ROTATE_LIMIT as int),
        -1 <= row[0] <= 1 && -1 <= row[1] <= 1 && -1 <= row[2] <= 1,
    ensures
        r == dot(*p, *row),
        within(*p, COORD_LIMIT as int) ==> -3 * COORD_LIMIT <= r <= 3 * COORD_LIMIT,
{
    proof {
        lemma_term(p[0] as int, row[0] as int, ROTATE_LIMIT as int);
        lemma_term(p[1] as int, row[1] as int, ROTATE_LIMIT as int);
        lemma_term(p[2] as int, row[2] as int, ROTATE_LIMIT as int);
        if within(*p, COORD_LIMIT as int) {
            lemma_term(p[0] as int, row[0] as int, COORD_LIMIT as int);
            lemma_term(p[1] as int, row[1] as int, COORD_LIMIT as int);
            lemma_term(p[2] as int, row[2] as int, COORD_LIMIT as int);
        }
    }
    p[0] * row[0] + p[1] * row[1] + p[2] * row[2]
}

/// The greatest coordinate, to either side, of a point that is turned:
/// the sum of three such coordinates fits in 64 bits.
pub const ROTATE_LIMIT: i64 = 3_000_000_000_000_000_000;

/// The point in the orientation `nrot`.
pub fn vector_rotate(p: &Point, nrot: usize) -> (r: Point)
    requires
        nrot < TURNS,
        within(*p, ROTATE_LIMIT as int),
    ensures
        r == turned(*p, nrot as int),
        within(*p, COORD_LIMIT as int) ==> within(r, 3 * COORD_LIMIT),
{
    let rot = ROTATIONS[nrot];
    [row_product(p, &rot[0]), row_product(p, &rot[1]), row_product(p, &rot[2])]
}

/// Turning a point keeps its distance from the origin: the sum of the
/// squares of its coordinates.
pub proof fn lemma_turn_keeps_length(p: Point, n: int)
    requires
        0 <= n < TURNS,
        within(p, COORD_LIMIT as int),
    ensures
        ({
            let q = turned(p, n);
            q[0] * q[0] + q[1] * q[1] + q[2] * q[2] == p[0] * p[0] + p[1] * p[1] + p[2] * p[2]
        }),
{
    let q = turned(p, n);
    let x = p[0] as int;
    let y = p[1] as int;
    let z = p[2] as int;
    assert((-x) * (-x) == x * x) by (nonlinear_arith);
    assert((-y) * (-y) == y * y) by (nonlinear_arith);
    assert((-z) * (-z) == z * z) by (nonlinear_arith);
    lemma_turned_is_signed(p, n);
    let a = q[0] as int;
    let b = q[1] as int;
    let c = q[2] as int;
    assert(a * a == x * x || a * a == y * y || a * a == z * z);
    assert(b * b == x * x || b * b == y * y || b * b == z * z);
    assert(c * c == x * x || c * c == y * y || c * c == z * z);
}

/// The coordinates of a turned point are those of the point, each once,
/// with one sign or the other.
proof fn lemma_turned_is_signed(p: Point, n: int)
    requires
        0 <= n < TURNS,
        within(p, COORD_LIMIT as int),
    ensures
        ({
            let q = turned(p, n);
            let x = p[0] as int;
            let y = p[1] as int;
            let z = p[2] as int;
            ||| ((q[0] == x || q[0] == -x) && (q[1] == y || q[1] == -y) && (q[2] == z || q[2] == -z))
            ||| ((q[0] == x || q[0] == -x) && (q[1] == z || q[1] == -z) && (q[2] == y || q[2] == -y))
            ||| ((q[0] == y || q[0] == -y) && (q[1] == x || q[1] == -x) && (q[2] == z || q[2] == -z))
            ||| ((q[0] == y || q[0] == -y) && (q[1] == z || q[1] == -z) && (q[2] == x || q[2] == -x))
            ||| ((q[0] == z || q[0] == -z) && (q[1] == x || q[1] == -x) && (q[2] == y || q[2] == -y))
            ||| ((q[0] == z || q[0] == -z) && (q[1] == y || q[1] == -y) && (q[2] == x || q[2] == -x))
        }),
{
    let rot = ROTATIONS[n];
    let x = p[0] as int;
    let y = p[1] as int;
    let z = p[2] as int;
    assert forall|r: int, c: int| 0 <= r < 3 && 0 <= c < 3 implies -1 <= #[trigger] rot[r][c] <= 1 by {}
    assert(x * 0 == 0 && y * 0 == 0 && z * 0 == 0);
    assert(x * 1 == x && y * 1 == y && z * 1 == z);
    assert(x * (-1) == -x && y * (-1) == -y && z * (-1) == -z);
}

/// What a scanner has seen: the beacons as it sees them, once for each
/// orientation that it may turn out to have, its place and its orientation.
pub struct Scanner {
    pub id: usize,
    pub beacons: Vec<Vec<Point>>,
    pub position: Point,
    pub orientation: usize,
    pub checked: bool,
}

/// The lists as sequences of points.
pub open spec fn lists_view(v: Seq<Vec<Point>>) -> Seq<Seq<Point>> {
    Seq::new(v.len(), |k: int| v[k]@)
}

impl Scanner {
    /// The first list holds the beacons as they were seen, within the
    /// limit, and each further list holds them in its orientation.
    pub open spec fn wf(&self) -> bool {
        &&& 1 <= self.beacons.len() <= TURNS
        &&& self.orientation < self.beacons.len()
        &&& forall|i: int|
            0 <= i < self.beacons[0].len() ==> within(
                #[trigger] self.beacons[0][i],
                COORD_LIMIT as int,
            )
        &&& forall|k: int|
            0 <= k < self.beacons.len() ==> (#[trigger] self.beacons[k]).len()
                == self.beacons[0].len()
        &&& forall|k: int, i: int|
            0 <= k < self.beacons.len() && 0 <= i < self.beacons[0].len() ==> same(
                #[trigger] self.beacons[k][i],
                turned(self.beacons[0][i], k),
            )
    }

    /// The scanner has a list for every orientation.
    pub open spec fn complete(&self) -> bool {
        self.beacons.len() == TURNS
    }

    /// The place of the scanner is within the limit.
    pub open spec fn placed(&self) -> bool {
        within(self.position, PLACE_LIMIT as int)
    }

    /// The beacons in the orientation of the scanner.
    pub open spec fn seen(&self) -> Seq<Point> {
        self.beacons[self.orientation as int]@
    }

    pub fn beacons(&self) -> (r: &[Point])
        requires
            self.orientation < self.beacons.len(),
        ensures
            r@ == self.seen(),
    {
        self.beacons[self.orientation].as_slice()
    }

    fn copy_lists(&self) -> (r: Vec<Vec<Point>>)
        ensures
            lists_view(r@) == lists_view(self.beacons@),
    {
        let mut out: Vec<Vec<Point>> = Vec::new();
        let mut k: usize = 0;
        while k < self.beacons.len()
            invariant
                k <= self.beacons.len(),
                out.len() == k,
                forall|j: int| 0 <= j < k ==> (#[trigger] out[j])@ == self.beacons[j]@,
            decreases self.beacons.len() - k,
        {
            let mut list: Vec<Point> = Vec::new();
            let mut i: usize = 0;
            while i < self.beacons[k].len()
                invariant
                    k < self.beacons.len(),
                    i <= self.beacons[k as int].len(),
                    list@ == self.beacons[k as int]@.take(i as int),
                decreases self.beacons[k as int].len() - i,
            {
                list.push(self.beacons[k][i]);
                assert(self.beacons[k as int]@.take(i + 1) =~= self.beacons[k as int]@.take(
                    i as int,
                ).push(self.beacons[k as int][i as int]));
                i += 1;
            }
            assert(self.beacons[k as int]@.take(i as int) =~= self.beacons[k as int]@);
            out.push(list);
            k += 1;
        }
        assert(lists_view(out@) =~= lists_view(self.beacons@));
        out
    }

    /// A copy of the scanner that is not checked yet.
    pub fn copy(&self) -> (r: Scanner)
        ensures
            r.id == self.id,
            lists_view(r.beacons@) == lists_view(self.beacons@),
            r.position == self.position,
            r.orientation == self.orientation,
            !r.checked,
    {
        Scanner {
            id: self.id,
            beacons: self.copy_lists(),
            position: self.position,
            orientation: self.orientation,
            checked: false,
        }
    }

    /// A copy of the scanner in the orientation `rot_id`.
    pub fn rotate(&self, rot_id: usize) -> (r: Scanner)
        ensures
            r.id == self.id,
            lists_view(r.beacons@) == lists_view(self.beacons@),
            r.position == self.position,
            r.orientation == rot_id,
            r.checked == self.checked,
    {
        Scanner {
            id: self.id,
            beacons: self.copy_lists(),
            position: self.position,
            orientation: rot_id,
            checked: self.checked,
        }
    }

    /// The distance between two scanners along the axes.
    pub open spec fn distance(&self, other: &Scanner) -> nat {
        vstd::math::abs(self.position[0] - other.position[0]) + vstd::math::abs(
            self.position[1] - other.position[1],
        ) + vstd::math::abs(self.position[2] - other.position[2])
    }

    pub fn manhattan(&self, other: &Scanner) -> (d: i64)
        requires
            self.placed(),
            other.placed(),
        ensures
            d == self.distance(other),
    {
        gap(self.position[0], other.position[0]) + gap(self.position[1], other.position[1]) + gap(
            self.position[2],
            other.position[2],
        )
    }
}

fn gap(a: i64, b: i64) -> (d: i64)
    requires
        -PLACE_LIMIT <= a <= PLACE_LIMIT,
        -PLACE_LIMIT <= b <= PLACE_LIMIT,
    ensures
        d == vstd::math::abs(a - b),
        0 <= d <= 2 * PLACE_LIMIT,
{
    if a >= b {
        a - b
    } else {
        b - a
    }
}

/// The places that the second scanner may have by one beacon of the first
/// and each of its own: the differences.
pub open spec fn row_of(p: Point, b: Seq<Point>) -> Seq<Point> {
    Seq::new(b.len(), |j: int| minus(p, b[j]))
}

/// The differences between each of the first `n` beacons of `a` and each beacon of `b`.
pub open spec fn diffs(a: Seq<Point>, b: Seq<Point>, n: int) -> Seq<Point>
    decreases n,
{
    if n <= 0 || n > a.len() {
        Seq::empty()
    } else {
        diffs(a, b, n - 1) + row_of(a[n - 1], b)
    }
}

/// How often the point stands among the first `n` of the list.
pub open spec fn count(s: Seq<Point>, p: Point, n: int) -> int
    decreases n,
{
    if n <= 0 || n > s.len() {
        0
    } else {
        count(s, p, n - 1) + if same(s[n - 1], p) {
            1int
        } else {
            0int
        }
    }
}

/// The first point of the list from the place `k` on that stands in it
/// exactly as often as beacons must be shared.
pub open spec fn first_hit(d: Seq<Point>, k: int) -> Option<Point>
    decreases d.len() - k,
{
    if k < 0 || k >= d.len() {
        None
    } else if count(d, d[k], d.len() as int) == SHARED {
        Some(d[k])
    } else {
        first_hit(d, k + 1)
    }
}

/// The first orientation from `rot` on in which the beacons of `b` fit
/// those that `a` sees, and the difference by which they do.
pub open spec fn located(a: Seq<Point>, b: Seq<Seq<Point>>, rot: int) -> Option<(int, Point)>
    decreases b.len() - rot,
{
    if rot < 0 || rot >= b.len() {
        None
    } else {
        match first_hit(diffs(a, b[rot], a.len() as int), 0) {
            Some(p) => Some((rot, p)),
            None => located(a, b, rot + 1),
        }
    }
}

fn count_in(all: &Vec<Point>, p: &Point) -> (n: usize)
    ensures
        n == count(all@, *p, all.len() as int),
{
    let mut n: usize = 0;
    let mut i: usize = 0;
    while i < all.len()
        invariant
            i <= all.len(),
            n <= i,
            n == count(all@, *p, i as int),
        decreases all.len() - i,
    {
        let q = all[i];
        if q[0] == p[0] && q[1] == p[1] && q[2] == p[2] {
            n += 1;
        }
        i += 1;
    }
    n
}

impl Scanner {
    /// Places `scanner` by this one: in the first orientation in which a
    /// difference between a beacon of this scanner and one of the other
    /// comes up exactly twelve times, at the first such difference, taken
    /// from the place of this scanner. `None` where there is none.
    pub fn find_rel_scanner_position(&self, scanner: &Scanner) -> (r: Option<Scanner>)
        requires
            self.wf(),
            self.placed(),
            scanner.wf(),
            scanner.complete(),
        ensures
            match located(self.seen(), lists_view(scanner.beacons@), 0) {
                Some((rot, p)) => r is Some && {
                    let s = r.unwrap();
                    &&& s.id == scanner.id
                    &&& lists_view(s.beacons@) == lists_view(scanner.beacons@)
                    &&& s.orientation == rot
                    &&& s.checked == scanner.checked
                    &&& s.position == plus(p, self.position)
                    &&& within(p, 6 * COORD_LIMIT)
                    &&& s.wf()
                },
                None => r is None,
            },
    {
        let ghost a = self.seen();
        let ghost lists = lists_view(scanner.beacons@);
        let mut i: usize = 0;
        while i < TURNS
            invariant
                i <= TURNS,
                self.wf(),
                self.placed(),
                scanner.wf(),
                scanner.complete(),
                a == self.seen(),
                lists == lists_view(scanner.beacons@),
                located(a, lists, 0) == located(a, lists, i as int),
            decreases TURNS - i,
        {
            let mut test_scan = scanner.rotate(i);
            let ghost b = lists[i as int];
            assert(test_scan.beacons[i as int]@ == lists_view(test_scan.beacons@)[i as int]);
            assert(test_scan.seen() == b);
            let mine = self.beacons();
            let theirs = test_scan.beacons();
            let mut all_pos: Vec<Point> = Vec::new();
            let mut x: usize = 0;
            while x < mine.len()
                invariant
                    x <= mine.len(),
                    mine@ == a,
                    theirs@ == b,
                    self.wf(),
                    a == self.seen(),
                    scanner.wf(),
                    i < TURNS,
                    scanner.complete(),
                    b == scanner.beacons[i as int]@,
                    all_pos@ == diffs(a, b, x as int),
                    forall|k: int| 0 <= k < all_pos.len() ==> within(#[trigger] all_pos[k], 6 * COORD_LIMIT),
                decreases mine.len() - x,
            {
                let b1 = mine[x];
                let mut y: usize = 0;
                let ghost before = all_pos@;
                assert(within(b1, 3 * COORD_LIMIT)) by {
                    self.lemma_seen_within(x as int);
                }
                while y < theirs.len()
                    invariant
                        y <= theirs.len(),
                        theirs@ == b,
                        scanner.wf(),
                        i < TURNS,
                        scanner.complete(),
                        b == scanner.beacons[i as int]@,
                        within(b1, 3 * COORD_LIMIT),
                        all_pos@ == before + row_of(b1, b).take(y as int),
                        forall|k: int|
                            0 <= k < all_pos.len() ==> within(#[trigger] all_pos[k], 6 * COORD_LIMIT),
                    decreases theirs.len() - y,
                {
                    let b2 = theirs[y];
                    assert(within(b2, 3 * COORD_LIMIT)) by {
                        scanner.lemma_list_within(i as int, y as int);
                    }
                    let d: Point = [b1[0] - b2[0], b1[1] - b2[1], b1[2] - b2[2]];
                    assert(d == minus(b1, b2));
                    all_pos.push(d);
                    proof {
                        assert(row_of(b1, b).take(y + 1) =~= row_of(b1, b).take(y as int).push(d));
                        assert(all_pos@ =~= before + row_of(b1, b).take(y + 1));
                    }
                    y += 1;
                }
                proof {
                    assert(row_of(b1, b).take(y as int) =~= row_of(b1, b));
                }
                x += 1;
            }
            let ghost d = diffs(a, b, a.len() as int);
            let mut k: usize = 0;
            while k < all_pos.len()
                invariant
                    k <= all_pos.len(),
                    all_pos@ == d,
                    first_hit(d, 0) == first_hit(d, k as int),
                    forall|j: int| 0 <= j < all_pos.len() ==> within(#[trigger] all_pos[j], 6 * COORD_LIMIT),
                    self.placed(),
                    test_scan.id == scanner.id,
                    lists_view(test_scan.beacons@) == lists_view(scanner.beacons@),
                    test_scan.orientation == i,
                    test_scan.checked == scanner.checked,
                    i < TURNS,
                    scanner.wf(),
                    scanner.complete(),
                    lists == lists_view(scanner.beacons@),
                    d == diffs(a, lists[i as int], a.len() as int),
                    a == self.seen(),
                    located(a, lists, 0) == located(a, lists, i as int),
                decreases all_pos.len() - k,
            {
                let p1 = all_pos[k];
                if count_in(&all_pos, &p1) == SHARED {
                    test_scan.position = [
                        p1[0] + self.position[0],
                        p1[1] + self.position[1],
                        p1[2] + self.position[2],
                    ];
                    proof {
                        assert(test_scan.position == plus(p1, self.position));
                        scanner.lemma_same_lists(&test_scan);
                        assert(first_hit(d, k as int) == Some(p1));
                        assert(located(a, lists, i as int) == Some((i as int, p1)));
                        assert(within(all_pos[k as int], 6 * COORD_LIMIT));
                    }
                    return Some(test_scan);
                }
                k += 1;
            }
            i += 1;
        }
        None
    }

    proof fn lemma_list_within(&self, k: int, i: int)
        requires
            self.wf(),
            0 <= k < self.beacons.len(),
            0 <= i < self.beacons[k].len(),
        ensures
            within(self.beacons[k][i], 3 * COORD_LIMIT),
    {
        let p = self.beacons[0][i];
        assert(within(p, COORD_LIMIT as int));
        assert(same(self.beacons[k][i], turned(p, k)));
        let rot = ROTATIONS[k];
        lemma_term(p[0] as int, rot[0][0] as int, COORD_LIMIT as int);
        lemma_term(p[1] as int, rot[0][1] as int, COORD_LIMIT as int);
        lemma_term(p[2] as int, rot[0][2] as int, COORD_LIMIT as int);
        lemma_term(p[0] as int, rot[1][0] as int, COORD_LIMIT as int);
        lemma_term(p[1] as int, rot[1][1] as int, COORD_LIMIT as int);
        lemma_term(p[2] as int, rot[1][2] as int, COORD_LIMIT as int);
        lemma_term(p[0] as int, rot[2][0] as int, COORD_LIMIT as int);
        lemma_term(p[1] as int, rot[2][1] as int, COORD_LIMIT as int);
        lemma_term(p[2] as int, rot[2][2] as int, COORD_LIMIT as int);
    }

    proof fn lemma_seen_within(&self, i: int)
        requires
            self.wf(),
            0 <= i < self.seen().len(),
        ensures
            within(self.seen()[i], 3 * COORD_LIMIT),
    {
        self.lemma_list_within(self.orientation as int, i);
    }

    /// A scanner with the same lists and an orientation that it has is in order too.
    proof fn lemma_same_lists(&self, other: &Scanner)
        requires
            self.wf(),
            lists_view(other.beacons@) == lists_view(self.beacons@),
            other.orientation < self.beacons.len(),
        ensures
            other.wf(),
    {
        let a = lists_view(self.beacons@);
        let b = lists_view(other.beacons@);
        assert(a.len() == b.len());
        assert forall|k: int| 0 <= k < other.beacons.len() implies (#[trigger] other.beacons[k])@
            == self.beacons[k]@ by {
            assert(b[k] == a[k]);
        }
        assert forall|k: int, i: int|
            0 <= k < other.beacons.len() && 0 <= i < other.beacons[0].len() implies same(
            #[trigger] other.beacons[k][i],
            turned(other.beacons[0][i], k),
        ) by {
            assert(other.beacons[k]@ == self.beacons[k]@);
            assert(other.beacons[0]@ == self.beacons[0]@);
            assert(same(self.beacons[k][i], turned(self.beacons[0][i], k)));
        }
        assert forall|i: int| 0 <= i < other.beacons[0].len() implies within(
            #[trigger] other.beacons[0][i],
            COORD_LIMIT as int,
        ) by {
            assert(other.beacons[0]@ == self.beacons[0]@);
            assert(within(self.beacons[0][i], COORD_LIMIT as int));
        }
        assert forall|k: int| 0 <= k < other.beacons.len() implies (#[trigger] other.beacons[k]).len()
            == other.beacons[0].len() by {
            assert(other.beacons[k]@ == self.beacons[k]@);
            assert(other.beacons[0]@ == self.beacons[0]@);
            assert(self.beacons[k].len() == self.beacons[0].len());
        }
    }
}

/// The points of the list, each where it stands first.
pub open spec fn firsts(list: Seq<Point>) -> Seq<Point>
    decreases list.len(),
{
    if list.len() == 0 {
        Seq::empty()
    } else {
        let before = firsts(list.drop_last());
        if holds(before, list.last()) {
            before
        } else {
            before.push(list.last())
        }
    }
}

/// The point stands in the list.
pub open spec fn holds(list: Seq<Point>, p: Point) -> bool {
    exists|k: int| 0 <= k < list.len() && same(#[trigger] list[k], p)
}

/// No point stands twice in the list.
pub open spec fn distinct(list: Seq<Point>) -> bool {
    forall|i: int, j: int| 0 <= i < j < list.len() ==> !same(#[trigger] list[i], #[trigger] list[j])
}

/// What places a scanner: its number, its beacons in every orientation,
/// its place and its orientation.
pub ghost struct Placed {
    pub id: usize,
    pub lists: Seq<Seq<Point>>,
    pub position: Point,
    pub orientation: int,
}

impl Scanner {
    pub open spec fn data(&self) -> Placed {
        Placed {
            id: self.id,
            lists: lists_view(self.beacons@),
            position: self.position,
            orientation: self.orientation as int,
        }
    }
}

pub open spec fn datas(v: Seq<Scanner>) -> Seq<Placed> {
    Seq::new(v.len(), |i: int| v[i].data())
}

/// The beacons in the orientation of the scanner.
pub open spec fn seen_of(d: Placed) -> Seq<Point> {
    d.lists[d.orientation]
}

/// The beacons that a scanner sees, by where they are: taken from its place.
pub open spec fn sighted_by(d: Placed) -> Seq<Point> {
    Seq::new(seen_of(d).len(), |b: int| plus(seen_of(d)[b], d.position))
}

/// The beacons that the first `n` scanners see.
pub open spec fn sighted(scanners: Seq<Placed>, n: int) -> Seq<Point>
    decreases n,
{
    if n <= 0 || n > scanners.len() {
        Seq::empty()
    } else {
        sighted(scanners, n - 1) + sighted_by(scanners[n - 1])
    }
}

fn holds_point(list: &Vec<Point>, p: &Point) -> (r: bool)
    ensures
        r == holds(list@, *p),
{
    let mut i: usize = 0;
    while i < list.len()
        invariant
            i <= list.len(),
            forall|k: int| 0 <= k < i ==> !same(#[trigger] list[k], *p),
        decreases list.len() - i,
    {
        let q = list[i];
        if q[0] == p[0] && q[1] == p[1] && q[2] == p[2] {
            return true;
        }
        i += 1;
    }
    false
}

proof fn lemma_holds_push(list: Seq<Point>, q: Point)
    ensures
        forall|p: Point| #[trigger] holds(list.push(q), p) <==> holds(list, p) || same(q, p),
{
    assert forall|p: Point| #[trigger] holds(list.push(q), p) <==> holds(list, p) || same(q, p) by {
        let next = list.push(q);
        if holds(next, p) {
            let k = choose|k: int| 0 <= k < next.len() && same(#[trigger] next[k], p);
            if k < list.len() {
                assert(same(list[k], p));
            }
        }
        if holds(list, p) {
            let k = choose|k: int| 0 <= k < list.len() && same(#[trigger] list[k], p);
            assert(same(next[k], p));
        }
        if same(q, p) {
            assert(same(next[list.len() as int], p));
        }
    }
}

proof fn lemma_holds_same(list: Seq<Point>, q: Point, p: Point)
    requires
        holds(list, q),
        same(q, p),
    ensures
        holds(list, p),
{
    let k = choose|k: int| 0 <= k < list.len() && same(#[trigger] list[k], q);
    assert(same(list[k], p));
}

impl Scanner {
    /// The beacons that the scanners see, each once.
    pub fn find_beacons(scanners: &Vec<Scanner>) -> (ret: Vec<Point>)
        requires
            forall|i: int|
                0 <= i < scanners.len() ==> (#[trigger] scanners[i]).wf() && scanners[i].placed(),
        ensures
            distinct(ret@),
            forall|p: Point|
                #[trigger] holds(ret@, p) <==> holds(
                    sighted(datas(scanners@), scanners.len() as int),
                    p,
                ),
            ret@ == firsts(sighted(datas(scanners@), scanners.len() as int)),
    {
        let mut ret: Vec<Point> = Vec::new();
        let mut i: usize = 0;
        while i < scanners.len()
            invariant
                i <= scanners.len(),
                forall|k: int|
                    0 <= k < scanners.len() ==> (#[trigger] scanners[k]).wf() && scanners[k].placed(),
                distinct(ret@),
                forall|p: Point|
                    #[trigger] holds(ret@, p) <==> holds(sighted(datas(scanners@), i as int), p),
                ret@ == firsts(sighted(datas(scanners@), i as int)),
            decreases scanners.len() - i,
        {
            let s = &scanners[i];
            let seen = s.beacons();
            let ghost before = sighted(datas(scanners@), i as int);
            let ghost own = sighted_by(s.data());
            assert(seen_of(s.data()) == s.seen());
            let mut b: usize = 0;
            assert(before + own.take(0) =~= before);
            while b < seen.len()
                invariant
                    b <= seen.len(),
                    seen@ == s.seen(),
                    s.wf(),
                    s.placed(),
                    own == sighted_by(s.data()),
                    seen_of(s.data()) == s.seen(),
                    distinct(ret@),
                    forall|p: Point|
                        #[trigger] holds(ret@, p) <==> holds(before + own.take(b as int), p),
                    ret@ == firsts(before + own.take(b as int)),
                decreases seen.len() - b,
            {
                let q = seen[b];
                proof {
                    s.lemma_seen_within(b as int);
                }
                let beacon: Point = [q[0] + s.position[0], q[1] + s.position[1], q[2] + s.position[2]];
                proof {
                    assert(beacon == own[b as int]);
                    assert(before + own.take(b + 1) =~= (before + own.take(b as int)).push(beacon));
                    assert((before + own.take(b + 1)).drop_last() =~= before + own.take(b as int));
                    assert((before + own.take(b + 1)).last() == beacon);
                    lemma_holds_push(before + own.take(b as int), beacon);
                    lemma_holds_push(ret@, beacon);
                }
                if !holds_point(&ret, &beacon) {
                    proof {
                        let next = ret@.push(beacon);
                        assert forall|x: int, y: int| 0 <= x < y < next.len() implies !same(
                            #[trigger] next[x],
                            #[trigger] next[y],
                        ) by {
                            if y == ret.len() {
                                assert(same(ret@[x], beacon) ==> holds(ret@, beacon));
                            }
                        }
                    }
                    ret.push(beacon);
                } else {
                    proof {
                        assert forall|p: Point| same(beacon, p) implies holds(ret@, p) by {
                            lemma_holds_same(ret@, beacon, p);
                        }
                    }
                }
                b += 1;
            }
            proof {
                assert(own.take(b as int) =~= own);
            }
            i += 1;
        }
        ret
    }
}

// ----- reading -----
/// What a scanner has seen, as the text gives it.
pub ghost struct Sighting {
    pub id: usize,
    pub points: Seq<Point>,
}

/// The scanners that stand first, with the number 0, and the others.
pub ghost struct Reading {
    pub first: Seq<Sighting>,
    pub rest: Seq<Sighting>,
}

pub const DASHES: [u8; 3] = [45, 45, 45];

/// The number of the scanner that a heading names: its third word.
pub open spec fn header_id(line: Seq<u8>) -> Option<usize> {
    let parts = split(line, 32);
    if parts.len() >= 3 {
        match unsigned_value(parts[2]) {
            Some(v) => if v <= usize::MAX {
                Some(v as usize)
            } else {
                None
            },
            None => None,
        }
    } else {
        None
    }
}

/// A coordinate within the limit.
pub open spec fn coordinate(s: Seq<u8>) -> Option<i64> {
    match signed_value(s) {
        Some(v) => if -COORD_LIMIT <= v <= COORD_LIMIT {
            Some(v as i64)
        } else {
            None
        },
        None => None,
    }
}

/// The point that a line names: its first three numbers between commas.
pub open spec fn point_of(line: Seq<u8>) -> Option<Point> {
    let parts = split(line, 44);
    if parts.len() >= 3 {
        match (coordinate(parts[0]), coordinate(parts[1]), coordinate(parts[2])) {
            (Some(a), Some(b), Some(c)) => Some([a, b, c]),
            _ => None,
        }
    } else {
        None
    }
}

/// The list with the point added to its last scanner.
pub open spec fn with_point(list: Seq<Sighting>, p: Point) -> Seq<Sighting> {
    list.update(
        list.len() - 1,
        Sighting { id: list.last().id, points: list.last().points.push(p) },
    )
}

/// What is read after one more line: a heading starts a scanner, among
/// the first where its number is 0; a point goes to the last of the others,
/// or to the last of the first while there are no others. `None` where
/// the line is neither, or a point has no scanner to go to.
pub open spec fn read_line(st: Reading, line: Seq<u8>) -> Option<Reading> {
    if line.len() == 0 {
        Some(st)
    } else if has_prefix(line, DASHES@) {
        match header_id(line) {
            Some(id) => {
                let fresh = Sighting { id, points: Seq::empty() };
                if id == 0 {
                    Some(Reading { first: st.first.push(fresh), rest: st.rest })
                } else {
                    Some(Reading { first: st.first, rest: st.rest.push(fresh) })
                }
            },
            None => None,
        }
    } else {
        match point_of(line) {
            Some(p) => if st.rest.len() > 0 {
                Some(Reading { first: st.first, rest: with_point(st.rest, p) })
            } else if st.first.len() > 0 {
                Some(Reading { first: with_point(st.first, p), rest: st.rest })
            } else {
                None
            },
            None => None,
        }
    }
}

/// What is read after the first `n` lines.
pub open spec fn read_lines(ls: Seq<Seq<u8>>, n: int) -> Option<Reading>
    decreases n,
{
    if n <= 0 || n > ls.len() {
        Some(Reading { first: Seq::empty(), rest: Seq::empty() })
    } else {
        match read_lines(ls, n - 1) {
            Some(st) => read_line(st, ls[n - 1]),
            None => None,
        }
    }
}

/// The scanner holds the sighting, in `lists` orientations, and stands at
/// the origin, unturned and unchecked.
pub open spec fn is_seen(sc: Scanner, sg: Sighting, lists: int) -> bool {
    &&& sc.id == sg.id
    &&& sc.beacons.len() == lists
    &&& sc.beacons[0]@ == sg.points
    &&& sc.wf()
    &&& same(sc.position, [0, 0, 0])
    &&& sc.orientation == 0
    &&& !sc.checked
}

pub open spec fn are_seen(v: Seq<Scanner>, ss: Seq<Sighting>, lists: int) -> bool {
    &&& v.len() == ss.len()
    &&& forall|i: int| 0 <= i < v.len() ==> is_seen(#[trigger] v[i], ss[i], lists)
}

fn read_coordinate(s: &[u8]) -> (r: Option<i64>)
    ensures
        r == coordinate(s@),
{
    match parse_i64(s) {
        Some(v) => if -COORD_LIMIT <= v && v <= COORD_LIMIT {
            Some(v)
        } else {
            None
        },
        None => None,
    }
}

fn read_point(line: &[u8]) -> (r: Option<Point>)
    ensures
        r == point_of(line@),
{
    let parts = split_bytes(line, 44);
    assert(rows_view(parts@) == split(line@, 44));
    if parts.len() < 3 {
        return None;
    }
    assert(parts[0]@ == split(line@, 44)[0]);
    assert(parts[1]@ == split(line@, 44)[1]);
    assert(parts[2]@ == split(line@, 44)[2]);
    match (
        read_coordinate(parts[0].as_slice()),
        read_coordinate(parts[1].as_slice()),
        read_coordinate(parts[2].as_slice()),
    ) {
        (Some(a), Some(b), Some(c)) => Some([a, b, c]),
        _ => None,
    }
}

fn read_header(line: &[u8]) -> (r: Option<usize>)
    ensures
        r == header_id(line@),
{
    let parts = split_bytes(line, 32);
    assert(rows_view(parts@) == split(line@, 32));
    if parts.len() < 3 {
        return None;
    }
    assert(parts[2]@ == split(line@, 32)[2]);
    parse_usize(parts[2].as_slice())
}

proof fn lemma_unturned(p: Point)
    requires
        within(p, COORD_LIMIT as int),
    ensures
        same(p, turned(p, 0)),
{
    let rot = ROTATIONS[0];
    assert(rot[0][0] == 1 && rot[0][1] == 0 && rot[0][2] == 0);
    assert(rot[1][0] == 0 && rot[1][1] == 1 && rot[1][2] == 0);
    assert(rot[2][0] == 0 && rot[2][1] == 0 && rot[2][2] == 1);
}

/// Adds a point to the last scanner of the list.
fn add_point(scanners: &mut Vec<Scanner>, p: Point, Ghost(ss): Ghost<Seq<Sighting>>)
    requires
        old(scanners).len() > 0,
        are_seen(old(scanners)@, ss, 1),
        within(p, COORD_LIMIT as int),
    ensures
        are_seen(final(scanners)@, with_point(ss, p), 1),
{
    let ghost before = scanners@;
    let mut sc = scanners.pop().unwrap();
    assert(is_seen(sc, ss.last(), 1));
    let mut list = sc.beacons.pop().unwrap();
    list.push(p);
    sc.beacons.push(list);
    proof {
        lemma_unturned(p);
        assert forall|i: int| 0 <= i < sc.beacons[0].len() implies within(
            #[trigger] sc.beacons[0][i],
            COORD_LIMIT as int,
        ) && same(sc.beacons[0][i], turned(sc.beacons[0][i], 0)) by {
            if i < ss.last().points.len() {
                assert(sc.beacons[0][i] == before.last().beacons[0][i]);
                assert(same(before.last().beacons[0][i], turned(before.last().beacons[0][i], 0)));
            }
        }
    }
    scanners.push(sc);
    proof {
        let after = with_point(ss, p);
        assert forall|i: int| 0 <= i < scanners.len() implies is_seen(
            #[trigger] scanners[i],
            after[i],
            1,
        ) by {
            if i < scanners.len() - 1 {
                assert(scanners[i] == before[i]);
                assert(is_seen(before[i], ss[i], 1));
            }
        }
    }
}

/// The scanner with a list for every orientation.
fn complete_of(sc: &Scanner, Ghost(sg): Ghost<Sighting>) -> (r: Scanner)
    requires
        is_seen(*sc, sg, 1),
    ensures
        is_seen(r, sg, TURNS as int),
{
    let mut beacons: Vec<Vec<Point>> = Vec::new();
    let first = &sc.beacons[0];
    let mut rot_id: usize = 0;
    while rot_id < TURNS
        invariant
            rot_id <= TURNS,
            is_seen(*sc, sg, 1),
            first@ == sg.points,
            beacons.len() == rot_id,
            rot_id > 0 ==> beacons[0]@ == first@,
            forall|k: int| 0 <= k < rot_id ==> (#[trigger] beacons[k]).len() == first.len(),
            forall|k: int, i: int|
                0 <= k < rot_id && 0 <= i < first.len() ==> same(
                    #[trigger] beacons[k][i],
                    turned(first[i], k),
                ),
        decreases TURNS - rot_id,
    {
        let mut new_rot: Vec<Point> = Vec::new();
        let mut i: usize = 0;
        while i < first.len()
            invariant
                i <= first.len(),
                rot_id < TURNS,
                is_seen(*sc, sg, 1),
                first@ == sg.points,
                first@ == sc.beacons[0]@,
                new_rot.len() == i,
                rot_id == 0 ==> new_rot@ == first@.take(i as int),
                forall|j: int| 0 <= j < i ==> same(#[trigger] new_rot[j], turned(first[j], rot_id as int)),
            decreases first.len() - i,
        {
            assert(within(sc.beacons[0][i as int], COORD_LIMIT as int));
            if rot_id == 0 {
                proof {
                    lemma_unturned(first[i as int]);
                    assert(first@.take(i + 1) =~= first@.take(i as int).push(first[i as int]));
                }
                new_rot.push(first[i]);
            } else {
                new_rot.push(vector_rotate(&first[i], rot_id));
            }
            i += 1;
        }
        proof {
            assert(first@.take(i as int) =~= first@);
        }
        let ghost before = beacons@;
        beacons.push(new_rot);
        proof {
            assert forall|k: int, i: int|
                0 <= k < rot_id + 1 && 0 <= i < first.len() implies same(
                #[trigger] beacons[k][i],
                turned(first[i], k),
            ) by {
                if k < rot_id {
                    assert(beacons[k] == before[k]);
                }
            }
            assert forall|k: int| 0 <= k < rot_id + 1 implies (#[trigger] beacons[k]).len()
                == first.len() by {
                if k < rot_id {
                    assert(beacons[k] == before[k]);
                }
            }
            if rot_id > 0 {
                assert(beacons[0] == before[0]);
            }
        }
        rot_id += 1;
    }
    let r = Scanner { id: sc.id, beacons, position: [0, 0, 0], orientation: 0, checked: false };
    proof {
        assert forall|i: int| 0 <= i < r.beacons[0].len() implies within(
            #[trigger] r.beacons[0][i],
            COORD_LIMIT as int,
        ) by {
            assert(r.beacons[0][i] == sc.beacons[0][i]);
        }
    }
    r
}

impl Scanner {
    /// Reads the scanners: those with the number 0, which stand first and
    /// are placed, and the others, with their beacons in every orientation.
    pub fn from_input(data: &[u8]) -> (r: Result<(Vec<Scanner>, Vec<Scanner>), ParseError>)
        ensures
            match read_lines(lines(data@), lines(data@).len() as int) {
                Some(st) => match r {
                    Ok((first, rest)) => are_seen(first@, st.first, 1) && are_seen(
                        rest@,
                        st.rest,
                        TURNS as int,
                    ),
                    Err(_) => false,
                },
                None => r is Err && r->Err_0 == ParseError::Malformed,
            },
    {
        let rows = crate::text::split_lines(data);
        let ghost ls = lines(data@);
        let mut scanners_p: Vec<Scanner> = Vec::new();
        let mut scanners: Vec<Scanner> = Vec::new();
        let ghost st = Reading { first: Seq::empty(), rest: Seq::empty() };
        let mut n: usize = 0;
        while n < rows.len()
            invariant
                n <= rows.len(),
                rows_view(rows@) == ls,
                ls == lines(data@),
                read_lines(ls, n as int) == Some(st),
                are_seen(scanners_p@, st.first, 1),
                are_seen(scanners@, st.rest, 1),
            decreases rows.len() - n,
        {
            let line = rows[n].as_slice();
            assert(line@ == ls[n as int]);
            if line.len() == 0 {
            } else if starts_with(line, &DASHES) {
                let id = match read_header(line) {
                    Some(id) => id,
                    None => {
                        proof {
                            assert(read_lines(ls, n + 1) is None);
                            lemma_read_none(ls, n + 1, ls.len() as int);
                        }
                        return Err(ParseError::Malformed);
                    },
                };
                let mut lists: Vec<Vec<Point>> = Vec::new();
                lists.push(Vec::new());
                let current_scanner = Scanner {
                    id,
                    beacons: lists,
                    position: [0, 0, 0],
                    orientation: 0,
                    checked: false,
                };
                let ghost fresh = Sighting { id, points: Seq::empty() };
                assert(is_seen(current_scanner, fresh, 1));
                if id == 0 {
                    let ghost before = scanners_p@;
                    scanners_p.push(current_scanner);
                    proof {
                        st = Reading { first: st.first.push(fresh), rest: st.rest };
                        assert forall|i: int| 0 <= i < scanners_p.len() implies is_seen(
                            #[trigger] scanners_p[i],
                            st.first[i],
                            1,
                        ) by {
                            if i < before.len() {
                                assert(scanners_p[i] == before[i]);
                            }
                        }
                    }
                } else {
                    let ghost before = scanners@;
                    scanners.push(current_scanner);
                    proof {
                        st = Reading { first: st.first, rest: st.rest.push(fresh) };
                        assert forall|i: int| 0 <= i < scanners.len() implies is_seen(
                            #[trigger] scanners[i],
                            st.rest[i],
                            1,
                        ) by {
                            if i < before.len() {
                                assert(scanners[i] == before[i]);
                            }
                        }
                    }
                }
            } else {
                let p = match read_point(line) {
                    Some(p) => p,
                    None => {
                        proof {
                            assert(read_lines(ls, n + 1) is None);
                            lemma_read_none(ls, n + 1, ls.len() as int);
                        }
                        return Err(ParseError::Malformed);
                    },
                };
                if scanners.len() > 0 {
                    add_point(&mut scanners, p, Ghost(st.rest));
                    proof {
                        st = Reading { first: st.first, rest: with_point(st.rest, p) };
                    }
                } else if scanners_p.len() > 0 {
                    add_point(&mut scanners_p, p, Ghost(st.first));
                    proof {
                        st = Reading { first: with_point(st.first, p), rest: st.rest };
                    }
                } else {
                    proof {
                        assert(read_lines(ls, n + 1) is None);
                        lemma_read_none(ls, n + 1, ls.len() as int);
                    }
                    return Err(ParseError::Malformed);
                }
            }
            n += 1;
        }
        let mut rest: Vec<Scanner> = Vec::new();
        let mut k: usize = 0;
        while k < scanners.len()
            invariant
                k <= scanners.len(),
                are_seen(scanners@, st.rest, 1),
                rest.len() == k,
                forall|i: int| 0 <= i < k ==> is_seen(#[trigger] rest[i], st.rest[i], TURNS as int),
            decreases scanners.len() - k,
        {
            assert(is_seen(scanners[k as int], st.rest[k as int], 1));
            let sc = complete_of(&scanners[k], Ghost(st.rest[k as int]));
            let ghost before = rest@;
            rest.push(sc);
            proof {
                assert forall|i: int| 0 <= i < k + 1 implies is_seen(
                    #[trigger] rest[i],
                    st.rest[i],
                    TURNS as int,
                ) by {
                    if i < k {
                        assert(rest[i] == before[i]);
                    }
                }
            }
            k += 1;
        }
        Ok((scanners_p, rest))
    }
}

proof fn lemma_read_none(ls: Seq<Seq<u8>>, k: int, n: int)
    requires
        0 <= k <= n <= ls.len(),
        read_lines(ls, k) is None,
    ensures
        read_lines(ls, n) is None,
    decreases n,
{
    if k < n {
        lemma_read_none(ls, k, n - 1);
    }
}

// ----- placing -----
/// The scanner `s` is `u`, placed by `p`: in the orientation and at the
/// difference that are found first, taken from the place of `p`.
pub open spec fn found_by(p: Placed, u: Placed, s: Placed) -> bool {
    match located(seen_of(p), u.lists, 0) {
        Some((rot, q)) => s.id == u.id && s.lists == u.lists && s.orientation == rot && s.position
            == plus(q, p.position),
        None => false,
    }
}

/// One of the first `bound` placed scanners has placed `s`, which is one of `rest`.
pub open spec fn linked(placed: Seq<Placed>, rest: Seq<Placed>, s: Placed, bound: int) -> bool {
    exists|j: int, u: int|
        0 <= j < bound && j < placed.len() && 0 <= u < rest.len() && #[trigger] found_by(
            placed[j],
            rest[u],
            s,
        )
}

/// The placed scanners start with those that were placed from the
/// start, and each further one was placed by one that stands before it.
pub open spec fn is_chain(first: Seq<Placed>, rest: Seq<Placed>, placed: Seq<Placed>) -> bool {
    &&& first.len() <= placed.len()
    &&& forall|i: int| 0 <= i < first.len() ==> #[trigger] placed[i] == first[i]
    &&& forall|i: int| first.len() <= i < placed.len() ==> linked(placed, rest, #[trigger] placed[i], i)
}

/// The scanner `d` stands in the list, wherever it was placed.
pub open spec fn among(list: Seq<Placed>, d: Placed) -> bool {
    exists|i: int| 0 <= i < list.len() && (#[trigger] list[i]).id == d.id && list[i].lists == d.lists
}

/// None of the placed scanners can place `d`.
pub open spec fn unseen(placed: Seq<Placed>, d: Placed) -> bool {
    forall|j: int|
        0 <= j < placed.len() ==> located(seen_of(#[trigger] placed[j]), d.lists, 0) is None
}

/// Every scanner that can be placed by a placed one is placed.
pub open spec fn is_full(rest: Seq<Placed>, placed: Seq<Placed>) -> bool {
    forall|u: int| 0 <= u < rest.len() ==> among(placed, #[trigger] rest[u]) || unseen(placed, rest[u])
}

/// Places by `p` each of the scanners `np` that it can place, and adds
/// them to `found`; gives the others.
fn try_place(
    p: &Scanner,
    np: &Vec<Scanner>,
    found: &mut Vec<Scanner>,
    Ghost(bound): Ghost<int>,
) -> (l: Vec<Scanner>)
    requires
        p.wf(),
        0 <= bound,
        bound + 6 * COORD_LIMIT <= PLACE_LIMIT,
        within(p.position, bound),
        forall|m: int| 0 <= m < np.len() ==> (#[trigger] np[m]).wf() && np[m].complete(),
    ensures
        ({
                &&& final(found).len() + l.len() == old(found).len() + np.len()
                &&& final(found).len() >= old(found).len()
                &&& forall|i: int| 0 <= i < old(found).len() ==> #[trigger] final(found)[i] == old(found)[i]
                &&& forall|i: int|
                    old(found).len() <= i < final(found).len() ==> {
                        &&& (#[trigger] final(found)[i]).wf()
                        &&& within(final(found)[i].position, bound + 6 * COORD_LIMIT)
                        &&& !final(found)[i].checked
                        &&& exists|k: int|
                            0 <= k < np.len() && #[trigger] found_by(
                                p.data(),
                                np[k].data(),
                                final(found)[i].data(),
                            )
                    }
                &&& forall|m: int|
                    0 <= m < l.len() ==> {
                        &&& (#[trigger] l[m]).wf()
                        &&& l[m].complete()
                        &&& located(p.seen(), l[m].data().lists, 0) is None
                        &&& exists|k: int| 0 <= k < np.len() && l[m].data() == (#[trigger] np[k]).data()
                    }
                &&& forall|k: int|
                    0 <= k < np.len() ==> among(datas(l@), (#[trigger] np[k]).data()) || among(
                        datas(final(found)@),
                        np[k].data(),
                    )
        }),
{
    let mut left: Vec<Scanner> = Vec::new();
    let mut k: usize = 0;
    while k < np.len()
        invariant
            k <= np.len(),
            p.wf(),
            0 <= bound,
            bound + 6 * COORD_LIMIT <= PLACE_LIMIT,
            within(p.position, bound),
            forall|m: int| 0 <= m < np.len() ==> (#[trigger] np[m]).wf() && np[m].complete(),
            found.len() + left.len() == old(found).len() + k,
            found.len() >= old(found).len(),
            forall|i: int| 0 <= i < old(found).len() ==> #[trigger] found[i] == old(found)[i],
            forall|i: int|
                old(found).len() <= i < found.len() ==> {
                    &&& (#[trigger] found[i]).wf()
                    &&& within(found[i].position, bound + 6 * COORD_LIMIT)
                    &&& !found[i].checked
                    &&& exists|j: int|
                        0 <= j < np.len() && #[trigger] found_by(
                            p.data(),
                            np[j].data(),
                            found[i].data(),
                        )
                },
            forall|m: int|
                0 <= m < left.len() ==> {
                    &&& (#[trigger] left[m]).wf()
                    &&& left[m].complete()
                    &&& located(p.seen(), left[m].data().lists, 0) is None
                    &&& exists|j: int| 0 <= j < np.len() && left[m].data() == (#[trigger] np[j]).data()
                },
            forall|j: int|
                0 <= j < k ==> among(datas(left@), (#[trigger] np[j]).data()) || among(
                    datas(found@),
                    np[j].data(),
                ),
        decreases np.len() - k,
    {
        let scan_u = &np[k];
        let ghost found_before = found@;
        let ghost left_before = left@;
        match p.find_rel_scanner_position(scan_u) {
            Some(s) => {
                let c = s.copy();
                proof {
                    s.lemma_same_lists(&c);
                    assert(seen_of(p.data()) == p.seen());
                    assert(found_by(p.data(), np[k as int].data(), c.data()));
                }
                found.push(c);
                proof {
                    assert forall|i: int| old(found).len() <= i < found.len() implies {
                        &&& (#[trigger] found[i]).wf()
                        &&& within(found[i].position, bound + 6 * COORD_LIMIT)
                        &&& !found[i].checked
                        &&& exists|j: int|
                            0 <= j < np.len() && #[trigger] found_by(
                                p.data(),
                                np[j].data(),
                                found[i].data(),
                            )
                    } by {
                        if i < found_before.len() {
                            assert(found[i] == found_before[i]);
                        }
                    }
                    assert forall|j: int| 0 <= j < k + 1 implies among(
                        datas(left@),
                        (#[trigger] np[j]).data(),
                    ) || among(datas(found@), np[j].data()) by {
                        if j < k {
                            if among(datas(found_before), np[j].data()) {
                                let i = choose|i: int|
                                    0 <= i < datas(found_before).len() && (#[trigger] datas(
                                        found_before,
                                    )[i]).id == np[j].data().id && datas(found_before)[i].lists
                                        == np[j].data().lists;
                                assert(datas(found@)[i] == datas(found_before)[i]);
                            }
                        } else {
                            assert(datas(found@)[found.len() - 1] == c.data());
                        }
                    }
                }
            },
            None => {
                let c = scan_u.copy();
                proof {
                    scan_u.lemma_same_lists(&c);
                    assert(c.data() == np[k as int].data());
                }
                left.push(c);
                proof {
                    assert forall|m: int| 0 <= m < left.len() implies {
                        &&& (#[trigger] left[m]).wf()
                        &&& left[m].complete()
                        &&& located(p.seen(), left[m].data().lists, 0) is None
                        &&& exists|j: int|
                            0 <= j < np.len() && left[m].data() == (#[trigger] np[j]).data()
                    } by {
                        if m < left_before.len() {
                            assert(left[m] == left_before[m]);
                        }
                    }
                    assert forall|j: int| 0 <= j < k + 1 implies among(
                        datas(left@),
                        (#[trigger] np[j]).data(),
                    ) || among(datas(found@), np[j].data()) by {
                        if j < k {
                            if among(datas(left_before), np[j].data()) {
                                let i = choose|i: int|
                                    0 <= i < datas(left_before).len() && (#[trigger] datas(
                                        left_before,
                                    )[i]).id == np[j].data().id && datas(left_before)[i].lists
                                        == np[j].data().lists;
                                assert(datas(left@)[i] == datas(left_before)[i]);
                            }
                        } else {
                            assert(datas(left@)[left.len() - 1] == c.data());
                        }
                    }
                }
            },
        }
        k += 1;
    }
    left
}

/// The scanner is one of `rest`.
pub open spec fn is_of(rest: Seq<Placed>, d: Placed) -> bool {
    exists|u: int| 0 <= u < rest.len() && #[trigger] rest[u] == d
}

/// Each scanner of the list is one of `rest`.
pub open spec fn drawn_from(list: Seq<Placed>, rest: Seq<Placed>) -> bool {
    forall|m: int| 0 <= m < list.len() ==> is_of(rest, #[trigger] list[m])
}

/// No scanner that is checked can place one of the list.
pub open spec fn checked_in_vain(placed: Seq<Scanner>, list: Seq<Placed>) -> bool {
    forall|j: int, m: int|
        0 <= j < placed.len() && 0 <= m < list.len() && (#[trigger] placed[j]).checked ==> located(
            placed[j].seen(),
            (#[trigger] list[m]).lists,
            0,
        ) is None
}

/// Every scanner of the list is in order and within the limit.
pub open spec fn all_placed(list: Seq<Scanner>) -> bool {
    forall|i: int| 0 <= i < list.len() ==> (#[trigger] list[i]).wf() && list[i].placed()
}

/// Every scanner of the list is in order and has every orientation.
pub open spec fn all_complete(list: Seq<Scanner>) -> bool {
    forall|m: int| 0 <= m < list.len() ==> (#[trigger] list[m]).wf() && list[m].complete()
}

/// What holds while the placed scanners take their turns: `pd` are the
/// placed scanners, `found` those that they have placed in this round,
/// `np` those that are left, and the first `idx` placed ones are checked.
pub open spec fn round_inv(
    f: Seq<Placed>,
    r: Seq<Placed>,
    pd: Seq<Placed>,
    placed: Seq<Scanner>,
    found: Seq<Scanner>,
    np: Seq<Scanner>,
    idx: int,
) -> bool {
    &&& datas(placed) == pd
    &&& is_chain(f, r, pd)
    &&& all_placed(placed)
    &&& all_placed(found)
    &&& forall|i: int|
        0 <= i < found.len() ==> !(#[trigger] found[i]).checked && linked(
            pd,
            r,
            found[i].data(),
            pd.len() as int,
        )
    &&& all_complete(np)
    &&& drawn_from(datas(np), r)
    &&& forall|u: int|
        0 <= u < r.len() ==> among(pd, #[trigger] r[u]) || among(datas(found), r[u]) || among(
            datas(np),
            r[u],
        )
    &&& checked_in_vain(placed, datas(np))
    &&& forall|j: int| 0 <= j < idx && j < placed.len() ==> (#[trigger] placed[j]).checked
}

/// What holds between the rounds.
pub open spec fn outer_inv(
    f: Seq<Placed>,
    r: Seq<Placed>,
    placed: Seq<Scanner>,
    np: Seq<Scanner>,
    found: bool,
) -> bool {
    &&& is_chain(f, r, datas(placed))
    &&& all_placed(placed)
    &&& all_complete(np)
    &&& drawn_from(datas(np), r)
    &&& forall|u: int|
        0 <= u < r.len() ==> among(datas(placed), #[trigger] r[u]) || among(datas(np), r[u])
    &&& checked_in_vain(placed, datas(np))
    &&& !found ==> forall|j: int| 0 <= j < placed.len() ==> (#[trigger] placed[j]).checked
}

proof fn lemma_among_same(list: Seq<Placed>, a: Placed, b: Placed)
    requires
        among(list, a),
        a.id == b.id,
        a.lists == b.lists,
    ensures
        among(list, b),
{
    let i = choose|i: int|
        0 <= i < list.len() && (#[trigger] list[i]).id == a.id && list[i].lists == a.lists;
    assert(list[i].id == b.id && list[i].lists == b.lists);
}

proof fn lemma_among_grows(list: Seq<Placed>, more: Seq<Placed>, a: Placed)
    requires
        among(list, a),
        list.len() <= more.len(),
        forall|i: int| 0 <= i < list.len() ==> #[trigger] more[i] == list[i],
    ensures
        among(more, a),
{
    let i = choose|i: int|
        0 <= i < list.len() && (#[trigger] list[i]).id == a.id && list[i].lists == a.lists;
    assert(more[i].id == a.id && more[i].lists == a.lists);
}

/// The turn of one placed scanner keeps what holds in a round.
proof fn lemma_turn(
    f: Seq<Placed>,
    r: Seq<Placed>,
    pd: Seq<Placed>,
    before: Seq<Scanner>,
    placed: Seq<Scanner>,
    new_old: Seq<Scanner>,
    found: Seq<Scanner>,
    np_old: Seq<Scanner>,
    left: Seq<Scanner>,
    idx: int,
)
    requires
        round_inv(f, r, pd, before, new_old, np_old, idx),
        0 <= idx < before.len(),
        placed.len() == before.len(),
        placed[idx].checked,
        placed[idx].data() == before[idx].data(),
        forall|j: int| 0 <= j < before.len() && j != idx ==> #[trigger] placed[j] == before[j],
        found.len() >= new_old.len(),
        forall|i: int| 0 <= i < new_old.len() ==> #[trigger] found[i] == new_old[i],
        forall|i: int|
            new_old.len() <= i < found.len() ==> {
                &&& (#[trigger] found[i]).wf()
                &&& found[i].placed()
                &&& !found[i].checked
                &&& exists|k: int|
                    0 <= k < np_old.len() && #[trigger] found_by(
                        placed[idx].data(),
                        np_old[k].data(),
                        found[i].data(),
                    )
            },
        forall|m: int|
            0 <= m < left.len() ==> {
                &&& (#[trigger] left[m]).wf()
                &&& left[m].complete()
                &&& located(placed[idx].seen(), left[m].data().lists, 0) is None
                &&& exists|k: int| 0 <= k < np_old.len() && left[m].data() == (#[trigger] np_old[k]).data()
            },
        forall|k: int|
            0 <= k < np_old.len() ==> among(datas(left), (#[trigger] np_old[k]).data()) || among(
                datas(found),
                np_old[k].data(),
            ),
    ensures
        round_inv(f, r, pd, placed, found, left, idx + 1),
{
    let p = placed[idx];
    assert(datas(placed) =~= pd) by {
        assert forall|j: int| 0 <= j < placed.len() implies datas(placed)[j] == pd[j] by {
            assert(datas(before)[j] == before[j].data());
        }
    }
    assert(all_placed(placed)) by {
        assert forall|i: int| 0 <= i < placed.len() implies (#[trigger] placed[i]).wf()
            && placed[i].placed() by {
            assert(before[i].wf() && before[i].placed());
            if i == idx {
                before[i].lemma_same_lists(&placed[i]);
            }
        }
    }
    assert forall|i: int| 0 <= i < found.len() implies (#[trigger] found[i]).wf()
        && found[i].placed() && !found[i].checked && linked(
        pd,
        r,
        found[i].data(),
        pd.len() as int,
    ) by {
        if i < new_old.len() {
            assert(found[i] == new_old[i]);
        } else {
            let k = choose|k: int|
                0 <= k < np_old.len() && #[trigger] found_by(
                    p.data(),
                    np_old[k].data(),
                    found[i].data(),
                );
            assert(is_of(r, datas(np_old)[k]));
            let u = choose|u: int| 0 <= u < r.len() && #[trigger] r[u] == datas(np_old)[k];
            assert(pd[idx] == p.data());
            assert(found_by(pd[idx], r[u], found[i].data()));
        }
    }
    assert(all_complete(left));
    assert forall|m: int| 0 <= m < datas(left).len() implies is_of(r, #[trigger] datas(left)[m]) by {
        let k = choose|k: int|
            0 <= k < np_old.len() && left[m].data() == (#[trigger] np_old[k]).data();
        assert(is_of(r, datas(np_old)[k]));
        let u = choose|u: int| 0 <= u < r.len() && #[trigger] r[u] == datas(np_old)[k];
        assert(r[u] == datas(left)[m]);
    }
    assert forall|u: int| 0 <= u < r.len() implies among(pd, #[trigger] r[u]) || among(
        datas(found),
        r[u],
    ) || among(datas(left), r[u]) by {
        if among(pd, r[u]) {
        } else if among(datas(new_old), r[u]) {
            assert forall|i: int| 0 <= i < datas(new_old).len() implies #[trigger] datas(found)[i]
                == datas(new_old)[i] by {
                assert(found[i] == new_old[i]);
            }
            lemma_among_grows(datas(new_old), datas(found), r[u]);
        } else {
            let m = choose|m: int|
                0 <= m < datas(np_old).len() && (#[trigger] datas(np_old)[m]).id == r[u].id
                    && datas(np_old)[m].lists == r[u].lists;
            assert(datas(np_old)[m] == np_old[m].data());
            if among(datas(left), np_old[m].data()) {
                lemma_among_same(datas(left), np_old[m].data(), r[u]);
            } else {
                lemma_among_same(datas(found), np_old[m].data(), r[u]);
            }
        }
    }
    assert forall|j: int, m: int|
        0 <= j < placed.len() && 0 <= m < datas(left).len() && (
        #[trigger] placed[j]).checked implies located(
        placed[j].seen(),
        (#[trigger] datas(left)[m]).lists,
        0,
    ) is None by {
        assert(datas(left)[m] == left[m].data());
        if j != idx {
            assert(before[j].checked);
            let k = choose|k: int|
                0 <= k < np_old.len() && left[m].data() == (#[trigger] np_old[k]).data();
            assert(datas(np_old)[k] == np_old[k].data());
            assert(located(before[j].seen(), datas(np_old)[k].lists, 0) is None);
        }
    }
    assert forall|j: int| 0 <= j < idx + 1 && j < placed.len() implies (
    #[trigger] placed[j]).checked by {
        if j < idx {
            assert(before[j].checked);
        }
    }
}

/// A scanner that is checked already keeps what holds in a round.
proof fn lemma_skip(
    f: Seq<Placed>,
    r: Seq<Placed>,
    pd: Seq<Placed>,
    placed: Seq<Scanner>,
    found: Seq<Scanner>,
    np: Seq<Scanner>,
    idx: int,
)
    requires
        round_inv(f, r, pd, placed, found, np, idx),
        0 <= idx < placed.len(),
        placed[idx].checked,
    ensures
        round_inv(f, r, pd, placed, found, np, idx + 1),
{
    assert forall|j: int| 0 <= j < idx + 1 && j < placed.len() implies (
    #[trigger] placed[j]).checked by {}
}

/// The chain goes on through the scanners that were found in a round.
proof fn lemma_chain_grows(
    f: Seq<Placed>,
    r: Seq<Placed>,
    pd: Seq<Placed>,
    more: Seq<Placed>,
)
    requires
        is_chain(f, r, pd),
        forall|i: int| 0 <= i < more.len() ==> linked(pd, r, #[trigger] more[i], pd.len() as int),
    ensures
        is_chain(f, r, pd + more),
{
    let now = pd + more;
    let n0 = pd.len() as int;
    assert forall|i: int| f.len() <= i < now.len() implies linked(now, r, #[trigger] now[i], i) by {
        if i < n0 {
            assert(now[i] == pd[i]);
            assert(linked(pd, r, pd[i], i));
            let (j, u) = choose|j: int, u: int|
                0 <= j < i && j < pd.len() && 0 <= u < r.len() && #[trigger] found_by(
                    pd[j],
                    r[u],
                    pd[i],
                );
            assert(now[j] == pd[j]);
            assert(found_by(now[j], r[u], now[i]));
        } else {
            assert(now[i] == more[i - n0]);
            assert(linked(pd, r, more[i - n0], n0));
            let (j, u) = choose|j: int, u: int|
                0 <= j < n0 && j < pd.len() && 0 <= u < r.len() && #[trigger] found_by(
                    pd[j],
                    r[u],
                    more[i - n0],
                );
            assert(now[j] == pd[j]);
            assert(found_by(now[j], r[u], now[i]));
        }
    }
    assert forall|i: int| 0 <= i < f.len() implies #[trigger] now[i] == f[i] by {
        assert(pd[i] == f[i]);
    }
}

/// A scanner that stands among the placed ones or among those that were
/// found stands among all of them.
proof fn lemma_among_both(pd: Seq<Placed>, more: Seq<Placed>, d: Placed)
    requires
        among(pd, d) || among(more, d),
    ensures
        among(pd + more, d),
{
    let now = pd + more;
    if among(pd, d) {
        assert forall|i: int| 0 <= i < pd.len() implies #[trigger] now[i] == pd[i] by {}
        lemma_among_grows(pd, now, d);
    } else {
        let i = choose|i: int|
            0 <= i < more.len() && (#[trigger] more[i]).id == d.id && more[i].lists == d.lists;
        assert(now[pd.len() + i] == more[i]);
    }
}

/// At the end of a round, the scanners that were found join the placed ones.
proof fn lemma_round_done(
    f: Seq<Placed>,
    r: Seq<Placed>,
    pd: Seq<Placed>,
    placed: Seq<Scanner>,
    found: Seq<Scanner>,
    np: Seq<Scanner>,
)
    requires
        round_inv(f, r, pd, placed, found, np, placed.len() as int),
    ensures
        outer_inv(f, r, placed + found, np, found.len() > 0),
{
    let all = placed + found;
    let now = datas(all);
    let n0 = placed.len() as int;
    assert(now =~= pd + datas(found)) by {
        assert forall|i: int| 0 <= i < now.len() implies now[i] == (pd + datas(found))[i] by {
            if i < n0 {
                assert(all[i] == placed[i]);
                assert(datas(placed)[i] == placed[i].data());
            } else {
                assert(all[i] == found[i - n0]);
            }
        }
    }
    assert forall|i: int| 0 <= i < datas(found).len() implies linked(
        pd,
        r,
        #[trigger] datas(found)[i],
        pd.len() as int,
    ) by {
        assert(!found[i].checked);
    }
    lemma_chain_grows(f, r, pd, datas(found));
    assert forall|i: int| 0 <= i < all.len() implies (#[trigger] all[i]).wf() && all[i].placed() by {
        if i < n0 {
            assert(all[i] == placed[i]);
        } else {
            assert(all[i] == found[i - n0]);
        }
    }
    assert forall|u: int| 0 <= u < r.len() implies among(now, #[trigger] r[u]) || among(
        datas(np),
        r[u],
    ) by {
        if among(pd, r[u]) || among(datas(found), r[u]) {
            lemma_among_both(pd, datas(found), r[u]);
        }
    }
    assert(checked_in_vain(all, datas(np))) by {
        assert forall|j: int, m: int|
            0 <= j < all.len() && 0 <= m < datas(np).len() && (
            #[trigger] all[j]).checked implies located(
            all[j].seen(),
            (#[trigger] datas(np)[m]).lists,
            0,
        ) is None by {
            if j < n0 {
                assert(all[j] == placed[j]);
            } else {
                assert(all[j] == found[j - n0]);
            }
        }
    }
    if found.len() == 0 {
        assert forall|j: int| 0 <= j < all.len() implies (#[trigger] all[j]).checked by {
            assert(all[j] == placed[j]);
        }
    }
}

/// When a round has found nothing, every scanner that can be placed is placed.
proof fn lemma_all_done(f: Seq<Placed>, r: Seq<Placed>, placed: Seq<Scanner>, np: Seq<Scanner>)
    requires
        outer_inv(f, r, placed, np, false),
    ensures
        is_full(r, datas(placed)),
{
    let now = datas(placed);
    assert forall|u: int| 0 <= u < r.len() implies among(now, #[trigger] r[u]) || unseen(
        now,
        r[u],
    ) by {
        if !among(now, r[u]) {
            let left = datas(np);
            let m = choose|m: int|
                0 <= m < left.len() && (#[trigger] left[m]).id == r[u].id && left[m].lists
                    == r[u].lists;
            assert forall|j: int| 0 <= j < now.len() implies located(
                seen_of(#[trigger] now[j]),
                r[u].lists,
                0,
            ) is None by {
                assert(placed[j].checked);
                assert(seen_of(now[j]) == placed[j].seen());
                assert(located(placed[j].seen(), left[m].lists, 0) is None);
            }
        }
    }
}

/// At the start, nothing is checked and every scanner is still to be placed.
proof fn lemma_start(first: Seq<Scanner>, rest: Seq<Scanner>)
    requires
        all_placed(first),
        forall|i: int| 0 <= i < first.len() ==> !(#[trigger] first[i]).checked,
        all_complete(rest),
    ensures
        outer_inv(datas(first), datas(rest), first, rest, true),
{
    let r = datas(rest);
    assert forall|m: int| 0 <= m < r.len() implies is_of(r, #[trigger] r[m]) by {}
    assert forall|u: int| 0 <= u < r.len() implies among(datas(first), #[trigger] r[u]) || among(
        r,
        r[u],
    ) by {
        assert(r[u].id == r[u].id);
    }
}

/// The start of a round: nothing is found yet.
proof fn lemma_round_start(f: Seq<Placed>, r: Seq<Placed>, placed: Seq<Scanner>, np: Seq<Scanner>)
    requires
        outer_inv(f, r, placed, np, true),
    ensures
        round_inv(f, r, datas(placed), placed, Seq::empty(), np, 0),
{
}

/// The greatest number of scanners that are placed by others.
pub const MAX_SCANNERS: u64 = 100_000_000_000;

/// How far from the origin, along an axis, a scanner may lie that was
/// placed through `k` others and fewer.
pub open spec fn reach(k: int) -> int {
    300_000_000_000_000_000 + 6_000_000 * k
}

/// Every scanner of the list lies within the bound.
pub open spec fn all_within(list: Seq<Scanner>, bound: int) -> bool {
    forall|i: int| 0 <= i < list.len() ==> within((#[trigger] list[i]).position, bound)
}

impl Scanner {
    /// Places the scanners of `rest` by those that are placed already,
    /// one by another, until no placed scanner can place a further one.
    pub fn place_all(first: Vec<Scanner>, rest: Vec<Scanner>) -> (placed: Vec<Scanner>)
        requires
            all_placed(first@),
            all_within(first@, reach(0)),
            forall|i: int| 0 <= i < first.len() ==> !(#[trigger] first[i]).checked,
            all_complete(rest@),
            rest.len() <= MAX_SCANNERS,
        ensures
            is_chain(datas(first@), datas(rest@), datas(placed@)),
            is_full(datas(rest@), datas(placed@)),
            all_placed(placed@),
    {
        let ghost f = datas(first@);
        let ghost r = datas(rest@);
        let ghost total = rest.len() as int;
        let mut positionned = first;
        let mut not_positionned = rest;
        let mut found = true;
        proof {
            lemma_start(positionned@, not_positionned@);
        }
        while found
            invariant
                outer_inv(f, r, positionned@, not_positionned@, found),
                total <= MAX_SCANNERS,
                not_positionned.len() <= total,
                all_within(positionned@, reach(total - not_positionned.len())),
            decreases
                    not_positionned.len(),
                    (if found {
                        1int
                    } else {
                        0int
                    }),
        {
            let mut positionned_new: Vec<Scanner> = Vec::new();
            let n0 = positionned.len();
            let ghost pd = datas(positionned@);
            let ghost np_start = not_positionned.len();
            let mut idx: usize = 0;
            proof {
                lemma_round_start(f, r, positionned@, not_positionned@);
            }
            while idx < n0
                invariant
                    idx <= n0,
                    positionned.len() == n0,
                    round_inv(
                        f,
                        r,
                        pd,
                        positionned@,
                        positionned_new@,
                        not_positionned@,
                        idx as int,
                    ),
                    not_positionned.len() + positionned_new.len() == np_start,
                    total <= MAX_SCANNERS,
                    np_start <= total,
                    all_within(positionned@, reach(total - not_positionned.len())),
                    all_within(positionned_new@, reach(total - not_positionned.len())),
                decreases n0 - idx,
            {
                if !positionned[idx].checked {
                    let ghost before = positionned@;
                    let ghost bound = reach(total - not_positionned.len());
                    positionned[idx].checked = true;
                    let ghost np_old = not_positionned@;
                    let ghost new_old = positionned_new@;
                    proof {
                        assert(before[idx as int].wf() && before[idx as int].placed());
                        before[idx as int].lemma_same_lists(&positionned[idx as int]);
                        assert(within(before[idx as int].position, bound));
                        assert forall|i: int| 0 <= i < positionned.len() implies within(
                            (#[trigger] positionned[i]).position,
                            bound,
                        ) by {
                            assert(within(before[i].position, bound));
                        }
                    }
                    let left = try_place(
                        &positionned[idx],
                        &not_positionned,
                        &mut positionned_new,
                        Ghost(bound),
                    );
                    proof {
                        let after = reach(total - left.len());
                        assert forall|i: int| 0 <= i < positionned_new.len() implies within(
                            (#[trigger] positionned_new[i]).position,
                            after,
                        ) by {
                            if i < new_old.len() {
                                assert(positionned_new[i] == new_old[i]);
                                assert(within(new_old[i].position, bound));
                            }
                        }
                        assert forall|i: int|
                            new_old.len() <= i < positionned_new.len() implies (
                        #[trigger] positionned_new[i]).placed() by {
                            assert(within(positionned_new[i].position, bound + 6 * COORD_LIMIT));
                        }
                        assert forall|i: int| 0 <= i < positionned.len() implies within(
                            (#[trigger] positionned[i]).position,
                            after,
                        ) by {
                            assert(within(positionned[i].position, bound));
                        }
                        lemma_turn(
                            f,
                            r,
                            pd,
                            before,
                            positionned@,
                            new_old,
                            positionned_new@,
                            np_old,
                            left@,
                            idx as int,
                        );
                    }
                    not_positionned = left;
                } else {
                    proof {
                        lemma_skip(
                            f,
                            r,
                            pd,
                            positionned@,
                            positionned_new@,
                            not_positionned@,
                            idx as int,
                        );
                    }
                }
                idx += 1;
            }
            found = positionned_new.len() > 0;
            proof {
                lemma_round_done(f, r, pd, positionned@, positionned_new@, not_positionned@);
            }
            let ghost before = positionned@;
            let ghost added = positionned_new@;
            positionned.append(&mut positionned_new);
            proof {
                assert forall|i: int| 0 <= i < positionned.len() implies within(
                    (#[trigger] positionned[i]).position,
                    reach(total - not_positionned.len()),
                ) by {
                    if i < before.len() {
                        assert(positionned[i] == before[i]);
                    } else {
                        assert(positionned[i] == added[i - before.len()]);
                    }
                }
            }
        }
        proof {
            lemma_all_done(f, r, positionned@, not_positionned@);
        }
        positionned
    }
}

// ----- the answers -----
/// The distance between two places along the axes.
pub open spec fn apart(p: Point, q: Point) -> nat {
    vstd::math::abs(p[0] - q[0]) + vstd::math::abs(p[1] - q[1]) + vstd::math::abs(p[2] - q[2])
}

/// `d` is the greatest distance between two of the scanners.
pub open spec fn is_widest(placed: Seq<Placed>, d: int) -> bool {
    &&& forall|i: int, j: int|
        0 <= i < placed.len() && 0 <= j < placed.len() ==> apart(
            (#[trigger] placed[i]).position,
            (#[trigger] placed[j]).position,
        ) <= d
    &&& d == 0 || exists|i: int, j: int|
        0 <= i < placed.len() && 0 <= j < placed.len() && apart(
            (#[trigger] placed[i]).position,
            (#[trigger] placed[j]).position,
        ) == d
}

/// The scanner holds the sighting in `lists` orientations, at the origin
/// and unturned.
pub open spec fn holds_sighting(d: Placed, sg: Sighting, lists: int) -> bool {
    &&& d.id == sg.id
    &&& d.lists.len() == lists
    &&& d.lists[0] == sg.points
    &&& forall|k: int, i: int|
        0 <= k < lists && 0 <= i < sg.points.len() ==> d.lists[k].len() == sg.points.len() && same(
            #[trigger] d.lists[k][i],
            turned(sg.points[i], k),
        )
    &&& same(d.position, [0, 0, 0])
    &&& d.orientation == 0
}

pub open spec fn hold_sightings(ds: Seq<Placed>, ss: Seq<Sighting>, lists: int) -> bool {
    &&& ds.len() == ss.len()
    &&& forall|i: int| 0 <= i < ds.len() ==> holds_sighting(#[trigger] ds[i], ss[i], lists)
}

/// `count` and `dist` are the answers for what was read: the number of
/// beacons that the placed scanners see and the greatest distance between
/// two of them, where the scanners are placed one by another, starting
/// from those with the number 0, until none can be placed any more.
pub open spec fn is_outcome(st: Reading, count: usize, dist: i64) -> bool {
    exists|f: Seq<Placed>, r: Seq<Placed>, placed: Seq<Placed>, list: Seq<Point>|
        {
            &&& hold_sightings(f, st.first, 1)
            &&& hold_sightings(r, st.rest, TURNS as int)
            &&& #[trigger] is_chain(f, r, placed)
            &&& is_full(r, placed)
            &&& #[trigger] lists_beacons(list, placed)
            &&& list.len() == count
            &&& is_widest(placed, dist as int)
        }
}

/// The list holds the beacons that the scanners see, each once.
pub open spec fn lists_beacons(list: Seq<Point>, placed: Seq<Placed>) -> bool {
    &&& distinct(list)
    &&& forall|p: Point|
        holds(list, p) <==> #[trigger] holds(sighted(placed, placed.len() as int), p)
}

proof fn lemma_hold_sightings(v: Seq<Scanner>, ss: Seq<Sighting>, lists: int)
    requires
        are_seen(v, ss, lists),
    ensures
        hold_sightings(datas(v), ss, lists),
{
    assert forall|i: int| 0 <= i < v.len() implies holds_sighting(
        #[trigger] datas(v)[i],
        ss[i],
        lists,
    ) by {
        let sc = v[i];
        let d = sc.data();
        assert(is_seen(sc, ss[i], lists));
        assert(d.lists[0] == sc.beacons[0]@);
        assert forall|k: int, j: int|
            0 <= k < lists && 0 <= j < ss[i].points.len() implies d.lists[k].len()
            == ss[i].points.len() && same(#[trigger] d.lists[k][j], turned(ss[i].points[j], k)) by {
            assert(d.lists[k] == sc.beacons[k]@);
            assert(sc.beacons[k].len() == sc.beacons[0].len());
            assert(same(sc.beacons[k][j], turned(sc.beacons[0][j], k)));
        }
    }
}

/// The greatest distance between two of the scanners.
pub fn widest(placed: &Vec<Scanner>) -> (d: i64)
    requires
        all_placed(placed@),
    ensures
        is_widest(datas(placed@), d as int),
{
    let mut max_dist: i64 = 0;
    let ghost ds = datas(placed@);
    let mut i: usize = 0;
    while i < placed.len()
        invariant
            i <= placed.len(),
            all_placed(placed@),
            ds == datas(placed@),
            0 <= max_dist,
            forall|a: int, b: int|
                0 <= a < i && 0 <= b < ds.len() ==> apart(
                    (#[trigger] ds[a]).position,
                    (#[trigger] ds[b]).position,
                ) <= max_dist,
            max_dist == 0 || exists|a: int, b: int|
                0 <= a < ds.len() && 0 <= b < ds.len() && apart(
                    (#[trigger] ds[a]).position,
                    (#[trigger] ds[b]).position,
                ) == max_dist,
        decreases placed.len() - i,
    {
        let mut j: usize = 0;
        while j < placed.len()
            invariant
                i < placed.len(),
                j <= placed.len(),
                all_placed(placed@),
                ds == datas(placed@),
                0 <= max_dist,
                forall|a: int, b: int|
                    0 <= a < i && 0 <= b < ds.len() ==> apart(
                        (#[trigger] ds[a]).position,
                        (#[trigger] ds[b]).position,
                    ) <= max_dist,
                forall|b: int|
                    0 <= b < j ==> apart(ds[i as int].position, (#[trigger] ds[b]).position)
                        <= max_dist,
                max_dist == 0 || exists|a: int, b: int|
                    0 <= a < ds.len() && 0 <= b < ds.len() && apart(
                        (#[trigger] ds[a]).position,
                        (#[trigger] ds[b]).position,
                    ) == max_dist,
            decreases placed.len() - j,
        {
            let d = placed[i].manhattan(&placed[j]);
            assert(d == apart(ds[i as int].position, ds[j as int].position));
            if d > max_dist {
                max_dist = d;
            }
            j += 1;
        }
        i += 1;
    }
    max_dist
}

/// The number of beacons that the placed scanners see and the greatest
/// distance between two of them.
pub fn run(contents: &str) -> (r: Result<(usize, i64), PuzzleError>)
    ensures
        match read_lines(lines(bytes_of(contents@)), lines(bytes_of(contents@)).len() as int) {
            Some(st) => if st.rest.len() <= MAX_SCANNERS {
                match r {
                    Ok((count, dist)) => is_outcome(st, count, dist),
                    Err(_) => false,
                }
            } else {
                r == Err::<(usize, i64), PuzzleError>(PuzzleError::TooLarge)
            },
            None => r == Err::<(usize, i64), PuzzleError>(PuzzleError::Parse(ParseError::Malformed)),
        },
{
    let (first, rest) = match Scanner::from_input(contents.as_bytes()) {
        Ok(p) => p,
        Err(e) => {
            return Err(PuzzleError::Parse(e));
        },
    };
    let ghost st = read_lines(
        lines(bytes_of(contents@)),
        lines(bytes_of(contents@)).len() as int,
    ).unwrap();
    let ghost f = datas(first@);
    let ghost rs = datas(rest@);
    proof {
        lemma_hold_sightings(first@, st.first, 1);
        lemma_hold_sightings(rest@, st.rest, TURNS as int);
        assert forall|i: int| 0 <= i < first.len() implies (#[trigger] first[i]).wf()
            && first[i].placed() && !first[i].checked by {
            assert(is_seen(first[i], st.first[i], 1));
        }
        assert forall|m: int| 0 <= m < rest.len() implies (#[trigger] rest[m]).wf()
            && rest[m].complete() by {
            assert(is_seen(rest[m], st.rest[m], TURNS as int));
        }
    }
    if rest.len() as u64 > MAX_SCANNERS {
        return Err(PuzzleError::TooLarge);
    }
    let placed = Scanner::place_all(first, rest);
    let dist = widest(&placed);
    let beacons = Scanner::find_beacons(&placed);
    proof {
        assert(is_chain(f, rs, datas(placed@)));
        assert(lists_beacons(beacons@, datas(placed@)));
    }
    Ok((beacons.len(), dist))
}

// ----- writing -----
/// A point as it is written: its coordinates with commas between them, on a line.
pub open spec fn written_point(p: Point) -> Seq<char> {
    signed_decimal(p[0] as int) + ","@ + signed_decimal(p[1] as int) + ","@ + signed_decimal(
        p[2] as int,
    ) + "\n"@
}

/// The first `n` points, line by line.
pub open spec fn written_points(ps: Seq<Point>, n: int) -> Seq<char>
    decreases n,
{
    if n <= 0 || n > ps.len() {
        Seq::empty()
    } else {
        written_points(ps, n - 1) + written_point(ps[n - 1])
    }
}

impl Scanner {
    /// The scanner as it is written: a heading with its number, and the
    /// beacons that it sees in its orientation.
    pub open spec fn written(&self) -> Seq<char> {
        "--- scanner "@ + decimal(self.id as nat) + " ---\n"@ + written_points(
            self.seen(),
            self.seen().len() as int,
        )
    }

    pub fn to_string(&self) -> (s: String)
        requires
            self.orientation < self.beacons.len(),
        ensures
            s@ == self.written(),
    {
        let mut s = String::new();
        s.append("--- scanner ");
        s.append(decimal_string(self.id as u128).as_str());
        s.append(" ---\n");
        let ghost head = s@;
        let points = self.beacons();
        let mut i: usize = 0;
        while i < points.len()
            invariant
                i <= points.len(),
                points@ == self.seen(),
                s@ == head + written_points(points@, i as int),
            decreases points.len() - i,
        {
            let p = points[i];
            let ghost before = s@;
            s.append(signed_decimal_string(p[0] as i128).as_str());
            s.append(",");
            s.append(signed_decimal_string(p[1] as i128).as_str());
            s.append(",");
            s.append(signed_decimal_string(p[2] as i128).as_str());
            s.append("\n");
            proof {
                assert(s@ =~= before + written_point(p));
                assert(s@ =~= head + written_points(points@, i + 1));
            }
            i += 1;
        }
        proof {
            assert(head =~= "--- scanner "@ + decimal(self.id as nat) + " ---\n"@);
        }
        s
    }
}

} // verus!
