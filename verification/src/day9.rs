//! Rope bridge: the knots of a rope that follow its head.

use crate::errors::{ConfigurationError, ParseError, PuzzleError};
use crate::text::{
    bytes_of, decimal, decimal_string, lines, parse_i64, rows_view, signed_value, split_lines,
    string_bytes,
};
use crate::traits::AdventOfCode;
use std::collections::HashSet;
use vstd::prelude::*;
use vstd::slice::slice_subrange;

verus! {

broadcast use vstd::std_specs::hash::group_hash_axioms;

/// A move of the head: so many steps in one direction. The origin is at the bottom left.
#[derive(Clone, Copy, Debug, PartialEq, Eq, Structural)]
pub enum Move {
    Up(i32),
    Left(i32),
    Right(i32),
    Down(i32),
}

/// The greatest distance from the origin at which the knots are followed.
pub const REACH: i32 = 1_000_000_000;

pub open spec fn sign(d: int) -> int {
    if d < 0 {
        -1
    } else if d > 0 {
        1
    } else {
        0
    }
}

/// Where a knot at `tail` goes when the knot before it is at `head`: one
/// step towards it along each axis, unless they touch.
pub open spec fn follow(head: (int, int), tail: (int, int)) -> (int, int) {
    let dx = head.0 - tail.0;
    let dy = head.1 - tail.1;
    if -1 <= dx <= 1 && -1 <= dy <= 1 {
        tail
    } else {
        (tail.0 + sign(dx), tail.1 + sign(dy))
    }
}

pub open spec fn point(p: [i32; 2]) -> (int, int) {
    (p[0] as int, p[1] as int)
}

/// The knots after the first `n` of them have followed, each the one before it.
pub open spec fn followed(knots: Seq<(int, int)>, n: int) -> Seq<(int, int)>
    decreases n,
{
    if n <= 1 {
        knots
    } else {
        let before = followed(knots, n - 1);
        before.update(n - 1, follow(before[n - 2], before[n - 1]))
    }
}

/// The knots after the head has gone one step by `(dx, dy)` and the others have followed.
pub open spec fn stepped(knots: Seq<(int, int)>, dx: int, dy: int) -> Seq<(int, int)> {
    followed(knots.update(0, (knots[0].0 + dx, knots[0].1 + dy)), knots.len() as int)
}

/// The knots after `n` such steps.
pub open spec fn stepped_by(knots: Seq<(int, int)>, dx: int, dy: int, n: int) -> Seq<(int, int)>
    decreases n,
{
    if n <= 0 {
        knots
    } else {
        stepped(stepped_by(knots, dx, dy, n - 1), dx, dy)
    }
}

/// Where the tail has been during `n` such steps, its place at the start first.
pub open spec fn trail(knots: Seq<(int, int)>, dx: int, dy: int, n: int) -> Seq<(int, int)>
    decreases n,
{
    if n <= 0 {
        seq![knots.last()]
    } else {
        trail(knots, dx, dy, n - 1).push(stepped_by(knots, dx, dy, n).last())
    }
}

/// The knots of a rope: its head, the knots between, its tail.
pub open spec fn rope_view(head: [i32; 2], rope: Seq<[i32; 2]>, tail: [i32; 2]) -> Seq<(int, int)> {
    seq![point(head)] + rope.map_values(|p: [i32; 2]| point(p)) + seq![point(tail)]
}

/// Every knot lies within `reach` of the origin along each axis.
pub open spec fn within(knots: Seq<(int, int)>, reach: int) -> bool {
    forall|i: int|
        0 <= i < knots.len() ==> -reach <= (#[trigger] knots[i]).0 <= reach && -reach
            <= knots[i].1 <= reach
}

impl Move {
    /// The step of the head along each axis.
    pub open spec fn step(&self) -> (int, int) {
        match *self {
            Move::Right(_) => (1, 0),
            Move::Left(_) => (-1, 0),
            Move::Up(_) => (0, 1),
            Move::Down(_) => (0, -1),
        }
    }

    /// The number of steps.
    pub open spec fn dist(&self) -> int {
        match *self {
            Move::Right(d) => d as int,
            Move::Left(d) => d as int,
            Move::Up(d) => d as int,
            Move::Down(d) => d as int,
        }
    }

    /// The knot at `tail` follows the knot at `head`.
    pub fn move_next_knot(head: &[i32; 2], tail: &mut [i32; 2])
        ensures
            point(*final(tail)) == follow(point(*head), point(*old(tail))),
    {
        let dx = head[0] as i64 - tail[0] as i64;
        let dy = head[1] as i64 - tail[1] as i64;
        if tail[0] != head[0] && tail[1] != head[1] {
            if dx > 1 || dx < -1 || dy > 1 || dy < -1 {
                if dx < 0 {
                    tail[0] = tail[0] - 1;
                } else {
                    tail[0] = tail[0] + 1;
                }
                if dy < 0 {
                    tail[1] = tail[1] - 1;
                } else {
                    tail[1] = tail[1] + 1;
                }
            }
        } else if dx > 1 || dx < -1 {
            if dx < 0 {
                tail[0] = tail[0] - 1;
            } else {
                tail[0] = tail[0] + 1;
            }
        } else if dy > 1 || dy < -1 {
            if dy < 0 {
                tail[1] = tail[1] - 1;
            } else {
                tail[1] = tail[1] + 1;
            }
        }
    }

    /// Moves the head step by step, lets the knots follow, and returns where
    /// the tail has been, its place at the start first.
    pub fn apply(&self, head: &mut [i32; 2], tail: &mut [i32; 2], rope: &mut Vec<[i32; 2]>) -> (positions:
        Vec<[i32; 2]>)
        requires
            within(rope_view(*old(head), old(rope)@, *old(tail)), REACH - self.dist()),
            self.dist() <= REACH,
        ensures
            rope_view(*final(head), final(rope)@, *final(tail)) == stepped_by(
                rope_view(*old(head), old(rope)@, *old(tail)),
                self.step().0,
                self.step().1,
                self.dist(),
            ),
            positions@.map_values(|p: [i32; 2]| point(p)) == trail(
                rope_view(*old(head), old(rope)@, *old(tail)),
                self.step().0,
                self.step().1,
                self.dist(),
            ),
            final(rope)@.len() == old(rope)@.len(),
            self.dist() >= 0 ==> within(rope_view(*final(head), final(rope)@, *final(tail)), REACH as int),
    {
        let (idx, i, dist): (usize, i32, i32) = match self {
            Move::Right(d) => (0, 1, *d),
            Move::Left(d) => (0, -1, *d),
            Move::Up(d) => (1, 1, *d),
            Move::Down(d) => (1, -1, *d),
        };
        let ghost start = rope_view(*head, rope@, *tail);
        let ghost dx = self.step().0;
        let ghost dy = self.step().1;
        let mut positions: Vec<[i32; 2]> = Vec::new();
        positions.push(*tail);
        proof {
            assert(positions@.map_values(|p: [i32; 2]| point(p)) =~= trail(start, dx, dy, 0));
            assert(start.last() == point(*tail));
        }
        let n = rope.len();
        let mut k: i32 = 0;
        while k < dist
            invariant
                0 <= k,
                dist <= 0 || k <= dist,
                dist <= 0 ==> k == 0,
                start == rope_view(*old(head), old(rope)@, *old(tail)),
                dist == self.dist(),
                dist <= REACH,
                (dx, dy) == self.step(),
                (idx == 0 && dx == i && dy == 0) || (idx == 1 && dy == i && dx == 0),
                i == 1 || i == -1,
                rope.len() == n,
                start.len() == n + 2,
                rope_view(*head, rope@, *tail) == stepped_by(start, dx, dy, k as int),
                within(rope_view(*head, rope@, *tail), REACH - dist + k),
                positions@.map_values(|p: [i32; 2]| point(p)) == trail(start, dx, dy, k as int),
            decreases dist - k,
        {
            let ghost before = rope_view(*head, rope@, *tail);
            proof {
                assert(before[0] == point(*head));
                assert(before.len() == n + 2);
            }
            head[idx] = head[idx] + i;
            let ghost moved = before.update(0, (before[0].0 + dx, before[0].1 + dy));
            proof {
                assert(rope_view(*head, rope@, *tail) =~= moved);
                assert(followed(moved, 1) == moved);
                assert(within(moved, REACH - dist + k + 1)) by {
                    assert forall|j: int| 0 <= j < moved.len() implies -(REACH - dist + k + 1) <= (
                    #[trigger] moved[j]).0 <= REACH - dist + k + 1 && -(REACH - dist + k + 1)
                        <= moved[j].1 <= REACH - dist + k + 1 by {
                        if j > 0 {
                            assert(moved[j] == before[j]);
                        }
                    }
                }
            }
            let mut prev: [i32; 2] = *head;
            let mut j: usize = 0;
            while j < n
                invariant
                    j <= n,
                    rope.len() == n,
                    moved.len() == n + 2,
                    0 <= k < dist <= REACH,
                    rope_view(*head, rope@, *tail) == followed(moved, j + 1),
                    point(prev) == followed(moved, j + 1)[j as int],
                    within(rope_view(*head, rope@, *tail), REACH - dist + k + 1),
                decreases n - j,
            {
                let ghost cur = rope_view(*head, rope@, *tail);
                proof {
                    assert(cur[j + 1] == point(rope@[j as int]));
                }
                let mut knot = rope[j];
                Move::move_next_knot(&prev, &mut knot);
                rope[j] = knot;
                prev = knot;
                proof {
                    let next = cur.update(j + 1, follow(cur[j as int], cur[j + 1]));
                    assert(rope_view(*head, rope@, *tail) =~= next);
                    lemma_follow_near(cur[j as int], cur[j + 1], REACH - dist + k + 1);
                    assert(within(next, REACH - dist + k + 1)) by {
                        assert forall|m: int| 0 <= m < next.len() implies -(REACH - dist + k + 1)
                            <= (#[trigger] next[m]).0 <= REACH - dist + k + 1 && -(REACH - dist + k
                            + 1) <= next[m].1 <= REACH - dist + k + 1 by {
                            if m != j + 1 {
                                assert(next[m] == cur[m]);
                            }
                        }
                    }
                }
                j += 1;
            }
            let ghost cur = rope_view(*head, rope@, *tail);
            proof {
                assert(cur[n + 1] == point(*tail));
                assert(cur[n as int] == point(prev));
            }
            Move::move_next_knot(&prev, tail);
            proof {
                let next = cur.update(n + 1, follow(cur[n as int], cur[n + 1]));
                assert(rope_view(*head, rope@, *tail) =~= next);
                assert(next == followed(moved, n + 2));
                lemma_follow_near(cur[n as int], cur[n + 1], REACH - dist + k + 1);
                assert(within(next, REACH - dist + k + 1)) by {
                    assert forall|m: int| 0 <= m < next.len() implies -(REACH - dist + k + 1) <= (
                    #[trigger] next[m]).0 <= REACH - dist + k + 1 && -(REACH - dist + k + 1)
                        <= next[m].1 <= REACH - dist + k + 1 by {
                        if m != n + 1 {
                            assert(next[m] == cur[m]);
                        }
                    }
                }
                assert(next == stepped(before, dx, dy));
                assert(next.last() == point(*tail));
            }
            let ghost trail_before = positions@;
            positions.push(*tail);
            proof {
                assert(positions@.map_values(|p: [i32; 2]| point(p)) =~= trail(
                    start,
                    dx,
                    dy,
                    k as int,
                ).push(point(*tail)));
            }
            k += 1;
        }
        positions
    }
}

proof fn lemma_follow_near(head: (int, int), tail: (int, int), reach: int)
    requires
        -reach <= head.0 <= reach,
        -reach <= head.1 <= reach,
        -reach <= tail.0 <= reach,
        -reach <= tail.1 <= reach,
    ensures
        -reach <= follow(head, tail).0 <= reach,
        -reach <= follow(head, tail).1 <= reach,
{
}

// ----- reading moves -----
/// The move that a line writes: a letter for the direction, one more
/// character, and the number of steps.
pub open spec fn move_of(line: Seq<u8>) -> Option<Move> {
    if line.len() < 2 {
        None
    } else {
        match signed_value(line.skip(2)) {
            Some(d) => if -0x8000_0000 <= d <= 0x7fff_ffff {
                if line[0] == 85 {
                    Some(Move::Up(d as i32))
                } else if line[0] == 68 {
                    Some(Move::Down(d as i32))
                } else if line[0] == 76 {
                    Some(Move::Left(d as i32))
                } else if line[0] == 82 {
                    Some(Move::Right(d as i32))
                } else {
                    None
                }
            } else {
                None
            },
            None => None,
        }
    }
}

impl Move {
    /// Reads a move from a line such as `R 4`.
    pub fn from_bytes(s: &[u8]) -> (r: Result<Move, ParseError>)
        ensures
            match r {
                Ok(m) => move_of(s@) == Some(m),
                Err(e) => e == ParseError::Malformed && move_of(s@) is None,
            },
    {
        if s.len() < 2 {
            return Err(ParseError::Malformed);
        }
        let tail = slice_subrange(s, 2, s.len());
        proof {
            assert(tail@ =~= s@.skip(2));
        }
        let dist = match parse_i64(tail) {
            Some(d) => d,
            None => {
                return Err(ParseError::Malformed);
            },
        };
        if dist < -0x8000_0000 || dist > 0x7fff_ffff {
            return Err(ParseError::Malformed);
        }
        let d = dist as i32;
        if s[0] == 85 {
            Ok(Move::Up(d))
        } else if s[0] == 68 {
            Ok(Move::Down(d))
        } else if s[0] == 76 {
            Ok(Move::Left(d))
        } else if s[0] == 82 {
            Ok(Move::Right(d))
        } else {
            Err(ParseError::Malformed)
        }
    }
}

/// Every line writes a move.
pub open spec fn moves_ok(ls: Seq<Seq<u8>>) -> bool {
    forall|i: int| 0 <= i < ls.len() ==> move_of(#[trigger] ls[i]) is Some
}

/// The moves that the lines write.
pub open spec fn moves_of(ls: Seq<Seq<u8>>) -> Seq<Move> {
    ls.map_values(|l: Seq<u8>| move_of(l).unwrap())
}

/// Reads the moves of a text, one a line.
pub fn parse_moves(input: &[u8]) -> (r: Result<Vec<Move>, ParseError>)
    ensures
        match r {
            Ok(v) => moves_ok(lines(input@)) && v@ == moves_of(lines(input@)),
            Err(e) => e == ParseError::Malformed && !moves_ok(lines(input@)),
        },
{
    let rows = split_lines(input);
    let ghost ls = lines(input@);
    let mut out: Vec<Move> = Vec::new();
    let mut i: usize = 0;
    proof {
        assert(ls.len() == rows.len());
    }
    while i < rows.len()
        invariant
            i <= rows.len(),
            rows_view(rows@) == ls,
            ls == lines(input@),
            ls.len() == rows.len(),
            out.len() == i,
            forall|k: int| 0 <= k < i ==> move_of(#[trigger] ls[k]) == Some(out[k]),
        decreases rows.len() - i,
    {
        proof {
            assert(ls[i as int] == rows@[i as int]@);
        }
        match Move::from_bytes(rows[i].as_slice()) {
            Ok(m) => {
                out.push(m);
            },
            Err(e) => {
                return Err(e);
            },
        }
        i += 1;
    }
    proof {
        assert(out@ =~= moves_of(ls));
    }
    Ok(out)
}

// ----- where the tail has been -----
/// The number that names a place.
pub open spec fn place_key(p: (int, int)) -> int {
    (p.0 + 0x8000_0000) * 0x1_0000_0000 + (p.1 + 0x8000_0000)
}

/// The numbers that name the first `n` places.
pub open spec fn keys_to(places: Seq<(int, int)>, n: int) -> Set<u64>
    decreases n,
{
    if n <= 0 {
        Set::<u64>::empty()
    } else {
        keys_to(places, n - 1).insert(place_key(places[n - 1]) as u64)
    }
}

/// A rope of `count` knots that lie at the origin.
pub open spec fn rope_at_origin(count: int) -> Seq<(int, int)> {
    Seq::new(count as nat, |i: int| (0int, 0int))
}

/// The knots after the first `n` moves.
pub open spec fn rope_after(moves: Seq<Move>, count: int, n: int) -> Seq<(int, int)>
    decreases n,
{
    if n <= 0 {
        rope_at_origin(count)
    } else {
        stepped_by(
            rope_after(moves, count, n - 1),
            moves[n - 1].step().0,
            moves[n - 1].step().1,
            moves[n - 1].dist(),
        )
    }
}

/// The numbers that name the places where the tail has been during the first `n` moves.
pub open spec fn visited(moves: Seq<Move>, count: int, n: int) -> Set<u64>
    decreases n,
{
    if n <= 0 {
        Set::<u64>::empty()
    } else {
        let t = trail(
            rope_after(moves, count, n - 1),
            moves[n - 1].step().0,
            moves[n - 1].step().1,
            moves[n - 1].dist(),
        );
        visited(moves, count, n - 1).union(keys_to(t, t.len() as int))
    }
}

/// The steps of the first `n` moves.
pub open spec fn steps_to(moves: Seq<Move>, n: int) -> int
    decreases n,
{
    if n <= 0 {
        0
    } else {
        steps_to(moves, n - 1) + if moves[n - 1].dist() > 0 {
            moves[n - 1].dist()
        } else {
            0
        }
    }
}

proof fn lemma_steps_grow(moves: Seq<Move>, i: int, n: int)
    requires
        0 <= i <= n,
    ensures
        steps_to(moves, i) <= steps_to(moves, n),
        0 <= steps_to(moves, i),
    decreases n,
{
    if i < n {
        lemma_steps_grow(moves, i, n - 1);
    } else if i > 0 {
        lemma_steps_grow(moves, i - 1, i - 1);
    }
}

fn dist_of(m: &Move) -> (d: i32)
    ensures
        d == m.dist(),
{
    match m {
        Move::Right(d) => *d,
        Move::Left(d) => *d,
        Move::Up(d) => *d,
        Move::Down(d) => *d,
    }
}

fn key(p: [i32; 2]) -> (k: u64)
    ensures
        k == place_key(point(p)),
{
    ((p[0] as i64 + 0x8000_0000) as u64) * 0x1_0000_0000 + ((p[1] as i64 + 0x8000_0000) as u64)
}

/// What the count of the places of the tail returns for a rope of `count`
/// knots: the number of the places, or why there is none.
pub open spec fn is_count(moves: Seq<Move>, count: int, r: Result<usize, PuzzleError>) -> bool {
    if steps_to(moves, moves.len() as int) > REACH {
        r == Err::<usize, PuzzleError>(PuzzleError::TooLarge)
    } else {
        r is Ok && r.unwrap() == visited(moves, count, moves.len() as int).len()
    }
}

/// In how many places the tail of a rope of `knot_count` knots has been
/// when its head has made the moves.
pub fn count_tail_places(moves: &Vec<Move>, knot_count: usize) -> (r: Result<usize, PuzzleError>)
    requires
        knot_count >= 2,
    ensures
        is_count(moves@, knot_count as int, r),
{
    let mut rope: Vec<[i32; 2]> = Vec::new();
    let mut k: usize = 0;
    while k < knot_count - 2
        invariant
            k <= knot_count - 2,
            rope.len() == k,
            forall|j: int| 0 <= j < k ==> rope@[j] == [0i32, 0i32],
        decreases knot_count - 2 - k,
    {
        rope.push([0, 0]);
        k += 1;
    }
    let mut head: [i32; 2] = [0, 0];
    let mut tail: [i32; 2] = [0, 0];
    let mut positions: HashSet<u64> = HashSet::new();
    let mut used: i64 = 0;
    let mut i: usize = 0;
    proof {
        assert(rope_view(head, rope@, tail) =~= rope_at_origin(knot_count as int));
    }
    while i < moves.len()
        invariant
            i <= moves.len(),
            knot_count >= 2,
            rope.len() == knot_count - 2,
            used == steps_to(moves@, i as int),
            0 <= used <= REACH,
            within(rope_view(head, rope@, tail), used as int),
            rope_view(head, rope@, tail) == rope_after(moves@, knot_count as int, i as int),
            positions@ == visited(moves@, knot_count as int, i as int),
            positions@.finite(),
        decreases moves.len() - i,
    {
        let m = moves[i];
        let d = dist_of(&m);
        if d > 0 {
            if d as i64 > REACH as i64 - used {
                proof {
                    lemma_steps_grow(moves@, i + 1, moves@.len() as int);
                }
                return Err(PuzzleError::TooLarge);
            }
            used = used + d as i64;
        }
        proof {
            let knots = rope_view(head, rope@, tail);
            assert forall|j: int| 0 <= j < knots.len() implies -(REACH - m.dist()) <= (
            #[trigger] knots[j]).0 <= REACH - m.dist() && -(REACH - m.dist()) <= knots[j].1
                <= REACH - m.dist() by {}
        }
        let ghost before = rope_view(head, rope@, tail);
        let trail_now = m.apply(&mut head, &mut tail, &mut rope);
        let ghost t = trail(before, m.step().0, m.step().1, m.dist());
        let ghost seen = positions@;
        let mut j: usize = 0;
        proof {
            assert(trail_now@.map_values(|p: [i32; 2]| point(p)).len() == trail_now@.len());
            lemma_within_after(before, m, used as int);
        }
        while j < trail_now.len()
            invariant
                j <= trail_now.len(),
                trail_now@.map_values(|p: [i32; 2]| point(p)) == t,
                t.len() == trail_now@.len(),
                positions@ == seen.union(keys_to(t, j as int)),
                positions@.finite(),
            decreases trail_now.len() - j,
        {
            proof {
                assert(t[j as int] == point(trail_now@[j as int]));
            }
            positions.insert(key(trail_now[j]));
            proof {
                assert(positions@ =~= seen.union(keys_to(t, j + 1)));
            }
            j += 1;
        }
        i += 1;
    }
    Ok(positions.len())
}

proof fn lemma_within_after(knots: Seq<(int, int)>, m: Move, reach: int)
    requires
        knots.len() >= 2,
        m.dist() <= REACH,
        within(knots, REACH - m.dist()),
        m.dist() > 0 ==> within(knots, reach - m.dist()),
        m.dist() <= 0 ==> within(knots, reach),
    ensures
        within(stepped_by(knots, m.step().0, m.step().1, m.dist()), reach),
{
    lemma_stepped_within(knots, m.step().0, m.step().1, m.dist(), if m.dist() > 0 {
        reach - m.dist()
    } else {
        reach
    });
}

proof fn lemma_followed_within(knots: Seq<(int, int)>, n: int, reach: int)
    requires
        within(knots, reach),
        n <= knots.len(),
    ensures
        within(followed(knots, n), reach),
        followed(knots, n).len() == knots.len(),
    decreases n,
{
    if n > 1 {
        lemma_followed_within(knots, n - 1, reach);
        let before = followed(knots, n - 1);
        lemma_follow_near(before[n - 2], before[n - 1], reach);
        let next = followed(knots, n);
        assert forall|i: int| 0 <= i < next.len() implies -reach <= (#[trigger] next[i]).0 <= reach
            && -reach <= next[i].1 <= reach by {
            if i != n - 1 {
                assert(next[i] == before[i]);
            }
        }
    }
}

proof fn lemma_stepped_within(knots: Seq<(int, int)>, dx: int, dy: int, n: int, reach: int)
    requires
        knots.len() >= 1,
        within(knots, reach),
        -1 <= dx <= 1,
        -1 <= dy <= 1,
    ensures
        within(stepped_by(knots, dx, dy, n), if n > 0 {
            reach + n
        } else {
            reach
        }),
        stepped_by(knots, dx, dy, n).len() == knots.len(),
    decreases n,
{
    if n > 0 {
        lemma_stepped_within(knots, dx, dy, n - 1, reach);
        let before = stepped_by(knots, dx, dy, n - 1);
        let moved = before.update(0, (before[0].0 + dx, before[0].1 + dy));
        assert(within(moved, reach + n)) by {
            assert forall|i: int| 0 <= i < moved.len() implies -(reach + n) <= (
            #[trigger] moved[i]).0 <= reach + n && -(reach + n) <= moved[i].1 <= reach + n by {
                if i > 0 {
                    assert(moved[i] == before[i]);
                }
                assert(-(reach + n - 1) <= before[i].0 <= reach + n - 1);
            }
        }
        lemma_followed_within(moved, moved.len() as int, reach + n);
    }
}

/// What a part answers to an input: the number of the places where the
/// tail of a rope of two knots, or of ten, has been, or why there is none.
pub open spec fn is_answer(input: Option<String>, part: int, r: Result<String, PuzzleError>) -> bool {
    match input {
        None => r == Err::<String, PuzzleError>(PuzzleError::MissingInput),
        Some(text) => {
            let ls = lines(bytes_of(text@));
            let count = if part == 1 {
                2int
            } else {
                10int
            };
            if !moves_ok(ls) {
                r == Err::<String, PuzzleError>(PuzzleError::Parse(ParseError::Malformed))
            } else if steps_to(moves_of(ls), ls.len() as int) > REACH {
                r == Err::<String, PuzzleError>(PuzzleError::TooLarge)
            } else {
                r is Ok && r.unwrap()@ == decimal(
                    visited(moves_of(ls), count, ls.len() as int).len(),
                )
            }
        },
    }
}

/// The number of the places where the tail of a rope of `knot_count` knots
/// has been when its head has made the moves that the text writes.
pub fn run(input: &[u8], knot_count: usize) -> (r: Result<String, PuzzleError>)
    ensures
        ({
            let ls = lines(input@);
            if knot_count < 2 {
                r == Err::<String, PuzzleError>(
                    PuzzleError::Configuration(ConfigurationError::TooFewKnots(knot_count)),
                )
            } else if !moves_ok(ls) {
                r == Err::<String, PuzzleError>(PuzzleError::Parse(ParseError::Malformed))
            } else if steps_to(moves_of(ls), ls.len() as int) > REACH {
                r == Err::<String, PuzzleError>(PuzzleError::TooLarge)
            } else {
                r is Ok && r.unwrap()@ == decimal(
                    visited(moves_of(ls), knot_count as int, ls.len() as int).len(),
                )
            }
        }),
{
    if knot_count < 2 {
        return Err(PuzzleError::Configuration(ConfigurationError::TooFewKnots(knot_count)));
    }
    let moves = match parse_moves(input) {
        Ok(m) => m,
        Err(e) => {
            return Err(PuzzleError::Parse(e));
        },
    };
    proof {
        assert(moves@.len() == lines(input@).len());
    }
    match count_tail_places(&moves, knot_count) {
        Ok(n) => Ok(decimal_string(n as u128)),
        Err(e) => Err(PuzzleError::TooLarge),
    }
}

pub struct Day9;

impl AdventOfCode for Day9 {
    fn day(&self) -> (d: u8)
        ensures
            d == 9,
    {
        9
    }

    fn run1(&mut self, input: Option<String>) -> (r: Result<String, PuzzleError>)
        ensures
            is_answer(input, 1, r),
    {
        match input {
            Some(text) => run(string_bytes(&text), 2),
            None => Err(PuzzleError::MissingInput),
        }
    }

    fn run2(&mut self, input: Option<String>) -> (r: Result<String, PuzzleError>)
        ensures
            is_answer(input, 2, r),
    {
        match input {
            Some(text) => run(string_bytes(&text), 10),
            None => Err(PuzzleError::MissingInput),
        }
    }
}

} // verus!
