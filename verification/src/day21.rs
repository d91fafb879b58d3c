//! Dirac dice: counting, over every outcome of a three-sided die thrown three
//! times a turn, the universes in which each of two players wins.

use crate::errors::ConfigurationError;
use vstd::prelude::*;

verus! {

/// The highest winning score at which the universes can still be counted in 64 bits.
pub const MAX_WINNING_SCORE: u32 = 140;

/// The state of a game: positions on the track of ten fields, numbered from
/// zero, scores, and the player to move.
pub struct Game {
    pub p0: int,
    pub p1: int,
    pub s0: int,
    pub s1: int,
    pub turn: int,
}

/// In how many of the 27 outcomes of three throws the sum is `roll`.
pub open spec fn roll_frequency(roll: int) -> nat {
    if roll == 3 || roll == 9 {
        1
    } else if roll == 4 || roll == 8 {
        3
    } else if roll == 5 || roll == 7 {
        6
    } else if roll == 6 {
        7
    } else {
        0
    }
}

/// In how many of the outcomes of one throw the die shows `sum`.
pub open spec fn one_throw(sum: int) -> nat {
    if 1 <= sum <= 3 {
        1
    } else {
        0
    }
}

/// In how many of the outcomes of two throws the sum is `sum`.
pub open spec fn two_throws(sum: int) -> nat {
    one_throw(sum - 1) + one_throw(sum - 2) + one_throw(sum - 3)
}

/// In how many of the outcomes of three throws the sum is `sum`.
pub open spec fn three_throws(sum: int) -> nat {
    two_throws(sum - 1) + two_throws(sum - 2) + two_throws(sum - 3)
}

/// The table of frequencies counts the outcomes of three throws, 27 in all.
pub proof fn lemma_roll_frequency(roll: int)
    ensures
        roll_frequency(roll) == three_throws(roll),
        roll_frequency(3) + roll_frequency(4) + roll_frequency(5) + roll_frequency(6)
            + roll_frequency(7) + roll_frequency(8) + roll_frequency(9) == 27,
{
}

/// A turn makes 27 universes of each: the universes that the seven sums of
/// the throws lead to are 27 times those before the throws.
pub proof fn lemma_turn_multiplies(count: nat)
    ensures
        count * roll_frequency(3) + count * roll_frequency(4) + count * roll_frequency(5) + count
            * roll_frequency(6) + count * roll_frequency(7) + count * roll_frequency(8) + count
            * roll_frequency(9) == 27 * count,
{
}

/// The state after the player to move has thrown `roll` in all.
pub open spec fn after(g: Game, roll: int) -> Game {
    if g.turn == 0 {
        let p = (g.p0 + roll) % 10;
        Game { p0: p, p1: g.p1, s0: g.s0 + p + 1, s1: g.s1, turn: 1 }
    } else {
        let p = (g.p1 + roll) % 10;
        Game { p0: g.p0, p1: p, s0: g.s0, s1: g.s1 + p + 1, turn: 0 }
    }
}

/// The player who has reached the winning score `t`, if one has.
pub open spec fn winner_of(g: Game, t: int) -> Option<int> {
    if g.s0 >= t {
        Some(0)
    } else if g.s1 >= t {
        Some(1)
    } else {
        None
    }
}

/// The game is under way: a state that the counting meets.
pub open spec fn live(g: Game, t: int) -> bool {
    &&& 0 <= g.p0 < 10
    &&& 0 <= g.p1 < 10
    &&& 0 <= g.s0 < t
    &&& 0 <= g.s1 < t
    &&& 0 <= g.turn < 2
}

/// The universes that `player` wins from `g`, of those in which the next
/// three throws sum to `roll` or more.
pub open spec fn tally(g: Game, t: int, player: int, roll: int) -> nat
    decreases 2 * t - g.s0 - g.s1, 10 - roll,
{
    if !live(g, t) || roll < 3 || roll > 9 {
        0
    } else {
        let c = after(g, roll);
        let won: nat = match winner_of(c, t) {
            Some(w) => if w == player {
                1
            } else {
                0
            },
            None => tally(c, t, player, 3),
        };
        roll_frequency(roll) * won + tally(g, t, player, roll + 1)
    }
}

/// The universes that `player` wins from `g`, of one in which the three
/// throws have summed to `roll`.
pub open spec fn won_after(g: Game, t: int, player: int, roll: int) -> nat {
    let c = after(g, roll);
    match winner_of(c, t) {
        Some(w) => if w == player {
            1
        } else {
            0
        },
        None => tally(c, t, player, 3),
    }
}

/// The universes that `player` wins from `g`: one, where the game is over
/// and the player has won it.
pub open spec fn wins(g: Game, t: int, player: int) -> nat {
    match winner_of(g, t) {
        Some(w) => if w == player {
            1
        } else {
            0
        },
        None => tally(g, t, player, 3),
    }
}

pub open spec fn start_game(p0: int, p1: int) -> Game {
    Game { p0, p1, s0: 0, s1: 0, turn: 0 }
}

proof fn lemma_tally_unfold(g: Game, t: int, player: int, roll: int)
    requires
        live(g, t),
        3 <= roll <= 9,
    ensures
        tally(g, t, player, roll) == roll_frequency(roll) * won_after(g, t, player, roll) + tally(
            g,
            t,
            player,
            roll + 1,
        ),
        tally(g, t, player, 10) == 0,
        live(after(g, roll), t) || winner_of(after(g, roll), t) is Some,
        after(g, roll).s0 + after(g, roll).s1 > g.s0 + g.s1,
{
}

/// Every universe has a winner: from a state under way, at least one.
proof fn lemma_some_winner(g: Game, t: int, roll: int)
    requires
        live(g, t),
        3 <= roll <= 9,
    ensures
        won_after(g, t, 0, roll) + won_after(g, t, 1, roll) >= 1,
        tally(g, t, 0, roll) + tally(g, t, 1, roll) >= roll_frequency(roll),
        roll_frequency(roll) >= 1,
    decreases 2 * t - g.s0 - g.s1, 10 - roll,
{
    let c = after(g, roll);
    lemma_tally_unfold(g, t, 0, roll);
    lemma_tally_unfold(g, t, 1, roll);
    if winner_of(c, t) is None {
        lemma_some_winner(c, t, 3);
    }
    let f = roll_frequency(roll);
    let a = won_after(g, t, 0, roll);
    let b = won_after(g, t, 1, roll);
    assert(f * a + f * b >= f) by (nonlinear_arith)
        requires
            a + b >= 1,
            f >= 0,
    ;
}

pub open spec fn pow27(k: nat) -> nat
    decreases k,
{
    if k == 0 {
        1
    } else {
        27 * pow27((k - 1) as nat)
    }
}

/// While both scores are `10 * k` or more short of the winning score, `k` turns pass
/// before the game ends, and the universes multiply by 27 each turn.
proof fn lemma_many_universes(g: Game, t: int, k: nat, roll: int)
    requires
        live(g, t),
        g.s0 + 10 * k < t,
        g.s1 + 10 * k < t,
        3 <= roll <= 10,
        k >= 1,
    ensures
        tally(g, t, 0, roll) + tally(g, t, 1, roll) >= pow27((k - 1) as nat) * (if roll <= 3 {
            27int
        } else if roll == 4 {
            26
        } else if roll == 5 {
            23
        } else if roll == 6 {
            17
        } else if roll == 7 {
            10
        } else if roll == 8 {
            4
        } else if roll == 9 {
            1
        } else {
            0
        }),
    decreases k, 10 - roll,
{
    if roll <= 9 {
        let c = after(g, roll);
        lemma_tally_unfold(g, t, 0, roll);
        lemma_tally_unfold(g, t, 1, roll);
        lemma_many_universes(g, t, k, roll + 1);
        let f = roll_frequency(roll);
        let a = won_after(g, t, 0, roll);
        let b = won_after(g, t, 1, roll);
        let p = pow27((k - 1) as nat);
        assert(winner_of(c, t) is None);
        if k == 1 {
            lemma_some_winner(c, t, 3);
            assert(p == 1);
            assert(a + b >= 1);
        } else {
            lemma_many_universes(c, t, (k - 1) as nat, 3);
            assert(a + b >= pow27((k - 2) as nat) * 27);
            assert(p == 27 * pow27((k - 2) as nat));
        }
        assert(a + b >= p);
        assert(f * a + f * b >= p * f) by (nonlinear_arith)
            requires
                a + b >= p,
                f >= 0,
        ;
        let rest = tally(g, t, 0, roll + 1) + tally(g, t, 1, roll + 1);
        assert(tally(g, t, 0, roll) + tally(g, t, 1, roll) == f * a + f * b + rest);
        let tail: int = if roll + 1 <= 3 {
            27
        } else if roll + 1 == 4 {
            26
        } else if roll + 1 == 5 {
            23
        } else if roll + 1 == 6 {
            17
        } else if roll + 1 == 7 {
            10
        } else if roll + 1 == 8 {
            4
        } else if roll + 1 == 9 {
            1
        } else {
            0
        };
        assert(rest >= p * tail);
        assert(p * f + p * tail == p * (f + tail)) by (nonlinear_arith);
    } else {
        assert(pow27((k - 1) as nat) * 0 == 0);
    }
}

proof fn lemma_pow27_14()
    ensures
        pow27(14) > u64::MAX,
{
    reveal_with_fuel(pow27, 15);
}

/// With a winning score above 140 the universes cannot be counted in 64 bits.
proof fn lemma_too_many(p0: int, p1: int, t: int)
    requires
        0 <= p0 < 10,
        0 <= p1 < 10,
        t > MAX_WINNING_SCORE,
    ensures
        wins(start_game(p0, p1), t, 0) + wins(start_game(p0, p1), t, 1) > u64::MAX,
{
    let g = start_game(p0, p1);
    lemma_many_universes(g, t, 14, 3);
    lemma_pow27_14();
    assert(pow27(13) * 27 == pow27(14)) by {
        reveal_with_fuel(pow27, 2);
    }
}

/// One universe of a game under way, or many that have come to the same state.
#[derive(Debug, Clone, Copy)]
pub struct Universe {
    /// How many universes have come to this state.
    pub count: u64,
    pub pos: [u8; 2],
    pub scores: [u32; 2],
    pub turn: u8,
}

impl Universe {
    /// The state of the game, apart from the number of universes.
    pub open spec fn game(&self) -> Game {
        Game {
            p0: self.pos[0] as int,
            p1: self.pos[1] as int,
            s0: self.scores[0] as int,
            s1: self.scores[1] as int,
            turn: self.turn as int,
        }
    }

    /// The player who has reached `winning_score`, if one has: the first player first.
    pub fn winner(&self, winning_score: u32) -> (w: Option<u8>)
        ensures
            match w {
                Some(p) => winner_of(self.game(), winning_score as int) == Some(p as int),
                None => winner_of(self.game(), winning_score as int) is None,
            },
    {
        if self.scores[0] >= winning_score {
            Some(0)
        } else if self.scores[1] >= winning_score {
            Some(1)
        } else {
            None
        }
    }

    /// The universes in which the player to move throws `roll` in all, which
    /// is the case in `count` of the outcomes of the three throws: each
    /// universe becomes `count` universes.
    pub fn play_dirac(&self, roll: u32, count: u64) -> (next: Universe)
        requires
            self.turn < 2,
            roll <= 9,
            self.scores[self.turn as int] + 10 <= u32::MAX,
            self.count * count <= u64::MAX,
        ensures
            next.game() == after(self.game(), roll as int),
            next.count == self.count * count,
    {
        let turn = self.turn as usize;
        let p = ((self.pos[turn] as u32 + roll) % 10) as u8;
        let mut new_pos = self.pos;
        new_pos[turn] = p;
        let mut new_scores = self.scores;
        new_scores[turn] = self.scores[turn] + p as u32 + 1;
        Universe {
            pos: new_pos,
            scores: new_scores,
            turn: (self.turn + 1) % 2,
            count: self.count * count,
        }
    }
}

/// No universe is lost in a turn: the seven universes that one universe
/// becomes, one for each sum of the throws and each with the count that
/// `play_dirac` gives it for the frequency of its sum, hold 27 times the
/// count of the one between them, and none of them is empty unless the one is.
pub proof fn lemma_turn_conserves(u: Universe, children: Seq<Universe>)
    requires
        children.len() == 7,
        forall|i: int|
            0 <= i < 7 ==> (#[trigger] children[i]).count == u.count * roll_frequency(i + 3),
    ensures
        children[0].count + children[1].count + children[2].count + children[3].count
            + children[4].count + children[5].count + children[6].count == 27 * u.count,
        u.count >= 1 ==> forall|i: int| 0 <= i < 7 ==> (#[trigger] children[i]).count >= 1,
{
    assert(children[0].count == u.count * roll_frequency(3));
    assert(children[1].count == u.count * roll_frequency(4));
    assert(children[2].count == u.count * roll_frequency(5));
    assert(children[3].count == u.count * roll_frequency(6));
    assert(children[4].count == u.count * roll_frequency(7));
    assert(children[5].count == u.count * roll_frequency(8));
    assert(children[6].count == u.count * roll_frequency(9));
    lemma_turn_multiplies(u.count as nat);
    if u.count >= 1 {
        assert forall|i: int| 0 <= i < 7 implies (#[trigger] children[i]).count >= 1 by {
            assert(roll_frequency(i + 3) >= 1);
            assert(u.count * roll_frequency(i + 3) >= 1) by (nonlinear_arith)
                requires
                    u.count >= 1,
                    roll_frequency(i + 3) >= 1,
            ;
        }
    }
}

/// Where a game stands after `depth` more turns at most, counted in
/// universes of that depth: a game that has ended counts for all the
/// universes that it would have become, a game under way for one.
pub open spec fn mass(g: Game, t: int, depth: nat) -> nat
    decreases depth,
{
    if winner_of(g, t) is Some || depth == 0 {
        pow27(depth)
    } else {
        let d = (depth - 1) as nat;
        roll_frequency(3) * mass(after(g, 3), t, d) + roll_frequency(4) * mass(after(g, 4), t, d)
            + roll_frequency(5) * mass(after(g, 5), t, d) + roll_frequency(6) * mass(
            after(g, 6),
            t,
            d,
        ) + roll_frequency(7) * mass(after(g, 7), t, d) + roll_frequency(8) * mass(
            after(g, 8),
            t,
            d,
        ) + roll_frequency(9) * mass(after(g, 9), t, d)
    }
}

/// No universe is lost at any depth: the games that have ended after
/// `depth` turns, each weighted by the universes of the turns that it was
/// spared, and the games still under way make 27 to the power of `depth`.
pub proof fn lemma_no_universe_lost(g: Game, t: int, depth: nat)
    ensures
        mass(g, t, depth) == pow27(depth),
    decreases depth,
{
    if !(winner_of(g, t) is Some) && depth > 0 {
        let d = (depth - 1) as nat;
        lemma_no_universe_lost(after(g, 3), t, d);
        lemma_no_universe_lost(after(g, 4), t, d);
        lemma_no_universe_lost(after(g, 5), t, d);
        lemma_no_universe_lost(after(g, 6), t, d);
        lemma_no_universe_lost(after(g, 7), t, d);
        lemma_no_universe_lost(after(g, 8), t, d);
        lemma_no_universe_lost(after(g, 9), t, d);
        lemma_turn_multiplies(pow27(d));
        assert(pow27(depth) == 27 * pow27(d));
        assert(roll_frequency(3) * pow27(d) == pow27(d) * roll_frequency(3)) by (nonlinear_arith);
        assert(roll_frequency(4) * pow27(d) == pow27(d) * roll_frequency(4)) by (nonlinear_arith);
        assert(roll_frequency(5) * pow27(d) == pow27(d) * roll_frequency(5)) by (nonlinear_arith);
        assert(roll_frequency(6) * pow27(d) == pow27(d) * roll_frequency(6)) by (nonlinear_arith);
        assert(roll_frequency(7) * pow27(d) == pow27(d) * roll_frequency(7)) by (nonlinear_arith);
        assert(roll_frequency(8) * pow27(d) == pow27(d) * roll_frequency(8)) by (nonlinear_arith);
        assert(roll_frequency(9) * pow27(d) == pow27(d) * roll_frequency(9)) by (nonlinear_arith);
    }
}

/// The universes in which the game from `g` has ended after `depth`
/// more turns at most, of those in which the next three throws sum to
/// `roll` or more.
pub open spec fn ended_tally(g: Game, t: int, depth: nat, roll: int) -> nat
    decreases depth, 10 - roll,
{
    if !live(g, t) || roll < 3 || roll > 9 || depth == 0 {
        0
    } else {
        let c = after(g, roll);
        let over: nat = match winner_of(c, t) {
            Some(_) => 1,
            None => ended_tally(c, t, (depth - 1) as nat, 3),
        };
        roll_frequency(roll) * over + ended_tally(g, t, depth, roll + 1)
    }
}

/// The universes in which the game from `g` has ended after `depth`
/// more turns at most.
pub open spec fn ended(g: Game, t: int, depth: nat) -> nat {
    match winner_of(g, t) {
        Some(_) => 1,
        None => ended_tally(g, t, depth, 3),
    }
}

proof fn lemma_ended_tally(g: Game, t: int, depth: nat, roll: int)
    requires
        live(g, t),
        depth >= 2 * t - g.s0 - g.s1,
        3 <= roll <= 10,
    ensures
        ended_tally(g, t, depth, roll) == tally(g, t, 0, roll) + tally(g, t, 1, roll),
    decreases depth, 10 - roll,
{
    if roll <= 9 {
        let c = after(g, roll);
        lemma_tally_unfold(g, t, 0, roll);
        lemma_tally_unfold(g, t, 1, roll);
        lemma_ended_tally(g, t, depth, roll + 1);
        let d = (depth - 1) as nat;
        if winner_of(c, t) is None {
            lemma_ended_tally(c, t, d, 3);
        }
        let f = roll_frequency(roll);
        let a = won_after(g, t, 0, roll);
        let b = won_after(g, t, 1, roll);
        let over: nat = match winner_of(c, t) {
            Some(_) => 1,
            None => ended_tally(c, t, d, 3),
        };
        assert(over == a + b);
        assert(f * over == f * a + f * b) by (nonlinear_arith)
            requires
                over == a + b,
        ;
    }
}

/// Every universe is won by one of the players: once the turns are as
/// many as the points that the two scores lack between them, the universes
/// in which the game has ended are those that the one player wins and
/// those that the other wins.
pub proof fn lemma_every_universe_won(g: Game, t: int, depth: nat)
    requires
        winner_of(g, t) is Some || (live(g, t) && depth >= 2 * t - g.s0 - g.s1),
    ensures
        ended(g, t, depth) == wins(g, t, 0) + wins(g, t, 1),
{
    if winner_of(g, t) is None {
        lemma_ended_tally(g, t, depth, 3);
    }
}

/// The games from `g` that have ended after `depth` turns at most, each
/// weighted by the universes of the turns that it was spared; a game
/// still under way counts for nothing.
pub open spec fn ended_mass(g: Game, t: int, depth: nat) -> nat
    decreases depth,
{
    if winner_of(g, t) is Some {
        pow27(depth)
    } else if depth == 0 {
        0
    } else {
        let d = (depth - 1) as nat;
        roll_frequency(3) * ended_mass(after(g, 3), t, d) + roll_frequency(4) * ended_mass(
            after(g, 4),
            t,
            d,
        ) + roll_frequency(5) * ended_mass(after(g, 5), t, d) + roll_frequency(6) * ended_mass(
            after(g, 6),
            t,
            d,
        ) + roll_frequency(7) * ended_mass(after(g, 7), t, d) + roll_frequency(8) * ended_mass(
            after(g, 8),
            t,
            d,
        ) + roll_frequency(9) * ended_mass(after(g, 9), t, d)
    }
}

/// Once the turns are as many as the points that the two scores lack
/// between them, the games that have ended make up all the universes.
pub proof fn lemma_all_games_end(g: Game, t: int, depth: nat)
    requires
        winner_of(g, t) is Some || (live(g, t) && depth >= 2 * t - g.s0 - g.s1),
    ensures
        ended_mass(g, t, depth) == pow27(depth),
    decreases depth,
{
    if winner_of(g, t) is None {
        let d = (depth - 1) as nat;
        lemma_tally_unfold(g, t, 0, 3);
        lemma_tally_unfold(g, t, 0, 4);
        lemma_tally_unfold(g, t, 0, 5);
        lemma_tally_unfold(g, t, 0, 6);
        lemma_tally_unfold(g, t, 0, 7);
        lemma_tally_unfold(g, t, 0, 8);
        lemma_tally_unfold(g, t, 0, 9);
        lemma_all_games_end(after(g, 3), t, d);
        lemma_all_games_end(after(g, 4), t, d);
        lemma_all_games_end(after(g, 5), t, d);
        lemma_all_games_end(after(g, 6), t, d);
        lemma_all_games_end(after(g, 7), t, d);
        lemma_all_games_end(after(g, 8), t, d);
        lemma_all_games_end(after(g, 9), t, d);
        lemma_turn_multiplies(pow27(d));
        assert(pow27(depth) == 27 * pow27(d));
        assert(roll_frequency(3) * pow27(d) == pow27(d) * roll_frequency(3)) by (nonlinear_arith);
        assert(roll_frequency(4) * pow27(d) == pow27(d) * roll_frequency(4)) by (nonlinear_arith);
        assert(roll_frequency(5) * pow27(d) == pow27(d) * roll_frequency(5)) by (nonlinear_arith);
        assert(roll_frequency(6) * pow27(d) == pow27(d) * roll_frequency(6)) by (nonlinear_arith);
        assert(roll_frequency(7) * pow27(d) == pow27(d) * roll_frequency(7)) by (nonlinear_arith);
        assert(roll_frequency(8) * pow27(d) == pow27(d) * roll_frequency(8)) by (nonlinear_arith);
        assert(roll_frequency(9) * pow27(d) == pow27(d) * roll_frequency(9)) by (nonlinear_arith);
    }
}

/// What `count_outcomes` counts is every universe, and none is lost: after
/// twice as many turns as the winning score, or more, every game from the
/// start has ended; the universes in which it has ended are those of the
/// one player and those of the other; and with each weighted by the
/// universes of the turns that it was spared, they make 27 to the power of
/// the number of turns.
pub proof fn lemma_outcomes_conserved(p0: int, p1: int, t: int, depth: nat)
    requires
        0 <= p0 < 10,
        0 <= p1 < 10,
        0 < t,
        depth >= 2 * t,
    ensures
        ended(start_game(p0, p1), t, depth) == wins(start_game(p0, p1), t, 0) + wins(
            start_game(p0, p1),
            t,
            1,
        ),
        ended_mass(start_game(p0, p1), t, depth) == pow27(depth),
        mass(start_game(p0, p1), t, depth) == pow27(depth),
{
    lemma_every_universe_won(start_game(p0, p1), t, depth);
    lemma_all_games_end(start_game(p0, p1), t, depth);
    lemma_no_universe_lost(start_game(p0, p1), t, depth);
}

/// In how many of the 27 outcomes of three throws the sum is `roll`.
pub fn roll_count(roll: u32) -> (n: u64)
    ensures
        n == roll_frequency(roll as int),
{
    if roll == 3 || roll == 9 {
        1
    } else if roll == 4 || roll == 8 {
        3
    } else if roll == 5 || roll == 7 {
        6
    } else if roll == 6 {
        7
    } else {
        0
    }
}

// ----- the table of states -----
/// The number of the state `g` among the states under way, which grows with each turn.
pub open spec fn state_key(g: Game, t: int) -> int {
    g.s0 * (t * 200) + g.s1 * 200 + g.p0 * 20 + g.p1 * 2 + g.turn
}

/// The state with number `k`.
pub open spec fn state_at(k: int, t: int) -> Game {
    let rest = k % (t * 200);
    Game {
        p0: (rest % 200) / 20,
        p1: (rest % 20) / 2,
        s0: k / (t * 200),
        s1: rest / 200,
        turn: rest % 2,
    }
}

#[verifier::spinoff_prover]
#[verifier::rlimit(60)]
proof fn lemma_state_key(g: Game, t: int)
    requires
        live(g, t),
    ensures
        0 <= state_key(g, t) < t * (t * 200),
        state_at(state_key(g, t), t) == g,
{
    let big = t * 200;
    let rest = g.s1 * 200 + g.p0 * 20 + g.p1 * 2 + g.turn;
    assert(0 <= rest < big);
    vstd::arithmetic::div_mod::lemma_fundamental_div_mod_converse(
        state_key(g, t),
        big,
        g.s0,
        rest,
    );
    assert(state_key(g, t) / big == g.s0);
    assert(state_key(g, t) % big == rest);
    assert(rest / 200 == g.s1);
    assert(rest % 200 == g.p0 * 20 + g.p1 * 2 + g.turn);
    assert((rest % 200) / 20 == g.p0);
    assert(rest % 20 == g.p1 * 2 + g.turn);
    assert((rest % 20) / 2 == g.p1);
    assert(rest % 2 == g.turn);
    assert(g.s0 * big + rest < t * big) by (nonlinear_arith)
        requires
            0 <= g.s0 < t,
            0 <= rest < big,
    ;
    assert(0 <= g.s0 * big) by (nonlinear_arith)
        requires
            0 <= g.s0,
            0 <= big,
    ;
}

proof fn lemma_state_at(k: int, t: int)
    requires
        0 <= t,
        0 <= k < t * (t * 200),
    ensures
        live(state_at(k, t), t),
        state_key(state_at(k, t), t) == k,
{
    let big = t * 200;
    assert(t > 0) by (nonlinear_arith)
        requires
            0 <= t,
            0 <= k < t * (t * 200),
    ;
    vstd::arithmetic::div_mod::lemma_fundamental_div_mod(k, big);
    let q = k / big;
    let rest = k % big;
    assert(big * q == q * big) by (nonlinear_arith);
    assert(0 <= q < t) by (nonlinear_arith)
        requires
            0 <= k < t * big,
            k == q * big + rest,
            0 <= rest < big,
            big > 0,
    ;
}

/// The universes that `player` wins from the states numbered `from` and up,
/// where `table` holds how many universes have come to each state.
pub open spec fn weighted_wins(table: Seq<u64>, t: int, player: int, from: int) -> nat
    decreases table.len() - from,
{
    if from < 0 || from >= table.len() {
        0
    } else {
        (table[from] as nat) * tally(state_at(from, t), t, player, 3) + weighted_wins(
            table,
            t,
            player,
            from + 1,
        )
    }
}

proof fn lemma_weighted_zero(table: Seq<u64>, t: int, player: int, from: int)
    requires
        0 <= from,
        forall|j: int| from <= j < table.len() ==> table[j] == 0,
    ensures
        weighted_wins(table, t, player, from) == 0,
    decreases table.len() - from,
{
    if from < table.len() {
        lemma_weighted_zero(table, t, player, from + 1);
        assert(table[from] * tally(state_at(from, t), t, player, 3) == 0) by (nonlinear_arith)
            requires
                table[from] == 0,
        ;
    }
}

proof fn lemma_weighted_add(table: Seq<u64>, t: int, player: int, from: int, k: int, more: u64)
    requires
        0 <= from <= k < table.len(),
        table[k] + more <= u64::MAX,
    ensures
        weighted_wins(table.update(k, (table[k] + more) as u64), t, player, from) == weighted_wins(
            table,
            t,
            player,
            from,
        ) + more * tally(state_at(k, t), t, player, 3),
    decreases table.len() - from,
{
    let table2 = table.update(k, (table[k] + more) as u64);
    let v = tally(state_at(k, t), t, player, 3);
    if from < k {
        lemma_weighted_add(table, t, player, from + 1, k, more);
    } else {
        lemma_weighted_same(table, table2, t, player, k + 1);
        assert((table[k] + more) * v == table[k] * v + more * v) by (nonlinear_arith);
    }
}

proof fn lemma_weighted_same(a: Seq<u64>, b: Seq<u64>, t: int, player: int, from: int)
    requires
        0 <= from,
        a.len() == b.len(),
        forall|j: int| from <= j < a.len() ==> a[j] == b[j],
    ensures
        weighted_wins(a, t, player, from) == weighted_wins(b, t, player, from),
    decreases a.len() - from,
{
    if from < a.len() {
        lemma_weighted_same(a, b, t, player, from + 1);
    }
}

/// The universes counted at one state are among those counted from `from` up.
proof fn lemma_weighted_part(table: Seq<u64>, t: int, player: int, from: int, k: int)
    requires
        0 <= from <= k < table.len(),
    ensures
        weighted_wins(table, t, player, from) >= table[k] * tally(state_at(k, t), t, player, 3),
    decreases table.len() - from,
{
    if from < k {
        lemma_weighted_part(table, t, player, from + 1, k);
    }
}

/// What the counting returns for a start at `p0` and `p1`: the universes that
/// each player wins, or that they cannot be counted in 64 bits.
pub open spec fn is_outcome_count(
    p0: int,
    p1: int,
    t: int,
    r: Result<(u64, u64), ConfigurationError>,
) -> bool {
    let first = wins(start_game(p0, p1), t, 0);
    let second = wins(start_game(p0, p1), t, 1);
    match r {
        Ok((a, b)) => a == first && b == second && first + second <= u64::MAX,
        Err(e) => e == ConfigurationError::Overflow && first + second > u64::MAX,
    }
}

/// The universes counted so far account for all of them: those won, those
/// waiting at the states above `k`, and the `c` at state `k` in which the
/// throws sum to `roll` or more.
#[verifier::opaque]
spec fn accounted(
    table: Seq<u64>,
    t: int,
    k: int,
    c: int,
    roll: int,
    won: (int, int),
    total: (int, int),
) -> bool {
    let g = state_at(k, t);
    &&& won.0 + weighted_wins(table, t, 0, k + 1) + c * tally(g, t, 0, roll) == total.0
    &&& won.1 + weighted_wins(table, t, 1, k + 1) + c * tally(g, t, 1, roll) == total.1
}

/// The universes of one sum of throws are no more than all of them.
proof fn lemma_share(
    table: Seq<u64>,
    t: int,
    k: int,
    c: int,
    roll: int,
    won: (int, int),
    total: (int, int),
)
    requires
        0 <= t,
        0 <= k < t * (t * 200),
        3 <= roll <= 9,
        0 <= c,
        0 <= won.0,
        0 <= won.1,
        accounted(table, t, k, c, roll, won, total),
    ensures
        total.0 + total.1 >= c * roll_frequency(roll),
        won_after(state_at(k, t), t, 0, roll) == 1 ==> total.0 >= won.0 + c * roll_frequency(roll),
        won_after(state_at(k, t), t, 1, roll) == 1 ==> total.1 >= won.1 + c * roll_frequency(roll),
{
    reveal(accounted);
    let g = state_at(k, t);
    lemma_state_at(k, t);
    lemma_tally_unfold(g, t, 0, roll);
    lemma_tally_unfold(g, t, 1, roll);
    lemma_some_winner(g, t, roll);
    let f = roll_frequency(roll) as int;
    let x0 = won_after(g, t, 0, roll) as int;
    let x1 = won_after(g, t, 1, roll) as int;
    let rest0 = tally(g, t, 0, roll + 1) as int;
    let rest1 = tally(g, t, 1, roll + 1) as int;
    assert(c * (f * x0 + rest0) + c * (f * x1 + rest1) >= c * f) by (nonlinear_arith)
        requires
            x0 + x1 >= 1,
            x0 >= 0,
            x1 >= 0,
            c >= 0,
            f >= 0,
            rest0 >= 0,
            rest1 >= 0,
    ;
    assert(x0 == 1 ==> c * (f * x0 + rest0) >= c * f) by (nonlinear_arith)
        requires
            c >= 0,
            f >= 0,
            rest0 >= 0,
    ;
    assert(x1 == 1 ==> c * (f * x1 + rest1) >= c * f) by (nonlinear_arith)
        requires
            c >= 0,
            f >= 0,
            rest1 >= 0,
    ;
}

/// Once a player has won the universes of one sum of throws.
proof fn lemma_step_won(
    table: Seq<u64>,
    t: int,
    k: int,
    c: int,
    roll: int,
    won: (int, int),
    total: (int, int),
    w: int,
)
    requires
        0 <= t,
        0 <= k < t * (t * 200),
        3 <= roll <= 9,
        accounted(table, t, k, c, roll, won, total),
        winner_of(after(state_at(k, t), roll), t) == Some(w),
        w == 0 || w == 1,
    ensures
        w == 0 ==> accounted(
            table,
            t,
            k,
            c,
            roll + 1,
            (won.0 + c * roll_frequency(roll), won.1),
            total,
        ),
        w == 1 ==> accounted(
            table,
            t,
            k,
            c,
            roll + 1,
            (won.0, won.1 + c * roll_frequency(roll)),
            total,
        ),
{
    reveal(accounted);
    let g = state_at(k, t);
    lemma_state_at(k, t);
    lemma_tally_unfold(g, t, 0, roll);
    lemma_tally_unfold(g, t, 1, roll);
    let f = roll_frequency(roll) as int;
    let rest0 = tally(g, t, 0, roll + 1) as int;
    let rest1 = tally(g, t, 1, roll + 1) as int;
    assert(c * (f * 1 + rest0) == c * f + c * rest0) by (nonlinear_arith);
    assert(c * (f * 0 + rest0) == c * rest0) by (nonlinear_arith);
    assert(c * (f * 1 + rest1) == c * f + c * rest1) by (nonlinear_arith);
    assert(c * (f * 0 + rest1) == c * rest1) by (nonlinear_arith);
}

/// The universes waiting at the state that one sum of throws leads to are no
/// more than all of them.
proof fn lemma_share_live(
    table: Seq<u64>,
    t: int,
    k: int,
    c: int,
    roll: int,
    won: (int, int),
    total: (int, int),
)
    requires
        0 <= t,
        0 <= k < t * (t * 200) == table.len(),
        3 <= roll <= 9,
        0 <= c,
        0 <= won.0,
        0 <= won.1,
        accounted(table, t, k, c, roll, won, total),
        winner_of(after(state_at(k, t), roll), t) is None,
    ensures
        k < state_key(after(state_at(k, t), roll), t) < table.len(),
        total.0 + total.1 >= table[state_key(after(state_at(k, t), roll), t)] + c * roll_frequency(
            roll,
        ),
{
    reveal(accounted);
    let g = state_at(k, t);
    lemma_state_at(k, t);
    lemma_tally_unfold(g, t, 0, roll);
    lemma_tally_unfold(g, t, 1, roll);
    let child = after(g, roll);
    lemma_state_key(child, t);
    let at = state_key(child, t);
    assert(at > k) by (nonlinear_arith)
        requires
            at == child.s0 * (t * 200) + child.s1 * 200 + child.p0 * 20 + child.p1 * 2 + child.turn,
            k == g.s0 * (t * 200) + g.s1 * 200 + g.p0 * 20 + g.p1 * 2 + g.turn,
            live(g, t),
            live(child, t),
            (child.s0 > g.s0 && child.s1 == g.s1) || (child.s0 == g.s0 && child.s1 > g.s1),
    ;
    lemma_weighted_part(table, t, 0, k + 1, at);
    lemma_weighted_part(table, t, 1, k + 1, at);
    lemma_some_winner(child, t, 3);
    let v0 = tally(child, t, 0, 3) as int;
    let v1 = tally(child, t, 1, 3) as int;
    let f = roll_frequency(roll) as int;
    let rest0 = tally(g, t, 0, roll + 1) as int;
    let rest1 = tally(g, t, 1, roll + 1) as int;
    let old = table[at] as int;
    assert(old * v0 + old * v1 + c * (f * v0 + rest0) + c * (f * v1 + rest1) >= old + c * f)
        by (nonlinear_arith)
        requires
            v0 + v1 >= 1,
            old >= 0,
            c >= 0,
            f >= 0,
            v0 >= 0,
            v1 >= 0,
            rest0 >= 0,
            rest1 >= 0,
    ;
}

/// Once the universes of one sum of throws have joined those waiting at the
/// state that it leads to.
proof fn lemma_step_live(
    table: Seq<u64>,
    t: int,
    k: int,
    c: int,
    roll: int,
    won: (int, int),
    total: (int, int),
    more: u64,
)
    requires
        0 <= t,
        0 <= k < t * (t * 200) == table.len(),
        3 <= roll <= 9,
        accounted(table, t, k, c, roll, won, total),
        winner_of(after(state_at(k, t), roll), t) is None,
        more == c * roll_frequency(roll),
        k < state_key(after(state_at(k, t), roll), t) < table.len(),
        table[state_key(after(state_at(k, t), roll), t)] + more <= u64::MAX,
    ensures
        accounted(
            table.update(
                state_key(after(state_at(k, t), roll), t),
                (table[state_key(after(state_at(k, t), roll), t)] + more) as u64,
            ),
            t,
            k,
            c,
            roll + 1,
            won,
            total,
        ),
{
    reveal(accounted);
    let g = state_at(k, t);
    lemma_state_at(k, t);
    lemma_tally_unfold(g, t, 0, roll);
    lemma_tally_unfold(g, t, 1, roll);
    let child = after(g, roll);
    lemma_state_key(child, t);
    let at = state_key(child, t);
    lemma_weighted_add(table, t, 0, k + 1, at, more);
    lemma_weighted_add(table, t, 1, k + 1, at, more);
    let v0 = tally(child, t, 0, 3) as int;
    let v1 = tally(child, t, 1, 3) as int;
    let f = roll_frequency(roll) as int;
    let rest0 = tally(g, t, 0, roll + 1) as int;
    let rest1 = tally(g, t, 1, roll + 1) as int;
    assert(c * (f * v0 + rest0) == (c * f) * v0 + c * rest0) by (nonlinear_arith);
    assert(c * (f * v1 + rest1) == (c * f) * v1 + c * rest1) by (nonlinear_arith);
}

proof fn lemma_pass_start(table: Seq<u64>, t: int, k: int, won: (int, int), total: (int, int))
    requires
        0 <= k < table.len(),
        won.0 + weighted_wins(table, t, 0, k) == total.0,
        won.1 + weighted_wins(table, t, 1, k) == total.1,
    ensures
        accounted(table, t, k, table[k] as int, 3, won, total),
{
    reveal(accounted);
}

proof fn lemma_pass_end(
    table: Seq<u64>,
    t: int,
    k: int,
    c: int,
    won: (int, int),
    total: (int, int),
)
    requires
        accounted(table, t, k, c, 10, won, total),
    ensures
        won.0 + weighted_wins(table, t, 0, k + 1) == total.0,
        won.1 + weighted_wins(table, t, 1, k + 1) == total.1,
{
    reveal(accounted);
    let g = state_at(k, t);
    assert(tally(g, t, 0, 10) == 0);
    assert(tally(g, t, 1, 10) == 0);
    assert(c * 0 == 0);
}

/// The number of a state under way.
fn key_of(u: &Universe, winning_score: u32) -> (k: usize)
    requires
        live(u.game(), winning_score as int),
        winning_score <= MAX_WINNING_SCORE,
    ensures
        k == state_key(u.game(), winning_score as int),
        k < winning_score * (winning_score * 200),
{
    proof {
        lemma_state_key(u.game(), winning_score as int);
    }
    let big: usize = winning_score as usize * 200;
    assert(u.scores[0] * (winning_score * 200) <= 140 * 28000) by (nonlinear_arith)
        requires
            u.scores[0] < winning_score <= 140,
    ;
    u.scores[0] as usize * big + u.scores[1] as usize * 200 + u.pos[0] as usize * 20
        + u.pos[1] as usize * 2 + u.turn as usize
}

/// The state with number `k`, reached by `count` universes.
fn universe_at(k: usize, winning_score: u32, count: u64) -> (u: Universe)
    requires
        k < winning_score * (winning_score * 200),
        winning_score <= MAX_WINNING_SCORE,
    ensures
        u.game() == state_at(k as int, winning_score as int),
        u.count == count,
        live(u.game(), winning_score as int),
        u.scores[0] + 10 <= u32::MAX,
        u.scores[1] + 10 <= u32::MAX,
{
    proof {
        lemma_state_at(k as int, winning_score as int);
    }
    let big: usize = winning_score as usize * 200;
    let rest = k % big;
    Universe {
        count,
        pos: [((rest % 200) / 20) as u8, ((rest % 20) / 2) as u8],
        scores: [(k / big) as u32, (rest / 200) as u32],
        turn: (rest % 2) as u8,
    }
}

/// Counts the universes that each player wins from a state under way. The
/// states are taken in the order of their numbers; the universes that come to
/// the same state are counted together, and those in which a player has won
/// are added to that player's total.
pub fn enumerate_weighted(start: &Universe, winning_score: u32) -> (r: Result<
    (u64, u64),
    ConfigurationError,
>)
    requires
        live(start.game(), winning_score as int),
        winning_score <= MAX_WINNING_SCORE,
    ensures
        match r {
            Ok((a, b)) => {
                &&& a == start.count * tally(start.game(), winning_score as int, 0, 3)
                &&& b == start.count * tally(start.game(), winning_score as int, 1, 3)
                &&& a + b <= u64::MAX
            },
            Err(e) => {
                &&& e == ConfigurationError::Overflow
                &&& start.count * tally(start.game(), winning_score as int, 0, 3) + start.count
                    * tally(start.game(), winning_score as int, 1, 3) > u64::MAX
            },
        },
{
    let ghost t = winning_score as int;
    let ghost total: (int, int) = (
        start.count * tally(start.game(), t, 0, 3),
        start.count * tally(start.game(), t, 1, 3),
    );
    assert(winning_score * (winning_score * 200) <= 140 * 28000) by (nonlinear_arith)
        requires
            winning_score <= 140,
    ;
    let n: usize = winning_score as usize * (winning_score as usize * 200);
    let mut table: Vec<u64> = Vec::new();
    let mut i: usize = 0;
    while i < n
        invariant
            i <= n,
            table.len() == i,
            forall|j: int| 0 <= j < i ==> table[j] == 0,
        decreases n - i,
    {
        table.push(0);
        i += 1;
    }
    let first = key_of(start, winning_score);
    let ghost zeros = table@;
    table[first] = start.count;
    let mut won0: u64 = 0;
    let mut won1: u64 = 0;
    proof {
        lemma_state_key(start.game(), t);
        lemma_weighted_zero(zeros, t, 0, 0);
        lemma_weighted_zero(zeros, t, 1, 0);
        lemma_weighted_add(zeros, t, 0, 0, first as int, start.count);
        lemma_weighted_add(zeros, t, 1, 0, first as int, start.count);
        assert(table@ =~= zeros.update(first as int, (zeros[first as int] + start.count) as u64));
    }
    let mut k: usize = 0;
    while k < n
        invariant
            k <= n,
            n == t * (t * 200),
            t == winning_score,
            winning_score <= MAX_WINNING_SCORE,
            table.len() == n,
            total == (
                start.count * tally(start.game(), t, 0, 3),
                start.count * tally(start.game(), t, 1, 3),
            ),
            won0 + weighted_wins(table@, t, 0, k as int) == total.0,
            won1 + weighted_wins(table@, t, 1, k as int) == total.1,
        decreases n - k,
    {
        let c = table[k];
        let here = universe_at(k, winning_score, c);
        proof {
            lemma_pass_start(table@, t, k as int, (won0 as int, won1 as int), total);
        }
        let mut roll: u32 = 3;
        while roll <= 9
            invariant
                3 <= roll <= 10,
                k < n,
                n == t * (t * 200),
                t == winning_score,
                winning_score <= MAX_WINNING_SCORE,
                table.len() == n,
                here.game() == state_at(k as int, t),
                here.count == c,
                live(here.game(), t),
                here.scores[0] + 10 <= u32::MAX,
                here.scores[1] + 10 <= u32::MAX,
                total == (
                    start.count * tally(start.game(), t, 0, 3),
                    start.count * tally(start.game(), t, 1, 3),
                ),
                accounted(table@, t, k as int, c as int, roll as int, (won0 as int, won1 as int), total),
            decreases 10 - roll,
        {
            let f = roll_count(roll);
            proof {
                lemma_share(table@, t, k as int, c as int, roll as int, (won0 as int, won1 as int), total);
            }
            let m = match c.checked_mul(f) {
                Some(m) => m,
                None => {
                    return Err(ConfigurationError::Overflow);
                },
            };
            let next = here.play_dirac(roll, f);
            match next.winner(winning_score) {
                Some(w) => {
                    proof {
                        lemma_step_won(
                            table@,
                            t,
                            k as int,
                            c as int,
                            roll as int,
                            (won0 as int, won1 as int),
                            total,
                            w as int,
                        );
                    }
                    if w == 0 {
                        won0 = match won0.checked_add(m) {
                            Some(s) => s,
                            None => {
                                return Err(ConfigurationError::Overflow);
                            },
                        };
                    } else {
                        won1 = match won1.checked_add(m) {
                            Some(s) => s,
                            None => {
                                return Err(ConfigurationError::Overflow);
                            },
                        };
                    }
                },
                None => {
                    proof {
                        lemma_tally_unfold(here.game(), t, 0, roll as int);
                        lemma_share_live(
                            table@,
                            t,
                            k as int,
                            c as int,
                            roll as int,
                            (won0 as int, won1 as int),
                            total,
                        );
                    }
                    let at = key_of(&next, winning_score);
                    let old = table[at];
                    let sum = match old.checked_add(m) {
                        Some(s) => s,
                        None => {
                            return Err(ConfigurationError::Overflow);
                        },
                    };
                    proof {
                        lemma_step_live(
                            table@,
                            t,
                            k as int,
                            c as int,
                            roll as int,
                            (won0 as int, won1 as int),
                            total,
                            m,
                        );
                    }
                    table[at] = sum;
                },
            }
            roll += 1;
        }
        proof {
            lemma_pass_end(table@, t, k as int, c as int, (won0 as int, won1 as int), total);
        }
        k += 1;
    }
    match won0.checked_add(won1) {
        Some(_) => Ok((won0, won1)),
        None => Err(ConfigurationError::Overflow),
    }
}

/// The universes that each player wins when the players start at the given
/// positions, numbered from zero, and play to `winning_score`.
pub fn count_outcomes(initial_positions: [u8; 2], winning_score: u32) -> (r: Result<
    (u64, u64),
    ConfigurationError,
>)
    ensures
        match r {
            Err(ConfigurationError::InvalidStart(p)) => if initial_positions[0] >= 10 {
                p == initial_positions[0]
            } else {
                initial_positions[1] >= 10 && p == initial_positions[1]
            },
            _ => initial_positions[0] < 10 && initial_positions[1] < 10 && is_outcome_count(
                initial_positions[0] as int,
                initial_positions[1] as int,
                winning_score as int,
                r,
            ),
        },
{
    if initial_positions[0] >= 10 {
        return Err(ConfigurationError::InvalidStart(initial_positions[0] as u64));
    }
    if initial_positions[1] >= 10 {
        return Err(ConfigurationError::InvalidStart(initial_positions[1] as u64));
    }
    if winning_score == 0 {
        return Ok((1, 0));
    }
    if winning_score > MAX_WINNING_SCORE {
        proof {
            lemma_too_many(
                initial_positions[0] as int,
                initial_positions[1] as int,
                winning_score as int,
            );
        }
        return Err(ConfigurationError::Overflow);
    }
    let start = Universe { count: 1, pos: initial_positions, scores: [0, 0], turn: 0 };
    proof {
        let g = start.game();
        assert(g == start_game(initial_positions[0] as int, initial_positions[1] as int));
        assert(1 * tally(g, winning_score as int, 0, 3) == tally(g, winning_score as int, 0, 3));
        assert(1 * tally(g, winning_score as int, 1, 3) == tally(g, winning_score as int, 1, 3));
    }
    enumerate_weighted(&start, winning_score)
}

// ----- the practice game -----
/// A die that shows 1, 2, and so on up to its size, and then 1 again.
pub struct Die {
    pub roll_count: i32,
    pub size: i32,
}

impl Die {
    pub fn new(size: i32) -> (d: Die)
        ensures
            d.roll_count == 0,
            d.size == size,
    {
        Die { roll_count: 0, size }
    }

    /// Throws the die once.
    pub fn roll(&mut self) -> (ret: i32)
        requires
            old(self).size > 0,
            0 <= old(self).roll_count < i32::MAX,
        ensures
            ret == old(self).roll_count % old(self).size + 1,
            final(self).roll_count == old(self).roll_count + 1,
            final(self).size == old(self).size,
    {
        let ret = (self.roll_count % self.size) + 1;
        self.roll_count += 1;
        ret
    }

    /// Throws the die three times and returns the sum.
    pub fn roll3(&mut self) -> (ret: i32)
        requires
            old(self).size > 0,
            old(self).size <= i32::MAX / 3,
            0 <= old(self).roll_count < i32::MAX - 3,
        ensures
            ret == three_rolls(old(self).roll_count as int, old(self).size as int),
            final(self).roll_count == old(self).roll_count + 3,
            final(self).size == old(self).size,
    {
        let a = self.roll();
        let b = self.roll();
        let c = self.roll();
        a + b + c
    }
}

/// The sum of three throws of a die of `size` sides that has been thrown `count` times.
pub open spec fn three_rolls(count: int, size: int) -> int {
    (count % size + 1) + ((count + 1) % size + 1) + ((count + 2) % size + 1)
}

/// Moves the player `turn` by `roll` fields and adds the number of the field reached.
pub fn play(pos: &mut [i32; 2], scores: &mut [i32; 2], roll: i32, turn: usize)
    requires
        turn < 2,
        0 <= old(pos)[turn as int],
        0 <= roll,
        old(pos)[turn as int] + roll <= i32::MAX,
        old(scores)[turn as int] + 10 <= i32::MAX,
    ensures
        final(pos)[turn as int] == (old(pos)[turn as int] + roll) % 10,
        final(pos)[1 - turn] == old(pos)[1 - turn],
        final(scores)[turn as int] == old(scores)[turn as int] + final(pos)[turn as int] + 1,
        final(scores)[1 - turn] == old(scores)[1 - turn],
{
    let p = (pos[turn] + roll) % 10;
    pos[turn] = p;
    scores[turn] = scores[turn] + p + 1;
}

/// The practice game from the state given: the number of throws times the
/// score of the player who has not won.
pub open spec fn practice(
    pos: (int, int),
    scores: (int, int),
    turn: int,
    rolls: int,
    winner_score: int,
    size: int,
) -> int
    decreases 2 * winner_score + 20 - scores.0 - scores.1,
{
    if scores.0 >= winner_score || scores.1 >= winner_score {
        rolls * (if turn == 0 {
            scores.0
        } else {
            scores.1
        })
    } else if pos.0 < 0 || pos.1 < 0 || rolls < 0 || size <= 0 || scores.0 < 0 || scores.1 < 0 {
        0
    } else {
        let roll = three_rolls(rolls, size);
        if turn == 0 {
            let p = (pos.0 + roll) % 10;
            practice((p, pos.1), (scores.0 + p + 1, scores.1), 1, rolls + 3, winner_score, size)
        } else {
            let p = (pos.1 + roll) % 10;
            practice((pos.0, p), (scores.0, scores.1 + p + 1), 0, rolls + 3, winner_score, size)
        }
    }
}

/// The greatest winning score and the greatest die of a practice game.
pub const PRACTICE_LIMIT: i32 = 1_000_000;

/// A practice game can be played: the positions are fields of the board,
/// and the winning score and the die are within the limit.
pub open spec fn can_practice(start: [i32; 2], winner_score: i32, size: i32) -> bool {
    &&& 0 <= start[0] < 10
    &&& 0 <= start[1] < 10
    &&& 0 < winner_score <= PRACTICE_LIMIT
    &&& 0 < size <= PRACTICE_LIMIT
}

/// Plays the practice game with a die of `size` sides from the given
/// positions, numbered from zero; `None` where it cannot be played.
pub fn play_practice(start: [i32; 2], winner_score: i32, size: i32) -> (r: Option<i64>)
    ensures
        r is Some <==> can_practice(start, winner_score, size),
        r is Some ==> r.unwrap() == practice(
            (start[0] as int, start[1] as int),
            (0, 0),
            0,
            0,
            winner_score as int,
            size as int,
        ),
{
    if start[0] < 0 || start[0] >= 10 || start[1] < 0 || start[1] >= 10 || winner_score <= 0
        || winner_score > PRACTICE_LIMIT || size <= 0 || size > PRACTICE_LIMIT {
        return None;
    }
    let mut pos = start;
    let mut scores: [i32; 2] = [0, 0];
    let mut turn: usize = 0;
    let mut d = Die::new(size);
    while scores[0] < winner_score && scores[1] < winner_score
        invariant
            turn < 2,
            0 <= pos[0] < 10,
            0 <= pos[1] < 10,
            0 <= scores[0] < winner_score + 10,
            0 <= scores[1] < winner_score + 10,
            0 < winner_score <= 1_000_000,
            d.size == size,
            0 < size <= 1_000_000,
            0 <= d.roll_count <= 3 * (scores[0] + scores[1]),
            practice(
                (pos[0] as int, pos[1] as int),
                (scores[0] as int, scores[1] as int),
                turn as int,
                d.roll_count as int,
                winner_score as int,
                size as int,
            ) == practice(
                (start[0] as int, start[1] as int),
                (0, 0),
                0,
                0,
                winner_score as int,
                size as int,
            ),
        decreases 2 * winner_score + 20 - scores[0] - scores[1],
    {
        let roll = d.roll3();
        play(&mut pos, &mut scores, roll, turn);
        turn = (turn + 1) % 2;
    }
    let rolls = d.roll_count as i64;
    let score = scores[turn] as i64;
    assert(rolls * score <= 6_000_060 * 1_000_010) by (nonlinear_arith)
        requires
            0 <= rolls <= 6_000_060,
            0 <= score <= 1_000_010,
    ;
    assert(rolls * score >= 0) by (nonlinear_arith)
        requires
            0 <= rolls,
            0 <= score,
    ;
    Some(rolls * score)
}

/// The practice game: both players start on the fields 5 and 6, counted from
/// one, throw a die of 100 sides and play to 1000.
pub fn run1() -> (r: i64)
    ensures
        r == practice((4, 5), (0, 0), 0, 0, 1000, 100),
{
    match play_practice([4, 5], 1000, 100) {
        Some(r) => r,
        None => 0,
    }
}

/// The game of all universes: both players start on the fields 5 and 6,
/// counted from one, and play to 21. Returns the universes of the player who
/// wins in more of them, and those of the other.
pub fn run2() -> (r: Result<(u64, u64), ConfigurationError>)
    ensures
        ({
            let first = wins(start_game(4, 5), 21, 0);
            let second = wins(start_game(4, 5), 21, 1);
            match r {
                Ok((most, fewest)) => {
                    &&& first + second <= u64::MAX
                    &&& most == if first >= second {
                        first
                    } else {
                        second
                    }
                    &&& fewest == if first >= second {
                        second
                    } else {
                        first
                    }
                },
                Err(e) => e == ConfigurationError::Overflow && first + second > u64::MAX,
            }
        }),
{
    match count_outcomes([4, 5], 21) {
        Ok((a, b)) => if a >= b {
            Ok((a, b))
        } else {
            Ok((b, a))
        },
        Err(e) => Err(e),
    }
}

/// Both games: the answer of the practice game, then those of the game of all universes.
pub fn run() -> (r: Result<(i64, (u64, u64)), String>)
    ensures
        ({
            let first = wins(start_game(4, 5), 21, 0);
            let second = wins(start_game(4, 5), 21, 1);
            match r {
                Ok((game, (most, fewest))) => {
                    &&& game == practice((4, 5), (0, 0), 0, 0, 1000, 100)
                    &&& first + second <= u64::MAX
                    &&& most == if first >= second {
                        first
                    } else {
                        second
                    }
                    &&& fewest == if first >= second {
                        second
                    } else {
                        first
                    }
                },
                Err(e) => e@ == "the universes cannot be counted in 64 bits"@ && first + second
                    > u64::MAX,
            }
        }),
{
    let first = run1();
    match run2() {
        Ok(second) => Ok((first, second)),
        Err(_) => Err(overflow_message()),
    }
}

fn overflow_message() -> (s: String)
    ensures
        s@ == "the universes cannot be counted in 64 bits"@,
{
    "the universes cannot be counted in 64 bits".to_owned()
}

} // verus!
