//! Cube games: which games fit a bag of cubes, and the least bag that fits each.

use crate::errors::{ParseError, PuzzleError};
use crate::text::{
    bytes_of, copy_bytes, decimal, decimal_string, has_prefix, lines, nonempty_lines, nonempty_rows,
    parse_usize, rows_view, same_bytes, split, split_bytes, split_once, split_once_byte,
    starts_with, string_bytes, trim, trim_bytes, unsigned_value,
};
use crate::traits::AdventOfCode;
use vstd::prelude::*;
use vstd::slice::slice_subrange;
use vstd::string::*;

verus! {

/// A game: its number, and the red, green and blue cubes of each handful shown.
#[derive(Debug)]
pub struct Game {
    pub id: usize,
    pub reveals: Vec<[usize; 3]>,
}

/// The handful fits a bag of 12 red, 13 green and 14 blue cubes.
pub open spec fn fits_bag(run: [usize; 3]) -> bool {
    run[0] <= 12 && run[1] <= 13 && run[2] <= 14
}

/// The most cubes of colour `c` among the first `n` handfuls.
pub open spec fn most(reveals: Seq<[usize; 3]>, c: int, n: int) -> nat
    decreases n,
{
    if n <= 0 {
        0
    } else {
        let rest = most(reveals, c, n - 1);
        if rest < reveals[n - 1][c] {
            reveals[n - 1][c] as nat
        } else {
            rest
        }
    }
}

/// The product of the least numbers of cubes of each colour that the game needs.
pub open spec fn power(reveals: Seq<[usize; 3]>) -> nat {
    let n = reveals.len() as int;
    most(reveals, 0, n) * most(reveals, 1, n) * most(reveals, 2, n)
}

impl Game {
    /// Every handful of the game fits the bag.
    pub fn is_valid_game(&self) -> (b: bool)
        ensures
            b == forall|i: int| 0 <= i < self.reveals.len() ==> fits_bag(#[trigger] self.reveals[i]),
    {
        let mut i: usize = 0;
        while i < self.reveals.len()
            invariant
                i <= self.reveals.len(),
                forall|k: int| 0 <= k < i ==> fits_bag(#[trigger] self.reveals[k]),
            decreases self.reveals.len() - i,
        {
            let run = self.reveals[i];
            if 12 < run[0] || 13 < run[1] || 14 < run[2] {
                return false;
            }
            i += 1;
        }
        true
    }

    /// The power of the least bag that fits the game, if it fits a `usize`.
    pub fn minimum_power(&self) -> (r: Option<usize>)
        ensures
            match r {
                Some(p) => p == power(self.reveals@),
                None => power(self.reveals@) > usize::MAX,
            },
    {
        let mut powers: [usize; 3] = [0, 0, 0];
        let mut i: usize = 0;
        while i < self.reveals.len()
            invariant
                i <= self.reveals.len(),
                powers[0] == most(self.reveals@, 0, i as int),
                powers[1] == most(self.reveals@, 1, i as int),
                powers[2] == most(self.reveals@, 2, i as int),
            decreases self.reveals.len() - i,
        {
            let run = self.reveals[i];
            if powers[0] < run[0] {
                powers[0] = run[0];
            }
            if powers[1] < run[1] {
                powers[1] = run[1];
            }
            if powers[2] < run[2] {
                powers[2] = run[2];
            }
            i += 1;
        }
        let a = powers[0] as u128;
        let b = powers[1] as u128;
        let c = powers[2] as u128;
        assert(a * b <= 0xffff_ffff_ffff_ffff * 0xffff_ffff_ffff_ffff) by (nonlinear_arith)
            requires
                0 <= a <= 0xffff_ffff_ffff_ffff,
                0 <= b <= 0xffff_ffff_ffff_ffff,
        ;
        let ab = a * b;
        if ab > usize::MAX as u128 {
            if c == 0 {
                assert(ab * c == 0) by (nonlinear_arith)
                    requires
                        c == 0,
                ;
                return Some(0);
            }
            assert(ab * c >= ab) by (nonlinear_arith)
                requires
                    c >= 1,
                    ab >= 0,
            ;
            return None;
        }
        assert(ab * c <= 0xffff_ffff_ffff_ffff * 0xffff_ffff_ffff_ffff) by (nonlinear_arith)
            requires
                0 <= ab <= 0xffff_ffff_ffff_ffff,
                0 <= c <= 0xffff_ffff_ffff_ffff,
        ;
        let abc = ab * c;
        if abc > usize::MAX as u128 {
            None
        } else {
            Some(abc as usize)
        }
    }
}

// ----- reading a game -----
pub open spec fn red() -> Seq<u8> {
    seq![114u8, 101, 100]
}

pub open spec fn green() -> Seq<u8> {
    seq![103u8, 114, 101, 101, 110]
}

pub open spec fn blue() -> Seq<u8> {
    seq![98u8, 108, 117, 101]
}

/// The words "Game" and a space.
pub open spec fn game_prefix() -> Seq<u8> {
    seq![71u8, 97, 109, 101, 32]
}

/// The colour that a cube names, 0 to 2, or 3 for another word.
pub open spec fn colour_of(word: Seq<u8>) -> int {
    if word == red() {
        0
    } else if word == green() {
        1
    } else if word == blue() {
        2
    } else {
        3
    }
}

/// A cube is written well: a number that fits, a space, and a colour; before
/// a word that is no colour anything may stand.
pub open spec fn cube_ok(cube: Seq<u8>) -> bool {
    match split_once(trim(cube), 32) {
        Some((count, word)) => colour_of(word) == 3 || (unsigned_value(count) is Some
            && unsigned_value(count).unwrap() <= usize::MAX),
        None => false,
    }
}

/// How many cubes of colour `c` the cube shows.
pub open spec fn cube_count(cube: Seq<u8>, c: int) -> nat {
    match split_once(trim(cube), 32) {
        Some((count, word)) => if colour_of(word) == c && unsigned_value(count) is Some {
            unsigned_value(count).unwrap()
        } else {
            0
        },
        None => 0,
    }
}

/// How many cubes of colour `c` the first `n` cubes show.
pub open spec fn cubes_count(cubes: Seq<Seq<u8>>, c: int, n: int) -> nat
    decreases n,
{
    if n <= 0 {
        0
    } else {
        cubes_count(cubes, c, n - 1) + cube_count(cubes[n - 1], c)
    }
}

/// A handful is written well: cubes between commas, that show no more of a
/// colour than fits a `usize`.
pub open spec fn run_ok(run: Seq<u8>) -> bool {
    let cubes = split(run, 44);
    &&& forall|i: int| 0 <= i < cubes.len() ==> cube_ok(#[trigger] cubes[i])
    &&& forall|c: int| 0 <= c < 3 ==> #[trigger] cubes_count(cubes, c, cubes.len() as int) <= usize::MAX
}

/// The red, green and blue cubes of a handful.
pub open spec fn run_value(run: Seq<u8>) -> (nat, nat, nat) {
    let cubes = split(run, 44);
    let n = cubes.len() as int;
    (cubes_count(cubes, 0, n), cubes_count(cubes, 1, n), cubes_count(cubes, 2, n))
}

/// `s` without `prefix` at its start, however often it stands there.
pub open spec fn strip_all(s: Seq<u8>, prefix: Seq<u8>) -> Seq<u8>
    decreases s.len(),
{
    if prefix.len() > 0 && has_prefix(s, prefix) {
        strip_all(s.skip(prefix.len() as int), prefix)
    } else {
        s
    }
}

/// A game is written well: "Game", its number, a colon, and handfuls between semicolons.
pub open spec fn game_ok(s: Seq<u8>) -> bool {
    let parts = split(s, 58);
    &&& parts.len() >= 2
    &&& unsigned_value(strip_all(parts[0], game_prefix())) is Some
    &&& unsigned_value(strip_all(parts[0], game_prefix())).unwrap() <= usize::MAX
    &&& forall|i: int| 0 <= i < split(parts[1], 59).len() ==> run_ok(#[trigger] split(parts[1], 59)[i])
}

/// The number of a game.
pub open spec fn game_id(s: Seq<u8>) -> nat {
    unsigned_value(strip_all(split(s, 58)[0], game_prefix())).unwrap()
}

/// The handfuls of a game.
pub open spec fn game_runs(s: Seq<u8>) -> Seq<(nat, nat, nat)> {
    split(split(s, 58)[1], 59).map_values(|r: Seq<u8>| run_value(r))
}

/// The game `g` is what `s` writes.
pub open spec fn is_game(s: Seq<u8>, g: Game) -> bool {
    &&& g.id == game_id(s)
    &&& g.reveals.len() == game_runs(s).len()
    &&& forall|i: int|
        0 <= i < g.reveals.len() ==> (#[trigger] g.reveals[i])[0] == game_runs(s)[i].0
            && g.reveals[i][1] == game_runs(s)[i].1 && g.reveals[i][2] == game_runs(s)[i].2
}

fn colour(word: &[u8]) -> (c: usize)
    ensures
        c == colour_of(word@),
{
    let r: [u8; 3] = [114, 101, 100];
    let g: [u8; 5] = [103, 114, 101, 101, 110];
    let b: [u8; 4] = [98, 108, 117, 101];
    proof {
        assert(r@ =~= red());
        assert(g@ =~= green());
        assert(b@ =~= blue());
    }
    if same_bytes(word, r.as_slice()) {
        0
    } else if same_bytes(word, g.as_slice()) {
        1
    } else if same_bytes(word, b.as_slice()) {
        2
    } else {
        3
    }
}

/// Reads one handful.
fn parse_run(run: &[u8]) -> (r: Option<[usize; 3]>)
    ensures
        match r {
            Some(v) => run_ok(run@) && v[0] == run_value(run@).0 && v[1] == run_value(run@).1
                && v[2] == run_value(run@).2,
            None => !run_ok(run@),
        },
{
    let cubes = split_bytes(run, 44);
    let ghost cs = split(run@, 44);
    let mut acc: [u128; 3] = [0, 0, 0];
    let mut i: usize = 0;
    proof {
        assert(cs.len() == cubes.len());
    }
    while i < cubes.len()
        invariant
            i <= cubes.len(),
            rows_view(cubes@) == cs,
            cs.len() == cubes.len(),
            cs == split(run@, 44),
            forall|k: int| 0 <= k < i ==> cube_ok(#[trigger] cs[k]),
            forall|c: int| 0 <= c < 3 ==> acc[c] == #[trigger] cubes_count(cs, c, i as int),
            forall|c: int| 0 <= c < 3 ==> #[trigger] acc[c] <= i * usize::MAX,
        decreases cubes.len() - i,
    {
        proof {
            assert(cs[i as int] == cubes@[i as int]@);
            assert(i * usize::MAX + usize::MAX <= 0xffff_ffff_ffff_ffff * 0xffff_ffff_ffff_ffff)
                by (nonlinear_arith)
                requires
                    0 <= i < 0xffff_ffff_ffff_ffff,
                    usize::MAX <= 0xffff_ffff_ffff_ffff,
            ;
            assert(i * usize::MAX + usize::MAX == (i + 1) * usize::MAX) by (nonlinear_arith);
        }
        let cube = trim_bytes(cubes[i].as_slice());
        match split_once_byte(cube.as_slice(), 32) {
            None => {
                return None;
            },
            Some((count, word)) => {
                let c = colour(word.as_slice());
                if c < 3 {
                    match parse_usize(count.as_slice()) {
                        None => {
                            return None;
                        },
                        Some(v) => {
                            let ghost before = acc;
                            acc[c] = acc[c] + v as u128;
                            proof {
                                assert forall|k: int| 0 <= k < 3 implies acc[k]
                                    == #[trigger] cubes_count(cs, k, i + 1) by {
                                    assert(before[k] == cubes_count(cs, k, i as int));
                                }
                            }
                        },
                    }
                } else {
                    proof {
                        assert forall|k: int| 0 <= k < 3 implies acc[k] == #[trigger] cubes_count(
                            cs,
                            k,
                            i + 1,
                        ) by {
                            assert(acc[k] == cubes_count(cs, k, i as int));
                        }
                    }
                }
            },
        }
        i += 1;
    }
    if acc[0] > usize::MAX as u128 || acc[1] > usize::MAX as u128 || acc[2] > usize::MAX as u128 {
        proof {
            assert(acc[0] == cubes_count(cs, 0, cs.len() as int));
            assert(acc[1] == cubes_count(cs, 1, cs.len() as int));
            assert(acc[2] == cubes_count(cs, 2, cs.len() as int));
        }
        return None;
    }
    proof {
        assert forall|c: int| 0 <= c < 3 implies #[trigger] cubes_count(cs, c, cs.len() as int)
            <= usize::MAX by {
            assert(acc[c] == cubes_count(cs, c, cs.len() as int));
        }
        assert(acc[0] == cubes_count(cs, 0, cs.len() as int));
        assert(acc[1] == cubes_count(cs, 1, cs.len() as int));
        assert(acc[2] == cubes_count(cs, 2, cs.len() as int));
    }
    Some([acc[0] as usize, acc[1] as usize, acc[2] as usize])
}

/// A copy of `s` without "Game " at its start, however often it stands there.
fn strip_game(s: &[u8]) -> (r: Vec<u8>)
    ensures
        r@ == strip_all(s@, game_prefix()),
{
    let prefix: [u8; 5] = [71, 97, 109, 101, 32];
    proof {
        assert(prefix@ =~= game_prefix());
    }
    let mut o: usize = 0;
    proof {
        assert(s@.skip(0) =~= s@);
    }
    while s.len() - o >= 5 && starts_with(slice_subrange(s, o, s.len()), prefix.as_slice())
        invariant
            o <= s.len(),
            prefix@ == game_prefix(),
            strip_all(s@, game_prefix()) == strip_all(s@.skip(o as int), game_prefix()),
        decreases s.len() - o,
    {
        proof {
            assert(s@.subrange(o as int, s.len() as int) =~= s@.skip(o as int));
            assert(s@.skip(o as int).skip(5) =~= s@.skip(o + 5));
        }
        o += 5;
    }
    proof {
        assert(s@.subrange(o as int, s.len() as int) =~= s@.skip(o as int));
    }
    copy_bytes(slice_subrange(s, o, s.len()))
}

impl Game {
    /// Reads a game from a line such as `Game 1: 3 blue, 4 red; 1 red, 2 green`.
    pub fn from_str(s: &str) -> (r: Result<Game, ParseError>)
        ensures
            match r {
                Ok(g) => game_ok(s.spec_bytes()) && is_game(s.spec_bytes(), g),
                Err(e) => e == ParseError::Malformed && !game_ok(s.spec_bytes()),
            },
    {
        Game::from_bytes(s.as_bytes())
    }

    /// Reads a game from the bytes of a line.
    pub fn from_bytes(s: &[u8]) -> (r: Result<Game, ParseError>)
        ensures
            match r {
                Ok(g) => game_ok(s@) && is_game(s@, g),
                Err(e) => e == ParseError::Malformed && !game_ok(s@),
            },
    {
        let parts = split_bytes(s, 58);
        let ghost ps = split(s@, 58);
        proof {
            assert(ps.len() == parts.len());
        }
        if parts.len() < 2 {
            return Err(ParseError::Malformed);
        }
        proof {
            assert(ps[0] == parts@[0]@);
            assert(ps[1] == parts@[1]@);
        }
        let name = strip_game(parts[0].as_slice());
        let id = match parse_usize(name.as_slice()) {
            Some(id) => id,
            None => {
                return Err(ParseError::Malformed);
            },
        };
        let runs = split_bytes(parts[1].as_slice(), 59);
        let ghost rs = split(ps[1], 59);
        proof {
            assert(rs.len() == runs.len());
        }
        let mut reveals: Vec<[usize; 3]> = Vec::new();
        let mut i: usize = 0;
        while i < runs.len()
            invariant
                i <= runs.len(),
                rows_view(runs@) == rs,
                rs.len() == runs.len(),
                rs == split(ps[1], 59),
                ps == split(s@, 58),
                ps.len() >= 2,
                id == unsigned_value(strip_all(ps[0], game_prefix())).unwrap(),
                unsigned_value(strip_all(ps[0], game_prefix())) is Some,
                reveals.len() == i,
                forall|k: int| 0 <= k < i ==> run_ok(#[trigger] rs[k]),
                forall|k: int|
                    0 <= k < i ==> (#[trigger] reveals[k])[0] == run_value(rs[k]).0 && reveals[k][1]
                        == run_value(rs[k]).1 && reveals[k][2] == run_value(rs[k]).2,
            decreases runs.len() - i,
        {
            proof {
                assert(rs[i as int] == runs@[i as int]@);
            }
            match parse_run(runs[i].as_slice()) {
                Some(v) => {
                    reveals.push(v);
                },
                None => {
                    return Err(ParseError::Malformed);
                },
            }
            i += 1;
        }
        Ok(Game { id, reveals })
    }
}

// ----- the two parts -----
/// The games of a text: its lines, but for the empty ones.
pub open spec fn games_text(input: Seq<u8>) -> Seq<Seq<u8>> {
    nonempty_rows(lines(input))
}

/// Every game of the text is written well.
pub open spec fn input_ok(input: Seq<u8>) -> bool {
    forall|i: int| 0 <= i < games_text(input).len() ==> game_ok(#[trigger] games_text(input)[i])
}

/// The games are what the lines write.
pub open spec fn are_games(rows: Seq<Seq<u8>>, games: Seq<Game>) -> bool {
    &&& games.len() == rows.len()
    &&& forall|i: int| 0 <= i < rows.len() ==> is_game(#[trigger] rows[i], games[i])
}

/// What a game counts in a part: in the first its number if it fits the
/// bag, in the second its power.
pub open spec fn game_score(g: Game, part: int) -> nat {
    if part == 1 {
        if forall|i: int| 0 <= i < g.reveals.len() ==> fits_bag(#[trigger] g.reveals[i]) {
            g.id as nat
        } else {
            0
        }
    } else {
        power(g.reveals@)
    }
}

/// The sum of what the first `n` games count.
pub open spec fn scores_to(games: Seq<Game>, part: int, n: int) -> nat
    decreases n,
{
    if n <= 0 {
        0
    } else {
        scores_to(games, part, n - 1) + game_score(games[n - 1], part)
    }
}

proof fn lemma_scores_grow(games: Seq<Game>, part: int, i: int, n: int)
    requires
        0 <= i <= n,
    ensures
        scores_to(games, part, i) <= scores_to(games, part, n),
    decreases n - i,
{
    if i < n {
        lemma_scores_grow(games, part, i, n - 1);
    }
}

/// What a part answers to an input: the sum of what its games count, or why there is none.
pub open spec fn is_answer(input: Option<String>, part: int, r: Result<String, PuzzleError>) -> bool {
    match input {
        None => r == Err::<String, PuzzleError>(PuzzleError::MissingInput),
        Some(text) => {
            let bytes = bytes_of(text@);
            match r {
                Ok(s) => input_ok(bytes) && exists|games: Seq<Game>|
                    {
                        &&& #[trigger] are_games(games_text(bytes), games)
                        &&& scores_to(games, part, games.len() as int) <= usize::MAX
                        &&& s@ == decimal(scores_to(games, part, games.len() as int))
                    },
                Err(PuzzleError::Parse(e)) => e == ParseError::Malformed && !input_ok(bytes),
                Err(PuzzleError::Overflow) => input_ok(bytes) && exists|games: Seq<Game>|
                    {
                        &&& #[trigger] are_games(games_text(bytes), games)
                        &&& scores_to(games, part, games.len() as int) > usize::MAX
                    },
                Err(_) => false,
            }
        },
    }
}

/// Reads the games of a text, one a line.
pub fn parse_games(input: &[u8]) -> (r: Result<Vec<Game>, ParseError>)
    ensures
        match r {
            Ok(games) => input_ok(input@) && are_games(games_text(input@), games@),
            Err(e) => e == ParseError::Malformed && !input_ok(input@),
        },
{
    let rows = nonempty_lines(input);
    let ghost texts = games_text(input@);
    let mut games: Vec<Game> = Vec::new();
    let mut i: usize = 0;
    proof {
        assert(texts.len() == rows.len());
    }
    while i < rows.len()
        invariant
            i <= rows.len(),
            rows_view(rows@) == texts,
            texts.len() == rows.len(),
            texts == games_text(input@),
            games.len() == i,
            forall|k: int| 0 <= k < i ==> game_ok(#[trigger] texts[k]),
            forall|k: int| 0 <= k < i ==> is_game(#[trigger] texts[k], games[k]),
        decreases rows.len() - i,
    {
        proof {
            assert(texts[i as int] == rows@[i as int]@);
        }
        match Game::from_bytes(rows[i].as_slice()) {
            Ok(g) => {
                games.push(g);
            },
            Err(e) => {
                return Err(e);
            },
        }
        i += 1;
    }
    Ok(games)
}

fn run_part(input: Option<String>, part: u8) -> (r: Result<String, PuzzleError>)
    requires
        part == 1 || part == 2,
    ensures
        is_answer(input, part as int, r),
{
    let text = match input {
        Some(t) => t,
        None => {
            return Err(PuzzleError::MissingInput);
        },
    };
    let games = match parse_games(string_bytes(&text)) {
        Ok(g) => g,
        Err(e) => {
            return Err(PuzzleError::Parse(e));
        },
    };
    let ghost texts = games_text(bytes_of(text@));
    let mut sum: u128 = 0;
    let mut i: usize = 0;
    while i < games.len()
        invariant
            i <= games.len(),
            part == 1 || part == 2,
            input == Some(text),
            are_games(texts, games@),
            texts == games_text(bytes_of(text@)),
            input_ok(bytes_of(text@)),
            sum == scores_to(games@, part as int, i as int),
            sum <= i * usize::MAX,
        decreases games.len() - i,
    {
        let game = &games[i];
        let score: usize = if part == 1 {
            if game.is_valid_game() {
                game.id
            } else {
                0
            }
        } else {
            match game.minimum_power() {
                Some(p) => p,
                None => {
                    proof {
                        lemma_scores_grow(games@, part as int, i + 1, games.len() as int);
                        assert(are_games(texts, games@));
                        assert(game_score(games@[i as int], 2) == power(games@[i as int].reveals@));
                        assert(scores_to(games@, 2, i + 1) == scores_to(games@, 2, i as int)
                            + game_score(games@[i as int], 2));
                        assert(scores_to(games@, part as int, games.len() as int) > usize::MAX);
                    }
                    return Err(PuzzleError::Overflow);
                },
            }
        };
        proof {
            assert(i * usize::MAX + usize::MAX == (i + 1) * usize::MAX) by (nonlinear_arith);
            assert((i + 1) * usize::MAX <= 0xffff_ffff_ffff_ffff * 0xffff_ffff_ffff_ffff)
                by (nonlinear_arith)
                requires
                    0 <= i < 0xffff_ffff_ffff_ffff,
                    usize::MAX <= 0xffff_ffff_ffff_ffff,
            ;
        }
        sum = sum + score as u128;
        i += 1;
    }
    proof {
        assert(are_games(texts, games@));
    }
    if sum > usize::MAX as u128 {
        return Err(PuzzleError::Overflow);
    }
    Ok(decimal_string(sum))
}

pub struct Day2;

impl AdventOfCode for Day2 {
    fn day(&self) -> (d: u8)
        ensures
            d == 2,
    {
        2
    }

    fn run1(&mut self, input: Option<String>) -> (r: Result<String, PuzzleError>)
        ensures
            is_answer(input, 1, r),
    {
        run_part(input, 1)
    }

    fn run2(&mut self, input: Option<String>) -> (r: Result<String, PuzzleError>)
        ensures
            is_answer(input, 2, r),
    {
        run_part(input, 2)
    }
}

} // verus!
