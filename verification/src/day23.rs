//! Amphipods: the least energy that sorts a burrow, each kind into its own room.
//!
//! The burrow is a hallway of eleven cells with four rooms below it, under
//! the third, fifth, seventh and ninth cell. A board lists what stands on each
//! cell: first the hallway from left to right, then the rooms from left to
//! right, each from its top cell down.

use crate::errors::{ConfigurationError, ParseError, PuzzleError};
use crate::search::{SearchSpace, is_search_result};
use crate::text::{
    decimal, decimal_string, lines, push_char, rows_view, signed_decimal, signed_decimal_string,
    split_lines,
};
use vstd::prelude::*;
use vstd::string::*;

verus! {

/// The number of cells of the hallway.
pub const HALL: usize = 11;

/// The deepest rooms that a board can have.
pub const MAX_DEPTH: usize = 4;

/// The hallway cell above room `r`.
pub open spec fn door(r: int) -> int {
    2 + 2 * r
}

pub open spec fn is_door(h: int) -> bool {
    h == 2 || h == 4 || h == 6 || h == 8
}

/// The cell of room `r` that lies `l` cells below its top cell.
pub open spec fn room_cell(depth: int, r: int, l: int) -> int {
    if r == 0 {
        11 + l
    } else if r == 1 {
        11 + depth + l
    } else if r == 2 {
        11 + 2 * depth + l
    } else {
        11 + 3 * depth + l
    }
}

/// The room that cell `i` belongs to.
pub open spec fn room_of(depth: int, i: int) -> int {
    if i < 11 + depth {
        0
    } else if i < 11 + 2 * depth {
        1
    } else if i < 11 + 3 * depth {
        2
    } else {
        3
    }
}

/// How far cell `i` lies below the top cell of its room.
pub open spec fn level_of(depth: int, i: int) -> int {
    if i < 11 + depth {
        i - 11
    } else if i < 11 + 2 * depth {
        i - 11 - depth
    } else if i < 11 + 3 * depth {
        i - 11 - 2 * depth
    } else {
        i - 11 - 3 * depth
    }
}

/// A board of rooms `depth` deep: a cell holds 0 where it is free, and else
/// the kind that stands on it, 1 to 4.
pub open spec fn is_board(depth: int, cells: Seq<u8>) -> bool {
    &&& 1 <= depth <= 4
    &&& cells.len() == 11 + 4 * depth
    &&& forall|i: int| 0 <= i < cells.len() ==> #[trigger] cells[i] <= 4
}

/// The energy that one step costs the kind `a`.
pub open spec fn energy(a: int) -> int {
    if a == 1 {
        1
    } else if a == 2 {
        10
    } else if a == 3 {
        100
    } else {
        1000
    }
}

/// The hallway cells on the way from `from` to `to` are free: those after
/// `from`, up to `to` itself.
pub open spec fn way_free(cells: Seq<u8>, from: int, to: int) -> bool {
    forall|h: int| (from < h <= to || to <= h < from) ==> #[trigger] cells[h] == 0
}

/// The cells of room `r` down to level `l` are free.
pub open spec fn top_free(depth: int, cells: Seq<u8>, r: int, l: int) -> bool {
    forall|k: int| 0 <= k <= l ==> #[trigger] cells[room_cell(depth, r, k)] == 0
}

/// Level `l` is where a newcomer to room `r` comes to rest: the deepest
/// level that it reaches over free cells.
pub open spec fn is_landing(depth: int, cells: Seq<u8>, r: int, l: int) -> bool {
    &&& 0 <= l < depth
    &&& top_free(depth, cells, r, l)
    &&& (l == depth - 1 || cells[room_cell(depth, r, l + 1)] != 0)
}

/// Room `r` holds no kind but its own.
pub open spec fn room_clean(depth: int, cells: Seq<u8>, r: int) -> bool {
    forall|k: int|
        0 <= k < depth ==> (#[trigger] cells[room_cell(depth, r, k)]) == 0 || cells[room_cell(
            depth,
            r,
            k,
        )] == r + 1
}

/// What stands at level `l` of room `r` is settled: it is at home, with no
/// other kind below it.
pub open spec fn settled(depth: int, cells: Seq<u8>, r: int, l: int) -> bool {
    &&& cells[room_cell(depth, r, l)] == r + 1
    &&& forall|k: int|
        l < k < depth ==> (#[trigger] cells[room_cell(depth, r, k)]) == 0 || cells[room_cell(
            depth,
            r,
            k,
        )] == r + 1
}

/// The kind `a`, on its way through the hallway cell `hall`, may go home to
/// cell `to`: the way to its door is free, its room holds no other kind, and
/// `to` is where it comes to rest.
pub open spec fn enters_home(depth: int, cells: Seq<u8>, a: int, hall: int, to: int) -> bool {
    &&& 11 <= to < cells.len()
    &&& room_of(depth, to) == a - 1
    &&& way_free(cells, hall, door(a - 1))
    &&& room_clean(depth, cells, a - 1)
    &&& is_landing(depth, cells, a - 1, level_of(depth, to))
}

/// What stands on `from` may move to `to`.
pub open spec fn legal_move(depth: int, cells: Seq<u8>, from: int, to: int) -> bool {
    &&& 0 <= from < cells.len()
    &&& 0 <= to < cells.len()
    &&& cells[from] != 0
    &&& if from < 11 {
        enters_home(depth, cells, cells[from] as int, from, to)
    } else {
        let r0 = room_of(depth, from);
        let l0 = level_of(depth, from);
        &&& top_free(depth, cells, r0, l0 - 1)
        &&& !settled(depth, cells, r0, l0)
        &&& cells[door(r0)] == 0
        &&& if to < 11 {
            !is_door(to) && way_free(cells, door(r0), to)
        } else {
            room_of(depth, to) != r0 && enters_home(depth, cells, cells[from] as int, door(r0), to)
        }
    }
}

pub open spec fn distance(a: int, b: int) -> int {
    if a <= b {
        b - a
    } else {
        a - b
    }
}

/// The number of steps from `from` to `to`, through the hallway.
pub open spec fn move_steps(depth: int, from: int, to: int) -> int {
    if from < 11 {
        distance(from, door(room_of(depth, to))) + level_of(depth, to) + 1
    } else if to < 11 {
        level_of(depth, from) + 1 + distance(door(room_of(depth, from)), to)
    } else {
        level_of(depth, from) + 1 + distance(
            door(room_of(depth, from)),
            door(room_of(depth, to)),
        ) + level_of(depth, to) + 1
    }
}

/// The energy that the move from `from` to `to` costs.
pub open spec fn move_cost(depth: int, cells: Seq<u8>, from: int, to: int) -> int {
    energy(cells[from] as int) * move_steps(depth, from, to)
}

/// The board after the move from `from` to `to`.
pub open spec fn moved(cells: Seq<u8>, from: int, to: int) -> Seq<u8> {
    cells.update(to, cells[from]).update(from, 0)
}

// ----- the generator of moves -----
/// The room and the level of a room cell.
pub fn room_and_level(depth: usize, i: usize) -> (r: (usize, usize))
    requires
        1 <= depth <= 4,
        11 <= i < 11 + 4 * depth,
    ensures
        r.0 == room_of(depth as int, i as int),
        r.1 == level_of(depth as int, i as int),
        r.0 < 4,
        r.1 < depth,
        room_cell(depth as int, r.0 as int, r.1 as int) == i,
{
    if i < 11 + depth {
        (0, i - 11)
    } else if i < 11 + 2 * depth {
        (1, i - 11 - depth)
    } else if i < 11 + 3 * depth {
        (2, i - 11 - 2 * depth)
    } else {
        (3, i - 11 - 3 * depth)
    }
}

/// The cell of room `r` at level `l`.
pub fn cell_of(depth: usize, r: usize, l: usize) -> (i: usize)
    requires
        1 <= depth <= 4,
        r < 4,
        l < depth,
    ensures
        i == room_cell(depth as int, r as int, l as int),
        11 <= i < 11 + 4 * depth,
        room_of(depth as int, i as int) == r,
        level_of(depth as int, i as int) == l,
{
    if r == 0 {
        11 + l
    } else if r == 1 {
        11 + depth + l
    } else if r == 2 {
        11 + 2 * depth + l
    } else {
        11 + 3 * depth + l
    }
}

fn way_is_free(cells: &Vec<u8>, from: usize, to: usize) -> (b: bool)
    requires
        from < 11,
        to < 11,
        cells.len() >= 11,
    ensures
        b == way_free(cells@, from as int, to as int),
{
    if from < to {
        let mut h = from + 1;
        while h <= to
            invariant
                from < h <= to + 1,
                to < 11 <= cells.len(),
                forall|k: int| from < k < h ==> #[trigger] cells@[k] == 0,
            decreases to + 1 - h,
        {
            if cells[h] != 0 {
                return false;
            }
            h += 1;
        }
        true
    } else {
        let mut h = to;
        while h < from
            invariant
                to <= h <= from,
                from < 11 <= cells.len(),
                forall|k: int| to <= k < h ==> #[trigger] cells@[k] == 0,
            decreases from - h,
        {
            if cells[h] != 0 {
                return false;
            }
            h += 1;
        }
        true
    }
}

fn room_is_clean(depth: usize, cells: &Vec<u8>, r: usize) -> (b: bool)
    requires
        is_board(depth as int, cells@),
        r < 4,
    ensures
        b == room_clean(depth as int, cells@, r as int),
{
    let mut k: usize = 0;
    while k < depth
        invariant
            k <= depth,
            is_board(depth as int, cells@),
            r < 4,
            forall|j: int|
                0 <= j < k ==> (#[trigger] cells@[room_cell(depth as int, r as int, j)]) == 0
                    || cells@[room_cell(depth as int, r as int, j)] == r + 1,
        decreases depth - k,
    {
        let v = cells[cell_of(depth, r, k)];
        if v != 0 && v as usize != r + 1 {
            return false;
        }
        k += 1;
    }
    true
}

fn is_settled(depth: usize, cells: &Vec<u8>, r: usize, l: usize) -> (b: bool)
    requires
        is_board(depth as int, cells@),
        r < 4,
        l < depth,
    ensures
        b == settled(depth as int, cells@, r as int, l as int),
{
    if cells[cell_of(depth, r, l)] as usize != r + 1 {
        return false;
    }
    let mut k: usize = l + 1;
    while k < depth
        invariant
            l < k <= depth,
            is_board(depth as int, cells@),
            r < 4,
            forall|j: int|
                l < j < k ==> (#[trigger] cells@[room_cell(depth as int, r as int, j)]) == 0
                    || cells@[room_cell(depth as int, r as int, j)] == r + 1,
        decreases depth - k,
    {
        let v = cells[cell_of(depth, r, k)];
        if v != 0 && v as usize != r + 1 {
            return false;
        }
        k += 1;
    }
    true
}

/// The number of cells at the top of room `r` that are free.
fn free_levels(depth: usize, cells: &Vec<u8>, r: usize) -> (n: usize)
    requires
        is_board(depth as int, cells@),
        r < 4,
    ensures
        n <= depth,
        top_free(depth as int, cells@, r as int, n - 1),
        n < depth ==> cells@[room_cell(depth as int, r as int, n as int)] != 0,
{
    let mut k: usize = 0;
    while k < depth
        invariant
            k <= depth,
            is_board(depth as int, cells@),
            r < 4,
            top_free(depth as int, cells@, r as int, k - 1),
        decreases depth - k,
    {
        if cells[cell_of(depth, r, k)] != 0 {
            return k;
        }
        k += 1;
    }
    depth
}

/// The cell where the kind `a` comes to rest at home, if it may go there
/// from the hallway cell `hall`.
fn home_target(depth: usize, cells: &Vec<u8>, a: u8, hall: usize) -> (r: Option<usize>)
    requires
        is_board(depth as int, cells@),
        1 <= a <= 4,
        hall < 11,
    ensures
        match r {
            Some(to) => enters_home(depth as int, cells@, a as int, hall as int, to as int),
            None => true,
        },
        forall|to: int|
            enters_home(depth as int, cells@, a as int, hall as int, to) ==> r == Some(to as usize),
{
    let home = (a - 1) as usize;
    let d = 2 + 2 * home;
    if !way_is_free(cells, hall, d) {
        return None;
    }
    if !room_is_clean(depth, cells, home) {
        return None;
    }
    let n = free_levels(depth, cells, home);
    if n == 0 {
        proof {
            assert forall|to: int|
                enters_home(depth as int, cells@, a as int, hall as int, to) implies false by {
                let l = level_of(depth as int, to);
                assert(cells@[room_cell(depth as int, home as int, 0)] == 0);
            }
        }
        return None;
    }
    let to = cell_of(depth, home, n - 1);
    proof {
        assert forall|to2: int|
            enters_home(depth as int, cells@, a as int, hall as int, to2) implies to2 == to by {
            let l = level_of(depth as int, to2);
            if l < n - 1 {
                assert(cells@[room_cell(depth as int, home as int, l + 1)] == 0);
            } else if l > n - 1 {
                assert(cells@[room_cell(depth as int, home as int, n as int)] == 0);
            }
        }
    }
    Some(to)
}

/// The hallway cells that can be reached from the door `d` over free cells,
/// the door itself among them.
pub fn extend_corridor(cells: &Vec<u8>, d: usize) -> (ret: Vec<usize>)
    requires
        d < 11,
        cells.len() >= 11,
    ensures
        forall|h: usize| #[trigger]
            ret@.contains(h) <==> h < 11 && cells@[d as int] == 0 && way_free(
                cells@,
                d as int,
                h as int,
            ),
        ret@.no_duplicates(),
{
    let mut ret: Vec<usize> = Vec::new();
    if cells[d] != 0 {
        return ret;
    }
    // to the left, the door first
    let mut h: usize = d + 1;
    while h > 0 && cells[h - 1] == 0
        invariant
            0 <= h <= d + 1,
            d < 11 <= cells.len(),
            cells@[d as int] == 0,
            forall|k: int| h <= k <= d ==> #[trigger] cells@[k] == 0,
            forall|k: usize| #[trigger] ret@.contains(k) <==> h <= k <= d,
            ret@.no_duplicates(),
        decreases h,
    {
        h -= 1;
        let ghost before = ret@;
        ret.push(h);
        proof {
            lemma_contains_push(before, h);
            lemma_push_fresh(before, h);
        }
    }
    let low = h;
    // to the right
    let mut g: usize = d + 1;
    while g < 11 && cells[g] == 0
        invariant
            d < g <= 11,
            low <= d,
            11 <= cells.len(),
            cells@[d as int] == 0,
            low > 0 ==> cells@[low - 1] != 0,
            forall|k: int| low <= k < g ==> #[trigger] cells@[k] == 0,
            forall|k: usize| #[trigger] ret@.contains(k) <==> low <= k < g,
            ret@.no_duplicates(),
        decreases 11 - g,
    {
        let ghost before = ret@;
        ret.push(g);
        proof {
            lemma_contains_push(before, g);
            lemma_push_fresh(before, g);
        }
        g += 1;
    }
    proof {
        assert forall|k: usize| #[trigger]
            ret@.contains(k) <==> k < 11 && cells@[d as int] == 0 && way_free(
                cells@,
                d as int,
                k as int,
            ) by {
            if k < 11 && way_free(cells@, d as int, k as int) {
                if k < low {
                    assert(cells@[low - 1] == 0);
                }
                if k >= g {
                    assert(cells@[g as int] == 0);
                }
            }
        }
    }
    ret
}

/// A list without a cell twice stays so when a cell joins it that it does not hold.
proof fn lemma_push_fresh(s: Seq<usize>, x: usize)
    requires
        s.no_duplicates(),
        !s.contains(x),
    ensures
        s.push(x).no_duplicates(),
{
    let t = s.push(x);
    assert forall|i: int, j: int| 0 <= i < t.len() && 0 <= j < t.len() && i != j implies t[i]
        != t[j] by {
        if i == s.len() {
            assert(s[j] == t[j]);
            assert(s.contains(t[j]));
        } else if j == s.len() {
            assert(s[i] == t[i]);
            assert(s.contains(t[i]));
        }
    }
}

proof fn lemma_contains_push(s: Seq<usize>, x: usize)
    ensures
        forall|k: usize| #[trigger] s.push(x).contains(k) <==> s.contains(k) || k == x,
{
    assert forall|k: usize| #[trigger] s.push(x).contains(k) <==> s.contains(k) || k == x by {
        if s.push(x).contains(k) {
            let j = choose|j: int| 0 <= j < s.push(x).len() && s.push(x)[j] == k;
            if j < s.len() {
                assert(s[j] == k);
            }
        }
        if s.contains(k) {
            let j = choose|j: int| 0 <= j < s.len() && s[j] == k;
            assert(s.push(x)[j] == k);
        }
        if k == x {
            assert(s.push(x)[s.len() as int] == k);
        }
    }
}

/// The cells that what stands on `from` may move to.
pub fn get_reachable_pos(depth: usize, cells: &Vec<u8>, from: usize) -> (ret: Vec<usize>)
    requires
        is_board(depth as int, cells@),
        from < cells.len(),
    ensures
        forall|to: usize| #[trigger]
            ret@.contains(to) <==> legal_move(depth as int, cells@, from as int, to as int),
        ret@.no_duplicates(),
        from < 11 ==> ret.len() <= 1,
{
    let a = cells[from];
    let mut ret: Vec<usize> = Vec::new();
    if a == 0 {
        return ret;
    }
    if from < 11 {
        match home_target(depth, cells, a, from) {
            Some(to) => {
                proof {
                    lemma_contains_push(ret@, to);
                    lemma_push_fresh(ret@, to);
                }
                ret.push(to);
            },
            None => {},
        }
        return ret;
    }
    let (r0, l0) = room_and_level(depth, from);
    let above = free_levels(depth, cells, r0);
    if above < l0 {
        proof {
            assert(cells@[room_cell(depth as int, r0 as int, above as int)] != 0);
        }
        return ret;
    }
    if is_settled(depth, cells, r0, l0) {
        return ret;
    }
    let d = 2 + 2 * r0;
    let hall = extend_corridor(cells, d);
    let mut i: usize = 0;
    while i < hall.len()
        invariant
            i <= hall.len(),
            forall|h: usize| #[trigger]
                ret@.contains(h) <==> hall@.take(i as int).contains(h) && !is_door(h as int),
            hall@.no_duplicates(),
            ret@.no_duplicates(),
            forall|h: usize| #[trigger] hall@.contains(h) ==> h < 11,
        decreases hall.len() - i,
    {
        let h = hall[i];
        proof {
            assert(hall@.take(i + 1) =~= hall@.take(i as int).push(h));
            lemma_contains_push(hall@.take(i as int), h);
            lemma_contains_push(ret@, h);
            if hall@.take(i as int).contains(h) {
                let j = choose|j: int| 0 <= j < i && hall@.take(i as int)[j] == h;
                assert(hall@[j] == hall@[i as int]);
            }
            if !is_door(h as int) {
                lemma_push_fresh(ret@, h);
            }
        }
        if h != 2 && h != 4 && h != 6 && h != 8 {
            ret.push(h);
        }
        i += 1;
    }
    proof {
        assert(hall@.take(hall.len() as int) =~= hall@);
    }
    let ghost halls = ret@;
    let mut home: Option<usize> = None;
    if cells[d] == 0 && (a - 1) as usize != r0 {
        home = home_target(depth, cells, a, d);
    }
    match home {
        Some(to) => {
            proof {
                lemma_contains_push(ret@, to);
                if ret@.contains(to) {
                    assert(hall@.contains(to));
                }
                lemma_push_fresh(ret@, to);
            }
            ret.push(to);
        },
        None => {},
    }
    proof {
        assert forall|to: usize| #[trigger]
            ret@.contains(to) <==> legal_move(depth as int, cells@, from as int, to as int) by {
            if legal_move(depth as int, cells@, from as int, to as int) {
                if to < 11 {
                    assert(hall@.contains(to));
                } else {
                    assert(home == Some(to));
                }
            }
            if ret@.contains(to) {
                if halls.contains(to) {
                    assert(hall@.contains(to));
                }
            }
        }
    }
    ret
}

// ----- boards as numbers -----
pub open spec fn pow5(n: nat) -> nat
    decreases n,
{
    if n == 0 {
        1
    } else {
        5 * pow5((n - 1) as nat)
    }
}

/// The number that names a board: its cells as digits to the base 5, the first cell the lowest.
pub open spec fn encode(cells: Seq<u8>) -> nat
    decreases cells.len(),
{
    if cells.len() == 0 {
        0
    } else {
        cells[0] as nat + 5 * encode(cells.skip(1))
    }
}

/// The board of `n` cells that `k` names.
pub open spec fn decode(k: nat, n: nat) -> Seq<u8>
    decreases n,
{
    if n == 0 {
        Seq::<u8>::empty()
    } else {
        seq![(k % 5) as u8] + decode(k / 5, (n - 1) as nat)
    }
}

pub open spec fn small_cells(cells: Seq<u8>) -> bool {
    forall|i: int| 0 <= i < cells.len() ==> #[trigger] cells[i] <= 4
}

/// The key of a board of `n` cells is below the `n`th power of 5.
pub proof fn lemma_encode_bound(cells: Seq<u8>)
    requires
        small_cells(cells),
    ensures
        encode(cells) < pow5(cells.len()),
    decreases cells.len(),
{
    if cells.len() > 0 {
        let rest = cells.skip(1);
        assert forall|i: int| 0 <= i < rest.len() implies #[trigger] rest[i] <= 4 by {
            assert(rest[i] == cells[i + 1]);
        }
        lemma_encode_bound(rest);
    }
}

/// A board is read back from its key.
pub proof fn lemma_decode_encode(cells: Seq<u8>)
    requires
        small_cells(cells),
    ensures
        decode(encode(cells), cells.len()) == cells,
    decreases cells.len(),
{
    if cells.len() > 0 {
        let rest = cells.skip(1);
        assert forall|i: int| 0 <= i < rest.len() implies #[trigger] rest[i] <= 4 by {
            assert(rest[i] == cells[i + 1]);
        }
        lemma_decode_encode(rest);
        let k = encode(cells);
        assert(k % 5 == cells[0] as nat);
        assert(k / 5 == encode(rest));
        assert(decode(k, cells.len()) =~= cells);
    } else {
        assert(decode(encode(cells), 0) =~= cells);
    }
}

/// Every key below the `n`th power of 5 is the key of the board that it names.
pub proof fn lemma_encode_decode(k: nat, n: nat)
    requires
        k < pow5(n),
    ensures
        decode(k, n).len() == n,
        small_cells(decode(k, n)),
        encode(decode(k, n)) == k,
    decreases n,
{
    if n > 0 {
        lemma_encode_decode(k / 5, (n - 1) as nat);
        let c = decode(k, n);
        assert(c.skip(1) =~= decode(k / 5, (n - 1) as nat));
    }
}

proof fn lemma_decode_len(k: nat, n: nat)
    ensures
        decode(k, n).len() == n,
        small_cells(decode(k, n)),
    decreases n,
{
    if n > 0 {
        lemma_decode_len(k / 5, (n - 1) as nat);
    }
}

proof fn lemma_pow5_27()
    ensures
        pow5(27) == 7450580596923828125,
        pow5(19) == 19073486328125,
        pow5(15) == 30517578125,
        pow5(23) == 11920928955078125,
{
    reveal_with_fuel(pow5, 28);
}

proof fn lemma_pow5_grows(a: nat, b: nat)
    requires
        a <= b,
    ensures
        pow5(a) <= pow5(b),
        pow5(a) >= 1,
    decreases b,
{
    if a < b {
        lemma_pow5_grows(a, (b - 1) as nat);
    } else if a > 0 {
        lemma_pow5_grows((a - 1) as nat, (a - 1) as nat);
    }
}

/// The number that names a board.
pub fn encode_board(cells: &Vec<u8>) -> (k: u64)
    requires
        cells.len() <= 27,
        small_cells(cells@),
    ensures
        k == encode(cells@),
        k < pow5(cells.len() as nat),
{
    let n = cells.len();
    let mut k: u64 = 0;
    let mut i: usize = n;
    proof {
        assert(cells@.skip(n as int) =~= Seq::<u8>::empty());
    }
    while i > 0
        invariant
            i <= n,
            n == cells.len(),
            n <= 27,
            small_cells(cells@),
            k == encode(cells@.skip(i as int)),
            k < pow5((n - i) as nat),
        decreases i,
    {
        i -= 1;
        proof {
            let here = cells@.skip(i as int);
            assert(here.skip(1) =~= cells@.skip(i + 1));
            assert(here[0] == cells@[i as int]);
            lemma_pow5_grows((n - i) as nat, 27);
            lemma_pow5_27();
            assert(pow5((n - i) as nat) == 5 * pow5((n - i - 1) as nat));
        }
        k = k * 5 + cells[i] as u64;
    }
    proof {
        assert(cells@.skip(0) =~= cells@);
    }
    k
}

/// The board of `n` cells that `k` names.
pub fn decode_board(k: u64, n: usize) -> (cells: Vec<u8>)
    ensures
        cells@ == decode(k as nat, n as nat),
        cells.len() == n,
        small_cells(cells@),
{
    let mut cells: Vec<u8> = Vec::new();
    let mut rest = k;
    let mut i: usize = 0;
    proof {
        assert(cells@ + decode(rest as nat, n as nat) =~= decode(k as nat, n as nat));
    }
    while i < n
        invariant
            i <= n,
            cells.len() == i,
            cells@ + decode(rest as nat, (n - i) as nat) == decode(k as nat, n as nat),
        decreases n - i,
    {
        let ghost before = cells@;
        cells.push((rest % 5) as u8);
        proof {
            let tail = decode(rest as nat, (n - i) as nat);
            assert(tail =~= seq![(rest % 5) as u8] + decode((rest / 5) as nat, (n - i - 1) as nat));
            assert(cells@ + decode((rest / 5) as nat, (n - i - 1) as nat) =~= before + tail);
        }
        rest = rest / 5;
        i += 1;
    }
    proof {
        assert(cells@ + decode(rest as nat, 0) =~= cells@);
        lemma_decode_len(k as nat, n as nat);
    }
    cells
}

// ----- the burrow as a space to search -----
/// Every amphipod stands in a room of its own kind.
pub open spec fn sorted(depth: int, cells: Seq<u8>) -> bool {
    &&& forall|h: int| 0 <= h < 11 ==> #[trigger] cells[h] == 0
    &&& forall|r: int| 0 <= r < 4 ==> #[trigger] room_clean(depth, cells, r)
}

/// A burrow with the amphipods where they stand at first.
pub struct Burrow {
    depth: usize,
    cells: Vec<u8>,
}

impl Burrow {
    pub closed spec fn wf(&self) -> bool {
        is_board(self.depth as int, self.cells@)
    }

    /// How many cells deep the rooms are.
    pub closed spec fn depth(&self) -> int {
        self.depth as int
    }

    /// What stands on each cell at first.
    pub closed spec fn view(&self) -> Seq<u8> {
        self.cells@
    }

    /// The number of cells of the board.
    pub open spec fn size(&self) -> nat {
        (11 + 4 * self.depth()) as nat
    }

    /// A burrow in order holds a board of its depth.
    pub proof fn lemma_wf(&self)
        requires
            self.wf(),
        ensures
            is_board(self.depth(), self@),
    {
    }

    /// A burrow with rooms `depth` deep and the given board.
    pub fn new(depth: usize, cells: Vec<u8>) -> (r: Result<Burrow, ConfigurationError>)
        ensures
            match r {
                Ok(b) => b.wf() && b.depth() == depth && b@ == cells@ && is_board(
                    depth as int,
                    cells@,
                ),
                Err(e) => e == ConfigurationError::InvalidBoard && !is_board(depth as int, cells@),
            },
    {
        if depth < 1 || depth > 4 || cells.len() != 11 + 4 * depth {
            return Err(ConfigurationError::InvalidBoard);
        }
        let mut i: usize = 0;
        while i < cells.len()
            invariant
                i <= cells.len(),
                forall|j: int| 0 <= j < i ==> #[trigger] cells@[j] <= 4,
            decreases cells.len() - i,
        {
            if cells[i] > 4 {
                return Err(ConfigurationError::InvalidBoard);
            }
            i += 1;
        }
        Ok(Burrow { depth, cells })
    }

    pub fn rooms_depth(&self) -> (d: usize)
        ensures
            d == self.depth(),
    {
        self.depth
    }

    /// What stands on cell `i` at first.
    pub fn cell(&self, i: usize) -> (c: u8)
        requires
            self.wf(),
            i < self.size(),
        ensures
            c == self@[i as int],
    {
        self.cells[i]
    }
}

/// The one move from `from` to `to` on the board that `k` names leads to
/// the board that `k2` names, at the cost `c`.
pub open spec fn is_move(depth: int, k: u64, from: int, to: int, k2: u64, c: u64) -> bool {
    let cells = decode(k as nat, (11 + 4 * depth) as nat);
    &&& legal_move(depth, cells, from, to)
    &&& k2 == encode(moved(cells, from, to))
    &&& c == move_cost(depth, cells, from, to)
}

fn is_sorted(depth: usize, cells: &Vec<u8>) -> (b: bool)
    requires
        is_board(depth as int, cells@),
    ensures
        b == sorted(depth as int, cells@),
{
    let mut h: usize = 0;
    while h < 11
        invariant
            h <= 11,
            cells.len() >= 11,
            forall|j: int| 0 <= j < h ==> #[trigger] cells@[j] == 0,
        decreases 11 - h,
    {
        if cells[h] != 0 {
            return false;
        }
        h += 1;
    }
    let mut r: usize = 0;
    while r < 4
        invariant
            r <= 4,
            is_board(depth as int, cells@),
            forall|j: int| 0 <= j < r ==> #[trigger] room_clean(depth as int, cells@, j),
        decreases 4 - r,
    {
        if !room_is_clean(depth, cells, r) {
            return false;
        }
        r += 1;
    }
    true
}

/// The energy that one step costs the kind `a`.
pub fn energy_of(a: u8) -> (e: u64)
    ensures
        e == energy(a as int),
{
    if a == 1 {
        1
    } else if a == 2 {
        10
    } else if a == 3 {
        100
    } else {
        1000
    }
}

fn steps_between(depth: usize, from: usize, to: usize) -> (n: u64)
    requires
        1 <= depth <= 4,
        from < 11 + 4 * depth,
        to < 11 + 4 * depth,
        from >= 11 || to >= 11,
    ensures
        n == move_steps(depth as int, from as int, to as int),
        n <= 20,
{
    if from < 11 {
        let (r, l) = room_and_level(depth, to);
        let d = 2 + 2 * r;
        let across = if from <= d {
            d - from
        } else {
            from - d
        };
        (across + l + 1) as u64
    } else if to < 11 {
        let (r, l) = room_and_level(depth, from);
        let d = 2 + 2 * r;
        let across = if to <= d {
            d - to
        } else {
            to - d
        };
        (l + 1 + across) as u64
    } else {
        let (r, l) = room_and_level(depth, from);
        let (r2, l2) = room_and_level(depth, to);
        let across = if r <= r2 {
            2 * (r2 - r)
        } else {
            2 * (r - r2)
        };
        (l + 1 + across + l2 + 1) as u64
    }
}

impl SearchSpace for Burrow {
    open spec fn inv(&self) -> bool {
        self.wf()
    }

    open spec fn valid(&self, k: u64) -> bool {
        k < pow5(self.size())
    }

    open spec fn step(&self, from: u64, to: u64, cost: u64) -> bool {
        exists|a: int, b: int| #[trigger] is_move(self.depth(), from, a, b, to, cost)
    }

    open spec fn is_goal(&self, k: u64) -> bool {
        sorted(self.depth(), decode(k as nat, self.size()))
    }

    open spec fn key_bound(&self) -> nat {
        pow5(self.size())
    }

    proof fn lemma_key_bound(&self, k: u64) {
    }

    fn contains(&self, k: u64) -> (b: bool) {
        proof {
            lemma_pow5_27();
        }
        let bound: u64 = if self.depth == 1 {
            30517578125
        } else if self.depth == 2 {
            19073486328125
        } else if self.depth == 3 {
            11920928955078125
        } else {
            7450580596923828125
        };
        k < bound
    }

    fn goal(&self, k: u64) -> (b: bool) {
        let cells = decode_board(k, 11 + 4 * self.depth);
        is_sorted(self.depth, &cells)
    }

    fn successors(&self, k: u64) -> (r: Vec<(u64, u64)>) {
        let depth = self.depth;
        let n = 11 + 4 * depth;
        let cells = decode_board(k, n);
        let mut r: Vec<(u64, u64)> = Vec::new();
        let mut from: usize = 0;
        while from < n
            invariant
                from <= n,
                n == 11 + 4 * depth,
                depth == self.depth(),
                self.wf(),
                is_board(depth as int, cells@),
                cells@ == decode(k as nat, n as nat),
                forall|i: int|
                    0 <= i < r.len() ==> self.valid((#[trigger] r[i]).0) && self.step(
                        k,
                        r[i].0,
                        r[i].1,
                    ),
                forall|a: int, b: int, t: u64, c: u64|
                    0 <= a < from && #[trigger] is_move(depth as int, k, a, b, t, c) ==> r@.contains(
                        (t, c),
                    ),
            decreases n - from,
        {
            let targets = get_reachable_pos(depth, &cells, from);
            let mut j: usize = 0;
            while j < targets.len()
                invariant
                    j <= targets.len(),
                    from < n,
                    n == 11 + 4 * depth,
                    depth == self.depth(),
                    self.wf(),
                    is_board(depth as int, cells@),
                    cells@ == decode(k as nat, n as nat),
                    forall|to: usize| #[trigger]
                        targets@.contains(to) <==> legal_move(
                            depth as int,
                            cells@,
                            from as int,
                            to as int,
                        ),
                    forall|i: int|
                        0 <= i < r.len() ==> self.valid((#[trigger] r[i]).0) && self.step(
                            k,
                            r[i].0,
                            r[i].1,
                        ),
                    forall|a: int, b: int, t: u64, c: u64|
                        0 <= a < from && #[trigger] is_move(depth as int, k, a, b, t, c)
                            ==> r@.contains((t, c)),
                    forall|i: int, t: u64, c: u64|
                        0 <= i < j && #[trigger] is_move(
                            depth as int,
                            k,
                            from as int,
                            targets@[i] as int,
                            t,
                            c,
                        ) ==> r@.contains((t, c)),
                decreases targets.len() - j,
            {
                let to = targets[j];
                proof {
                    assert(targets@.contains(to));
                }
                let a = cells[from];
                let mut next = crate::text::copy_bytes(cells.as_slice());
                next[to] = a;
                next[from] = 0;
                proof {
                    assert(next@ =~= moved(cells@, from as int, to as int));
                    assert(small_cells(next@));
                }
                let key = encode_board(&next);
                let steps = steps_between(depth, from, to);
                let cost = energy_of(a) * steps;
                let ghost before = r@;
                r.push((key, cost));
                proof {
                    assert(is_move(depth as int, k, from as int, to as int, key, cost));
                    contains_push_lemma(before, (key, cost));
                }
                j += 1;
            }
            proof {
                assert forall|a: int, b: int, t: u64, c: u64|
                    0 <= a < from + 1 && #[trigger] is_move(
                        depth as int,
                        k,
                        a,
                        b,
                        t,
                        c,
                    ) implies r@.contains((t, c)) by {
                    if a == from {
                        assert(targets@.contains(b as usize));
                        let i = choose|i: int| 0 <= i < targets.len() && targets@[i] == b as usize;
                        assert(is_move(depth as int, k, from as int, targets@[i] as int, t, c));
                    }
                }
            }
            from += 1;
        }
        proof {
            assert forall|t: u64, c: u64| #[trigger] self.step(k, t, c) implies r@.contains(
                (t, c),
            ) by {
                let (a, b) = choose|a: int, b: int| #[trigger]
                    is_move(self.depth(), k, a, b, t, c);
                assert(is_move(depth as int, k, a, b, t, c));
            }
        }
        r
    }
}

proof fn contains_push_lemma(s: Seq<(u64, u64)>, x: (u64, u64))
    ensures
        forall|e: (u64, u64)| s.contains(e) ==> #[trigger] s.push(x).contains(e),
        s.push(x).contains(x),
{
    assert forall|e: (u64, u64)| s.contains(e) implies #[trigger] s.push(x).contains(e) by {
        let j = choose|j: int| 0 <= j < s.len() && s[j] == e;
        assert(s.push(x)[j] == e);
    }
    assert(s.push(x)[s.len() as int] == x);
}

/// How many cells hold the kind `a`.
pub open spec fn kind_count(cells: Seq<u8>, a: u8) -> nat
    decreases cells.len(),
{
    if cells.len() == 0 {
        0
    } else {
        kind_count(cells.drop_last(), a) + if cells.last() == a {
            1nat
        } else {
            0nat
        }
    }
}

/// No kind has more amphipods than its room has cells.
pub open spec fn fits_rooms(depth: int, cells: Seq<u8>) -> bool {
    forall|a: u8| 1 <= a <= 4 ==> #[trigger] kind_count(cells, a) <= depth
}

/// What the sorting of a burrow returns: the least energy that sorts it, if
/// it can be sorted.
pub open spec fn is_sorting_answer(burrow: &Burrow, r: Option<u64>) -> bool {
    is_search_result(burrow, encode(burrow@) as u64, r)
}

/// Sorting a burrow that is sorted costs nothing.
pub proof fn lemma_sorted_costs_nothing(burrow: &Burrow, r: Option<u64>)
    requires
        burrow.wf(),
        sorted(burrow.depth(), burrow@),
        is_sorting_answer(burrow, r),
    ensures
        r == Some(0u64),
{
    lemma_decode_encode(burrow@);
    lemma_encode_bound(burrow@);
    lemma_pow5_grows(burrow.size(), 27);
    lemma_pow5_27();
    crate::search::lemma_start_at_goal(burrow, encode(burrow@) as u64, r);
}

impl Burrow {
    /// The least total energy of moves that sort the burrow.
    pub fn sort(&self) -> (r: Option<u64>)
        requires
            self.wf(),
        ensures
            is_sorting_answer(self, r),
    {
        proof {
            lemma_encode_bound(self.cells@);
            lemma_pow5_grows(self.size(), 27);
            lemma_pow5_27();
        }
        let start = encode_board(&self.cells);
        match crate::search::shortest_path(self, start) {
            Ok(r) => r,
            Err(_) => None,
        }
    }
}

fn count_kind(cells: &Vec<u8>, a: u8) -> (n: usize)
    ensures
        n == kind_count(cells@, a),
{
    let mut n: usize = 0;
    let mut i: usize = 0;
    proof {
        assert(cells@.take(0) =~= Seq::<u8>::empty());
    }
    while i < cells.len()
        invariant
            i <= cells.len(),
            n <= i,
            n == kind_count(cells@.take(i as int), a),
        decreases cells.len() - i,
    {
        proof {
            assert(cells@.take(i + 1).drop_last() =~= cells@.take(i as int));
        }
        if cells[i] == a {
            n += 1;
        }
        i += 1;
    }
    proof {
        assert(cells@.take(cells.len() as int) =~= cells@);
    }
    n
}

/// The least total energy that sorts the burrow from the given layout, if it
/// can be sorted at all.
pub fn solve_amphipods(initial_layout: &Burrow) -> (r: Result<Option<u64>, ConfigurationError>)
    requires
        initial_layout.wf(),
    ensures
        match r {
            Ok(c) => fits_rooms(initial_layout.depth(), initial_layout@) && is_sorting_answer(
                initial_layout,
                c,
            ),
            Err(e) => !fits_rooms(initial_layout.depth(), initial_layout@) && Some(e)
                == crowded(initial_layout.depth(), initial_layout@),
        },
        r is Ok <==> crowded(initial_layout.depth(), initial_layout@) is None,
{
    let mut a: u8 = 1;
    while a <= 4
        invariant
            1 <= a <= 5,
            forall|b: u8| 1 <= b < a ==> #[trigger] kind_count(initial_layout@, b)
                <= initial_layout.depth(),
        decreases 5 - a,
    {
        if count_kind(&initial_layout.cells, a) > initial_layout.depth {
            return Err(ConfigurationError::TooManyOfKind(a));
        }
        a += 1;
    }
    Ok(initial_layout.sort())
}

/// The error of a board on which a kind has more amphipods than its room
/// has cells: it names the first such kind.
pub open spec fn crowded(depth: int, cells: Seq<u8>) -> Option<ConfigurationError> {
    if kind_count(cells, 1) > depth {
        Some(ConfigurationError::TooManyOfKind(1))
    } else if kind_count(cells, 2) > depth {
        Some(ConfigurationError::TooManyOfKind(2))
    } else if kind_count(cells, 3) > depth {
        Some(ConfigurationError::TooManyOfKind(3))
    } else if kind_count(cells, 4) > depth {
        Some(ConfigurationError::TooManyOfKind(4))
    } else {
        None
    }
}

// ----- amphipods one by one -----
#[derive(Debug, Clone, Copy, PartialEq, Eq, Structural)]
pub enum AmphipodType {
    Amber,
    Bronze,
    Copper,
    Desert,
}

/// The kind that a letter names.
pub open spec fn kind_of_letter(t: char) -> Option<AmphipodType> {
    if t == 'A' {
        Some(AmphipodType::Amber)
    } else if t == 'B' {
        Some(AmphipodType::Bronze)
    } else if t == 'C' {
        Some(AmphipodType::Copper)
    } else if t == 'D' {
        Some(AmphipodType::Desert)
    } else {
        None
    }
}

/// An amphipod: its kind, and the column and the row where it stands. The
/// hallway is row 1, its cells the columns 1 to 11; the rooms lie below the
/// columns 3, 5, 7 and 9, from row 2 down.
#[derive(Debug, Clone, Copy)]
pub struct Amphipod {
    pub a_type: AmphipodType,
    pub position: [i8; 2],
}

impl Amphipod {
    /// The amphipod of the kind that the letter names; an error for a
    /// letter that names no kind.
    pub fn new(t: char, x: i8, y: i8) -> (r: Result<Amphipod, ConfigurationError>)
        ensures
            r is Ok <==> kind_of_letter(t) is Some,
            match r {
                Ok(a) => a.position[0] == x && a.position[1] == y && Some(a.a_type)
                    == kind_of_letter(t),
                Err(e) => e == ConfigurationError::UnknownKind(t),
            },
    {
        let a_type = if t == 'A' {
            AmphipodType::Amber
        } else if t == 'B' {
            AmphipodType::Bronze
        } else if t == 'C' {
            AmphipodType::Copper
        } else if t == 'D' {
            AmphipodType::Desert
        } else {
            return Err(ConfigurationError::UnknownKind(t));
        };
        Ok(Amphipod { a_type, position: [x, y] })
    }

    /// The number of the kind, 1 to 4, as the board holds it.
    pub open spec fn kind(&self) -> int {
        match self.a_type {
            AmphipodType::Amber => 1,
            AmphipodType::Bronze => 2,
            AmphipodType::Copper => 3,
            AmphipodType::Desert => 4,
        }
    }

    pub fn kind_code(&self) -> (k: u8)
        ensures
            k == self.kind(),
    {
        match self.a_type {
            AmphipodType::Amber => 1,
            AmphipodType::Bronze => 2,
            AmphipodType::Copper => 3,
            AmphipodType::Desert => 4,
        }
    }

    /// The column of the room where the amphipod is at home.
    pub fn cave_pos(&self) -> (x: i8)
        ensures
            x == 1 + 2 * self.kind(),
            x == door(self.kind() - 1) + 1,
    {
        match self.a_type {
            AmphipodType::Amber => 3,
            AmphipodType::Bronze => 5,
            AmphipodType::Copper => 7,
            AmphipodType::Desert => 9,
        }
    }

    /// The energy that one step costs the amphipod.
    pub fn energy_cost(&self) -> (e: u32)
        ensures
            e == energy(self.kind()),
    {
        match self.a_type {
            AmphipodType::Amber => 1,
            AmphipodType::Bronze => 10,
            AmphipodType::Copper => 100,
            AmphipodType::Desert => 1000,
        }
    }

    /// The letter of the kind.
    pub fn letter(&self) -> (s: String)
        ensures
            s@ == match self.a_type {
                AmphipodType::Amber => "A"@,
                AmphipodType::Bronze => "B"@,
                AmphipodType::Copper => "C"@,
                AmphipodType::Desert => "D"@,
            },
    {
        match self.a_type {
            AmphipodType::Amber => "A",
            AmphipodType::Bronze => "B",
            AmphipodType::Copper => "C",
            AmphipodType::Desert => "D",
        }.to_owned()
    }

    /// The amphipod is at home: in the column of its room, below the hallway.
    pub open spec fn at_home(&self) -> bool {
        self.position[0] == 1 + 2 * self.kind() && self.position[1] != 1
    }
}

/// The amphipods where they stand, and the energy spent to bring them there.
pub struct State {
    pub amphipods: Vec<Amphipod>,
    pub score: u32,
}

impl State {
    /// Every amphipod is at home.
    pub fn solved(&self) -> (b: bool)
        ensures
            b == forall|i: int| 0 <= i < self.amphipods.len() ==> (#[trigger] self.amphipods[i]).at_home(),
    {
        let mut i: usize = 0;
        while i < self.amphipods.len()
            invariant
                i <= self.amphipods.len(),
                forall|k: int| 0 <= k < i ==> (#[trigger] self.amphipods[k]).at_home(),
            decreases self.amphipods.len() - i,
        {
            let a = self.amphipods[i];
            if a.cave_pos() != a.position[0] || a.position[1] == 1 {
                return false;
            }
            i += 1;
        }
        true
    }
}

/// The column of the cell `i` of a board.
pub open spec fn cell_x(depth: int, i: int) -> int {
    if i < 11 {
        i + 1
    } else {
        3 + 2 * room_of(depth, i)
    }
}

/// The row of the cell `i` of a board.
pub open spec fn cell_y(depth: int, i: int) -> int {
    if i < 11 {
        1
    } else {
        2 + level_of(depth, i)
    }
}

/// The column and the row of a cell.
pub fn cell_position(depth: usize, i: usize) -> (p: [i8; 2])
    requires
        1 <= depth <= 4,
        i < 11 + 4 * depth,
    ensures
        p[0] == cell_x(depth as int, i as int),
        p[1] == cell_y(depth as int, i as int),
{
    if i < 11 {
        [(i + 1) as i8, 1]
    } else {
        let (r, l) = room_and_level(depth, i);
        [(3 + 2 * r) as i8, (2 + l) as i8]
    }
}

/// The cell at column `x` and row `y`, or -1 where there is none.
pub open spec fn cell_index(depth: int, x: int, y: int) -> int {
    if y == 1 && 1 <= x <= 11 {
        x - 1
    } else if 2 <= y < 2 + depth && (x == 3 || x == 5 || x == 7 || x == 9) {
        room_cell(depth, (x - 3) / 2, y - 2)
    } else {
        -1
    }
}

/// The cell on which an amphipod stands, or -1 where it stands on none.
pub open spec fn cell_under(depth: int, a: Amphipod) -> int {
    cell_index(depth, a.position[0] as int, a.position[1] as int)
}

/// The cell at a column and a row, if there is one.
pub fn cell_at(depth: usize, x: i8, y: i8) -> (r: Option<usize>)
    requires
        1 <= depth <= 4,
    ensures
        match r {
            Some(i) => i == cell_index(depth as int, x as int, y as int) && i < 11 + 4 * depth,
            None => cell_index(depth as int, x as int, y as int) == -1,
        },
{
    if y == 1 {
        if 1 <= x && x <= 11 {
            Some((x - 1) as usize)
        } else {
            None
        }
    } else if 2 <= y && (y as usize) < 2 + depth && (x == 3 || x == 5 || x == 7 || x == 9) {
        Some(cell_of(depth, ((x - 3) / 2) as usize, (y - 2) as usize))
    } else {
        None
    }
}

/// The amphipods stand on cells of the board, no two of them on one.
pub open spec fn can_place(depth: int, amphipods: Seq<Amphipod>) -> bool {
    &&& forall|k: int| 0 <= k < amphipods.len() ==> #[trigger] cell_under(depth, amphipods[k]) >= 0
    &&& forall|j: int, k: int|
        0 <= j < k < amphipods.len() ==> #[trigger] cell_under(depth, amphipods[j])
            != #[trigger] cell_under(depth, amphipods[k])
}

/// The board holds the amphipods, and nothing else.
pub open spec fn holds(depth: int, cells: Seq<u8>, amphipods: Seq<Amphipod>) -> bool {
    &&& forall|k: int|
        0 <= k < amphipods.len() ==> 0 <= #[trigger] cell_under(depth, amphipods[k]) < cells.len()
            && cells[cell_under(depth, amphipods[k])] == amphipods[k].kind()
    &&& forall|i: int|
        0 <= i < cells.len() && #[trigger] cells[i] != 0 ==> exists|k: int|
            0 <= k < amphipods.len() && #[trigger] cell_under(depth, amphipods[k]) == i
}

impl Burrow {
    /// The burrow with rooms `depth` deep in which the amphipods stand.
    pub fn from_amphipods(depth: usize, amphipods: &Vec<Amphipod>) -> (r: Result<
        Burrow,
        ConfigurationError,
    >)
        ensures
            match r {
                Ok(b) => {
                    &&& b.wf()
                    &&& b.depth() == depth
                    &&& can_place(depth as int, amphipods@)
                    &&& holds(depth as int, b@, amphipods@)
                },
                Err(e) => e == ConfigurationError::InvalidBoard && !(1 <= depth <= 4 && can_place(
                    depth as int,
                    amphipods@,
                )),
            },
    {
        if depth < 1 || depth > 4 {
            return Err(ConfigurationError::InvalidBoard);
        }
        let n = 11 + 4 * depth;
        let mut cells: Vec<u8> = Vec::new();
        let mut i: usize = 0;
        while i < n
            invariant
                i <= n,
                cells.len() == i,
                forall|j: int| 0 <= j < i ==> cells@[j] == 0,
            decreases n - i,
        {
            cells.push(0);
            i += 1;
        }
        let mut k: usize = 0;
        while k < amphipods.len()
            invariant
                k <= amphipods.len(),
                1 <= depth <= 4,
                n == 11 + 4 * depth,
                cells.len() == n,
                forall|i: int| 0 <= i < n ==> #[trigger] cells@[i] <= 4,
                can_place(depth as int, amphipods@.take(k as int)),
                holds(depth as int, cells@, amphipods@.take(k as int)),
            decreases amphipods.len() - k,
        {
            let a = amphipods[k];
            let ghost placed = amphipods@.take(k as int);
            let ghost next = amphipods@.take(k + 1);
            proof {
                assert(next =~= placed.push(a));
            }
            match cell_at(depth, a.position[0], a.position[1]) {
                None => {
                    proof {
                        assert(cell_under(depth as int, amphipods@[k as int]) == -1);
                    }
                    return Err(ConfigurationError::InvalidBoard);
                },
                Some(i) => {
                    if cells[i] != 0 {
                        proof {
                            let j = choose|j: int|
                                0 <= j < placed.len() && #[trigger] cell_under(
                                    depth as int,
                                    placed[j],
                                ) == i;
                            assert(placed[j] == amphipods@[j]);
                            assert(cell_under(depth as int, amphipods@[j]) == cell_under(
                                depth as int,
                                amphipods@[k as int],
                            ));
                        }
                        return Err(ConfigurationError::InvalidBoard);
                    }
                    let ghost before = cells@;
                    cells[i] = a.kind_code();
                    proof {
                        assert forall|j: int| 0 <= j < next.len() implies 0 <= #[trigger] cell_under(
                            depth as int,
                            next[j],
                        ) < cells@.len() && cells@[cell_under(depth as int, next[j])]
                            == next[j].kind() by {
                            if j < k {
                                assert(next[j] == placed[j]);
                                assert(before[cell_under(depth as int, placed[j])]
                                    == placed[j].kind());
                            }
                        }
                        assert forall|c: int|
                            0 <= c < cells@.len() && #[trigger] cells@[c] != 0 implies exists|j: int|

                            0 <= j < next.len() && #[trigger] cell_under(depth as int, next[j])
                                == c by {
                            if c == i {
                                assert(cell_under(depth as int, next[k as int]) == c);
                            } else {
                                assert(before[c] != 0);
                                let j = choose|j: int|
                                    0 <= j < placed.len() && #[trigger] cell_under(
                                        depth as int,
                                        placed[j],
                                    ) == c;
                                assert(next[j] == placed[j]);
                                assert(cell_under(depth as int, next[j]) == c);
                            }
                        }
                        assert forall|j: int, j2: int| 0 <= j < j2 < next.len() implies #[trigger] cell_under(
                            depth as int,
                            next[j],
                        ) != #[trigger] cell_under(depth as int, next[j2]) by {
                            assert(next[j] == placed[j]);
                            if j2 < k {
                                assert(next[j2] == placed[j2]);
                            } else {
                                assert(before[cell_under(depth as int, placed[j])]
                                    == placed[j].kind());
                            }
                        }
                    }
                },
            }
            k += 1;
        }
        proof {
            assert(amphipods@.take(amphipods.len() as int) =~= amphipods@);
        }
        Ok(Burrow { depth, cells })
    }

    /// The amphipods of the burrow, in the order of the cells on which they stand.
    pub fn amphipods(&self) -> (r: Vec<Amphipod>)
        requires
            self.wf(),
        ensures
            holds(self.depth(), self@, r@),
            forall|j: int, k: int|
                0 <= j < k < r.len() ==> #[trigger] cell_under(self.depth(), r[j])
                    < #[trigger] cell_under(self.depth(), r[k]),
    {
        let mut r: Vec<Amphipod> = Vec::new();
        let n = self.cells.len();
        let depth = self.depth;
        let mut i: usize = 0;
        while i < n
            invariant
                i <= n,
                n == self.cells.len(),
                depth == self.depth,
                self.wf(),
                forall|k: int|
                    0 <= k < r.len() ==> 0 <= #[trigger] cell_under(depth as int, r[k]) < i
                        && self.cells@[cell_under(depth as int, r[k])] == r[k].kind(),
                forall|c: int|
                    0 <= c < i && #[trigger] self.cells@[c] != 0 ==> exists|k: int|
                        0 <= k < r.len() && #[trigger] cell_under(depth as int, r[k]) == c,
                forall|j: int, k: int|
                    0 <= j < k < r.len() ==> #[trigger] cell_under(depth as int, r[j])
                        < #[trigger] cell_under(depth as int, r[k]),
            decreases n - i,
        {
            let c = self.cells[i];
            if c != 0 {
                let p = cell_position(depth, i);
                let a_type = if c == 1 {
                    AmphipodType::Amber
                } else if c == 2 {
                    AmphipodType::Bronze
                } else if c == 3 {
                    AmphipodType::Copper
                } else {
                    AmphipodType::Desert
                };
                let ghost before = r@;
                let a = Amphipod { a_type, position: p };
                r.push(a);
                proof {
                    assert(cell_under(depth as int, a) == i);
                    assert forall|c2: int|
                        0 <= c2 < i + 1 && #[trigger] self.cells@[c2] != 0 implies exists|k: int|
                        0 <= k < r.len() && #[trigger] cell_under(depth as int, r[k]) == c2 by {
                        if c2 < i {
                            let k = choose|k: int|
                                0 <= k < before.len() && #[trigger] cell_under(
                                    depth as int,
                                    before[k],
                                ) == c2;
                            assert(r[k] == before[k]);
                            assert(cell_under(depth as int, r[k]) == c2);
                        } else {
                            assert(cell_under(depth as int, r[r.len() - 1]) == c2);
                        }
                    }
                    assert forall|k: int| 0 <= k < r.len() implies 0 <= #[trigger] cell_under(
                        depth as int,
                        r[k],
                    ) < i + 1 && self.cells@[cell_under(depth as int, r[k])] == r[k].kind() by {
                        if k < before.len() {
                            assert(r[k] == before[k]);
                            assert(0 <= cell_under(depth as int, before[k]) < i);
                        }
                    }
                    assert forall|j: int, k: int| 0 <= j < k < r.len() implies #[trigger] cell_under(
                        depth as int,
                        r[j],
                    ) < #[trigger] cell_under(depth as int, r[k]) by {
                        assert(r[j] == before[j]);
                        assert(0 <= cell_under(depth as int, before[j]) < i);
                        if k < before.len() {
                            assert(r[k] == before[k]);
                        }
                    }
                }
            }
            i += 1;
        }
        r
    }
}

// ----- reading a burrow -----
/// What a character of the plan puts on a cell: 0 for a dot, 1 to 4 for the
/// letters A to D, and -1 for a character that stands for no cell.
pub open spec fn floor_code(c: u8) -> int {
    if c == 46 {
        0
    } else if 65 <= c <= 68 {
        c - 64
    } else {
        -1
    }
}

/// The character in row `y` and column `x` of the plan, a space where the plan has none.
pub open spec fn char_at(plan: Seq<Seq<u8>>, y: int, x: int) -> u8 {
    if 0 <= y < plan.len() && 0 <= x < plan[y].len() {
        plan[y][x]
    } else {
        32
    }
}

/// How many rows of rooms the plan shows from the level `l` on, counted up
/// to five: the rows below the hallway that hold a cell in column 3.
pub open spec fn depth_from(plan: Seq<Seq<u8>>, l: int) -> int
    decreases 5 - l,
{
    if l >= 5 || floor_code(char_at(plan, 2 + l, 3)) < 0 {
        l
    } else {
        depth_from(plan, l + 1)
    }
}

/// The plan shows a burrow: rooms one to four cells deep, a cell at each
/// place of the board, and no cell at another place.
pub open spec fn layout_ok(plan: Seq<Seq<u8>>) -> bool {
    let d = depth_from(plan, 0);
    &&& 1 <= d <= 4
    &&& forall|i: int|
        0 <= i < 11 + 4 * d ==> floor_code(char_at(plan, #[trigger] cell_y(d, i), cell_x(d, i)))
            >= 0
    &&& forall|y: int, x: int|
        0 <= y < plan.len() && 0 <= x < plan[y].len() && floor_code(#[trigger] plan[y][x]) >= 0
            ==> cell_index(d, x, y) >= 0
}

/// The board that the plan shows.
pub open spec fn layout_cells(plan: Seq<Seq<u8>>) -> Seq<u8> {
    let d = depth_from(plan, 0);
    Seq::new(
        (11 + 4 * d) as nat,
        |i: int| floor_code(char_at(plan, cell_y(d, i), cell_x(d, i))) as u8,
    )
}

fn code_of(c: u8) -> (r: Option<u8>)
    ensures
        match r {
            Some(v) => v == floor_code(c) && v <= 4,
            None => floor_code(c) < 0,
        },
{
    if c == 46 {
        Some(0)
    } else if 65 <= c && c <= 68 {
        Some(c - 64)
    } else {
        None
    }
}

fn plan_char(rows: &Vec<Vec<u8>>, y: usize, x: usize) -> (c: u8)
    ensures
        c == char_at(rows_view(rows@), y as int, x as int),
{
    proof {
        assert(rows_view(rows@).len() == rows.len());
    }
    if y < rows.len() {
        proof {
            assert(rows_view(rows@)[y as int] == rows@[y as int]@);
        }
        if x < rows[y].len() {
            rows[y][x]
        } else {
            32
        }
    } else {
        32
    }
}

impl Burrow {
    /// Reads a burrow from its plan: the hallway in the second line, the
    /// rooms in the lines below it, a dot for a free cell and a letter for
    /// an amphipod.
    pub fn from_input(input: &str) -> (r: Result<Burrow, ParseError>)
        ensures
            match r {
                Ok(b) => {
                    &&& layout_ok(lines(input.spec_bytes()))
                    &&& b.wf()
                    &&& b.depth() == depth_from(lines(input.spec_bytes()), 0)
                    &&& b@ == layout_cells(lines(input.spec_bytes()))
                },
                Err(e) => e == ParseError::Malformed && !layout_ok(lines(input.spec_bytes())),
            },
    {
        let rows = split_lines(input.as_bytes());
        let ghost plan = lines(input.spec_bytes());
        let mut depth: usize = 0;
        while depth < 5 && code_of(plan_char(&rows, 2 + depth, 3)).is_some()
            invariant
                depth <= 5,
                rows_view(rows@) == plan,
                depth_from(plan, 0) == depth_from(plan, depth as int),
            decreases 5 - depth,
        {
            depth += 1;
        }
        if depth < 1 || depth > 4 {
            return Err(ParseError::Malformed);
        }
        let n = 11 + 4 * depth;
        let mut cells: Vec<u8> = Vec::new();
        let mut i: usize = 0;
        while i < n
            invariant
                i <= n,
                1 <= depth <= 4,
                n == 11 + 4 * depth,
                depth == depth_from(plan, 0),
                rows_view(rows@) == plan,
                plan == lines(input.spec_bytes()),
                cells.len() == i,
                forall|k: int|
                    0 <= k < i ==> floor_code(
                        char_at(plan, #[trigger] cell_y(depth as int, k), cell_x(depth as int, k)),
                    ) == cells@[k] && cells@[k] <= 4,
            decreases n - i,
        {
            let p = cell_position(depth, i);
            let c = plan_char(&rows, p[1] as usize, p[0] as usize);
            proof {
                assert(c == char_at(plan, cell_y(depth as int, i as int), cell_x(depth as int, i as int)));
            }
            match code_of(c) {
                Some(v) => {
                    let ghost before = cells@;
                    cells.push(v);
                    proof {
                        assert forall|k: int| 0 <= k < i + 1 implies floor_code(
                            char_at(
                                plan,
                                #[trigger] cell_y(depth as int, k),
                                cell_x(depth as int, k),
                            ),
                        ) == cells@[k] && cells@[k] <= 4 by {
                            if k < i {
                                assert(cells@[k] == before[k]);
                            }
                        }
                    }
                },
                None => {
                    return Err(ParseError::Malformed);
                },
            }
            i += 1;
        }
        let mut y: usize = 0;
        proof {
            assert(plan.len() == rows.len());
        }
        while y < rows.len()
            invariant
                y <= rows.len(),
                1 <= depth <= 4,
                depth == depth_from(plan, 0),
                rows_view(rows@) == plan,
                plan == lines(input.spec_bytes()),
                plan.len() == rows.len(),
                forall|b: int, a: int|
                    0 <= b < y && 0 <= a < plan[b].len() && floor_code(#[trigger] plan[b][a]) >= 0
                        ==> cell_index(depth as int, a, b) >= 0,
            decreases rows.len() - y,
        {
            let row = &rows[y];
            proof {
                assert(plan[y as int] == rows@[y as int]@);
            }
            let mut x: usize = 0;
            while x < row.len()
                invariant
                    x <= row.len(),
                    1 <= depth <= 4,
                    y < rows.len(),
                    plan.len() == rows.len(),
                    plan == lines(input.spec_bytes()),
                    depth == depth_from(plan, 0),
                    row@ == plan[y as int],
                    forall|a: int|
                        0 <= a < x && floor_code(#[trigger] row@[a]) >= 0 ==> cell_index(
                            depth as int,
                            a,
                            y as int,
                        ) >= 0,
                decreases row.len() - x,
            {
                if code_of(row[x]).is_some() {
                    let on_board = if y == 1 {
                        1 <= x && x <= 11
                    } else {
                        2 <= y && y < 2 + depth && (x == 3 || x == 5 || x == 7 || x == 9)
                    };
                    if !on_board {
                        proof {
                            assert(floor_code(plan[y as int][x as int]) >= 0);
                            assert(cell_index(depth as int, x as int, y as int) == -1);
                        }
                        return Err(ParseError::Malformed);
                    }
                }
                x += 1;
            }
            y += 1;
        }
        proof {
            assert(cells@ =~= layout_cells(plan));
        }
        Ok(Burrow { depth, cells })
    }
}

/// What the sorting of the burrow that a plan shows returns: the least
/// energy, if the burrow can be sorted, or why there is no answer.
pub open spec fn is_solution(input: Seq<u8>, r: Result<Option<u64>, PuzzleError>) -> bool {
    let plan = lines(input);
    let depth = depth_from(plan, 0);
    if !layout_ok(plan) {
        r == Err::<Option<u64>, PuzzleError>(PuzzleError::Parse(ParseError::Malformed))
    } else if !fits_rooms(depth, layout_cells(plan)) {
        match crowded(depth, layout_cells(plan)) {
            Some(e) => r == Err::<Option<u64>, PuzzleError>(PuzzleError::Configuration(e)),
            None => false,
        }
    } else {
        match r {
            Ok(c) => exists|b: Burrow|
                #![trigger b.wf()]
                b.wf() && b.depth() == depth && b@ == layout_cells(plan) && is_sorting_answer(
                    &b,
                    c,
                ),
            Err(_) => false,
        }
    }
}

/// The least energy that sorts the burrow that the plan shows.
pub fn solve(input: &str) -> (r: Result<Option<u64>, PuzzleError>)
    ensures
        is_solution(input.spec_bytes(), r),
{
    let burrow = match Burrow::from_input(input) {
        Ok(b) => b,
        Err(e) => {
            return Err(PuzzleError::Parse(e));
        },
    };
    match solve_amphipods(&burrow) {
        Ok(c) => {
            proof {
                assert(burrow.wf());
            }
            Ok(c)
        },
        Err(e) => Err(PuzzleError::Configuration(e)),
    }
}

/// The plan of the burrow that the puzzle gives.
pub fn puzzle_input() -> (s: &'static str)
    ensures
        s@ == "#############\n#...........#\n###C#D#D#A###\n  #D#C#B#A#\n  #D#B#A#C#\n  #B#A#B#C#\n  #########"@,
{
    "#############\n#...........#\n###C#D#D#A###\n  #D#C#B#A#\n  #D#B#A#C#\n  #B#A#B#C#\n  #########"
}

/// The least energy that sorts the burrow of the puzzle.
pub fn run() -> (r: Result<Option<u64>, PuzzleError>)
    ensures
        is_solution(puzzle_input_bytes(), r),
{
    let plan = puzzle_input();
    solve(plan)
}

/// The bytes of the plan of the puzzle.
pub open spec fn puzzle_input_bytes() -> Seq<u8> {
    crate::text::bytes_of(
        "#############\n#...........#\n###C#D#D#A###\n  #D#C#B#A#\n  #D#B#A#C#\n  #B#A#B#C#\n  #########"@,
    )
}

// ----- writing -----
/// The row below the lowest room row of a drawing.
pub const MAX_Y: i8 = 5;

/// The name of a kind.
pub open spec fn kind_name(t: AmphipodType) -> Seq<char> {
    match t {
        AmphipodType::Amber => "Amber"@,
        AmphipodType::Bronze => "Bronze"@,
        AmphipodType::Copper => "Copper"@,
        AmphipodType::Desert => "Desert"@,
    }
}

/// The letter of a kind.
pub open spec fn kind_letter(t: AmphipodType) -> char {
    match t {
        AmphipodType::Amber => 'A',
        AmphipodType::Bronze => 'B',
        AmphipodType::Copper => 'C',
        AmphipodType::Desert => 'D',
    }
}

impl Amphipod {
    /// The amphipod as it is written: its kind and its place.
    pub open spec fn written(&self) -> Seq<char> {
        kind_name(self.a_type) + " @ ["@ + signed_decimal(self.position[0] as int) + ", "@
            + signed_decimal(self.position[1] as int) + "]"@
    }

    pub fn to_string(&self) -> (s: String)
        ensures
            s@ == self.written(),
    {
        let mut s = String::new();
        match self.a_type {
            AmphipodType::Amber => s.append("Amber"),
            AmphipodType::Bronze => s.append("Bronze"),
            AmphipodType::Copper => s.append("Copper"),
            AmphipodType::Desert => s.append("Desert"),
        }
        s.append(" @ [");
        s.append(signed_decimal_string(self.position[0] as i128).as_str());
        s.append(", ");
        s.append(signed_decimal_string(self.position[1] as i128).as_str());
        s.append("]");
        proof {
            assert(s@ =~= self.written());
        }
        s
    }
}

/// The first of the amphipods from the place `from` on that stands at
/// column `x` and row `y`.
pub open spec fn standing_at(amphipods: Seq<Amphipod>, x: int, y: int, from: int) -> Option<Amphipod>
    decreases amphipods.len() - from,
{
    if from < 0 || from >= amphipods.len() {
        None
    } else if amphipods[from].position[0] == x && amphipods[from].position[1] == y {
        Some(amphipods[from])
    } else {
        standing_at(amphipods, x, y, from + 1)
    }
}

/// The place is floor: a cell of the hallway or of a room.
pub open spec fn is_floor(x: int, y: int) -> bool {
    (y == 1 && 1 <= x < 12) || (2 <= y <= MAX_Y && (x == 3 || x == 5 || x == 7 || x == 9))
}

/// The sign of a place: the letter of the amphipod that stands there, a
/// dot for floor and a hash for wall.
pub open spec fn sign_at(amphipods: Seq<Amphipod>, x: int, y: int) -> char {
    match standing_at(amphipods, x, y, 0) {
        Some(a) => kind_letter(a.a_type),
        None => if is_floor(x, y) {
            '.'
        } else {
            '#'
        },
    }
}

/// The first `n` signs of the row `y`.
pub open spec fn drawn_row(amphipods: Seq<Amphipod>, y: int, n: int) -> Seq<char>
    decreases n,
{
    if n <= 0 {
        Seq::empty()
    } else {
        drawn_row(amphipods, y, n - 1).push(sign_at(amphipods, n - 1, y))
    }
}

/// The first `n` rows, each on a line.
pub open spec fn drawn_rows(amphipods: Seq<Amphipod>, n: int) -> Seq<char>
    decreases n,
{
    if n <= 0 {
        Seq::empty()
    } else {
        drawn_rows(amphipods, n - 1) + drawn_row(amphipods, n - 1, 13).push('\n')
    }
}

fn find_at(amphipods: &Vec<Amphipod>, x: i8, y: i8) -> (r: Option<Amphipod>)
    ensures
        r == standing_at(amphipods@, x as int, y as int, 0),
{
    let mut i: usize = 0;
    while i < amphipods.len()
        invariant
            i <= amphipods.len(),
            standing_at(amphipods@, x as int, y as int, 0) == standing_at(
                amphipods@,
                x as int,
                y as int,
                i as int,
            ),
        decreases amphipods.len() - i,
    {
        let a = amphipods[i];
        if a.position[0] == x && a.position[1] == y {
            return Some(a);
        }
        i += 1;
    }
    None
}

impl State {
    /// The burrow as it is drawn, seven rows of thirteen signs, and the score.
    pub open spec fn drawn(&self) -> Seq<char> {
        drawn_rows(self.amphipods@, MAX_Y + 2) + "Score: "@ + decimal(self.score as nat) + "\n"@
    }

    pub fn to_string(&self) -> (s: String)
        ensures
            s@ == self.drawn(),
    {
        let mut s = String::new();
        let mut y: i8 = 0;
        while y <= MAX_Y + 1
            invariant
                0 <= y <= MAX_Y + 2,
                s@ == drawn_rows(self.amphipods@, y as int),
            decreases MAX_Y + 2 - y,
        {
            let ghost before = s@;
            let mut x: i8 = 0;
            while x <= 12
                invariant
                    0 <= x <= 13,
                    0 <= y <= MAX_Y + 1,
                    s@ == before + drawn_row(self.amphipods@, y as int, x as int),
                decreases 13 - x,
            {
                let c = match find_at(&self.amphipods, x, y) {
                    Some(a) => match a.a_type {
                        AmphipodType::Amber => 'A',
                        AmphipodType::Bronze => 'B',
                        AmphipodType::Copper => 'C',
                        AmphipodType::Desert => 'D',
                    },
                    None => if (y == 1 && 1 <= x && x < 12) || (2 <= y && y <= MAX_Y && (x == 3 || x
                        == 5 || x == 7 || x == 9)) {
                        '.'
                    } else {
                        '#'
                    },
                };
                push_char(&mut s, c);
                proof {
                    assert(s@ =~= before + drawn_row(self.amphipods@, y as int, x + 1));
                }
                x += 1;
            }
            push_char(&mut s, '\n');
            proof {
                assert(s@ =~= drawn_rows(self.amphipods@, y + 1));
            }
            y += 1;
        }
        s.append("Score: ");
        s.append(decimal_string(self.score as u128).as_str());
        s.append("\n");
        proof {
            assert(s@ =~= self.drawn());
        }
        s
    }
}

} // verus!
