//! Monkeys that inspect items and throw them to each other.

use crate::errors::{ParseError, PuzzleError};
use crate::traits::AdventOfCode;
use crate::pattern::{captures, first_captures};
use crate::text::{
    bytes_of, copy_bytes, decimal, decimal_string, lines, parse_usize, rows_view, same_bytes,
    split_at_word, split_lines, split_on, string_of, text_of, unsigned_value,
};
use vstd::slice::slice_subrange;
use vstd::string::*;
use vstd::prelude::*;

verus! {

/// What a monkey does to a worry level: it adds to it or multiplies it,
/// by a number or, where there is none, by the level itself.
#[derive(Clone, Copy, Debug, PartialEq, Eq)]
pub enum Operation {
    Add(Option<usize>),
    Mul(Option<usize>),
}

impl Operation {
    /// The new worry level, however large.
    pub open spec fn value(&self, val: int) -> int {
        match *self {
            Operation::Add(None) => val + val,
            Operation::Mul(None) => val * val,
            Operation::Add(Some(v)) => val + v,
            Operation::Mul(Some(v)) => val * v,
        }
    }

    /// The new worry level where it fits.
    pub open spec fn checked(&self, val: usize) -> Option<usize> {
        if self.value(val as int) <= usize::MAX {
            Some(self.value(val as int) as usize)
        } else {
            None
        }
    }

    pub fn eval(&self, val: usize) -> (r: Option<usize>)
        ensures
            r == self.checked(val),
    {
        match self {
            Operation::Add(None) => val.checked_add(val),
            Operation::Mul(None) => val.checked_mul(val),
            Operation::Add(Some(v)) => val.checked_add(*v),
            Operation::Mul(Some(v)) => val.checked_mul(*v),
        }
    }
}

/// The test of a monkey: to whom it throws an item, by whether the worry
/// level is a multiple of `div`.
#[derive(Clone, Copy, Debug, PartialEq, Eq, Structural)]
pub struct Tester {
    pub div: usize,
    pub when_true: usize,
    pub when_false: usize,
}

impl Tester {
    pub open spec fn target(&self, worry: int) -> usize {
        if worry % (self.div as int) == 0 {
            self.when_true
        } else {
            self.when_false
        }
    }

    pub fn eval(&self, worry: usize) -> (m: usize)
        requires
            self.div > 0,
        ensures
            m == self.target(worry as int),
    {
        if worry % self.div == 0 {
            self.when_true
        } else {
            self.when_false
        }
    }
}

/// A monkey: the items that it holds, by their numbers, and how often it
/// has inspected one.
pub struct Monkey {
    pub id: u8,
    pub item_ids: Vec<usize>,
    pub operation: Operation,
    pub test: Tester,
    pub inspect_count: usize,
}

/// A throw: the monkey that gets the item, and the item.
pub type Throw = [usize; 2];

/// What a monkey that holds `held` throws in its turn, the item that it got
/// last first, where `view` gives the worry level of each item; `None`
/// where a worry level grows beyond a `usize`.
pub open spec fn throws_of(
    operation: Operation,
    test: Tester,
    held: Seq<usize>,
    view: Seq<usize>,
    relief: usize,
) -> Option<Seq<Throw>> {
    if forall|k: int| 0 <= k < held.len() ==> operation.checked(view[#[trigger] held[k] as int]) is Some {
        Some(
            Seq::new(
                held.len(),
                |k: int|
                    {
                        let id = held[held.len() - 1 - k];
                        [test.target(operation.value(view[id as int] as int) / (relief as int)), id]
                    },
            ),
        )
    } else {
        None
    }
}

impl Monkey {
    /// The monkey inspects each item that it holds, the last first, and
    /// says to whom it throws it; it then holds none. The result is `None`
    /// where a worry level or the count of inspections grows beyond a `usize`.
    pub fn play(&mut self, relief: usize, items: &Vec<Vec<usize>>) -> (r: Option<
        Vec<(Throw, Operation)>,
    >)
        requires
            relief > 0,
            old(self).test.div > 0,
            (old(self).id as int) < items.len(),
            forall|k: int|
                0 <= k < old(self).item_ids.len() ==> (#[trigger] old(self).item_ids[k])
                    < items[old(self).id as int].len(),
        ensures
            final(self).id == old(self).id,
            final(self).operation == old(self).operation,
            final(self).test == old(self).test,
            r is Some <==> throws_of(
                old(self).operation,
                old(self).test,
                old(self).item_ids@,
                items[old(self).id as int]@,
                relief,
            ) is Some && old(self).inspect_count + old(self).item_ids.len() <= usize::MAX,
            match r {
                Some(v) => {
                    let throws = throws_of(
                        old(self).operation,
                        old(self).test,
                        old(self).item_ids@,
                        items[old(self).id as int]@,
                        relief,
                    ).unwrap();
                    &&& v.len() == throws.len()
                    &&& forall|k: int|
                        0 <= k < v.len() ==> (#[trigger] v[k]) == (throws[k], old(self).operation)
                    &&& final(self).item_ids@ == Seq::<usize>::empty()
                    &&& final(self).inspect_count == old(self).inspect_count + old(
                        self,
                    ).item_ids.len()
                },
                None => true,
            },
    {
        let mut throws: Vec<(Throw, Operation)> = Vec::new();
        let ghost held = self.item_ids@;
        let ghost view = items[self.id as int]@;
        while self.item_ids.len() > 0
            invariant
                relief > 0,
                self.test.div > 0,
                self.id == old(self).id,
                self.operation == old(self).operation,
                self.test == old(self).test,
                (self.id as int) < items.len(),
                view == items[self.id as int]@,
                held == old(self).item_ids@,
                forall|k: int| 0 <= k < held.len() ==> (#[trigger] held[k]) < view.len(),
                self.item_ids.len() <= held.len(),
                self.item_ids@ == held.take(self.item_ids.len() as int),
                throws.len() == held.len() - self.item_ids.len(),
                self.inspect_count == old(self).inspect_count + throws.len(),
                forall|k: int|
                    self.item_ids.len() <= k < held.len() ==> self.operation.checked(
                        view[#[trigger] held[k] as int],
                    ) is Some,
                forall|k: int|
                    0 <= k < throws.len() ==> (#[trigger] throws[k]) == (
                        [
                            self.test.target(
                                self.operation.value(view[held[held.len() - 1 - k] as int] as int)
                                    / (relief as int),
                            ),
                            held[held.len() - 1 - k],
                        ],
                        self.operation,
                    ),
            decreases self.item_ids.len(),
        {
            let ghost n = self.item_ids.len();
            let id = self.item_ids.pop().unwrap();
            assert(id == held[n - 1]);
            assert(self.item_ids@ =~= held.take(n - 1));
            let wl = items[self.id as usize][id];
            let wl2 = match self.operation.eval(wl) {
                Some(v) => v / relief,
                None => {
                    return None;
                },
            };
            let m = self.test.eval(wl2);
            if self.inspect_count == usize::MAX {
                return None;
            }
            self.inspect_count += 1;
            throws.push(([m, id], self.operation));
        }
        proof {
            let t = throws_of(self.operation, self.test, held, view, relief);
            assert(t is Some);
            assert forall|k: int| 0 <= k < throws.len() implies (#[trigger] throws[k]) == (
                t.unwrap()[k],
                self.operation,
            ) by {}
        }
        Some(throws)
    }

    pub fn catch(&mut self, item_id: usize)
        ensures
            final(self).item_ids@ == old(self).item_ids@.push(item_id),
            final(self).id == old(self).id,
            final(self).operation == old(self).operation,
            final(self).test == old(self).test,
            final(self).inspect_count == old(self).inspect_count,
    {
        self.item_ids.push(item_id);
    }
}

/// The monkeys of a game and, for each monkey, the worry levels of all
/// items as that monkey sees them.
pub struct Troop {
    pub monkeys: Vec<Monkey>,
    pub items: Vec<Vec<usize>>,
}

/// Where a game stands: the items that each monkey holds, how often each
/// has inspected one, and the worry levels as each monkey sees them.
pub ghost struct Game {
    pub held: Seq<Seq<usize>>,
    pub seen: Seq<usize>,
    pub views: Seq<Seq<usize>>,
}

/// What does not change in a game: the operation and the test of each monkey.
pub type Rules = Seq<(Operation, Tester)>;

/// The worry level that a monkey with the divisor `div` sees after the
/// operation: divided by the relief where that is more than 1, and else
/// the remainder by `div`.
pub open spec fn relieved(v: int, relief: usize, div: usize) -> int {
    if relief > 1 {
        v / (relief as int)
    } else {
        v % (div as int)
    }
}

/// The views after the operation on one item; `None` where a worry level
/// grows beyond a `usize`.
pub open spec fn updated(
    views: Seq<Seq<usize>>,
    rules: Rules,
    id: usize,
    op: Operation,
    relief: usize,
) -> Option<Seq<Seq<usize>>> {
    if forall|k: int| 0 <= k < views.len() ==> op.checked(#[trigger] views[k][id as int]) is Some {
        Some(
            Seq::new(
                views.len(),
                |k: int|
                    views[k].update(
                        id as int,
                        relieved(op.value(views[k][id as int] as int), relief, rules[k].1.div) as usize,
                    ),
            ),
        )
    } else {
        None
    }
}

/// The game after the first `n` of the throws have arrived.
pub open spec fn delivered(
    g: Game,
    rules: Rules,
    throws: Seq<Throw>,
    op: Operation,
    relief: usize,
    n: int,
) -> Option<Game>
    decreases n,
{
    if n <= 0 || n > throws.len() {
        Some(g)
    } else {
        match delivered(g, rules, throws, op, relief, n - 1) {
            Some(h) => match updated(h.views, rules, throws[n - 1][1], op, relief) {
                Some(views) => Some(
                    Game {
                        held: h.held.update(
                            throws[n - 1][0] as int,
                            h.held[throws[n - 1][0] as int].push(throws[n - 1][1]),
                        ),
                        seen: h.seen,
                        views,
                    },
                ),
                None => None,
            },
            None => None,
        }
    }
}

/// The game after the turn of the monkey `m`.
pub open spec fn turn(g: Game, rules: Rules, m: int, relief: usize) -> Option<Game> {
    match throws_of(rules[m].0, rules[m].1, g.held[m], g.views[m], relief) {
        Some(throws) => if g.seen[m] + throws.len() <= usize::MAX {
            delivered(
                Game {
                    held: g.held.update(m, Seq::empty()),
                    seen: g.seen.update(m, (g.seen[m] + throws.len()) as usize),
                    views: g.views,
                },
                rules,
                throws,
                rules[m].0,
                relief,
                throws.len() as int,
            )
        } else {
            None
        },
        None => None,
    }
}

/// The game after the turns of the first `m` monkeys.
pub open spec fn turns(g: Game, rules: Rules, m: int, relief: usize) -> Option<Game>
    decreases m,
{
    if m <= 0 {
        Some(g)
    } else {
        match turns(g, rules, m - 1, relief) {
            Some(h) => turn(h, rules, m - 1, relief),
            None => None,
        }
    }
}

/// The game after `n` rounds, in each of which every monkey has its turn.
pub open spec fn rounds(g: Game, rules: Rules, n: int, relief: usize) -> Option<Game>
    decreases n,
{
    if n <= 0 {
        Some(g)
    } else {
        match rounds(g, rules, n - 1, relief) {
            Some(h) => turns(h, rules, rules.len() as int, relief),
            None => None,
        }
    }
}

/// The game fits the rules: each monkey throws to a monkey, divides by
/// more than nothing, and holds items that every monkey has a view of.
pub open spec fn game_ok(g: Game, rules: Rules, count: int) -> bool {
    &&& g.held.len() == rules.len()
    &&& g.seen.len() == rules.len()
    &&& g.views.len() == rules.len()
    &&& forall|k: int|
        0 <= k < rules.len() ==> {
            &&& (#[trigger] rules[k]).1.div > 0
            &&& rules[k].1.when_true < rules.len()
            &&& rules[k].1.when_false < rules.len()
        }
    &&& forall|k: int| 0 <= k < rules.len() ==> (#[trigger] g.views[k]).len() == count
    &&& forall|k: int, i: int|
        0 <= k < rules.len() && 0 <= i < g.held[k].len() ==> (#[trigger] g.held[k][i]) < count
}

impl Troop {
    pub open spec fn rules(&self) -> Rules {
        Seq::new(self.monkeys.len() as nat, |k: int| (self.monkeys[k].operation, self.monkeys[k].test))
    }

    pub open spec fn view(&self) -> Game {
        Game {
            held: Seq::new(self.monkeys.len() as nat, |k: int| self.monkeys[k].item_ids@),
            seen: Seq::new(self.monkeys.len() as nat, |k: int| self.monkeys[k].inspect_count),
            views: Seq::new(self.items.len() as nat, |k: int| self.items[k]@),
        }
    }

    /// The number of items.
    pub open spec fn count(&self) -> int {
        if self.items.len() == 0 {
            0
        } else {
            self.items[0].len() as int
        }
    }

    /// Each monkey stands at the place of its number, and the game fits the rules.
    pub open spec fn wf(&self) -> bool {
        &&& forall|k: int| 0 <= k < self.monkeys.len() ==> (#[trigger] self.monkeys[k]).id == k
        &&& game_ok(self@, self.rules(), self.count())
    }
}

pub open spec fn rules_of(monkeys: Seq<Monkey>) -> Rules {
    Seq::new(monkeys.len(), |k: int| (monkeys[k].operation, monkeys[k].test))
}

pub open spec fn views_of(items: Seq<Vec<usize>>) -> Seq<Seq<usize>> {
    Seq::new(items.len(), |k: int| items[k]@)
}

proof fn lemma_delivered_none(
    g: Game,
    rules: Rules,
    throws: Seq<Throw>,
    op: Operation,
    relief: usize,
    k: int,
    n: int,
)
    requires
        0 <= k <= n <= throws.len(),
        delivered(g, rules, throws, op, relief, k) is None,
    ensures
        delivered(g, rules, throws, op, relief, n) is None,
    decreases n,
{
    if k < n {
        lemma_delivered_none(g, rules, throws, op, relief, k, n - 1);
    }
}

proof fn lemma_turns_none(g: Game, rules: Rules, relief: usize, k: int, n: int)
    requires
        0 <= k <= n,
        turns(g, rules, k, relief) is None,
    ensures
        turns(g, rules, n, relief) is None,
    decreases n,
{
    if k < n {
        lemma_turns_none(g, rules, relief, k, n - 1);
    }
}

/// The greatest two of the first `n` numbers, the greater first; 0 stands
/// in for a number that is not there.
pub open spec fn top_two(s: Seq<usize>, n: int) -> (usize, usize)
    decreases n,
{
    if n <= 0 || n > s.len() {
        (0, 0)
    } else {
        let (a, b) = top_two(s, n - 1);
        if s[n - 1] > a {
            (s[n - 1], a)
        } else if s[n - 1] > b {
            (a, s[n - 1])
        } else {
            (a, b)
        }
    }
}

/// The two numbers stand at two places of the sequence, and no number at
/// any other place is greater than either.
pub open spec fn leads(s: Seq<usize>, a: usize, b: usize) -> bool {
    exists|i: int, j: int|
        {
            &&& 0 <= i < s.len() && 0 <= j < s.len() && i != j
            &&& #[trigger] s[i] == a && #[trigger] s[j] == b && b <= a
            &&& forall|k: int| 0 <= k < s.len() && k != i ==> #[trigger] s[k] <= b
        }
}

/// Of two numbers or more, the greatest two are two of them, at two
/// places, and none of the others is greater.
pub proof fn lemma_top_two(s: Seq<usize>, n: int)
    requires
        2 <= n <= s.len(),
    ensures
        leads(s.take(n), top_two(s, n).0, top_two(s, n).1),
    decreases n,
{
    let t = s.take(n);
    let (a, b) = top_two(s, n);
    if n == 2 {
        assert(top_two(s, 0) == (0usize, 0usize));
        let first = top_two(s, 1);
        assert(first == (s[0], 0usize));
        if s[1] > s[0] {
            assert(t[1] == a && t[0] == b);
        } else {
            assert(t[0] == a && t[1] == b);
        }
    } else {
        lemma_top_two(s, n - 1);
        let u = s.take(n - 1);
        let (c, d) = top_two(s, n - 1);
        let (i, j) = choose|i: int, j: int|
            {
                &&& 0 <= i < u.len() && 0 <= j < u.len() && i != j
                &&& #[trigger] u[i] == c && #[trigger] u[j] == d && d <= c
                &&& forall|k: int| 0 <= k < u.len() && k != i ==> #[trigger] u[k] <= d
            };
        assert(forall|k: int| 0 <= k < n - 1 ==> t[k] == u[k]);
        if s[n - 1] > c {
            assert(t[n - 1] == a && t[i] == b);
            assert forall|k: int| 0 <= k < t.len() && k != n - 1 implies #[trigger] t[k] <= b by {
                if k != i {
                    assert(u[k] <= d);
                }
            }
        } else if s[n - 1] > d {
            assert(t[i] == a && t[n - 1] == b);
            assert forall|k: int| 0 <= k < t.len() && k != i implies #[trigger] t[k] <= b by {
                if k != n - 1 {
                    assert(u[k] <= d);
                }
            }
        } else {
            assert(t[i] == a && t[j] == b);
            assert forall|k: int| 0 <= k < t.len() && k != i implies #[trigger] t[k] <= b by {
                if k != n - 1 {
                    assert(u[k] <= d);
                }
            }
        }
    }
}

/// The product of the two greatest counts of inspections, written out;
/// an error where it is beyond a `usize`.
pub open spec fn business(g: Game) -> Result<Seq<char>, PuzzleError> {
    let (a, b) = top_two(g.seen, g.seen.len() as int);
    if a * b <= usize::MAX {
        Ok(decimal((a * b) as nat))
    } else {
        Err(PuzzleError::Overflow)
    }
}

impl Troop {
    /// Every monkey applies the operation to its view of the item.
    /// Returns `false` where a worry level grows beyond a `usize`.
    pub fn update_item(
        items: &mut Vec<Vec<usize>>,
        monkeys: &Vec<Monkey>,
        item_id: usize,
        op: Operation,
        relief: usize,
    ) -> (done: bool)
        requires
            old(items).len() == monkeys.len(),
            relief > 0,
            forall|k: int| 0 <= k < monkeys.len() ==> (#[trigger] monkeys[k]).test.div > 0,
            forall|k: int| 0 <= k < old(items).len() ==> item_id < (#[trigger] old(items)[k]).len(),
        ensures
            done <==> updated(views_of(old(items)@), rules_of(monkeys@), item_id, op, relief) is Some,
            done ==> Some(views_of(final(items)@)) == updated(
                views_of(old(items)@),
                rules_of(monkeys@),
                item_id,
                op,
                relief,
            ),
    {
        let ghost before = views_of(items@);
        let ghost rules = rules_of(monkeys@);
        let mut k: usize = 0;
        while k < items.len()
            invariant
                k <= items.len(),
                items.len() == monkeys.len(),
                relief > 0,
                before == views_of(old(items)@),
                rules == rules_of(monkeys@),
                before.len() == items.len(),
                forall|j: int| 0 <= j < monkeys.len() ==> (#[trigger] monkeys[j]).test.div > 0,
                forall|j: int| 0 <= j < before.len() ==> item_id < (#[trigger] before[j]).len(),
                forall|j: int| 0 <= j < k ==> op.checked(#[trigger] before[j][item_id as int]) is Some,
                forall|j: int|
                    0 <= j < k ==> (#[trigger] items[j])@ == before[j].update(
                        item_id as int,
                        relieved(
                            op.value(before[j][item_id as int] as int),
                            relief,
                            rules[j].1.div,
                        ) as usize,
                    ),
                forall|j: int| k <= j < items.len() ==> (#[trigger] items[j])@ == before[j],
            decreases items.len() - k,
        {
            let ghost now = items@;
            let mut row: Vec<usize> = Vec::new();
            std::mem::swap(&mut row, &mut items[k]);
            assert(row@ == before[k as int]);
            let v = match op.eval(row[item_id]) {
                Some(v) => v,
                None => {
                    return false;
                },
            };
            if relief > 1 {
                row[item_id] = v / relief;
            } else {
                row[item_id] = v % monkeys[k].test.div;
            }
            std::mem::swap(&mut row, &mut items[k]);
            proof {
                assert forall|j: int| 0 <= j < k implies (#[trigger] items[j])@ == before[j].update(
                    item_id as int,
                    relieved(
                        op.value(before[j][item_id as int] as int),
                        relief,
                        rules[j].1.div,
                    ) as usize,
                ) by {
                    assert(items[j] == now[j]);
                }
                assert forall|j: int| k < j < items.len() implies (#[trigger] items[j])@
                    == before[j] by {
                    assert(items[j] == now[j]);
                }
            }
            k += 1;
        }
        proof {
            assert(views_of(items@) =~= updated(before, rules, item_id, op, relief).unwrap());
        }
        true
    }
}

impl Troop {
    /// The turn of the monkey `m`. Returns `false` where a worry level or
    /// a count grows beyond a `usize`.
    pub fn take_turn(&mut self, m: usize, relief: usize) -> (done: bool)
        requires
            old(self).wf(),
            m < old(self).monkeys.len(),
            relief > 0,
        ensures
            done <==> turn(old(self)@, old(self).rules(), m as int, relief) is Some,
            done ==> final(self).rules() == old(self).rules(),
            done ==> final(self).count() == old(self).count(),
            done ==> final(self).wf() && Some(final(self)@) == turn(
                old(self)@,
                old(self).rules(),
                m as int,
                relief,
            ),
    {
        let ghost g0 = self@;
        let ghost rules = self.rules();
        let ghost count = self.count();
        let ghost op = self.monkeys[m as int].operation;
        let ghost before = self.monkeys@;
        assert(g0.views[m as int] == self.items[m as int]@);
        assert(forall|k: int|
            0 <= k < g0.held[m as int].len() ==> (#[trigger] g0.held[m as int][k]) < count);
        assert(rules[m as int].1.div > 0);
        let played = self.monkeys[m].play(relief, &self.items);
        let throws = match played {
            Some(v) => v,
            None => {
                assert(self.rules() =~= rules);
                return false;
            },
        };
        let ghost t = throws_of(rules[m as int].0, rules[m as int].1, g0.held[m as int], g0.views[m as int], relief).unwrap();
        let ghost g1 = Game {
            held: g0.held.update(m as int, Seq::empty()),
            seen: g0.seen.update(m as int, (g0.seen[m as int] + t.len()) as usize),
            views: g0.views,
        };
        proof {
            assert forall|k: int| 0 <= k < before.len() && k != m implies self.monkeys[k]
                == before[k] by {}
            assert(self.rules() =~= rules);
            assert(self@.held =~= g1.held);
            assert(self@.seen =~= g1.seen);
            assert(self@.views =~= g1.views);
            assert forall|k: int| 0 <= k < t.len() implies (#[trigger] t[k])[0] < rules.len()
                && t[k][1] < count by {
                assert(g0.held[m as int][g0.held[m as int].len() - 1 - k] < count);
            }
        }
        let mut k: usize = 0;
        while k < throws.len()
            invariant
                k <= throws.len(),
                relief > 0,
                throws.len() == t.len(),
                m < rules.len(),
                g0 == old(self)@,
                rules == old(self).rules(),
                op == rules[m as int].0,
                forall|j: int| 0 <= j < throws.len() ==> (#[trigger] throws[j]) == (t[j], op),
                forall|j: int|
                    0 <= j < t.len() ==> (#[trigger] t[j])[0] < rules.len() && t[j][1] < count,
                self.rules() == rules,
                self.count() == count,
                self.wf(),
                Some(self@) == delivered(g1, rules, t, op, relief, k as int),
                turn(g0, rules, m as int, relief) == delivered(
                    g1,
                    rules,
                    t,
                    op,
                    relief,
                    t.len() as int,
                ),
            decreases throws.len() - k,
        {
            let throw = throws[k];
            let dest = throw.0[0];
            let id = throw.0[1];
            let op_now = throw.1;
            assert(throw == (t[k as int], op));
            let ghost h = self@;
            let ghost held_before = self.monkeys@;
            self.monkeys[dest].catch(id);
            proof {
                assert forall|j: int| 0 <= j < held_before.len() && j != dest implies self.monkeys[j]
                    == held_before[j] by {}
                assert(self.rules() =~= rules);
                assert(rules_of(self.monkeys@) =~= rules);
                assert(views_of(self.items@) =~= h.views);
                assert forall|j: int| 0 <= j < self.items.len() implies id < (
                #[trigger] self.items[j]).len() by {
                    assert(h.views[j].len() == count);
                }
                assert forall|j: int| 0 <= j < self.monkeys.len() implies (
                #[trigger] self.monkeys[j]).test.div > 0 by {
                    assert(rules[j].1.div > 0);
                }
            }
            if !Troop::update_item(&mut self.items, &self.monkeys, id, op_now, relief) {
                proof {
                    assert(delivered(g1, rules, t, op, relief, k + 1) is None);
                    lemma_delivered_none(g1, rules, t, op, relief, k + 1, t.len() as int);
                }
                return false;
            }
            proof {
                let next = delivered(g1, rules, t, op, relief, k + 1).unwrap();
                assert(self@.views =~= views_of(self.items@));
                assert(self@.held =~= next.held);
                assert(self@.seen =~= next.seen);
                assert(self@.views =~= next.views);
                assert(self@ == next);
                assert(self.items.len() > 0);
                assert(h.views[0].len() == count);
                assert(self@.views[0] == self.items[0]@);
                assert(next.views[0].len() == count);
                assert forall|j: int| 0 <= j < self.monkeys.len() implies (
                #[trigger] self.monkeys[j]).id == j by {
                    assert(held_before[j].id == j);
                }
                assert(game_ok(self@, rules, count)) by {
                    assert forall|a: int| 0 <= a < rules.len() implies (#[trigger] self@.views[a]).len()
                        == count by {
                        assert(h.views[a].len() == count);
                    }
                    assert forall|a: int, i: int|
                        0 <= a < rules.len() && 0 <= i < self@.held[a].len() implies (
                    #[trigger] self@.held[a][i]) < count by {
                        if a == dest && i == h.held[a].len() {
                        } else {
                            assert(h.held[a][i] < count);
                        }
                    }
                }
            }
            k += 1;
        }
        true
    }

    /// A round: the turn of each monkey, in order.
    pub fn play_round(&mut self, relief: usize) -> (done: bool)
        requires
            old(self).wf(),
            relief > 0,
        ensures
            done <==> turns(old(self)@, old(self).rules(), old(self).monkeys.len() as int, relief)
                is Some,
            done ==> final(self).rules() == old(self).rules(),
            done ==> final(self).count() == old(self).count(),
            done ==> final(self).wf() && Some(final(self)@) == turns(
                old(self)@,
                old(self).rules(),
                old(self).monkeys.len() as int,
                relief,
            ),
    {
        let ghost g0 = self@;
        let ghost rules = self.rules();
        let n = self.monkeys.len();
        let mut m: usize = 0;
        while m < n
            invariant
                m <= n,
                n == rules.len(),
                n == old(self).monkeys.len(),
                g0 == old(self)@,
                rules == old(self).rules(),
                relief > 0,
                self.wf(),
                self.rules() == rules,
                self.count() == old(self).count(),
                Some(self@) == turns(g0, rules, m as int, relief),
            decreases n - m,
        {
            if !self.take_turn(m, relief) {
                proof {
                    assert(turns(g0, rules, m + 1, relief) is None);
                    lemma_turns_none(g0, rules, relief, m + 1, n as int);
                }
                return false;
            }
            m += 1;
        }
        true
    }

    /// Plays the rounds and gives the product of the two greatest counts
    /// of inspections. The monkeys keep their places.
    pub fn play(&mut self, rounds: usize, relief: usize) -> (r: Result<String, PuzzleError>)
        requires
            old(self).wf(),
            relief > 0,
        ensures
            match self::rounds(old(self)@, old(self).rules(), rounds as int, relief) {
                Some(g) => final(self)@ == g && match business(g) {
                    Ok(t) => r is Ok && r.unwrap()@ == t,
                    Err(e) => r == Err::<String, PuzzleError>(e),
                },
                None => r == Err::<String, PuzzleError>(PuzzleError::Overflow),
            },
    {
        let ghost g0 = self@;
        let ghost rules = self.rules();
        let mut round: usize = 0;
        while round < rounds
            invariant
                round <= rounds,
                relief > 0,
                g0 == old(self)@,
                rules == old(self).rules(),
                self.wf(),
                self.rules() == rules,
                Some(self@) == self::rounds(g0, rules, round as int, relief),
            decreases rounds - round,
        {
            if !self.play_round(relief) {
                proof {
                    assert(self::rounds(g0, rules, round + 1, relief) is None);
                    lemma_rounds_none(g0, rules, relief, round + 1, rounds as int);
                }
                return Err(PuzzleError::Overflow);
            }
            round += 1;
        }
        let mut a: usize = 0;
        let mut b: usize = 0;
        let mut k: usize = 0;
        while k < self.monkeys.len()
            invariant
                k <= self.monkeys.len(),
                self@.seen.len() == self.monkeys.len(),
                (a, b) == top_two(self@.seen, k as int),
            decreases self.monkeys.len() - k,
        {
            let v = self.monkeys[k].inspect_count;
            assert(v == self@.seen[k as int]);
            if v > a {
                b = a;
                a = v;
            } else if v > b {
                b = v;
            }
            k += 1;
        }
        match a.checked_mul(b) {
            Some(p) => Ok(decimal_string(p as u128)),
            None => Err(PuzzleError::Overflow),
        }
    }
}

proof fn lemma_rounds_none(g: Game, rules: Rules, relief: usize, k: int, n: int)
    requires
        0 <= k <= n,
        rounds(g, rules, k, relief) is None,
    ensures
        rounds(g, rules, n, relief) is None,
    decreases n,
{
    if k < n {
        lemma_rounds_none(g, rules, relief, k, n - 1);
    }
}

// ----- reading -----
/// The pattern of the line `n` of the text of a monkey.
pub open spec fn line_pattern(n: int) -> Seq<char> {
    if n == 0 {
        "Monkey (?P<id>\\d+):"@
    } else if n == 1 {
        "  Starting items: (?P<items>.*)"@
    } else if n == 2 {
        "  Operation: new = old (?P<op>[+*]) (?P<value>old|\\d+)"@
    } else if n == 3 {
        "  Test: divisible by (?P<div>\\d+)"@
    } else if n == 4 {
        "    If true: throw to monkey (?P<when_true>\\d+)"@
    } else {
        "    If false: throw to monkey (?P<when_false>\\d+)"@
    }
}

fn pattern_of(n: usize) -> (p: &'static str)
    ensures
        p@ == line_pattern(n as int),
{
    if n == 0 {
        "Monkey (?P<id>\\d+):"
    } else if n == 1 {
        "  Starting items: (?P<items>.*)"
    } else if n == 2 {
        "  Operation: new = old (?P<op>[+*]) (?P<value>old|\\d+)"
    } else if n == 3 {
        "  Test: divisible by (?P<div>\\d+)"
    } else if n == 4 {
        "    If true: throw to monkey (?P<when_true>\\d+)"
    } else {
        "    If false: throw to monkey (?P<when_false>\\d+)"
    }
}

/// The bytes that the group `g` of the pattern of the line `n` has
/// captured in the line, where the pattern matches and the group took part.
pub open spec fn field(n: int, line: Seq<u8>, g: int) -> Option<Seq<u8>> {
    if !vstd::utf8::valid_utf8(line) {
        None
    } else {
        match first_captures(line_pattern(n), text_of(line)) {
            Some(Some(caps)) => if 0 <= g < caps.len() {
                match caps[g] {
                    Some(span) => if span.0 <= span.1 <= line.len() {
                        Some(line.subrange(span.0 as int, span.1 as int))
                    } else {
                        None
                    },
                    None => None,
                }
            } else {
                None
            },
            _ => None,
        }
    }
}

fn read_field(n: usize, line: &[u8], g: usize) -> (r: Option<Vec<u8>>)
    ensures
        match r {
            Some(v) => field(n as int, line@, g as int) == Some(v@),
            None => field(n as int, line@, g as int) is None,
        },
{
    let text = match string_of(line) {
        Some(t) => t,
        None => {
            return None;
        },
    };
    let caps = match captures(pattern_of(n), text.as_str()) {
        Some(Some(c)) => c,
        _ => {
            return None;
        },
    };
    if g >= caps.len() {
        return None;
    }
    match caps[g] {
        Some((a, b)) => Some(copy_bytes(slice_subrange(line, a, b))),
        None => None,
    }
}

/// The number that the bytes write, where they write one that fits.
pub open spec fn number(f: Option<Seq<u8>>) -> Option<usize> {
    match f {
        Some(b) => match unsigned_value(b) {
            Some(v) => if v <= usize::MAX {
                Some(v as usize)
            } else {
                None
            },
            None => None,
        },
        None => None,
    }
}

fn read_number(n: usize, line: &[u8]) -> (r: Option<usize>)
    ensures
        r == number(field(n as int, line@, 1)),
{
    match read_field(n, line, 1) {
        Some(f) => parse_usize(f.as_slice()),
        None => None,
    }
}

pub const COMMA_SPACE: [u8; 2] = [44, 32];

pub const OLD: [u8; 3] = [111, 108, 100];

/// The worry levels that a list writes: numbers with a comma and a space
/// between them.
pub open spec fn worries(f: Option<Seq<u8>>) -> Option<Seq<usize>> {
    match f {
        Some(b) => {
            let parts = split_on(b, COMMA_SPACE@);
            if forall|i: int| 0 <= i < parts.len() ==> number(Some(#[trigger] parts[i])) is Some {
                Some(Seq::new(parts.len(), |i: int| number(Some(parts[i])).unwrap()))
            } else {
                None
            }
        },
        None => None,
    }
}

/// The operation that the line of the operation writes.
pub open spec fn operation_of(line: Seq<u8>) -> Option<Operation> {
    match (field(2, line, 1), field(2, line, 2)) {
        (Some(op), Some(value)) => {
            let operand = if value == OLD@ {
                Some(None::<usize>)
            } else {
                match number(Some(value)) {
                    Some(v) => Some(Some(v)),
                    None => None,
                }
            };
            match operand {
                Some(v) => if op == seq![43u8] {
                    Some(Operation::Add(v))
                } else if op == seq![42u8] {
                    Some(Operation::Mul(v))
                } else {
                    None
                },
                None => None,
            }
        },
        _ => None,
    }
}

fn read_operation(line: &[u8]) -> (r: Option<Operation>)
    ensures
        r == operation_of(line@),
{
    let op = match read_field(2, line, 1) {
        Some(f) => f,
        None => {
            return None;
        },
    };
    let value = match read_field(2, line, 2) {
        Some(f) => f,
        None => {
            return None;
        },
    };
    let operand = if same_bytes(value.as_slice(), &OLD) {
        None
    } else {
        match parse_usize(value.as_slice()) {
            Some(v) => Some(v),
            None => {
                return None;
            },
        }
    };
    if op.len() == 1 && op[0] == 43 {
        assert(op@ =~= seq![43u8]);
        Some(Operation::Add(operand))
    } else if op.len() == 1 && op[0] == 42 {
        assert(op@ =~= seq![42u8]);
        Some(Operation::Mul(operand))
    } else {
        assert(op@ != seq![43u8] && op@ != seq![42u8]) by {
            if op@.len() == 1 {
                assert(seq![43u8][0] == 43u8);
                assert(seq![42u8][0] == 42u8);
            } else {
                assert(seq![43u8].len() == 1);
                assert(seq![42u8].len() == 1);
            }
        }
        None
    }
}

fn read_worries(line: &[u8]) -> (r: Option<Vec<usize>>)
    ensures
        match r {
            Some(v) => worries(field(1, line@, 1)) == Some(v@),
            None => worries(field(1, line@, 1)) is None,
        },
{
    let f = match read_field(1, line, 1) {
        Some(f) => f,
        None => {
            return None;
        },
    };
    let parts = split_at_word(f.as_slice(), &COMMA_SPACE);
    let ghost ps = split_on(f@, COMMA_SPACE@);
    let mut out: Vec<usize> = Vec::new();
    let mut i: usize = 0;
    while i < parts.len()
        invariant
            i <= parts.len(),
            rows_view(parts@) == ps,
            ps == split_on(f@, COMMA_SPACE@),
            field(1, line@, 1) == Some(f@),
            out.len() == i,
            forall|k: int| 0 <= k < i ==> number(Some(#[trigger] ps[k])) == Some(out[k]),
        decreases parts.len() - i,
    {
        assert(parts[i as int]@ == ps[i as int]);
        match parse_usize(parts[i].as_slice()) {
            Some(v) => {
                out.push(v);
            },
            None => {
                assert(number(Some(ps[i as int])) is None);
                return None;
            },
        }
        i += 1;
    }
    proof {
        assert(ps.len() == parts.len());
        assert(out@ =~= worries(field(1, line@, 1)).unwrap());
    }
    Some(out)
}

/// The line `n` of the text of a monkey is written well.
pub open spec fn line_ok(n: int, line: Seq<u8>) -> bool {
    &&& line.len() > 0
    &&& if n == 0 {
        match number(field(0, line, 1)) {
            Some(v) => v <= u8::MAX,
            None => false,
        }
    } else if n == 1 {
        worries(field(1, line, 1)) is Some
    } else if n == 2 {
        operation_of(line) is Some
    } else {
        number(field(n, line, 1)) is Some
    }
}

/// The number of lines that are read: six at most.
pub open spec fn read_count(ls: Seq<Seq<u8>>) -> int {
    if ls.len() > 6 {
        6
    } else {
        ls.len() as int
    }
}

/// The text of a monkey is written well: it is not empty, each of its
/// first six lines is written well, and a seventh line is empty.
pub open spec fn block_ok(s: Seq<u8>) -> bool {
    let ls = lines(s);
    &&& s.len() > 0
    &&& (ls.len() > 6 ==> ls[6].len() == 0)
    &&& forall|n: int| 0 <= n < read_count(ls) ==> line_ok(n, #[trigger] ls[n])
}

pub open spec fn id_of(ls: Seq<Seq<u8>>) -> u8 {
    if ls.len() > 0 {
        number(field(0, ls[0], 1)).unwrap() as u8
    } else {
        0
    }
}

pub open spec fn worries_of(ls: Seq<Seq<u8>>) -> Seq<usize> {
    if ls.len() > 1 {
        worries(field(1, ls[1], 1)).unwrap()
    } else {
        Seq::empty()
    }
}

pub open spec fn op_of(ls: Seq<Seq<u8>>) -> Operation {
    if ls.len() > 2 {
        operation_of(ls[2]).unwrap()
    } else {
        Operation::Add(None)
    }
}

/// The number of the line `n`, and 0 where the text has no such line.
pub open spec fn number_of(ls: Seq<Seq<u8>>, n: int) -> usize {
    if ls.len() > n {
        number(field(n, ls[n], 1)).unwrap()
    } else {
        0
    }
}

pub open spec fn tester_of(ls: Seq<Seq<u8>>) -> Tester {
    Tester { div: number_of(ls, 3), when_true: number_of(ls, 4), when_false: number_of(ls, 5) }
}

/// `m` is the monkey that the lines write, where `base` items came before its own.
pub open spec fn is_monkey(ls: Seq<Seq<u8>>, base: int, m: Monkey) -> bool {
    &&& m.id == id_of(ls)
    &&& m.item_ids@ == Seq::new(worries_of(ls).len(), |i: int| (base + i) as usize)
    &&& m.operation == op_of(ls)
    &&& m.test == tester_of(ls)
    &&& m.inspect_count == 0
}

impl Monkey {
    /// Reads a monkey and adds the worry levels of its items to `items`.
    pub fn build(s: &[u8], items: &mut Vec<usize>) -> (r: Result<Monkey, ParseError>)
        ensures
            r is Ok <==> block_ok(s@),
            match r {
                Ok(m) => is_monkey(lines(s@), old(items).len() as int, m) && final(items)@ == old(
                    items,
                )@ + worries_of(lines(s@)),
                Err(e) => e == ParseError::Malformed && final(items)@ == old(items)@,
            },
    {
        if s.len() == 0 {
            return Err(ParseError::Malformed);
        }
        let rows = split_lines(s);
        let ghost ls = lines(s@);
        assert(rows_view(rows@) == ls);
        if rows.len() > 6 && rows[6].len() != 0 {
            assert(rows[6]@ == ls[6]);
            return Err(ParseError::Malformed);
        }
        let count = if rows.len() > 6 {
            6
        } else {
            rows.len()
        };
        let mut n: usize = 0;
        while n < count
            invariant
                n <= count,
                count == read_count(ls),
                rows_view(rows@) == ls,
                ls == lines(s@),
                forall|k: int| 0 <= k < n ==> (#[trigger] ls[k]).len() > 0,
                *items == *old(items),
            decreases count - n,
        {
            assert(rows[n as int]@ == ls[n as int]);
            if rows[n].len() == 0 {
                assert(!line_ok(n as int, ls[n as int]));
                return Err(ParseError::Malformed);
            }
            n += 1;
        }
        let mut id: u8 = 0;
        let mut worry: Vec<usize> = Vec::new();
        let mut operation = Operation::Add(None);
        let mut test = Tester { div: 0, when_true: 0, when_false: 0 };
        if count > 0 {
            assert(rows[0]@ == ls[0]);
            match read_number(0, rows[0].as_slice()) {
                Some(v) => {
                    if v > 255 {
                        assert(!line_ok(0, ls[0]));
                        return Err(ParseError::Malformed);
                    }
                    id = v as u8;
                },
                None => {
                    assert(!line_ok(0, ls[0]));
                    return Err(ParseError::Malformed);
                },
            }
        }
        if count > 1 {
            assert(rows[1]@ == ls[1]);
            match read_worries(rows[1].as_slice()) {
                Some(v) => {
                    worry = v;
                },
                None => {
                    assert(!line_ok(1, ls[1]));
                    return Err(ParseError::Malformed);
                },
            }
        }
        if count > 2 {
            assert(rows[2]@ == ls[2]);
            match read_operation(rows[2].as_slice()) {
                Some(v) => {
                    operation = v;
                },
                None => {
                    assert(!line_ok(2, ls[2]));
                    return Err(ParseError::Malformed);
                },
            }
        }
        if count > 3 {
            assert(rows[3]@ == ls[3]);
            match read_number(3, rows[3].as_slice()) {
                Some(v) => {
                    test.div = v;
                },
                None => {
                    assert(!line_ok(3, ls[3]));
                    return Err(ParseError::Malformed);
                },
            }
        }
        if count > 4 {
            assert(rows[4]@ == ls[4]);
            match read_number(4, rows[4].as_slice()) {
                Some(v) => {
                    test.when_true = v;
                },
                None => {
                    assert(!line_ok(4, ls[4]));
                    return Err(ParseError::Malformed);
                },
            }
        }
        if count > 5 {
            assert(rows[5]@ == ls[5]);
            match read_number(5, rows[5].as_slice()) {
                Some(v) => {
                    test.when_false = v;
                },
                None => {
                    assert(!line_ok(5, ls[5]));
                    return Err(ParseError::Malformed);
                },
            }
        }
        assert(block_ok(s@));
        assert(worry@ == worries_of(ls));
        let mut item_ids: Vec<usize> = Vec::new();
        let mut i: usize = 0;
        while i < worry.len()
            invariant
                i <= worry.len(),
                item_ids.len() == i,
                items@ == old(items)@ + worry@.take(i as int),
                forall|k: int| 0 <= k < i ==> (#[trigger] item_ids[k]) == old(items).len() + k,
            decreases worry.len() - i,
        {
            item_ids.push(items.len());
            items.push(worry[i]);
            proof {
                assert(worry@.take(i + 1) =~= worry@.take(i as int).push(worry[i as int]));
                assert(items@ =~= old(items)@ + worry@.take(i + 1));
            }
            i += 1;
        }
        proof {
            assert(worry@.take(i as int) =~= worry@);
            assert(item_ids@ =~= Seq::new(
                worries_of(ls).len(),
                |i: int| (old(items).len() as int + i) as usize,
            ));
        }
        Ok(Monkey { id, item_ids, operation, test, inspect_count: 0 })
    }
}

pub const BLANK_LINE: [u8; 2] = [10, 10];

/// The texts of the monkeys: what stands between blank lines.
pub open spec fn blocks_of(s: Seq<u8>) -> Seq<Seq<u8>> {
    split_on(s, BLANK_LINE@)
}

/// The worry levels of the items of the first `n` monkeys.
pub open spec fn worries_to(bs: Seq<Seq<u8>>, n: int) -> Seq<usize>
    decreases n,
{
    if n <= 0 || n > bs.len() {
        Seq::empty()
    } else {
        worries_to(bs, n - 1) + worries_of(lines(bs[n - 1]))
    }
}

/// The monkey of the block `i` stands at its place, divides by more than
/// nothing and throws to monkeys that are there.
pub open spec fn rule_ok(bs: Seq<Seq<u8>>, i: int) -> bool {
    let ls = lines(bs[i]);
    &&& id_of(ls) == i
    &&& tester_of(ls).div > 0
    &&& tester_of(ls).when_true < bs.len()
    &&& tester_of(ls).when_false < bs.len()
}

/// The text writes a troop: each monkey is written well and in order.
pub open spec fn troop_ok(s: Seq<u8>) -> bool {
    let bs = blocks_of(s);
    &&& forall|i: int| 0 <= i < bs.len() ==> block_ok(#[trigger] bs[i])
    &&& forall|i: int| 0 <= i < bs.len() ==> #[trigger] rule_ok(bs, i)
}

/// `t` is the troop that the text writes: its monkeys in order, and for
/// each monkey a view of the worry levels of all items.
pub open spec fn is_troop(s: Seq<u8>, t: Troop) -> bool {
    let bs = blocks_of(s);
    &&& t.monkeys.len() == bs.len()
    &&& t.items.len() == bs.len()
    &&& forall|i: int|
        0 <= i < bs.len() ==> is_monkey(
            lines(bs[i]),
            worries_to(bs, i).len() as int,
            #[trigger] t.monkeys[i],
        )
    &&& forall|i: int| 0 <= i < bs.len() ==> (#[trigger] t.items[i])@ == worries_to(bs, bs.len() as int)
}

fn copy_worries(v: &Vec<usize>) -> (r: Vec<usize>)
    ensures
        r@ == v@,
{
    let mut r: Vec<usize> = Vec::new();
    let mut i: usize = 0;
    while i < v.len()
        invariant
            i <= v.len(),
            r@ == v@.take(i as int),
        decreases v.len() - i,
    {
        r.push(v[i]);
        assert(v@.take(i + 1) =~= v@.take(i as int).push(v[i as int]));
        i += 1;
    }
    assert(v@.take(i as int) =~= v@);
    r
}

impl Troop {
    /// Reads a troop.
    pub fn from_bytes(s: &[u8]) -> (r: Result<Troop, ParseError>)
        ensures
            r is Ok <==> troop_ok(s@),
            match r {
                Ok(t) => is_troop(s@, t) && t.wf(),
                Err(e) => e == ParseError::Malformed,
            },
    {
        let blocks = split_at_word(s, &BLANK_LINE);
        let ghost bs = blocks_of(s@);
        let n = blocks.len();
        let mut monkeys: Vec<Monkey> = Vec::new();
        let mut item_list: Vec<usize> = Vec::new();
        let mut i: usize = 0;
        while i < n
            invariant
                i <= n,
                n == blocks.len(),
                rows_view(blocks@) == bs,
                bs == blocks_of(s@),
                monkeys.len() == i,
                item_list@ == worries_to(bs, i as int),
                forall|k: int| 0 <= k < i ==> block_ok(#[trigger] bs[k]),
                forall|k: int|
                    0 <= k < i ==> is_monkey(
                        lines(bs[k]),
                        worries_to(bs, k).len() as int,
                        #[trigger] monkeys[k],
                    ),
                forall|k: int, j: int|
                    0 <= k < i && 0 <= j < monkeys[k].item_ids.len() ==> (
                    #[trigger] monkeys[k].item_ids[j]) < item_list.len(),
            decreases n - i,
        {
            assert(blocks[i as int]@ == bs[i as int]);
            let ghost before = monkeys@;
            match Monkey::build(blocks[i].as_slice(), &mut item_list) {
                Ok(m) => {
                    monkeys.push(m);
                },
                Err(e) => {
                    return Err(e);
                },
            }
            proof {
                assert forall|k: int, j: int|
                    0 <= k < i + 1 && 0 <= j < monkeys[k].item_ids.len() implies (
                #[trigger] monkeys[k].item_ids[j]) < item_list.len() by {
                    if k < i {
                        assert(monkeys[k] == before[k]);
                        assert(before[k].item_ids[j] < worries_to(bs, i as int).len());
                    }
                }
            }
            i += 1;
        }
        let mut k: usize = 0;
        while k < n
            invariant
                k <= n,
                n == monkeys.len(),
                n == bs.len(),
                forall|j: int|
                    0 <= j < n ==> is_monkey(
                        lines(bs[j]),
                        worries_to(bs, j).len() as int,
                        #[trigger] monkeys[j],
                    ),
                forall|j: int| 0 <= j < k ==> #[trigger] rule_ok(bs, j),
                bs == blocks_of(s@),
                forall|j: int| 0 <= j < n ==> block_ok(#[trigger] bs[j]),
            decreases n - k,
        {
            let m = &monkeys[k];
            if m.id as usize != k || m.test.div == 0 || m.test.when_true >= n || m.test.when_false
                >= n {
                assert(!rule_ok(bs, k as int));
                return Err(ParseError::Malformed);
            }
            k += 1;
        }
        let mut items: Vec<Vec<usize>> = Vec::new();
        let mut k: usize = 0;
        while k < n
            invariant
                k <= n,
                items.len() == k,
                forall|j: int| 0 <= j < k ==> (#[trigger] items[j])@ == item_list@,
            decreases n - k,
        {
            items.push(copy_worries(&item_list));
            k += 1;
        }
        let t = Troop { monkeys, items };
        proof {
            assert(troop_ok(s@));
            assert(is_troop(s@, t));
            assert forall|j: int| 0 <= j < t.monkeys.len() implies (#[trigger] t.monkeys[j]).id
                == j by {
                assert(rule_ok(bs, j));
            }
            let rules = t.rules();
            assert forall|j: int| 0 <= j < rules.len() implies {
                &&& (#[trigger] rules[j]).1.div > 0
                &&& rules[j].1.when_true < rules.len()
                &&& rules[j].1.when_false < rules.len()
            } by {
                assert(rule_ok(bs, j));
                assert(t.monkeys[j].test == tester_of(lines(bs[j])));
            }
            if n > 0 {
                assert(t.items[0]@ == item_list@);
            }
            assert forall|a: int| 0 <= a < rules.len() implies (#[trigger] t@.views[a]).len()
                == t.count() by {
                assert(t.items[a]@ == item_list@);
            }
            assert forall|a: int, j: int|
                0 <= a < rules.len() && 0 <= j < t@.held[a].len() implies (
            #[trigger] t@.held[a][j]) < t.count() by {
                assert(t.monkeys[a].item_ids[j] < item_list.len());
            }
        }
        Ok(t)
    }
}

/// The rounds and the relief of each part.
pub const ROUNDS_ONE: usize = 20;

pub const RELIEF_ONE: usize = 3;

pub const ROUNDS_TWO: usize = 10000;

pub const RELIEF_TWO: usize = 1;

/// `r` is the answer of a part: the product of the two greatest counts of
/// inspections after its rounds, or the error that stopped it.
pub open spec fn is_answer(input: Option<String>, part: int, r: Result<String, PuzzleError>) -> bool {
    match input {
        None => r == Err::<String, PuzzleError>(PuzzleError::MissingInput),
        Some(text) => {
            let s = bytes_of(text@);
            if !troop_ok(s) {
                r == Err::<String, PuzzleError>(PuzzleError::Parse(ParseError::Malformed))
            } else {
                exists|t: Troop|
                    is_troop(s, t) && t.wf() && #[trigger] is_outcome(
                        t@,
                        t.rules(),
                        part,
                        r,
                    )
            }
        },
    }
}

/// `r` is what the part gives for a game that starts at `g`.
pub open spec fn is_outcome(g: Game, rules: Rules, part: int, r: Result<String, PuzzleError>) -> bool {
    let played = if part == 1 {
        rounds(g, rules, ROUNDS_ONE as int, RELIEF_ONE)
    } else {
        rounds(g, rules, ROUNDS_TWO as int, RELIEF_TWO)
    };
    match played {
        Some(h) => match business(h) {
            Ok(t) => r is Ok && r.unwrap()@ == t,
            Err(e) => r == Err::<String, PuzzleError>(e),
        },
        None => r == Err::<String, PuzzleError>(PuzzleError::Overflow),
    }
}

fn run_part(input: Option<String>, part: u8) -> (r: Result<String, PuzzleError>)
    requires
        part == 1 || part == 2,
    ensures
        is_answer(input, part as int, r),
{
    let text = match input {
        Some(t) => t,
        None => {
            return Err(PuzzleError::MissingInput);
        },
    };
    let mut troop = match Troop::from_bytes(text.as_str().as_bytes()) {
        Ok(t) => t,
        Err(e) => {
            return Err(PuzzleError::Parse(e));
        },
    };
    let ghost start = troop;
    let r = if part == 1 {
        troop.play(ROUNDS_ONE, RELIEF_ONE)
    } else {
        troop.play(ROUNDS_TWO, RELIEF_TWO)
    };
    proof {
        assert(is_outcome(start@, start.rules(), part as int, r));
    }
    r
}

pub struct Day11;

impl AdventOfCode for Day11 {
    fn day(&self) -> (d: u8)
        ensures
            d == 11,
    {
        11
    }

    fn run1(&mut self, input: Option<String>) -> (r: Result<String, PuzzleError>)
        ensures
            is_answer(input, 1, r),
    {
        run_part(input, 1)
    }

    fn run2(&mut self, input: Option<String>) -> (r: Result<String, PuzzleError>)
        ensures
            is_answer(input, 2, r),
    {
        run_part(input, 2)
    }
}

} // verus!
