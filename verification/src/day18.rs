//! Snailfish numbers: pairs of pairs that explode and split until they are reduced.

use crate::errors::{ParseError, PuzzleError};
use crate::text::{
    bytes_of, decimal, decimal_string, lines, nonempty_lines, nonempty_rows, parse_usize, rows_view,
    unsigned_value,
};
use vstd::prelude::*;
use vstd::slice::slice_subrange;
use vstd::string::*;

verus! {

/// A snailfish number: a regular number, or a pair of snailfish numbers.
#[derive(Debug)]
pub enum SnailNumber {
    Single(usize),
    Array(Box<SnailNumber>, Box<SnailNumber>),
}

/// A snailfish number whose regular numbers may be of any size.
pub ghost enum Tree {
    Leaf(int),
    Node(Box<Tree>, Box<Tree>),
}

impl SnailNumber {
    /// The number as a tree.
    pub open spec fn tree(&self) -> Tree
        decreases self,
    {
        match self {
            SnailNumber::Single(v) => Tree::Leaf(*v as int),
            SnailNumber::Array(l, r) => Tree::Node(Box::new(l.tree()), Box::new(r.tree())),
        }
    }
}

/// Every regular number of the tree is one that a `usize` holds.
pub open spec fn fits(t: Tree) -> bool
    decreases t,
{
    match t {
        Tree::Leaf(v) => 0 <= v <= usize::MAX,
        Tree::Node(l, r) => fits(*l) && fits(*r),
    }
}

/// The tree with `v` added to its first regular number.
pub open spec fn add_first(t: Tree, v: int) -> Tree
    decreases t,
{
    match t {
        Tree::Leaf(a) => Tree::Leaf(a + v),
        Tree::Node(l, r) => Tree::Node(Box::new(add_first(*l, v)), r),
    }
}

/// The tree with `v` added to its last regular number.
pub open spec fn add_last(t: Tree, v: int) -> Tree
    decreases t,
{
    match t {
        Tree::Leaf(a) => Tree::Leaf(a + v),
        Tree::Node(l, r) => Tree::Node(l, Box::new(add_last(*r, v))),
    }
}

/// The regular number that a side of an exploding pair gives away:
/// nothing where the side is a pair itself.
pub open spec fn given(t: Tree) -> int {
    match t {
        Tree::Leaf(v) => v,
        Tree::Node(_, _) => 0,
    }
}

/// The depth at which a pair explodes: inside four pairs.
pub const DEPTH: usize = 4;

/// Explodes the first pair of the tree that lies inside four pairs, where
/// the tree itself lies inside `level` pairs: the tree after it, and what
/// is still to be added to the regular number before the tree and to the
/// one after it. `None` where no pair lies that deep.
pub open spec fn blast(t: Tree, level: int) -> Option<(Tree, int, int)>
    decreases t,
{
    match t {
        Tree::Leaf(_) => None,
        Tree::Node(l, r) => if level == DEPTH {
            Some((Tree::Leaf(0), given(*l), given(*r)))
        } else {
            match blast(*l, level + 1) {
                Some((l2, a, b)) => Some((Tree::Node(Box::new(l2), Box::new(add_first(*r, b))), a, 0)),
                None => match blast(*r, level + 1) {
                    Some((r2, a, b)) => Some(
                        (Tree::Node(Box::new(add_last(*l, a)), Box::new(r2)), 0, b),
                    ),
                    None => None,
                },
            }
        },
    }
}

/// Splits the first regular number of the tree that is greater than 9
/// into a pair of its halves, the greater half last. `None` where there
/// is no such number.
pub open spec fn cleft(t: Tree) -> Option<Tree>
    decreases t,
{
    match t {
        Tree::Leaf(a) => if a > 9 {
            Some(Tree::Node(Box::new(Tree::Leaf(a / 2)), Box::new(Tree::Leaf(a / 2 + a % 2))))
        } else {
            None
        },
        Tree::Node(l, r) => match cleft(*l) {
            Some(l2) => Some(Tree::Node(Box::new(l2), r)),
            None => match cleft(*r) {
                Some(r2) => Some(Tree::Node(l, Box::new(r2))),
                None => None,
            },
        },
    }
}

/// A step of the reduction: an explosion where a pair lies deep enough,
/// and else a split. `None` where the number is reduced.
pub open spec fn step(t: Tree) -> Option<Tree> {
    match blast(t, 0) {
        Some((u, _, _)) => Some(u),
        None => cleft(t),
    }
}

/// The reduced number, where `limit` steps reach it and no regular number
/// on the way is beyond a `usize`.
pub open spec fn reduced_within(t: Tree, limit: nat) -> Option<Tree>
    decreases limit,
{
    if !fits(t) {
        None
    } else {
        match step(t) {
            None => Some(t),
            Some(u) => if limit == 0 {
                None
            } else {
                reduced_within(u, (limit - 1) as nat)
            },
        }
    }
}

/// The sum of two numbers: the pair of them, reduced.
pub open spec fn sum_within(a: Tree, b: Tree, limit: nat) -> Option<Tree> {
    reduced_within(Tree::Node(Box::new(a), Box::new(b)), limit)
}

/// Three times the magnitude of the first of a pair and twice that of the second.
pub open spec fn magnitude_of(t: Tree) -> int
    decreases t,
{
    match t {
        Tree::Leaf(v) => v,
        Tree::Node(l, r) => 3 * magnitude_of(*l) + 2 * magnitude_of(*r),
    }
}

/// The regular numbers of a number that is held are ones that a `usize` holds.
pub proof fn lemma_view_fits(n: &SnailNumber)
    ensures
        fits(n.tree()),
    decreases n,
{
    match n {
        SnailNumber::Single(_) => {},
        SnailNumber::Array(l, r) => {
            lemma_view_fits(l);
            lemma_view_fits(r);
        },
    }
}

proof fn lemma_magnitude(t: Tree)
    requires
        fits(t),
    ensures
        magnitude_of(t) >= 0,
    decreases t,
{
    match t {
        Tree::Leaf(_) => {},
        Tree::Node(l, r) => {
            lemma_magnitude(*l);
            lemma_magnitude(*r);
        },
    }
}

impl SnailNumber {
    /// A copy of the number.
    pub fn copy(&self) -> (r: SnailNumber)
        ensures
            r.tree() == self.tree(),
        decreases self,
    {
        match self {
            SnailNumber::Single(v) => SnailNumber::Single(*v),
            SnailNumber::Array(l, r) => SnailNumber::Array(Box::new(l.copy()), Box::new(r.copy())),
        }
    }

    /// The magnitude; `None` where it is beyond a `usize`.
    pub fn magnitude(&self) -> (m: Option<usize>)
        ensures
            match m {
                Some(v) => v == magnitude_of(self.tree()),
                None => magnitude_of(self.tree()) > usize::MAX,
            },
        decreases self,
    {
        match self {
            SnailNumber::Single(v) => Some(*v),
            SnailNumber::Array(l, r) => {
                proof {
                    lemma_view_fits(l);
                    lemma_view_fits(r);
                    lemma_magnitude(l.tree());
                    lemma_magnitude(r.tree());
                }
                let a = match l.magnitude() {
                    Some(a) => a,
                    None => {
                        return None;
                    },
                };
                let b = match r.magnitude() {
                    Some(b) => b,
                    None => {
                        return None;
                    },
                };
                let a3 = match a.checked_mul(3) {
                    Some(v) => v,
                    None => {
                        return None;
                    },
                };
                let b2 = match b.checked_mul(2) {
                    Some(v) => v,
                    None => {
                        return None;
                    },
                };
                a3.checked_add(b2)
            },
        }
    }

    /// Adds `v` to the first regular number; `None` where the sum is
    /// beyond a `usize`.
    pub fn add_to_first(self, v: usize) -> (r: Option<SnailNumber>)
        ensures
            match r {
                Some(n) => n.tree() == add_first(self.tree(), v as int),
                None => !fits(add_first(self.tree(), v as int)),
            },
        decreases self,
    {
        match self {
            SnailNumber::Single(a) => match a.checked_add(v) {
                Some(s) => Some(SnailNumber::Single(s)),
                None => None,
            },
            SnailNumber::Array(l, r) => match (*l).add_to_first(v) {
                Some(l2) => Some(SnailNumber::Array(Box::new(l2), r)),
                None => None,
            },
        }
    }

    /// Adds `v` to the last regular number; `None` where the sum is
    /// beyond a `usize`.
    pub fn add_to_last(self, v: usize) -> (r: Option<SnailNumber>)
        ensures
            match r {
                Some(n) => n.tree() == add_last(self.tree(), v as int),
                None => !fits(add_last(self.tree(), v as int)),
            },
        decreases self,
    {
        match self {
            SnailNumber::Single(a) => match a.checked_add(v) {
                Some(s) => Some(SnailNumber::Single(s)),
                None => None,
            },
            SnailNumber::Array(l, r) => match (*r).add_to_last(v) {
                Some(r2) => Some(SnailNumber::Array(l, Box::new(r2))),
                None => None,
            },
        }
    }
}

impl SnailNumber {
    /// Explodes the first pair that lies inside four pairs, where the
    /// number itself lies inside `level` pairs. Gives the number after it
    /// and, where a pair exploded, what is still to be added before and
    /// after the number; `None` where a regular number grows beyond a `usize`.
    pub fn explode_rec(self, level: usize) -> (r: Option<(SnailNumber, Option<(usize, usize)>)>)
        requires
            level <= DEPTH,
        ensures
            match r {
                Some((n, Some((a, b)))) => blast(self.tree(), level as int) == Some(
                    (n.tree(), a as int, b as int),
                ),
                Some((n, None)) => blast(self.tree(), level as int) is None && n.tree()
                    == self.tree(),
                None => match blast(self.tree(), level as int) {
                    Some((m, _, _)) => !fits(m),
                    None => false,
                },
            },
        decreases self,
    {
        match self {
            SnailNumber::Single(v) => Some((SnailNumber::Single(v), None)),
            SnailNumber::Array(l, r) => {
                if level == DEPTH {
                    let a = match &*l {
                        SnailNumber::Single(v) => *v,
                        SnailNumber::Array(_, _) => 0,
                    };
                    let b = match &*r {
                        SnailNumber::Single(v) => *v,
                        SnailNumber::Array(_, _) => 0,
                    };
                    Some((SnailNumber::Single(0), Some((a, b))))
                } else {
                    proof {
                        lemma_view_fits(&*l);
                        lemma_view_fits(&*r);
                    }
                    match (*l).explode_rec(level + 1) {
                        None => None,
                        Some((l2, Some((a, b)))) => match (*r).add_to_first(b) {
                            Some(r2) => Some(
                                (SnailNumber::Array(Box::new(l2), Box::new(r2)), Some((a, 0))),
                            ),
                            None => None,
                        },
                        Some((l2, None)) => match (*r).explode_rec(level + 1) {
                            None => None,
                            Some((r2, Some((a, b)))) => match l2.add_to_last(a) {
                                Some(l3) => Some(
                                    (SnailNumber::Array(Box::new(l3), Box::new(r2)), Some((0, b))),
                                ),
                                None => None,
                            },
                            Some((r2, None)) => Some(
                                (SnailNumber::Array(Box::new(l2), Box::new(r2)), None),
                            ),
                        },
                    }
                }
            },
        }
    }

    /// Splits the first regular number that is greater than 9, and says
    /// whether there was one.
    pub fn split_rec(self) -> (r: (SnailNumber, bool))
        ensures
            match cleft(self.tree()) {
                Some(t) => r.1 && r.0.tree() == t,
                None => !r.1 && r.0.tree() == self.tree(),
            },
        decreases self,
    {
        match self {
            SnailNumber::Single(a) => {
                if a > 9 {
                    let pad = a % 2;
                    let first = SnailNumber::Single(a / 2);
                    let second = SnailNumber::Single(a / 2 + pad);
                    assert(first.tree() == Tree::Leaf(a as int / 2));
                    assert(second.tree() == Tree::Leaf(a as int / 2 + a as int % 2));
                    let out = SnailNumber::Array(Box::new(first), Box::new(second));
                    assert(out.tree() == Tree::Node(Box::new(first.tree()), Box::new(second.tree())));
                    (out, true)
                } else {
                    (SnailNumber::Single(a), false)
                }
            },
            SnailNumber::Array(l, r) => {
                let ghost lt = l.tree();
                let ghost rt = r.tree();
                assert(self.tree() == Tree::Node(Box::new(lt), Box::new(rt)));
                let (l2, changed) = (*l).split_rec();
                if changed {
                    let out = SnailNumber::Array(Box::new(l2), r);
                    assert(out.tree() == Tree::Node(Box::new(l2.tree()), Box::new(rt)));
                    (out, true)
                } else {
                    let (r2, changed) = (*r).split_rec();
                    let out = SnailNumber::Array(Box::new(l2), Box::new(r2));
                    assert(out.tree() == Tree::Node(Box::new(l2.tree()), Box::new(r2.tree())));
                    (out, changed)
                }
            },
        }
    }

    /// Reduces the number: it explodes and splits it, an explosion first
    /// wherever there is one, until neither applies. `None` where that
    /// takes more than `limit` steps or a regular number grows beyond a `usize`.
    pub fn reduce(self, limit: usize) -> (r: Option<SnailNumber>)
        ensures
            match r {
                Some(n) => reduced_within(self.tree(), limit as nat) == Some(n.tree()),
                None => reduced_within(self.tree(), limit as nat) is None,
            },
    {
        let ghost start = self.tree();
        let mut current = self;
        let mut left = limit;
        loop
            invariant
                start == self.tree(),
                reduced_within(start, limit as nat) == reduced_within(current.tree(), left as nat),
            decreases left,
        {
            proof {
                lemma_view_fits(&current);
            }
            let ghost before = current.tree();
            match current.explode_rec(0) {
                None => {
                    proof {
                        let u = step(before).unwrap();
                        if left > 0 {
                            assert(reduced_within(u, (left - 1) as nat) is None);
                        }
                    }
                    return None;
                },
                Some((n, Some(_))) => {
                    if left == 0 {
                        return None;
                    }
                    current = n;
                    left -= 1;
                },
                Some((n, None)) => {
                    let (m, changed) = n.split_rec();
                    if !changed {
                        return Some(m);
                    }
                    if left == 0 {
                        return None;
                    }
                    current = m;
                    left -= 1;
                },
            }
        }
    }

    /// The sum of two numbers: the pair of them, reduced.
    pub fn add(a: SnailNumber, b: SnailNumber, limit: usize) -> (r: Option<SnailNumber>)
        ensures
            match r {
                Some(n) => sum_within(a.tree(), b.tree(), limit as nat) == Some(n.tree()),
                None => sum_within(a.tree(), b.tree(), limit as nat) is None,
            },
    {
        SnailNumber::Array(Box::new(a), Box::new(b)).reduce(limit)
    }
}

// ----- reading -----
/// A byte that ends a regular number: a comma or a closing bracket.
pub open spec fn ends_number(b: u8) -> bool {
    b == 44 || b == 93
}

/// The place of the first byte from `i` on that ends a regular number,
/// and the length of the text where there is none.
pub open spec fn number_end(s: Seq<u8>, i: int) -> int
    decreases s.len() - i,
{
    if i < 0 || i >= s.len() {
        s.len() as int
    } else if ends_number(s[i]) {
        i
    } else {
        number_end(s, i + 1)
    }
}

/// The number that is written from the place `i` on, and the place
/// behind it: a pair in brackets with a comma between its two numbers,
/// or a regular number, which goes up to the next comma or closing bracket.
pub open spec fn read_at(s: Seq<u8>, i: int) -> Option<(Tree, int)>
    decreases s.len() - i,
{
    if i < 0 || i >= s.len() {
        None
    } else if s[i] == 91 {
        match read_at(s, i + 1) {
            Some((l, e1)) => if i < e1 < s.len() && s[e1] == 44 {
                match read_at(s, e1 + 1) {
                    Some((r, e2)) => if 0 <= e2 < s.len() && s[e2] == 93 {
                        Some((Tree::Node(Box::new(l), Box::new(r)), e2 + 1))
                    } else {
                        None
                    },
                    None => None,
                }
            } else {
                None
            },
            None => None,
        }
    } else {
        let e = number_end(s, i);
        match unsigned_value(s.subrange(i, e)) {
            Some(v) => if v <= usize::MAX {
                Some((Tree::Leaf(v as int), e))
            } else {
                None
            },
            None => None,
        }
    }
}

fn find_end(s: &[u8], i: usize) -> (e: usize)
    requires
        i <= s.len(),
    ensures
        e == number_end(s@, i as int),
        i <= e <= s.len(),
{
    let mut e = i;
    while e < s.len() && s[e] != 44 && s[e] != 93
        invariant
            i <= e <= s.len(),
            number_end(s@, i as int) == number_end(s@, e as int),
        decreases s.len() - e,
    {
        e += 1;
    }
    e
}

impl SnailNumber {
    /// Reads the number that is written from the place `i` on, and gives
    /// the place behind it.
    pub fn from_bytes_rec(s: &[u8], i: usize) -> (r: Option<(SnailNumber, usize)>)
        ensures
            match r {
                Some((n, e)) => read_at(s@, i as int) == Some((n.tree(), e as int)) && i < e
                    <= s.len(),
                None => read_at(s@, i as int) is None,
            },
        decreases s.len() - i,
    {
        if i >= s.len() {
            return None;
        }
        if s[i] == 91 {
            let (l, e1) = match SnailNumber::from_bytes_rec(s, i + 1) {
                Some(p) => p,
                None => {
                    return None;
                },
            };
            if e1 >= s.len() || s[e1] != 44 {
                return None;
            }
            let (r, e2) = match SnailNumber::from_bytes_rec(s, e1 + 1) {
                Some(p) => p,
                None => {
                    return None;
                },
            };
            if e2 >= s.len() || s[e2] != 93 {
                return None;
            }
            Some((SnailNumber::Array(Box::new(l), Box::new(r)), e2 + 1))
        } else {
            let e = find_end(s, i);
            let token = slice_subrange(s, i, e);
            assert(token@ == s@.subrange(i as int, e as int));
            match parse_usize(token) {
                Some(v) => {
                    assert(i < e) by {
                        if i == e {
                            assert(token@.len() == 0);
                        }
                    }
                    Some((SnailNumber::Single(v), e))
                },
                None => None,
            }
        }
    }

    /// Reads the number that the text starts with.
    pub fn from_bytes(s: &[u8]) -> (r: Result<SnailNumber, ParseError>)
        ensures
            match r {
                Ok(n) => read_at(s@, 0) is Some && n.tree() == read_at(s@, 0).unwrap().0,
                Err(e) => e == ParseError::Malformed && read_at(s@, 0) is None,
            },
    {
        match SnailNumber::from_bytes_rec(s, 0) {
            Some((n, _)) => Ok(n),
            None => Err(ParseError::Malformed),
        }
    }
}

/// The greatest number of steps that a sum may take to be reduced.
pub const STEP_LIMIT: usize = 1_000_000;

/// The numbers that the lines write.
pub open spec fn trees_of(rows: Seq<Seq<u8>>) -> Seq<Tree> {
    Seq::new(rows.len(), |i: int| read_at(rows[i], 0).unwrap().0)
}

/// The sum of the first `n` numbers, where each sum on the way is reached.
pub open spec fn total_to(ts: Seq<Tree>, n: int) -> Option<Tree>
    decreases n,
{
    if n <= 0 || n > ts.len() {
        None
    } else if n == 1 {
        Some(ts[0])
    } else {
        match total_to(ts, n - 1) {
            Some(a) => sum_within(a, ts[n - 1], STEP_LIMIT as nat),
            None => None,
        }
    }
}

/// The magnitude of a number where there is one and it fits.
pub open spec fn weight(t: Option<Tree>) -> Option<usize> {
    match t {
        Some(t) => if 0 <= magnitude_of(t) <= usize::MAX {
            Some(magnitude_of(t) as usize)
        } else {
            None
        },
        None => None,
    }
}

/// The magnitude of the sum of the numbers `i` and `j`.
pub open spec fn pair_weight(ts: Seq<Tree>, i: int, j: int) -> Option<usize> {
    weight(sum_within(ts[i], ts[j], STEP_LIMIT as nat))
}

/// Every sum that the answers need is reached, with a magnitude that fits.
pub open spec fn all_reached(ts: Seq<Tree>) -> bool {
    &&& ts.len() > 0 ==> weight(total_to(ts, ts.len() as int)) is Some
    &&& forall|i: int, j: int|
        0 <= i < ts.len() && 0 <= j < ts.len() && i != j ==> (#[trigger] pair_weight(ts, i, j))
            is Some
}

/// `m` is the greatest magnitude of a sum of two different numbers of the
/// list, and 0 where there are no two.
pub open spec fn is_greatest(ts: Seq<Tree>, m: usize) -> bool {
    &&& forall|i: int, j: int|
        0 <= i < ts.len() && 0 <= j < ts.len() && i != j ==> (#[trigger] pair_weight(
            ts,
            i,
            j,
        )).unwrap() <= m
    &&& m == 0 || exists|i: int, j: int|
        0 <= i < ts.len() && 0 <= j < ts.len() && i != j && #[trigger] pair_weight(ts, i, j)
            == Some(m)
}

/// The lines that hold a number: those of the text that are not empty.
pub open spec fn number_lines(text: Seq<char>) -> Seq<Seq<u8>> {
    nonempty_rows(lines(bytes_of(text)))
}

/// The magnitude of the sum of all numbers of the text, where it has
/// one, and the greatest magnitude of a sum of two of them.
pub fn run(contents: &str) -> (r: Result<(Option<usize>, usize), PuzzleError>)
    ensures
        r == Err::<(Option<usize>, usize), PuzzleError>(PuzzleError::Parse(ParseError::Malformed))
            <==> exists|i: int|
            0 <= i < number_lines(contents@).len() && read_at(
                #[trigger] number_lines(contents@)[i],
                0,
            ) is None,
        r is Err ==> r == Err::<(Option<usize>, usize), PuzzleError>(
            PuzzleError::Parse(ParseError::Malformed),
        ) || (r == Err::<(Option<usize>, usize), PuzzleError>(PuzzleError::TooLarge) && !all_reached(
            trees_of(number_lines(contents@)),
        )),
        match r {
            Ok((total, best)) => {
                let ts = trees_of(number_lines(contents@));
                &&& all_reached(ts)
                &&& total == weight(total_to(ts, ts.len() as int))
                &&& is_greatest(ts, best)
            },
            Err(_) => true,
        },
{
    let rows = nonempty_lines(contents.as_bytes());
    let ghost ls = number_lines(contents@);
    let ghost ts = trees_of(ls);
    let mut numbers: Vec<SnailNumber> = Vec::new();
    let mut i: usize = 0;
    while i < rows.len()
        invariant
            i <= rows.len(),
            rows_view(rows@) == ls,
            ls == number_lines(contents@),
            ts == trees_of(ls),
            numbers.len() == i,
            forall|k: int| 0 <= k < i ==> read_at(#[trigger] ls[k], 0) is Some,
            forall|k: int| 0 <= k < i ==> (#[trigger] numbers[k]).tree() == ts[k],
        decreases rows.len() - i,
    {
        assert(rows[i as int]@ == ls[i as int]);
        match SnailNumber::from_bytes(rows[i].as_slice()) {
            Ok(n) => {
                numbers.push(n);
            },
            Err(e) => {
                return Err(PuzzleError::Parse(e));
            },
        }
        i += 1;
    }
    let n = numbers.len();
    assert(ts.len() == n);
    let mut total: Option<usize> = None;
    if n > 0 {
        let mut sum = numbers[0].copy();
        let mut k: usize = 1;
        while k < n
            invariant
                1 <= k <= n,
                n == numbers.len(),
                n == ts.len(),
                ls == number_lines(contents@),
                ts == trees_of(ls),
                forall|k: int| 0 <= k < ls.len() ==> read_at(#[trigger] ls[k], 0) is Some,
                forall|j: int| 0 <= j < n ==> (#[trigger] numbers[j]).tree() == ts[j],
                total_to(ts, k as int) == Some(sum.tree()),
            decreases n - k,
        {
            match SnailNumber::add(sum, numbers[k].copy(), STEP_LIMIT) {
                Some(s) => {
                    sum = s;
                },
                None => {
                    proof {
                        assert(total_to(ts, k + 1) is None);
                        lemma_total_none(ts, k + 1, n as int);
                    }
                    return Err(PuzzleError::TooLarge);
                },
            }
            k += 1;
        }
        proof {
            lemma_view_fits(&sum);
            lemma_magnitude(sum.tree());
        }
        match sum.magnitude() {
            Some(m) => {
                total = Some(m);
            },
            None => {
                assert(weight(total_to(ts, ts.len() as int)) is None);
                return Err(PuzzleError::TooLarge);
            },
        }
    }
    let mut best: usize = 0;
    let mut i: usize = 0;
    while i < n
        invariant
            i <= n,
            n == numbers.len(),
            n == ts.len(),
            ls == number_lines(contents@),
            ts == trees_of(ls),
            forall|k: int| 0 <= k < ls.len() ==> read_at(#[trigger] ls[k], 0) is Some,
            forall|j: int| 0 <= j < n ==> (#[trigger] numbers[j]).tree() == ts[j],
            forall|a: int, b: int|
                0 <= a < i && 0 <= b < n && a != b ==> (#[trigger] pair_weight(ts, a, b)) is Some
                    && pair_weight(ts, a, b).unwrap() <= best,
            best == 0 || exists|a: int, b: int|
                0 <= a < n && 0 <= b < n && a != b && #[trigger] pair_weight(ts, a, b) == Some(best),
        decreases n - i,
    {
        let mut j: usize = 0;
        while j < n
            invariant
                i < n,
                j <= n,
                n == numbers.len(),
                n == ts.len(),
                ls == number_lines(contents@),
                ts == trees_of(ls),
                forall|k: int| 0 <= k < ls.len() ==> read_at(#[trigger] ls[k], 0) is Some,
                forall|k: int| 0 <= k < n ==> (#[trigger] numbers[k]).tree() == ts[k],
                forall|a: int, b: int|
                    0 <= a < i && 0 <= b < n && a != b ==> (#[trigger] pair_weight(ts, a, b))
                        is Some && pair_weight(ts, a, b).unwrap() <= best,
                forall|b: int|
                    0 <= b < j && i != b ==> (#[trigger] pair_weight(ts, i as int, b)) is Some
                        && pair_weight(ts, i as int, b).unwrap() <= best,
                best == 0 || exists|a: int, b: int|
                    0 <= a < n && 0 <= b < n && a != b && #[trigger] pair_weight(ts, a, b) == Some(
                        best,
                    ),
            decreases n - j,
        {
            if i != j {
                let sum = match SnailNumber::add(numbers[i].copy(), numbers[j].copy(), STEP_LIMIT) {
                    Some(s) => s,
                    None => {
                        assert(pair_weight(ts, i as int, j as int) is None);
                        return Err(PuzzleError::TooLarge);
                    },
                };
                proof {
                    lemma_view_fits(&sum);
                    lemma_magnitude(sum.tree());
                }
                let m = match sum.magnitude() {
                    Some(m) => m,
                    None => {
                        assert(pair_weight(ts, i as int, j as int) is None);
                        return Err(PuzzleError::TooLarge);
                    },
                };
                assert(pair_weight(ts, i as int, j as int) == Some(m));
                if m > best {
                    best = m;
                }
            }
            j += 1;
        }
        i += 1;
    }
    Ok((total, best))
}

proof fn lemma_total_none(ts: Seq<Tree>, k: int, n: int)
    requires
        1 <= k <= n <= ts.len(),
        total_to(ts, k) is None,
    ensures
        total_to(ts, n) is None,
    decreases n,
{
    if k < n {
        lemma_total_none(ts, k, n - 1);
    }
}

// ----- writing -----
/// The number as it is written: a pair in brackets, with a comma between
/// its two numbers.
pub open spec fn written(t: Tree) -> Seq<char>
    decreases t,
{
    match t {
        Tree::Leaf(v) => decimal(v as nat),
        Tree::Node(l, r) => "["@ + written(*l) + ","@ + written(*r) + "]"@,
    }
}

impl SnailNumber {
    /// Writes the number.
    pub fn to_string(&self) -> (s: String)
        ensures
            s@ == written(self.tree()),
        decreases self,
    {
        match self {
            SnailNumber::Single(v) => decimal_string(*v as u128),
            SnailNumber::Array(l, r) => {
                let mut s = String::new();
                s.append("[");
                s.append(l.to_string().as_str());
                s.append(",");
                s.append(r.to_string().as_str());
                s.append("]");
                proof {
                    assert(s@ =~= written(self.tree()));
                }
                s
            },
        }
    }
}

} // verus!
