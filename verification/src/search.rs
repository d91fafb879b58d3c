//! Best-first search over a space of keyed states: the least total cost from a
//! start state to any goal state.

use crate::errors::ConfigurationError;
use crate::frontier::{Entry, MinHeap, entry_le};
use std::collections::HashMap;
use vstd::multiset::Multiset;
use vstd::prelude::*;

verus! {

broadcast use vstd::std_specs::hash::group_hash_axioms;

/// A space of states, each named by a key, with weighted transitions and goals.
pub trait SearchSpace {
    /// The space itself is well formed.
    spec fn inv(&self) -> bool;

    /// `k` names a state of the space.
    spec fn valid(&self, k: u64) -> bool;

    /// One transition leads from `from` to `to` at this cost.
    spec fn step(&self, from: u64, to: u64, cost: u64) -> bool;

    /// `k` names a goal state.
    spec fn is_goal(&self, k: u64) -> bool;

    /// Every key of the space is below this bound.
    spec fn key_bound(&self) -> nat;

    proof fn lemma_key_bound(&self, k: u64)
        requires
            self.inv(),
            self.valid(k),
        ensures
            k < self.key_bound(),
    ;

    fn contains(&self, k: u64) -> (b: bool)
        requires
            self.inv(),
        ensures
            b == self.valid(k),
    ;

    fn goal(&self, k: u64) -> (b: bool)
        requires
            self.inv(),
            self.valid(k),
        ensures
            b == self.is_goal(k),
    ;

    /// The transitions that leave `k`: each one once or more, and no other.
    fn successors(&self, k: u64) -> (r: Vec<(u64, u64)>)
        requires
            self.inv(),
            self.valid(k),
        ensures
            forall|i: int|
                0 <= i < r.len() ==> self.valid((#[trigger] r[i]).0) && self.step(
                    k,
                    r[i].0,
                    r[i].1,
                ),
            forall|t: u64, c: u64| #[trigger] self.step(k, t, c) ==> r@.contains((t, c)),
    ;
}

/// The steps of a walk after its start: each the state entered and the cost of entering it.
pub type Walk = Seq<(u64, u64)>;

pub open spec fn walk_end(start: u64, w: Walk) -> u64 {
    if w.len() == 0 {
        start
    } else {
        w.last().0
    }
}

pub open spec fn walk_cost(w: Walk) -> nat
    decreases w.len(),
{
    if w.len() == 0 {
        0
    } else {
        walk_cost(w.drop_last()) + w.last().1 as nat
    }
}

/// `w` follows transitions of the space, starting at `start`.
pub open spec fn is_walk<S: SearchSpace>(space: &S, start: u64, w: Walk) -> bool
    decreases w.len(),
{
    if w.len() == 0 {
        true
    } else {
        is_walk(space, start, w.drop_last()) && space.step(
            walk_end(start, w.drop_last()),
            w.last().0,
            w.last().1,
        )
    }
}

/// Some walk leads from `start` to `target` at total cost `cost`.
pub open spec fn reaches<S: SearchSpace>(space: &S, start: u64, target: u64, cost: nat) -> bool {
    exists|w: Walk| #[trigger] is_walk(space, start, w) && walk_end(start, w) == target && walk_cost(w) == cost
}

/// Some walk leads from `start` to a goal at total cost `cost`.
pub open spec fn reaches_goal<S: SearchSpace>(space: &S, start: u64, cost: nat) -> bool {
    exists|g: u64| #[trigger] space.is_goal(g) && reaches(space, start, g, cost)
}

/// `cost` is the least total cost at which a goal is reached from `start`.
pub open spec fn least_goal_cost<S: SearchSpace>(space: &S, start: u64, cost: nat) -> bool {
    &&& reaches_goal(space, start, cost)
    &&& forall|c: nat| #[trigger] reaches_goal(space, start, c) ==> cost <= c
}

/// No goal is reached from `start` at a total cost that fits in 64 bits.
pub open spec fn no_goal_in_range<S: SearchSpace>(space: &S, start: u64) -> bool {
    forall|c: nat| #[trigger] reaches_goal(space, start, c) ==> c > u64::MAX
}

// ----- the invariant of the search -----
spec fn inv_dist<S: SearchSpace>(space: &S, start: u64, d: Map<u64, u64>) -> bool {
    &&& d.contains_key(start)
    &&& d[start] == 0
    &&& forall|v: u64| #[trigger]
        d.contains_key(v) ==> space.valid(v) && reaches(space, start, v, d[v] as nat)
}

spec fn inv_heap<S: SearchSpace>(
    space: &S,
    start: u64,
    d: Map<u64, u64>,
    h: Multiset<Entry>,
    done: Set<u64>,
    floor: u64,
) -> bool {
    forall|e: Entry| #[trigger]
        h.count(e) > 0 ==> {
            &&& d.contains_key(e.1)
            &&& e.0 >= d[e.1]
            &&& e.0 >= floor
            &&& reaches(space, start, e.1, e.0 as nat)
            &&& (done.contains(e.1) ==> e.0 > d[e.1])
        }
}

spec fn inv_unique(d: Map<u64, u64>, h: Multiset<Entry>) -> bool {
    forall|v: u64| #[trigger] d.contains_key(v) ==> h.count((d[v], v)) <= 1
}

spec fn inv_pending(d: Map<u64, u64>, h: Multiset<Entry>, done: Set<u64>, cur: int) -> bool {
    forall|v: u64| #[trigger]
        d.contains_key(v) && !done.contains(v) && v != cur ==> h.count((d[v], v)) > 0
}

spec fn relaxed<S: SearchSpace>(space: &S, d: Map<u64, u64>, v: u64) -> bool {
    forall|t: u64, w: u64| #[trigger]
        space.step(v, t, w) && d[v] + w <= u64::MAX ==> d.contains_key(t) && d[t] <= d[v] + w
}

spec fn inv_done<S: SearchSpace>(space: &S, d: Map<u64, u64>, done: Set<u64>, floor: u64) -> bool {
    &&& done.finite()
    &&& forall|v: u64| #[trigger]
        done.contains(v) ==> {
            &&& d.contains_key(v)
            &&& d[v] <= floor
            &&& v < space.key_bound()
            &&& !space.is_goal(v)
            &&& relaxed(space, d, v)
        }
}

spec fn inv_all<S: SearchSpace>(
    space: &S,
    start: u64,
    d: Map<u64, u64>,
    h: Multiset<Entry>,
    done: Set<u64>,
    floor: u64,
    cur: int,
) -> bool {
    &&& inv_dist(space, start, d)
    &&& inv_heap(space, start, d, h, done, floor)
    &&& inv_unique(d, h)
    &&& inv_pending(d, h, done, cur)
    &&& inv_done(space, d, done, floor)
}

/// The first `n` transitions listed in `succ` have been followed from `u`, reached at cost `c`.
spec fn relaxed_upto(d: Map<u64, u64>, succ: Seq<(u64, u64)>, c: u64, n: int) -> bool {
    forall|j: int|
        0 <= j < n && c + (#[trigger] succ[j]).1 <= u64::MAX ==> d.contains_key(succ[j].0) && d[succ[j].0]
            <= c + succ[j].1
}

proof fn lemma_extend<S: SearchSpace>(space: &S, start: u64, u: u64, c: nat, t: u64, w: u64)
    requires
        reaches(space, start, u, c),
        space.step(u, t, w),
    ensures
        reaches(space, start, t, c + w as nat),
{
    let wk = choose|wk: Walk| #[trigger]
        is_walk(space, start, wk) && walk_end(start, wk) == u && walk_cost(wk) == c;
    let wk2 = wk.push((t, w));
    assert(wk2.drop_last() =~= wk);
    assert(is_walk(space, start, wk2));
}

proof fn lemma_start<S: SearchSpace>(space: &S, start: u64)
    ensures
        reaches(space, start, start, 0),
{
    let wk: Walk = Seq::empty();
    assert(is_walk(space, start, wk));
}

proof fn lemma_bounded_set(s: Set<u64>, n: nat)
    requires
        s.finite(),
        forall|k: u64| s.contains(k) ==> k < n,
    ensures
        s.len() <= n,
    decreases n,
{
    if n == 0 {
        assert(s =~= Set::<u64>::empty());
    } else if n > u64::MAX + 1 {
        lemma_bounded_set(s, (n - 1) as nat);
    } else {
        let top = (n - 1) as u64;
        lemma_bounded_set(s.remove(top), (n - 1) as nat);
    }
}

/// A floor under the cost of every walk: the recorded cost where the end is
/// finished, `c` where it is not.
proof fn lemma_lower_bound<S: SearchSpace>(
    space: &S,
    start: u64,
    d: Map<u64, u64>,
    done: Set<u64>,
    c: int,
    w: Walk,
)
    requires
        is_walk(space, start, w),
        walk_cost(w) <= u64::MAX,
        d.contains_key(start),
        d[start] == 0,
        forall|v: u64| #[trigger] done.contains(v) ==> d.contains_key(v) && d[v] <= c && relaxed(space, d, v),
        forall|v: u64| #[trigger] d.contains_key(v) && !done.contains(v) ==> c <= d[v],
    ensures
        done.contains(walk_end(start, w)) ==> d[walk_end(start, w)] <= walk_cost(w),
        !done.contains(walk_end(start, w)) ==> c <= walk_cost(w),
    decreases w.len(),
{
    if w.len() > 0 {
        let p = w.drop_last();
        let x = walk_end(start, p);
        let t = w.last().0;
        let wt = w.last().1;
        lemma_lower_bound(space, start, d, done, c, p);
        if done.contains(x) {
            assert(relaxed(space, d, x));
            assert(space.step(x, t, wt));
            assert(d[x] + wt <= u64::MAX);
            assert(d.contains_key(t) && d[t] <= d[x] + wt);
        }
    }
}

proof fn lemma_goal_is_least<S: SearchSpace>(
    space: &S,
    start: u64,
    d: Map<u64, u64>,
    h: Multiset<Entry>,
    done: Set<u64>,
    floor: u64,
    e: Entry,
)
    requires
        inv_all(space, start, d, h, done, floor, -1),
        h.count(e) > 0,
        forall|x: Entry| h.contains(x) ==> entry_le(e, x),
        space.is_goal(e.1),
    ensures
        least_goal_cost(space, start, e.0 as nat),
{
    let c = e.0;
    assert forall|v: u64| #[trigger] d.contains_key(v) && !done.contains(v) implies c <= d[v] by {
        assert(h.count((d[v], v)) > 0);
        assert(h.contains((d[v], v)));
    }
    assert(reaches_goal(space, start, c as nat));
    assert forall|c2: nat| #[trigger] reaches_goal(space, start, c2) implies c <= c2 by {
        if c2 <= u64::MAX {
            let g = choose|g: u64| #[trigger] space.is_goal(g) && reaches(space, start, g, c2);
            let wk = choose|wk: Walk| #[trigger]
                is_walk(space, start, wk) && walk_end(start, wk) == g && walk_cost(wk) == c2;
            lemma_lower_bound(space, start, d, done, c as int, wk);
        }
    }
}

proof fn lemma_exhausted<S: SearchSpace>(
    space: &S,
    start: u64,
    d: Map<u64, u64>,
    h: Multiset<Entry>,
    done: Set<u64>,
    floor: u64,
)
    requires
        inv_all(space, start, d, h, done, floor, -1),
        h.len() == 0,
    ensures
        no_goal_in_range(space, start),
{
    assert forall|v: u64| #[trigger] d.contains_key(v) && !done.contains(v) implies u64::MAX + 1
        <= d[v] by {
        assert(h.count((d[v], v)) > 0);
        assert(h.contains((d[v], v)));
        assert(h.len() > 0);
    }
    assert forall|c2: nat| #[trigger] reaches_goal(space, start, c2) implies c2 > u64::MAX by {
        if c2 <= u64::MAX {
            let g = choose|g: u64| #[trigger] space.is_goal(g) && reaches(space, start, g, c2);
            let wk = choose|wk: Walk| #[trigger]
                is_walk(space, start, wk) && walk_end(start, wk) == g && walk_cost(wk) == c2;
            lemma_lower_bound(space, start, d, done, u64::MAX + 1, wk);
        }
    }
}

/// What holds once the least entry `e` has left the frontier `h0`.
proof fn lemma_after_pop<S: SearchSpace>(
    space: &S,
    start: u64,
    d: Map<u64, u64>,
    h0: Multiset<Entry>,
    done: Set<u64>,
    floor: u64,
    e: Entry,
)
    requires
        inv_all(space, start, d, h0, done, floor, -1),
        h0.contains(e),
        forall|x: Entry| h0.contains(x) ==> entry_le(e, x),
    ensures
        d.contains_key(e.1),
        e.0 >= d[e.1],
        e.0 >= floor,
        e.0 > d[e.1] ==> inv_all(space, start, d, h0.remove(e), done, e.0, -1),
        e.0 == d[e.1] ==> inv_all(space, start, d, h0.remove(e), done, e.0, e.1 as int),
        e.0 == d[e.1] ==> !done.contains(e.1) && h0.remove(e).count(e) == 0,
{
    let h1 = h0.remove(e);
    assert(h0.count(e) > 0);
    assert forall|x: Entry| #[trigger] h1.count(x) > 0 implies {
        &&& d.contains_key(x.1)
        &&& x.0 >= d[x.1]
        &&& x.0 >= e.0
        &&& reaches(space, start, x.1, x.0 as nat)
        &&& (done.contains(x.1) ==> x.0 > d[x.1])
    } by {
        assert(h0.count(x) > 0);
        assert(h0.contains(x));
    }
    assert(inv_unique(d, h1)) by {
        assert forall|v: u64| #[trigger] d.contains_key(v) implies h1.count((d[v], v)) <= 1 by {
            assert(h0.count((d[v], v)) <= 1);
        }
    }
    assert(h0.count((d[e.1], e.1)) <= 1);
    if e.0 > d[e.1] {
        assert forall|v: u64| #[trigger] d.contains_key(v) && !done.contains(v) implies h1.count(
            (d[v], v),
        ) > 0 by {
            assert(h0.count((d[v], v)) > 0);
            assert((d[v], v) != e);
        }
    } else {
        assert forall|v: u64| #[trigger]
            d.contains_key(v) && !done.contains(v) && v != e.1 as int implies h1.count((d[v], v))
            > 0 by {
            assert(h0.count((d[v], v)) > 0);
            assert((d[v], v) != e);
        }
    }
    assert(inv_done(space, d, done, e.0));
}

/// What holds once the transition from `u`, reached at cost `c`, to `t` has
/// improved the recorded cost of `t` to `c2`.
proof fn lemma_relax<S: SearchSpace>(
    space: &S,
    start: u64,
    d: Map<u64, u64>,
    h: Multiset<Entry>,
    done: Set<u64>,
    u: u64,
    c: u64,
    t: u64,
    w: u64,
)
    requires
        inv_all(space, start, d, h, done, c, u as int),
        d.contains_key(u),
        d[u] == c,
        !done.contains(u),
        h.count((c, u)) == 0,
        space.step(u, t, w),
        space.valid(t),
        c + w <= u64::MAX,
        !d.contains_key(t) || c + w < d[t],
    ensures
        inv_all(
            space,
            start,
            d.insert(t, (c + w) as u64),
            h.insert(((c + w) as u64, t)),
            done,
            c,
            u as int,
        ),
        t != u,
        !done.contains(t),
        h.insert(((c + w) as u64, t)).count((c, u)) == 0,
{
    let c2 = (c + w) as u64;
    let d2 = d.insert(t, c2);
    let e2: Entry = (c2, t);
    let h2 = h.insert(e2);
    assert(t != u);
    assert(!done.contains(t));
    lemma_extend(space, start, u, c as nat, t, w);
    assert(inv_dist(space, start, d2));
    assert forall|x: Entry| #[trigger] h2.count(x) > 0 implies {
        &&& d2.contains_key(x.1)
        &&& x.0 >= d2[x.1]
        &&& x.0 >= c
        &&& reaches(space, start, x.1, x.0 as nat)
        &&& (done.contains(x.1) ==> x.0 > d2[x.1])
    } by {
        if x != e2 {
            assert(h.count(x) > 0);
        }
    }
    assert forall|v: u64| #[trigger] d2.contains_key(v) implies h2.count((d2[v], v)) <= 1 by {
        if v == t {
            if h.count(e2) > 0 {
                assert(d.contains_key(t) && c2 >= d[t]);
            }
        } else {
            assert(d.contains_key(v));
            assert((d[v], v) != e2);
        }
    }
    assert forall|v: u64| #[trigger]
        d2.contains_key(v) && !done.contains(v) && v != u as int implies h2.count((d2[v], v))
        > 0 by {
        if v != t {
            assert(d.contains_key(v));
        }
    }
    assert forall|v: u64| #[trigger] done.contains(v) implies {
        &&& d2.contains_key(v)
        &&& d2[v] <= c
        &&& v < space.key_bound()
        &&& !space.is_goal(v)
        &&& relaxed(space, d2, v)
    } by {
        assert(d.contains_key(v) && relaxed(space, d, v));
        assert forall|t2: u64, w2: u64| #[trigger]
            space.step(v, t2, w2) && d2[v] + w2 <= u64::MAX implies d2.contains_key(t2) && d2[t2]
            <= d2[v] + w2 by {
            assert(d.contains_key(t2) && d[t2] <= d[v] + w2);
        }
    }
}

/// What holds once every transition that leaves `u` has been followed.
proof fn lemma_finish<S: SearchSpace>(
    space: &S,
    start: u64,
    d: Map<u64, u64>,
    h: Multiset<Entry>,
    done: Set<u64>,
    u: u64,
    c: u64,
    succ: Seq<(u64, u64)>,
)
    requires
        space.inv(),
        inv_all(space, start, d, h, done, c, u as int),
        d.contains_key(u),
        d[u] == c,
        !done.contains(u),
        !space.is_goal(u),
        h.count((c, u)) == 0,
        relaxed_upto(d, succ, c, succ.len() as int),
        forall|t: u64, w: u64| #[trigger] space.step(u, t, w) ==> succ.contains((t, w)),
    ensures
        inv_all(space, start, d, h, done.insert(u), c, -1),
        done.insert(u).len() == done.len() + 1,
        done.insert(u).len() <= space.key_bound(),
{
    let done2 = done.insert(u);
    space.lemma_key_bound(u);
    assert(relaxed(space, d, u)) by {
        assert forall|t: u64, w: u64| #[trigger]
            space.step(u, t, w) && d[u] + w <= u64::MAX implies d.contains_key(t) && d[t] <= d[u]
            + w by {
            assert(succ.contains((t, w)));
            let j = choose|j: int| 0 <= j < succ.len() && succ[j] == (t, w);
            assert(succ[j].1 == w);
        }
    }
    assert forall|x: Entry| #[trigger] h.count(x) > 0 && done2.contains(x.1) implies x.0
        > d[x.1] by {
        if x.1 == u {
            assert(x.0 >= d[u]);
            if x.0 == d[u] {
                assert(x == (c, u));
            }
        }
    }
    assert(inv_heap(space, start, d, h, done2, c));
    assert(inv_pending(d, h, done2, -1));
    assert(inv_done(space, d, done2, c));
    assert forall|k: u64| done2.contains(k) implies k < space.key_bound() by {}
    lemma_bounded_set(done2, space.key_bound());
}

/// The least total cost at which a goal state is reached from `start`, if one
/// is reached at a cost that fits in 64 bits.
pub fn shortest_path<S: SearchSpace>(space: &S, start: u64) -> (r: Result<
    Option<u64>,
    ConfigurationError,
>)
    requires
        space.inv(),
    ensures
        match r {
            Ok(Some(c)) => space.valid(start) && least_goal_cost(space, start, c as nat),
            Ok(None) => space.valid(start) && no_goal_in_range(space, start),
            Err(e) => !space.valid(start) && e == ConfigurationError::InvalidStart(start),
        },
{
    if !space.contains(start) {
        return Err(ConfigurationError::InvalidStart(start));
    }
    let mut dist: HashMap<u64, u64> = HashMap::new();
    let mut heap = MinHeap::new();
    dist.insert(start, 0);
    heap.push((0, start));
    let ghost mut done: Set<u64> = Set::empty();
    let ghost mut floor: u64 = 0;
    proof {
        lemma_start(space, start);
        assert(inv_all(space, start, dist@, heap@, done, floor, -1));
    }
    loop
        invariant
            space.inv(),
            space.valid(start),
            heap.wf(),
            inv_all(space, start, dist@, heap@, done, floor, -1),
            done.len() <= space.key_bound(),
        decreases space.key_bound() - done.len(), heap.spec_len(),
    {
        let ghost h0 = heap@;
        let popped = heap.pop();
        match popped {
            None => {
                proof {
                    lemma_exhausted(space, start, dist@, h0, done, floor);
                }
                return Ok(None);
            },
            Some(e) => {
                let c = e.0;
                let u = e.1;
                proof {
                    lemma_after_pop(space, start, dist@, h0, done, floor, e);
                }
                if space.goal(u) {
                    proof {
                        lemma_goal_is_least(space, start, dist@, h0, done, floor, e);
                    }
                    return Ok(Some(c));
                }
                let du = match dist.get(&u) {
                    Some(x) => *x,
                    None => c,
                };
                proof {
                    floor = c;
                }
                if c > du {
                    continue ;
                }
                let succ = space.successors(u);
                let mut i: usize = 0;
                while i < succ.len()
                    invariant
                        space.inv(),
                        heap.wf(),
                        0 <= i <= succ.len(),
                        inv_all(space, start, dist@, heap@, done, c, u as int),
                        dist@.contains_key(u),
                        dist@[u] == c,
                        !done.contains(u),
                        heap@.count((c, u)) == 0,
                        relaxed_upto(dist@, succ@, c, i as int),
                        forall|j: int|
                            0 <= j < succ.len() ==> space.valid((#[trigger] succ[j]).0)
                                && space.step(u, succ[j].0, succ[j].1),
                    decreases succ.len() - i,
                {
                    let t = succ[i].0;
                    let w = succ[i].1;
                    match c.checked_add(w) {
                        Some(c2) => {
                            let better = match dist.get(&t) {
                                Some(x) => c2 < *x,
                                None => true,
                            };
                            if better {
                                proof {
                                    lemma_relax(space, start, dist@, heap@, done, u, c, t, w);
                                }
                                dist.insert(t, c2);
                                heap.push((c2, t));
                            }
                        },
                        None => {},
                    }
                    i += 1;
                }
                proof {
                    lemma_finish(space, start, dist@, heap@, done, u, c, succ@);
                    done = done.insert(u);
                }
            },
        }
    }
}

/// What a search from `start` returns: the least total cost at which a goal
/// is reached, or nothing where none is reached at a cost that fits in 64 bits.
pub open spec fn is_search_result<S: SearchSpace>(space: &S, start: u64, r: Option<u64>) -> bool {
    match r {
        Some(c) => least_goal_cost(space, start, c as nat),
        None => no_goal_in_range(space, start),
    }
}

/// A search has one result only.
pub proof fn lemma_result_unique<S: SearchSpace>(space: &S, start: u64, a: Option<u64>, b: Option<u64>)
    requires
        is_search_result(space, start, a),
        is_search_result(space, start, b),
    ensures
        a == b,
{
    match (a, b) {
        (Some(x), Some(y)) => {
            assert(reaches_goal(space, start, x as nat));
            assert(reaches_goal(space, start, y as nat));
        },
        (Some(x), None) => {
            assert(reaches_goal(space, start, x as nat));
        },
        (None, Some(y)) => {
            assert(reaches_goal(space, start, y as nat));
        },
        (None, None) => {},
    }
}

/// A search that starts at a goal returns zero.
pub proof fn lemma_start_at_goal<S: SearchSpace>(space: &S, start: u64, r: Option<u64>)
    requires
        space.is_goal(start),
        is_search_result(space, start, r),
    ensures
        r == Some(0u64),
{
    lemma_start(space, start);
    assert(reaches_goal(space, start, 0));
    assert(least_goal_cost(space, start, 0));
    lemma_result_unique(space, start, r, Some(0u64));
}

} // verus!
