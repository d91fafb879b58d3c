//! An explicit weighted directed graph: the plainest space to search.

use crate::search::SearchSpace;
use vstd::prelude::*;

verus! {

/// Nodes `0..n`, each with the list of its outgoing edges and a goal mark.
pub struct Graph {
    edges: Vec<Vec<(u64, u64)>>,
    goals: Vec<bool>,
}

impl Graph {
    pub closed spec fn wf(&self) -> bool {
        &&& self.edges.len() == self.goals.len()
        &&& self.edges.len() <= u64::MAX
        &&& forall|i: int, j: int|
            0 <= i < self.edges.len() && 0 <= j < self.edges[i].len() ==> (#[trigger] self.edges[i][j]).0
                < self.edges.len()
    }

    pub closed spec fn node_count(&self) -> nat {
        self.edges.len() as nat
    }

    /// An edge leads from `from` to `to` at weight `cost`.
    pub closed spec fn has_edge(&self, from: u64, to: u64, cost: u64) -> bool {
        from < self.edges.len() && self.edges[from as int]@.contains((to, cost))
    }

    pub closed spec fn goal_at(&self, k: u64) -> bool {
        k < self.goals.len() && self.goals[k as int]
    }

    /// A graph of `n` nodes without edges or goals.
    pub fn new(n: usize) -> (g: Graph)
        ensures
            g.wf(),
            g.node_count() == n,
            forall|a: u64, b: u64, c: u64| !g.has_edge(a, b, c),
            forall|k: u64| !g.goal_at(k),
    {
        let mut edges: Vec<Vec<(u64, u64)>> = Vec::new();
        let mut goals: Vec<bool> = Vec::new();
        let mut i: usize = 0;
        while i < n
            invariant
                i <= n,
                edges.len() == i,
                goals.len() == i,
                forall|k: int| 0 <= k < i ==> (#[trigger] edges[k]).len() == 0,
                forall|k: int| 0 <= k < i ==> !#[trigger] goals[k],
            decreases n - i,
        {
            edges.push(Vec::new());
            goals.push(false);
            i += 1;
        }
        Graph { edges, goals }
    }

    pub fn len(&self) -> (n: usize)
        ensures
            n == self.node_count(),
    {
        self.edges.len()
    }

    /// Adds an edge, unless one of its ends is no node of the graph.
    pub fn add_edge(&mut self, from: u64, to: u64, cost: u64) -> (added: bool)
        requires
            old(self).wf(),
        ensures
            final(self).wf(),
            final(self).node_count() == old(self).node_count(),
            added == (from < old(self).node_count() && to < old(self).node_count()),
            forall|k: u64| final(self).goal_at(k) == old(self).goal_at(k),
            forall|a: u64, b: u64, c: u64|
                final(self).has_edge(a, b, c) == (old(self).has_edge(a, b, c) || (added && a == from
                    && b == to && c == cost)),
    {
        let n = self.edges.len();
        if from >= n as u64 || to >= n as u64 {
            return false;
        }
        let ghost before = self.edges;
        let f = from as usize;
        let mut row: Vec<(u64, u64)> = Vec::new();
        std::mem::swap(&mut row, &mut self.edges[f]);
        row.push((to, cost));
        std::mem::swap(&mut row, &mut self.edges[f]);
        proof {
            assert(self.edges[f as int]@ =~= before[f as int]@.push((to, cost)));
            assert forall|i: int| 0 <= i < n && i != f implies self.edges[i] == before[i] by {}
            assert forall|a: u64, b: u64, c: u64|
                self.has_edge(a, b, c) == (old(self).has_edge(a, b, c) || (a == from && b == to
                    && c == cost)) by {
                if a < n {
                    if a == from {
                        let s0 = before[f as int]@;
                        let s1 = self.edges[f as int]@;
                        if s1.contains((b, c)) {
                            let j = choose|j: int| 0 <= j < s1.len() && s1[j] == (b, c);
                            if j < s0.len() {
                                assert(s0[j] == (b, c));
                            }
                        }
                        if s0.contains((b, c)) {
                            let j = choose|j: int| 0 <= j < s0.len() && s0[j] == (b, c);
                            assert(s1[j] == (b, c));
                        }
                        assert(s1[s0.len() as int] == (to, cost));
                    } else {
                        assert(self.edges[a as int] == before[a as int]);
                    }
                }
            }
            assert forall|i: int, j: int|
                0 <= i < self.edges.len() && 0 <= j < self.edges[i].len() implies (
            #[trigger] self.edges[i][j]).0 < self.edges.len() by {
                if i == f {
                    if j < before[i].len() {
                        assert(self.edges[i][j] == before[i][j]);
                    }
                } else {
                    assert(self.edges[i][j] == before[i][j]);
                }
            }
        }
        true
    }

    /// Marks node `k` as a goal, unless it is no node of the graph.
    pub fn set_goal(&mut self, k: u64) -> (marked: bool)
        requires
            old(self).wf(),
        ensures
            final(self).wf(),
            final(self).node_count() == old(self).node_count(),
            marked == (k < old(self).node_count()),
            forall|j: u64| final(self).goal_at(j) == (old(self).goal_at(j) || (marked && j == k)),
            forall|a: u64, b: u64, c: u64| final(self).has_edge(a, b, c) == old(self).has_edge(a, b, c),
    {
        if k >= self.goals.len() as u64 {
            return false;
        }
        self.goals[k as usize] = true;
        true
    }
}

impl SearchSpace for Graph {
    open spec fn inv(&self) -> bool {
        self.wf()
    }

    open spec fn valid(&self, k: u64) -> bool {
        k < self.node_count()
    }

    open spec fn step(&self, from: u64, to: u64, cost: u64) -> bool {
        self.has_edge(from, to, cost)
    }

    open spec fn is_goal(&self, k: u64) -> bool {
        self.goal_at(k)
    }

    open spec fn key_bound(&self) -> nat {
        self.node_count()
    }

    proof fn lemma_key_bound(&self, k: u64) {
    }

    fn contains(&self, k: u64) -> (b: bool) {
        k < self.edges.len() as u64
    }

    fn goal(&self, k: u64) -> (b: bool) {
        self.goals[k as usize]
    }

    fn successors(&self, k: u64) -> (r: Vec<(u64, u64)>) {
        let row = &self.edges[k as usize];
        let mut r: Vec<(u64, u64)> = Vec::new();
        let mut i: usize = 0;
        while i < row.len()
            invariant
                i <= row.len(),
                r@ == row@.subrange(0, i as int),
            decreases row.len() - i,
        {
            r.push(row[i]);
            proof {
                assert(r@ =~= row@.subrange(0, i + 1));
            }
            i += 1;
        }
        proof {
            assert(r@ =~= row@);
        }
        r
    }
}

} // verus!
