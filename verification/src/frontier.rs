//! A binary min-heap of `(cost, key)` entries: the frontier of a best-first search.

use vstd::multiset::Multiset;
use vstd::prelude::*;

verus! {

/// A frontier entry: an accumulated cost and the key of the state it was reached at.
pub type Entry = (u64, u64);

/// The order of the frontier: by cost first, by key among equal costs.
pub open spec fn entry_le(a: Entry, b: Entry) -> bool {
    a.0 < b.0 || (a.0 == b.0 && a.1 <= b.1)
}

/// A priority queue that hands out its least entry first.
pub struct MinHeap {
    data: Vec<Entry>,
}

impl MinHeap {
    /// The entries held, without their internal order.
    pub closed spec fn view(&self) -> Multiset<Entry> {
        self.data@.to_multiset()
    }

    /// Every entry is at least its parent in the implicit binary tree.
    pub closed spec fn wf(&self) -> bool {
        ordered_except(self.data@, -1)
    }

    pub closed spec fn spec_len(&self) -> nat {
        self.data@.len()
    }

    /// The length of the heap is the number of its entries.
    pub proof fn lemma_len(&self)
        ensures
            self.spec_len() == self@.len(),
    {
        broadcast use vstd::seq_lib::to_multiset_len;

    }

    pub fn new() -> (h: MinHeap)
        ensures
            h.wf(),
            h@ == Multiset::<Entry>::empty(),
            h.spec_len() == 0,
    {
        let h = MinHeap { data: Vec::new() };
        proof {
            h.data@.to_multiset_ensures();
            assert(h.data@ =~= Seq::<Entry>::empty());
            assert(h@.len() == 0);
            assert(h@ =~= Multiset::<Entry>::empty());
        }
        h
    }

    pub fn len(&self) -> (n: usize)
        ensures
            n == self.spec_len(),
            n == self@.len(),
    {
        proof {
            self.lemma_len();
        }
        self.data.len()
    }

    pub fn is_empty(&self) -> (b: bool)
        ensures
            b == (self@.len() == 0),
            b == (self.spec_len() == 0),
    {
        proof {
            self.lemma_len();
        }
        self.data.len() == 0
    }

    /// Adds an entry.
    pub fn push(&mut self, e: Entry)
        requires
            old(self).wf(),
        ensures
            final(self).wf(),
            final(self)@ == old(self)@.insert(e),
            final(self).spec_len() == old(self).spec_len() + 1,
    {
        broadcast use vstd::seq_lib::to_multiset_build;

        self.data.push(e);
        let ghost target = self.data@.to_multiset();
        let n = self.data.len();
        let mut i: usize = n - 1;
        while i > 0
            invariant
                n == self.data.len(),
                i < n,
                self.data@.to_multiset() == target,
                ordered_except(self.data@, i as int),
                i > 0 ==> grandparent_ok(self.data@, i as int),
            ensures
                n == self.data.len(),
                self.data@.to_multiset() == target,
                ordered_except(self.data@, 0) || ordered_except(self.data@, -1),
            decreases i,
        {
            let p: usize = (i - 1) / 2;
            let a = self.data[p];
            let b = self.data[i];
            if entry_le_exec(a, b) {
                proof {
                    assert forall|j: int| 0 < j < n implies entry_le(
                        #[trigger] self.data@[(j - 1) / 2],
                        self.data@[j],
                    ) by {}
                }
                break ;
            }
            let ghost before = self.data@;
            self.data[p] = b;
            self.data[i] = a;
            proof {
                lemma_swap_multiset(before, p as int, i as int);
                assert(self.data@ =~= before.update(p as int, b).update(i as int, a));
                assert(ordered_except(self.data@, p as int)) by {
                    assert forall|j: int| 0 < j < n && j != p implies entry_le(
                        #[trigger] self.data@[(j - 1) / 2],
                        self.data@[j],
                    ) by {
                        if j == i {
                        } else if (j - 1) / 2 == p {
                            assert(entry_le(before[(j - 1) / 2], before[j]));
                        } else if (j - 1) / 2 == i {
                            assert(entry_le(before[(i - 1) / 2], before[j]));
                        } else {
                            assert(entry_le(before[(j - 1) / 2], before[j]));
                        }
                    }
                }
                if p > 0 {
                    assert(grandparent_ok(self.data@, p as int)) by {
                        assert(entry_le(before[(p - 1) / 2], before[p as int]));
                        assert forall|j: int| 0 < j < n && (j - 1) / 2 == p implies entry_le(
                            self.data@[(p - 1) / 2],
                            #[trigger] self.data@[j],
                        ) by {
                            if j != i {
                                assert(entry_le(before[(j - 1) / 2], before[j]));
                            }
                        }
                    }
                }
            }
            i = p;
        }
        proof {
            assert(ordered_except(self.data@, -1)) by {
                assert forall|j: int| 0 < j < n implies entry_le(
                    #[trigger] self.data@[(j - 1) / 2],
                    self.data@[j],
                ) by {}
            }
        }
    }

    /// Removes and returns the least entry, if there is one.
    pub fn pop(&mut self) -> (r: Option<Entry>)
        requires
            old(self).wf(),
        ensures
            final(self).wf(),
            match r {
                None => old(self)@.len() == 0 && final(self)@ == old(self)@,
                Some(e) => {
                    &&& old(self)@.contains(e)
                    &&& final(self)@ == old(self)@.remove(e)
                    &&& final(self).spec_len() + 1 == old(self).spec_len()
                    &&& forall|x: Entry| old(self)@.contains(x) ==> entry_le(e, x)
                },
            },
    {
        broadcast use vstd::seq_lib::to_multiset_len, vstd::seq_lib::to_multiset_contains;

        let n0 = self.data.len();
        if n0 == 0 {
            return None;
        }
        let ghost start = self.data@;
        let top = self.data[0];
        let last = self.data[n0 - 1];
        proof {
            assert forall|x: Entry| start.to_multiset().contains(x) implies entry_le(top, x) by {
                let k = choose|k: int| 0 <= k < start.len() && start[k] == x;
                lemma_root_least(start, k);
            }
            assert(start.contains(top));
        }
        self.data[0] = last;
        let popped = self.data.pop();
        let ghost target = start.to_multiset().remove(top);
        proof {
            lemma_remove_root_multiset(start);
            assert(self.data@ =~= start.update(0, last).drop_last());
        }
        let n = self.data.len();
        let mut i: usize = 0;
        proof {
            assert(ordered_except_parent(self.data@, 0)) by {
                assert forall|j: int| 0 < j < n && (j - 1) / 2 != 0 implies entry_le(
                    #[trigger] self.data@[(j - 1) / 2],
                    self.data@[j],
                ) by {
                    assert(entry_le(start[(j - 1) / 2], start[j]));
                }
            }
        }
        while i < n / 2
            invariant
                n == self.data.len(),
                self.data@.to_multiset() == target,
                ordered_except_parent(self.data@, i as int),
                i > 0 ==> grandparent_ok(self.data@, i as int),
            ensures
                n == self.data.len(),
                self.data@.to_multiset() == target,
                ordered_except(self.data@, -1),
            decreases n - i,
        {
            let l: usize = 2 * i + 1;
            let r: usize = l + 1;
            let mut c: usize = l;
            if r < n {
                let x = self.data[l];
                let y = self.data[r];
                if !entry_le_exec(x, y) {
                    c = r;
                }
            }
            let a = self.data[i];
            let b = self.data[c];
            if entry_le_exec(a, b) {
                proof {
                    assert forall|j: int| 0 < j < n implies entry_le(
                        #[trigger] self.data@[(j - 1) / 2],
                        self.data@[j],
                    ) by {
                        if (j - 1) / 2 == i {
                            assert(j == l || j == r);
                        }
                    }
                }
                break ;
            }
            let ghost before = self.data@;
            self.data[i] = b;
            self.data[c] = a;
            proof {
                lemma_swap_multiset(before, i as int, c as int);
                assert(self.data@ =~= before.update(i as int, b).update(c as int, a));
                assert(ordered_except_parent(self.data@, c as int)) by {
                    assert forall|j: int| 0 < j < n && (j - 1) / 2 != c implies entry_le(
                        #[trigger] self.data@[(j - 1) / 2],
                        self.data@[j],
                    ) by {
                        if (j - 1) / 2 == i {
                            assert(j == l || j == r);
                        } else if j == i {
                            assert(entry_le(before[(i - 1) / 2], before[c as int]));
                        } else {
                            assert(entry_le(before[(j - 1) / 2], before[j]));
                        }
                    }
                }
                assert(grandparent_ok(self.data@, c as int)) by {
                    assert forall|j: int| 0 < j < n && (j - 1) / 2 == c implies entry_le(
                        self.data@[(c - 1) / 2],
                        #[trigger] self.data@[j],
                    ) by {
                        assert(entry_le(before[(j - 1) / 2], before[j]));
                    }
                }
            }
            i = c;
        }
        proof {
            assert(ordered_except(self.data@, -1)) by {
                assert forall|j: int| 0 < j < n implies entry_le(
                    #[trigger] self.data@[(j - 1) / 2],
                    self.data@[j],
                ) by {}
            }
        }
        Some(top)
    }
}

/// Compares two entries in the order of the frontier.
pub fn entry_le_exec(a: Entry, b: Entry) -> (r: bool)
    ensures
        r == entry_le(a, b),
{
    a.0 < b.0 || (a.0 == b.0 && a.1 <= b.1)
}

/// Heap order at every index but `hole`.
spec fn ordered_except(s: Seq<Entry>, hole: int) -> bool {
    forall|j: int| 0 < j < s.len() && j != hole ==> entry_le(#[trigger] s[(j - 1) / 2], s[j])
}

/// Heap order between every parent and child, but for the children of `hole`.
spec fn ordered_except_parent(s: Seq<Entry>, hole: int) -> bool {
    forall|j: int| 0 < j < s.len() && (j - 1) / 2 != hole ==> entry_le(#[trigger] s[(j - 1) / 2], s[j])
}

/// The children of `hole` are at least the parent of `hole`.
spec fn grandparent_ok(s: Seq<Entry>, hole: int) -> bool {
    forall|j: int| 0 < j < s.len() && (j - 1) / 2 == hole ==> entry_le(s[(hole - 1) / 2], #[trigger] s[j])
}

proof fn lemma_root_least(s: Seq<Entry>, k: int)
    requires
        ordered_except(s, -1),
        0 <= k < s.len(),
    ensures
        entry_le(s[0], s[k]),
    decreases k,
{
    if k > 0 {
        lemma_root_least(s, (k - 1) / 2);
        assert(entry_le(s[(k - 1) / 2], s[k]));
    }
}

proof fn lemma_swap_multiset(s: Seq<Entry>, i: int, j: int)
    requires
        0 <= i < s.len(),
        0 <= j < s.len(),
    ensures
        s.update(i, s[j]).update(j, s[i]).to_multiset() == s.to_multiset(),
{
    broadcast use vstd::seq_lib::to_multiset_update, vstd::seq_lib::to_multiset_contains;

    let t = s.update(i, s[j]);
    assert(s.contains(s[i]));
    assert(s.contains(s[j]));
    assert(t.update(j, s[i]).to_multiset() =~= s.to_multiset());
}

proof fn lemma_remove_root_multiset(s: Seq<Entry>)
    requires
        s.len() > 0,
    ensures
        s.update(0, s.last()).drop_last().to_multiset() == s.to_multiset().remove(s[0]),
{
    broadcast use
        vstd::seq_lib::to_multiset_update,
        vstd::seq_lib::to_multiset_contains,
        vstd::seq_lib::to_multiset_remove,
    ;

    let t = s.update(0, s.last());
    assert(t.drop_last() =~= t.remove(t.len() - 1));
    assert(s.contains(s[0]));
    assert(s.contains(s.last()));
    assert(t.drop_last().to_multiset() =~= s.to_multiset().remove(s[0]));
}

} // verus!
