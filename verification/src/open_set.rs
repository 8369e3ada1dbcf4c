//! A binary heap of cells, the one with the least estimate on top.
use crate::root2::Root2;
use vstd::multiset::Multiset;
use vstd::prelude::*;

verus! {

/// A cell with the estimated length of a path through it.
#[derive(Clone, Copy, Debug)]
pub struct OpenCell {
    pub cell: (i64, i64),
    pub f: Root2,
}

/// `c` comes behind `d` in the order of columns and rows, or is the same.
pub open spec fn cell_from(c: (i64, i64), d: (i64, i64)) -> bool {
    c.0 > d.0 || (c.0 == d.0 && c.1 >= d.1)
}

impl OpenCell {
    /// `self` is to be taken no later than `other`: its estimate is smaller, or
    /// equal and its cell does not come before the other.
    pub open spec fn first(self, other: OpenCell) -> bool {
        self.f.lt(other.f) || (self.f == other.f && cell_from(self.cell, other.cell))
    }

    proof fn lemma_total(self, other: OpenCell)
        ensures
            self.first(other) || other.first(self),
            self.first(self),
    {
        self.f.lemma_total(other.f);
    }

    proof fn lemma_trans(self, other: OpenCell, third: OpenCell)
        requires
            self.first(other),
            other.first(third),
        ensures
            self.first(third),
    {
        self.f.lemma_trans(other.f, third.f);
    }

    fn goes_first(self, other: OpenCell) -> (r: bool)
        requires
            self.f.small(),
            other.f.small(),
        ensures
            r == self.first(other),
    {
        if self.f.less(other.f) {
            true
        } else if self.f == other.f {
            self.cell.0 > other.cell.0 || (self.cell.0 == other.cell.0 && self.cell.1
                >= other.cell.1)
        } else {
            false
        }
    }
}

/// The open cells of a search.
#[derive(Debug)]
pub struct OpenSet {
    heap: Vec<OpenCell>,
}

spec fn parent(i: int) -> int {
    (i - 1) / 2
}

/// Every element but the one at `hole` is behind its parent, and what hangs below
/// the hole is behind the parent of the hole.
spec fn heap_but(s: Seq<OpenCell>, hole: int) -> bool {
    &&& forall|i: int|
        0 < i < s.len() && i != hole && parent(i) != hole ==> s[parent(i)].first(#[trigger] s[i])
    &&& forall|i: int|
        0 < i < s.len() && parent(i) == hole && hole > 0 ==> s[parent(hole)].first(#[trigger] s[i])
}

/// Every element is behind its parent.
spec fn is_heap(s: Seq<OpenCell>) -> bool {
    forall|i: int| 0 < i < s.len() ==> s[parent(i)].first(#[trigger] s[i])
}

spec fn all_small(s: Seq<OpenCell>) -> bool {
    forall|i: int| 0 <= i < s.len() ==> (#[trigger] s[i]).f.small()
}

proof fn lemma_top(s: Seq<OpenCell>, i: int)
    requires
        is_heap(s),
        0 <= i < s.len(),
    ensures
        s[0].first(s[i]),
    decreases i,
{
    if i == 0 {
        s[0].lemma_total(s[0]);
    } else {
        lemma_top(s, parent(i));
        s[0].lemma_trans(s[parent(i)], s[i]);
    }
}

proof fn lemma_swap(s: Seq<OpenCell>, i: int, j: int)
    requires
        0 <= i < s.len(),
        0 <= j < s.len(),
        all_small(s),
    ensures
        s.update(i, s[j]).update(j, s[i]).to_multiset() == s.to_multiset(),
        all_small(s.update(i, s[j]).update(j, s[i])),
{
    broadcast use vstd::seq_lib::group_to_multiset_ensures;

    let t = s.update(i, s[j]);
    let u = t.update(j, s[i]);
    if i == j {
        assert(u =~= s);
    } else {
        assert(s.contains(s[i]));
        assert(t.to_multiset() =~= s.to_multiset().insert(s[j]).remove(s[i]));
        assert(u.to_multiset() =~= t.to_multiset().insert(s[i]).remove(t[j]));
        assert(u.to_multiset() =~= s.to_multiset());
    }
}

impl OpenSet {
    /// The open cells.
    pub closed spec fn view(self) -> Multiset<OpenCell> {
        self.heap@.to_multiset()
    }

    /// The invariant.
    pub closed spec fn wf(self) -> bool {
        is_heap(self.heap@) && all_small(self.heap@)
    }

    /// No open cell.
    pub fn new() -> (r: Self)
        ensures
            r.wf(),
            r@ == Multiset::<OpenCell>::empty(),
    {
        broadcast use vstd::seq_lib::group_to_multiset_ensures;

        let r = OpenSet { heap: Vec::new() };
        assert(r@ =~= Multiset::<OpenCell>::empty());
        r
    }

    /// Adds an open cell.
    pub fn push(&mut self, c: OpenCell)
        requires
            old(self).wf(),
            c.f.small(),
        ensures
            final(self).wf(),
            final(self)@ == old(self)@.insert(c),
    {
        broadcast use vstd::seq_lib::group_to_multiset_ensures;

        self.heap.push(c);
        let mut k: usize = self.heap.len() - 1;
        let ghost m = self.heap@.to_multiset();
        while k > 0 && !self.heap[(k - 1) / 2].goes_first(self.heap[k])
            invariant
                k < self.heap@.len(),
                heap_but(self.heap@, k as int),
                all_small(self.heap@),
                self.heap@.to_multiset() == m,
                forall|i: int|
                    0 < i < self.heap@.len() && parent(i) == k ==> self.heap@[k as int].first(
                        #[trigger] self.heap@[i],
                    ),
            decreases k,
        {
            let p: usize = (k - 1) / 2;
            let ghost s = self.heap@;
            proof {
                lemma_swap(s, k as int, p as int);
                s[k as int].lemma_total(s[p as int]);
            }
            let at_k: OpenCell = self.heap[k];
            let at_p: OpenCell = self.heap[p];
            self.heap.set(k, at_p);
            self.heap.set(p, at_k);
            proof {
                let t = self.heap@;
                assert forall|i: int| 0 < i < t.len() && parent(i) == p implies t[p as int].first(
                    #[trigger] t[i],
                ) by {
                    if i != k {
                        assert(s[parent(i)].first(s[i]));
                        t[p as int].lemma_trans(s[p as int], t[i]);
                    }
                }
                assert forall|i: int|
                    0 < i < t.len() && i != p && parent(i) != p implies t[parent(i)].first(
                    #[trigger] t[i],
                ) by {
                    if parent(i) == k {
                        assert(s[parent(k as int)].first(s[i]));
                    } else {
                        assert(i != k);
                        assert(s[parent(i)].first(s[i]));
                    }
                }
                assert forall|i: int|
                    0 < i < t.len() && parent(i) == p && p > 0 implies t[parent(p as int)].first(
                    #[trigger] t[i],
                ) by {
                    assert(s[parent(p as int)].first(s[p as int]));
                    if i != k {
                        assert(s[parent(i)].first(s[i]));
                        s[parent(p as int)].lemma_trans(s[p as int], s[i]);
                    }
                }
            }
            k = p;
        }
    }

    /// Takes the open cell that goes first.
    pub fn pop(&mut self) -> (r: Option<OpenCell>)
        requires
            old(self).wf(),
        ensures
            final(self).wf(),
            match r {
                Some(c) => {
                    &&& old(self)@.count(c) > 0
                    &&& c.f.small()
                    &&& final(self)@ == old(self)@.remove(c)
                    &&& forall|d: OpenCell| #[trigger] old(self)@.count(d) > 0 ==> c.first(d)
                },
                None => old(self)@ == Multiset::<OpenCell>::empty() && final(self)@ == old(self)@,
            },
    {
        broadcast use vstd::seq_lib::group_to_multiset_ensures;

        let ghost s0 = self.heap@;
        let n: usize = self.heap.len();
        if n == 0 {
            assert(self@ =~= Multiset::<OpenCell>::empty());
            return None;
        }
        let top: OpenCell = self.heap[0];
        proof {
            assert forall|d: OpenCell| #[trigger] s0.to_multiset().count(d) > 0 implies top.first(
                d,
            ) by {
                let i = choose|i: int| 0 <= i < s0.len() && s0[i] == d;
                lemma_top(s0, i);
            }
            assert(s0.contains(top));
        }
        let last: OpenCell = match self.heap.pop() {
            Some(c) => c,
            None => top,
        };
        proof {
            assert(self.heap@ =~= s0.remove(n - 1));
        }
        if n == 1 {
            return Some(top);
        }
        let ghost s1 = self.heap@;
        self.heap.set(0, last);
        let ghost m = self.heap@.to_multiset();
        proof {
            assert(s1.to_multiset() =~= s0.to_multiset().remove(last));
            assert(m =~= s1.to_multiset().insert(last).remove(top));
            assert(m =~= s0.to_multiset().remove(top)) by {
                assert(s0.contains(last));
            }
            let s = self.heap@;
            assert forall|i: int|
                0 < i < s.len() && i != 0 && parent(i) != 0 implies s[parent(i)].first(
                #[trigger] s[i],
            ) by {
                assert(s0[parent(i)].first(s0[i]));
            }
        }
        let mut k: usize = 0;
        let len: usize = self.heap.len();
        loop
            invariant
                k < len,
                len == self.heap@.len(),
                heap_but(self.heap@, k as int),
                all_small(self.heap@),
                self.heap@.to_multiset() == m,
                k > 0 ==> self.heap@[parent(k as int)].first(self.heap@[k as int]),
            ensures
                is_heap(self.heap@),
                all_small(self.heap@),
                self.heap@.to_multiset() == m,
            decreases len - k,
        {
            let ghost s = self.heap@;
            if k >= (len - 1) / 2 + 1 || 2 * k + 1 >= len {
                proof {
                    assert forall|i: int| 0 < i < s.len() implies s[parent(i)].first(
                        #[trigger] s[i],
                    ) by {
                        assert(parent(i) != k);
                    }
                }
                break;
            }
            let l: usize = 2 * k + 1;
            let mut c: usize = l;
            if l + 1 < len && self.heap[l + 1].goes_first(self.heap[l]) {
                c = l + 1;
            }
            proof {
                if l + 1 < len {
                    s[l as int].lemma_total(s[l + 1]);
                }
                s[l as int].lemma_total(s[l as int]);
                assert forall|i: int| 0 < i < s.len() && parent(i) == k implies s[c as int].first(
                    #[trigger] s[i],
                ) by {
                    assert(i == l || i == l + 1);
                    s[i].lemma_total(s[i]);
                }
            }
            if self.heap[k].goes_first(self.heap[c]) {
                proof {
                    assert forall|i: int| 0 < i < s.len() implies s[parent(i)].first(
                        #[trigger] s[i],
                    ) by {
                        if parent(i) == k {
                            s[k as int].lemma_trans(s[c as int], s[i]);
                        }
                    }
                }
                break;
            }
            proof {
                lemma_swap(s, k as int, c as int);
                s[k as int].lemma_total(s[c as int]);
            }
            let at_k: OpenCell = self.heap[k];
            let at_c: OpenCell = self.heap[c];
            self.heap.set(k, at_c);
            self.heap.set(c, at_k);
            proof {
                let t = self.heap@;
                assert(parent(c as int) == k);
                assert forall|i: int|
                    0 < i < t.len() && i != c && parent(i) != c implies t[parent(i)].first(
                    #[trigger] t[i],
                ) by {
                    if parent(i) == k {
                        assert(s[c as int].first(s[i]));
                    } else if i == k {
                        assert(s[parent(k as int)].first(s[c as int]));
                    } else {
                        assert(s[parent(i)].first(s[i]));
                    }
                }
                assert forall|i: int|
                    0 < i < t.len() && parent(i) == c && c > 0 implies t[parent(c as int)].first(
                    #[trigger] t[i],
                ) by {
                    assert(s[parent(i)].first(s[i]));
                }
            }
            k = c;
        }
        Some(top)
    }
}

} // verus!
