//! A hash map keyed by the integer indices of a cell, which lists its entries in
//! the order of their first insertion.
use std::collections::HashMap;
use vstd::prelude::*;

verus! {

/// The indices of a cell along three axes; the third is zero in a plane.
pub type Cell = (i64, i64, i64);

/// A map from cells to values.
///
/// The entries stand in a list; `columns` maps the first two indices of a cell to
/// the first entry with these, and `slots` maps that entry and the third index to
/// the entry of the cell.
#[derive(Debug)]
pub struct CellMap<V> {
    entries: Vec<(Cell, V)>,
    columns: HashMap<u128, usize>,
    slots: HashMap<u128, usize>,
}

/// An index moved into the range of the numbers that are not negative.
pub open spec fn shifted(i: i64) -> int {
    i + 0x8000_0000_0000_0000
}

/// Two numbers below 2^64 in one.
pub open spec fn packed(a: int, b: int) -> int {
    a * 0x1_0000_0000_0000_0000 + b
}

proof fn lemma_packed(a: int, b: int, c: int, d: int)
    requires
        0 <= a < 0x1_0000_0000_0000_0000,
        0 <= b < 0x1_0000_0000_0000_0000,
        0 <= c < 0x1_0000_0000_0000_0000,
        0 <= d < 0x1_0000_0000_0000_0000,
    ensures
        0 <= packed(a, b) <= u128::MAX,
        packed(a, b) == packed(c, d) <==> a == c && b == d,
{
}

fn pack(a: i64, b: i64) -> (r: u128)
    ensures
        r == packed(shifted(a), shifted(b)),
{
    let hi: u128 = (a as i128 + 0x8000_0000_0000_0000) as u128;
    let lo: u128 = (b as i128 + 0x8000_0000_0000_0000) as u128;
    hi * 0x1_0000_0000_0000_0000 + lo
}

fn pack_slot(first: usize, c: i64) -> (r: u128)
    ensures
        r == packed(first as int, shifted(c)),
{
    let lo: u128 = (c as i128 + 0x8000_0000_0000_0000) as u128;
    first as u128 * 0x1_0000_0000_0000_0000 + lo
}

/// The key of the column of a cell.
spec fn column_key(k: Cell) -> u128 {
    packed(shifted(k.0), shifted(k.1)) as u128
}

/// The key of the slot of a cell in a column.
spec fn slot_key(first: usize, k: Cell) -> u128 {
    packed(first as int, shifted(k.2)) as u128
}

/// The map that a list of entries makes, later ones in front of earlier ones.
pub open spec fn entry_map<V>(s: Seq<(Cell, V)>) -> Map<Cell, V>
    decreases s.len(),
{
    if s.len() == 0 {
        Map::empty()
    } else {
        entry_map(s.drop_last()).insert(s.last().0, s.last().1)
    }
}

/// No cell has two entries.
pub open spec fn distinct<V>(s: Seq<(Cell, V)>) -> bool {
    forall|i: int, j: int| 0 <= i < j < s.len() ==> (#[trigger] s[i]).0 != (#[trigger] s[j]).0
}

/// Entries with distinct cells and their map say the same.
pub proof fn lemma_entry_map<V>(s: Seq<(Cell, V)>)
    requires
        distinct(s),
    ensures
        forall|i: int|
            0 <= i < s.len() ==> entry_map(s).contains_key((#[trigger] s[i]).0) && entry_map(
                s,
            )[s[i].0] == s[i].1,
        forall|k: Cell| #[trigger]
            entry_map(s).contains_key(k) ==> exists|i: int| 0 <= i < s.len() && s[i].0 == k,
        entry_map(s).dom().finite(),
        entry_map(s).len() == s.len(),
    decreases s.len(),
{
    if s.len() > 0 {
        let r = s.drop_last();
        assert(distinct(r)) by {
            assert forall|i: int, j: int| 0 <= i < j < r.len() implies (#[trigger] r[i]).0 != (
            #[trigger] r[j]).0 by {
                assert(s[i].0 != s[j].0);
            }
        }
        lemma_entry_map(r);
        assert(!entry_map(r).contains_key(s.last().0)) by {
            if entry_map(r).contains_key(s.last().0) {
                let i = choose|i: int| 0 <= i < r.len() && r[i].0 == s.last().0;
                assert(s[i].0 != s[s.len() - 1].0);
            }
        }
        assert forall|i: int| 0 <= i < s.len() implies entry_map(s).contains_key(
            (#[trigger] s[i]).0,
        ) && entry_map(s)[s[i].0] == s[i].1 by {
            if i < r.len() {
                assert(r[i] == s[i]);
                assert(s[i].0 != s[s.len() - 1].0);
            }
        }
        assert forall|k: Cell| #[trigger] entry_map(s).contains_key(k) implies exists|i: int|
            0 <= i < s.len() && s[i].0 == k by {
            if k == s.last().0 {
                assert(s[s.len() - 1].0 == k);
            } else {
                assert(entry_map(r).contains_key(k));
                let i = choose|i: int| 0 <= i < r.len() && r[i].0 == k;
                assert(s[i].0 == k);
            }
        }
    }
}

impl<V> CellMap<V> {
    /// The entries in the order of their first insertion.
    pub closed spec fn listed(self) -> Seq<(Cell, V)> {
        self.entries@
    }

    /// The invariant.
    pub closed spec fn wf(self) -> bool {
        let s = self.entries@;
        &&& distinct(s)
        &&& forall|i: int|
            0 <= i < s.len() ==> {
                let first = self.columns@[column_key((#[trigger] s[i]).0)];
                &&& self.columns@.contains_key(column_key(s[i].0))
                &&& self.slots@.contains_key(slot_key(first, s[i].0))
                &&& self.slots@[slot_key(first, s[i].0)] == i
            }
        &&& forall|c: u128| #[trigger]
            self.columns@.contains_key(c) ==> self.columns@[c] < s.len() && c == column_key(
                s[self.columns@[c] as int].0,
            )
        &&& forall|c: u128| #[trigger]
            self.slots@.contains_key(c) ==> {
                let i = self.slots@[c];
                &&& i < s.len()
                &&& c == slot_key(self.columns@[column_key(s[i as int].0)], s[i as int].0)
            }
    }
}

impl<V> View for CellMap<V> {
    type V = Map<Cell, V>;

    closed spec fn view(&self) -> Map<Cell, V> {
        entry_map(self.entries@)
    }
}

impl<V: Copy> CellMap<V> {
    /// An empty map.
    pub fn new() -> (r: Self)
        ensures
            r.wf(),
            r@ == Map::<Cell, V>::empty(),
            r.listed() == Seq::<(Cell, V)>::empty(),
    {
        broadcast use vstd::std_specs::hash::group_hash_axioms;

        CellMap { entries: Vec::new(), columns: HashMap::new(), slots: HashMap::new() }
    }

    /// The list of entries and the map agree.
    pub proof fn lemma_listed(self)
        requires
            self.wf(),
        ensures
            self@ == entry_map(self.listed()),
            distinct(self.listed()),
            self@.len() == self.listed().len(),
            forall|i: int|
                0 <= i < self.listed().len() ==> self@.contains_key(
                    (#[trigger] self.listed()[i]).0,
                ) && self@[self.listed()[i].0] == self.listed()[i].1,
            forall|k: Cell| #[trigger]
                self@.contains_key(k) ==> exists|i: int|
                    0 <= i < self.listed().len() && self.listed()[i].0 == k,
    {
        lemma_entry_map(self.entries@);
    }

    /// The place of the entry of a cell.
    fn find(&self, k: Cell) -> (r: Option<usize>)
        requires
            self.wf(),
        ensures
            match r {
                Some(i) => i < self.listed().len() && self.listed()[i as int].0 == k,
                None => forall|i: int|
                    0 <= i < self.listed().len() ==> (#[trigger] self.listed()[i]).0 != k,
            },
            r is None && self.columns@.contains_key(column_key(k)) ==> !self.slots@.contains_key(
                slot_key(self.columns@[column_key(k)], k),
            ),
    {
        broadcast use vstd::std_specs::hash::group_hash_axioms;

        let ghost s = self.entries@;
        let c: u128 = pack(k.0, k.1);
        match self.columns.get(&c) {
            None => {
                proof {
                    assert forall|i: int| 0 <= i < s.len() implies (#[trigger] s[i]).0 != k by {
                        assert(self.columns@.contains_key(column_key(s[i].0)));
                    }
                }
                None
            },
            Some(first) => {
                let first: usize = *first;
                let t: u128 = pack_slot(first, k.2);
                match self.slots.get(&t) {
                    None => {
                        proof {
                            assert forall|i: int| 0 <= i < s.len() implies (#[trigger] s[i]).0 != k by {
                                assert(self.slots@.contains_key(
                                    slot_key(self.columns@[column_key(s[i].0)], s[i].0),
                                ));
                            }
                        }
                        None
                    },
                    Some(i) => {
                        proof {
                            let e = s[*i as int].0;
                            let other = self.columns@[column_key(e)];
                            assert(self.columns@.contains_key(column_key(e)));
                            lemma_packed(
                                first as int,
                                shifted(k.2),
                                other as int,
                                shifted(e.2),
                            );
                            assert(first == other && k.2 == e.2);
                            lemma_packed(shifted(k.0), shifted(k.1), shifted(e.0), shifted(e.1));
                            assert(self.columns@.contains_key(c));
                            assert(c == column_key(s[first as int].0));
                            assert(column_key(e) == column_key(s[first as int].0));
                        }
                        Some(*i)
                    },
                }
            },
        }
    }

    /// The value of a cell.
    pub fn get(&self, k: Cell) -> (r: Option<V>)
        requires
            self.wf(),
        ensures
            r == if self@.contains_key(k) {
                Some(self@[k])
            } else {
                None
            },
    {
        proof {
            lemma_entry_map(self.entries@);
        }
        match self.find(k) {
            Some(i) => Some(self.entries[i].1),
            None => None,
        }
    }

    /// Sets the value of a cell.
    pub fn insert(&mut self, k: Cell, v: V)
        requires
            old(self).wf(),
        ensures
            final(self).wf(),
            final(self)@ == old(self)@.insert(k, v),
    {
        broadcast use vstd::std_specs::hash::group_hash_axioms;

        let ghost s = self.entries@;
        match self.find(k) {
            Some(i) => {
                self.entries.set(i, (k, v));
                proof {
                    let t = self.entries@;
                    assert forall|j: int| 0 <= j < t.len() implies (#[trigger] t[j]).0 == s[j].0 by {
                    }
                    assert(distinct(t)) by {
                        assert forall|a: int, b: int| 0 <= a < b < t.len() implies (#[trigger] t[a]).0
                            != (#[trigger] t[b]).0 by {
                            assert(s[a].0 != s[b].0);
                        }
                    }
                    lemma_entry_map(s);
                    lemma_entry_map(t);
                    assert forall|c: u128| #[trigger] self.slots@.contains_key(c) implies {
                        let i = self.slots@[c];
                        &&& i < t.len()
                        &&& c == slot_key(self.columns@[column_key(t[i as int].0)], t[i as int].0)
                    } by {
                        assert(t[self.slots@[c] as int].0 == s[self.slots@[c] as int].0);
                    }
                    let m = entry_map(s).insert(k, v);
                    assert forall|c: Cell| #[trigger]
                        entry_map(t).contains_key(c) <==> m.contains_key(c) by {
                        if entry_map(t).contains_key(c) {
                            let j = choose|j: int| 0 <= j < t.len() && t[j].0 == c;
                            assert(s[j].0 == c);
                        }
                        if entry_map(s).contains_key(c) {
                            let j = choose|j: int| 0 <= j < s.len() && s[j].0 == c;
                            assert(t[j].0 == c);
                        }
                        if c == k {
                            assert(t[i as int].0 == c);
                        }
                    }
                    assert forall|c: Cell|
                        entry_map(t).contains_key(c) implies #[trigger] entry_map(t)[c] == m[c] by {
                        let j = choose|j: int| 0 <= j < t.len() && t[j].0 == c;
                        assert(s[j].0 == c);
                        if j != i {
                            assert(t[j] == s[j]);
                            assert(s[j].0 != k) by {
                                if j < i {
                                    assert(s[j].0 != s[i as int].0);
                                } else {
                                    assert(s[i as int].0 != s[j].0);
                                }
                            }
                        } else {
                            assert(t[j].1 == v);
                        }
                    }
                    assert(entry_map(t) =~= m);
                }
            },
            None => {
                let n: usize = self.entries.len();
                let c: u128 = pack(k.0, k.1);
                let first: usize = match self.columns.get(&c) {
                    Some(first) => *first,
                    None => n,
                };
                let ghost cols = self.columns@;
                let ghost slots = self.slots@;
                let t: u128 = pack_slot(first, k.2);
                proof {
                    lemma_packed(shifted(k.0), shifted(k.1), 0, 0);
                    lemma_packed(first as int, shifted(k.2), 0, 0);
                    if slots.contains_key(t) {
                        let i = slots[t];
                        let e = s[i as int].0;
                        let other = cols[column_key(e)];
                        assert(cols.contains_key(column_key(e)));
                        lemma_packed(first as int, shifted(k.2), other as int, shifted(e.2));
                        assert(other < n);
                        assert(cols.contains_key(c));
                    }
                    assert(!slots.contains_key(t));
                }
                if first == n {
                    self.columns.insert(c, n);
                }
                self.slots.insert(t, n);
                self.entries.push((k, v));
                proof {
                    let u = self.entries@;
                    assert(u.drop_last() =~= s);
                    assert(entry_map(u) =~= entry_map(s).insert(k, v));
                    assert(cols.contains_key(c) ==> first == cols[c] && first < n);
                    assert forall|d: u128| cols.contains_key(d) implies #[trigger] self.columns@[d]
                        == cols[d] by {
                    }
                    assert forall|i: int| 0 <= i < u.len() implies {
                        let f = self.columns@[column_key((#[trigger] u[i]).0)];
                        &&& self.columns@.contains_key(column_key(u[i].0))
                        &&& self.slots@.contains_key(slot_key(f, u[i].0))
                        &&& self.slots@[slot_key(f, u[i].0)] == i
                    } by {
                        if i < n {
                            assert(u[i] == s[i]);
                            assert(cols.contains_key(column_key(s[i].0)));
                            assert(slots.contains_key(slot_key(cols[column_key(s[i].0)], s[i].0)));
                        }
                    }
                    assert forall|d: u128| #[trigger]
                        self.columns@.contains_key(d) implies self.columns@[d] < u.len() && d
                        == column_key(u[self.columns@[d] as int].0) by {
                        if cols.contains_key(d) {
                            assert(u[cols[d] as int] == s[cols[d] as int]);
                        }
                    }
                    assert forall|d: u128| #[trigger] self.slots@.contains_key(d) implies {
                        let i = self.slots@[d];
                        &&& i < u.len()
                        &&& d == slot_key(self.columns@[column_key(u[i as int].0)], u[i as int].0)
                    } by {
                        if d != t {
                            let i = slots[d];
                            assert(slots.contains_key(d));
                            assert(u[i as int] == s[i as int]);
                            assert(cols.contains_key(column_key(s[i as int].0)));
                        }
                    }
                }
            },
        }
    }

    /// The number of cells with a value.
    pub fn len(&self) -> (r: usize)
        requires
            self.wf(),
        ensures
            r == self@.len(),
            r == self.listed().len(),
    {
        proof {
            lemma_entry_map(self.entries@);
        }
        self.entries.len()
    }

    /// The entry at a place of the list.
    pub fn entry(&self, i: usize) -> (r: (Cell, V))
        requires
            i < self.listed().len(),
        ensures
            r == self.listed()[i as int],
    {
        self.entries[i]
    }

    /// Forgets every value.
    pub fn clear(&mut self)
        ensures
            final(self).wf(),
            final(self)@ == Map::<Cell, V>::empty(),
            final(self).listed() == Seq::<(Cell, V)>::empty(),
    {
        broadcast use vstd::std_specs::hash::group_hash_axioms;

        self.entries.clear();
        self.columns.clear();
        self.slots.clear();
    }
}

impl<V: Copy> Clone for CellMap<V> {
    fn clone(&self) -> (r: Self)
        ensures
            self.wf() ==> r.wf() && r@ == self@,
    {
        let mut r: CellMap<V> = CellMap::new();
        let mut i: usize = 0;
        while i < self.entries.len()
            invariant
                i <= self.entries@.len(),
                r.wf(),
                r@ == entry_map(self.entries@.take(i as int)),
            decreases self.entries@.len() - i,
        {
            let e: (Cell, V) = self.entries[i];
            r.insert(e.0, e.1);
            proof {
                let t = self.entries@.take(i + 1);
                assert(t.drop_last() =~= self.entries@.take(i as int));
            }
            i = i + 1;
        }
        assert(self.entries@.take(i as int) =~= self.entries@);
        r
    }
}

} // verus!
