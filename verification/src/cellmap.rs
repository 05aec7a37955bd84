//! Finite maps and sets keyed by grid cells.
use vstd::prelude::*;

use crate::cell::Cell;

verus! {

/// Keys of an entry sequence.
pub open spec fn entry_keys<V>(s: Seq<(Cell, V)>) -> Seq<Cell> {
    s.map_values(|e: (Cell, V)| e.0)
}

/// The map an entry sequence stands for (later entries never repeat earlier keys).
pub open spec fn entries_map<V>(s: Seq<(Cell, V)>) -> Map<Cell, V>
    decreases s.len(),
{
    if s.len() == 0 {
        Map::empty()
    } else {
        entries_map(s.drop_last()).insert(s.last().0, s.last().1)
    }
}

/// A map from cells to values.
#[derive(Debug)]
pub struct CellMap<V> {
    entries: Vec<(Cell, V)>,
}

impl<V: Copy> Clone for CellMap<V> {
    fn clone(&self) -> (r: Self)
        ensures
            r.entries_seq() == self.entries_seq(),
            r@ == self@,
            r.wf() == self.wf(),
    {
        let mut entries: Vec<(Cell, V)> = Vec::new();
        let mut i: usize = 0;
        while i < self.entries.len()
            invariant
                i <= self.entries@.len(),
                entries@ == self.entries@.take(i as int),
            decreases self.entries@.len() - i,
        {
            entries.push(self.entries[i]);
            i = i + 1;
            assert(entries@ =~= self.entries@.take(i as int));
        }
        assert(self.entries@.take(i as int) =~= self.entries@);
        CellMap { entries }
    }
}

proof fn lemma_entries_map_dom<V>(s: Seq<(Cell, V)>)
    ensures
        entries_map(s).dom() == entry_keys(s).to_set(),
        entries_map(s).dom().finite(),
    decreases s.len(),
{
    if s.len() == 0 {
        assert(entry_keys(s).to_set() =~= Set::empty());
    } else {
        lemma_entries_map_dom(s.drop_last());
        assert(entry_keys(s) =~= entry_keys(s.drop_last()).push(s.last().0));
        assert(entry_keys(s).to_set() =~= entry_keys(s.drop_last()).to_set().insert(s.last().0))
            by {
            entry_keys(s.drop_last()).lemma_push_to_set_commute(s.last().0);
        }
    }
}

proof fn lemma_entries_map_index<V>(s: Seq<(Cell, V)>, i: int)
    requires
        entry_keys(s).no_duplicates(),
        0 <= i < s.len(),
    ensures
        entries_map(s).contains_key(s[i].0),
        entries_map(s)[s[i].0] == s[i].1,
    decreases s.len(),
{
    lemma_entries_map_dom(s);
    assert(entry_keys(s)[i] == s[i].0);
    if i == s.len() - 1 {
    } else {
        assert(entry_keys(s.drop_last()) =~= entry_keys(s).drop_last());
        lemma_entries_map_index(s.drop_last(), i);
        assert(entry_keys(s)[s.len() - 1] == s.last().0);
    }
}

proof fn lemma_entries_map_absent<V>(s: Seq<(Cell, V)>, k: Cell)
    requires
        forall|i: int| 0 <= i < s.len() ==> s[i].0 != k,
    ensures
        !entries_map(s).contains_key(k),
    decreases s.len(),
{
    if s.len() > 0 {
        lemma_entries_map_absent(s.drop_last(), k);
    }
}

proof fn lemma_entries_map_update<V>(s: Seq<(Cell, V)>, i: int, v: V)
    requires
        entry_keys(s).no_duplicates(),
        0 <= i < s.len(),
    ensures
        entry_keys(s.update(i, (s[i].0, v))) == entry_keys(s),
        entries_map(s.update(i, (s[i].0, v))) == entries_map(s).insert(s[i].0, v),
{
    let t = s.update(i, (s[i].0, v));
    assert(entry_keys(t) =~= entry_keys(s));
    lemma_entries_map_dom(s);
    lemma_entries_map_dom(t);
    assert forall|k: Cell| #[trigger] entries_map(t).contains_key(k) implies entries_map(t)[k]
        == entries_map(s).insert(s[i].0, v)[k] by {
        assert(entry_keys(t).contains(k));
        let j = choose|j: int| 0 <= j < entry_keys(t).len() && entry_keys(t)[j] == k;
        lemma_entries_map_index(t, j);
        assert(entry_keys(t)[j] == t[j].0);
        if j != i {
            assert(t[j] == s[j]);
            assert(entry_keys(s)[j] == s[j].0);
            assert(entry_keys(s)[i] == s[i].0);
            assert(entry_keys(s)[j] != entry_keys(s)[i]);
            lemma_entries_map_index(s, j);
        }
    }
    lemma_entries_map_index(s, i);
    assert(entries_map(t).dom() =~= entries_map(s).insert(s[i].0, v).dom());
    assert(entries_map(t) =~= entries_map(s).insert(s[i].0, v));
}

proof fn lemma_entries_map_remove<V>(s: Seq<(Cell, V)>, i: int)
    requires
        entry_keys(s).no_duplicates(),
        0 <= i < s.len(),
    ensures
        entry_keys(s.remove(i)).no_duplicates(),
        entries_map(s.remove(i)) == entries_map(s).remove(s[i].0),
{
    let t = s.remove(i);
    assert(entry_keys(t) =~= entry_keys(s).remove(i));
    assert(entry_keys(t).no_duplicates()) by {
        assert forall|a: int, b: int|
            0 <= a < entry_keys(t).len() && 0 <= b < entry_keys(t).len() && a != b implies
            entry_keys(t)[a] != entry_keys(t)[b] by {
            let aa = if a < i { a } else { a + 1 };
            let bb = if b < i { b } else { b + 1 };
            assert(entry_keys(t)[a] == entry_keys(s)[aa]);
            assert(entry_keys(t)[b] == entry_keys(s)[bb]);
        }
    }
    lemma_entries_map_dom(s);
    lemma_entries_map_dom(t);
    assert forall|k: Cell| #[trigger] entries_map(s).remove(s[i].0).contains_key(k) implies
        entries_map(t).contains_key(k) && entries_map(t)[k] == entries_map(s)[k] by {
        assert(entry_keys(s).contains(k));
        let j = choose|j: int| 0 <= j < entry_keys(s).len() && entry_keys(s)[j] == k;
        assert(j != i);
        let jj = if j < i { j } else { j - 1 };
        assert(t[jj] == s[j]);
        assert(entry_keys(t)[jj] == k);
        lemma_entries_map_index(t, jj);
        lemma_entries_map_index(s, j);
    }
    assert forall|k: Cell| #[trigger] entries_map(t).contains_key(k) implies entries_map(
        s,
    ).remove(s[i].0).contains_key(k) by {
        assert(entry_keys(t).contains(k));
        let j = choose|j: int| 0 <= j < entry_keys(t).len() && entry_keys(t)[j] == k;
        let jj = if j < i { j } else { j + 1 };
        assert(entry_keys(s)[jj] == k);
        assert(entry_keys(s).contains(k));
        assert(jj != i);
        assert(entry_keys(s)[i] == s[i].0);
        assert(k != s[i].0);
    }
    assert(entries_map(t) =~= entries_map(s).remove(s[i].0));
}

impl<V: Copy> CellMap<V> {
    pub closed spec fn wf(&self) -> bool {
        entry_keys(self.entries@).no_duplicates()
    }

    pub closed spec fn view(&self) -> Map<Cell, V> {
        entries_map(self.entries@)
    }

    /// The entries in storage order.
    pub closed spec fn entries_seq(&self) -> Seq<(Cell, V)> {
        self.entries@
    }

    pub proof fn lemma_view_finite(&self)
        ensures
            self@.dom().finite(),
            self@.dom() == entry_keys(self.entries_seq()).to_set(),
    {
        lemma_entries_map_dom(self.entries@);
    }

    /// Each stored entry is in the map, and each key is stored once.
    pub proof fn lemma_entries(&self)
        requires
            self.wf(),
        ensures
            forall|i: int|
                0 <= i < self.entries_seq().len() ==> #[trigger] self@.contains_key(
                    self.entries_seq()[i].0,
                ) && self@[self.entries_seq()[i].0] == self.entries_seq()[i].1,
            entry_keys(self.entries_seq()).no_duplicates(),
            self@.dom() == entry_keys(self.entries_seq()).to_set(),
            self@.dom().len() == self.entries_seq().len(),
    {
        lemma_entries_map_dom(self.entries@);
        assert forall|i: int| 0 <= i < self.entries_seq().len() implies #[trigger] self@.contains_key(
            self.entries_seq()[i].0,
        ) && self@[self.entries_seq()[i].0] == self.entries_seq()[i].1 by {
            lemma_entries_map_index(self.entries@, i);
        }
        entry_keys(self.entries@).unique_seq_to_set();
    }

    pub fn new() -> (m: CellMap<V>)
        ensures
            m.wf(),
            m@ == Map::<Cell, V>::empty(),
    {
        let m = CellMap { entries: Vec::new() };
        assert(entry_keys(m.entries@) =~= Seq::<Cell>::empty());
        m
    }

    pub fn len(&self) -> (n: usize)
        requires
            self.wf(),
        ensures
            n == self@.dom().len(),
    {
        proof {
            self.lemma_entries();
        }
        self.entries.len()
    }

    pub fn is_empty(&self) -> (r: bool)
        requires
            self.wf(),
        ensures
            r == (self@.dom().len() == 0),
            r == (self@ == Map::<Cell, V>::empty()),
    {
        proof {
            self.lemma_entries();
            if self.entries@.len() == 0 {
                assert(self@ =~= Map::<Cell, V>::empty());
            } else {
                assert(self@.contains_key(self.entries@[0].0));
            }
        }
        self.entries.len() == 0
    }

    fn index_of(&self, k: Cell) -> (r: Option<usize>)
        requires
            self.wf(),
        ensures
            match r {
                Some(i) => i < self.entries@.len() && self.entries@[i as int].0 == k,
                None => forall|i: int| 0 <= i < self.entries@.len() ==> self.entries@[i].0 != k,
            },
    {
        let mut i: usize = 0;
        while i < self.entries.len()
            invariant
                i <= self.entries@.len(),
                forall|j: int| 0 <= j < i ==> self.entries@[j].0 != k,
            decreases self.entries@.len() - i,
        {
            if self.entries[i].0 == k {
                return Some(i);
            }
            i = i + 1;
        }
        None
    }

    pub fn get(&self, k: Cell) -> (r: Option<V>)
        requires
            self.wf(),
        ensures
            r == (if self@.contains_key(k) { Some(self@[k]) } else { None::<V> }),
    {
        match self.index_of(k) {
            Some(i) => {
                proof {
                    lemma_entries_map_index(self.entries@, i as int);
                }
                Some(self.entries[i].1)
            },
            None => {
                proof {
                    lemma_entries_map_absent(self.entries@, k);
                }
                None
            },
        }
    }

    pub fn contains_key(&self, k: Cell) -> (r: bool)
        requires
            self.wf(),
        ensures
            r == self@.contains_key(k),
    {
        match self.index_of(k) {
            Some(i) => {
                proof {
                    lemma_entries_map_index(self.entries@, i as int);
                }
                true
            },
            None => {
                proof {
                    lemma_entries_map_absent(self.entries@, k);
                }
                false
            },
        }
    }

    /// Sets the value at `k`, returning the value it replaced.
    pub fn insert(&mut self, k: Cell, v: V) -> (r: Option<V>)
        requires
            old(self).wf(),
        ensures
            final(self).wf(),
            final(self)@ == old(self)@.insert(k, v),
            r == (if old(self)@.contains_key(k) { Some(old(self)@[k]) } else { None::<V> }),
    {
        match self.index_of(k) {
            Some(i) => {
                let prev = self.entries[i].1;
                proof {
                    lemma_entries_map_index(self.entries@, i as int);
                    lemma_entries_map_update(self.entries@, i as int, v);
                }
                self.entries.set(i, (k, v));
                Some(prev)
            },
            None => {
                proof {
                    lemma_entries_map_absent(self.entries@, k);
                    lemma_entries_map_dom(self.entries@);
                }
                let ghost before = self.entries@;
                self.entries.push((k, v));
                proof {
                    assert(self.entries@.drop_last() =~= before);
                    assert(entry_keys(self.entries@) =~= entry_keys(before).push(k));
                    assert(!entry_keys(before).contains(k));
                }
                None
            },
        }
    }

    /// Removes `k`, returning the value it held.
    pub fn remove(&mut self, k: Cell) -> (r: Option<V>)
        requires
            old(self).wf(),
        ensures
            final(self).wf(),
            final(self)@ == old(self)@.remove(k),
            r == (if old(self)@.contains_key(k) { Some(old(self)@[k]) } else { None::<V> }),
    {
        match self.index_of(k) {
            Some(i) => {
                proof {
                    lemma_entries_map_index(self.entries@, i as int);
                    lemma_entries_map_remove(self.entries@, i as int);
                }
                let e = self.entries.remove(i);
                Some(e.1)
            },
            None => {
                proof {
                    lemma_entries_map_absent(self.entries@, k);
                    assert(old(self)@.remove(k) =~= old(self)@);
                }
                None
            },
        }
    }

    pub fn clear(&mut self)
        ensures
            final(self).wf(),
            final(self)@ == Map::<Cell, V>::empty(),
    {
        self.entries = Vec::new();
        assert(entry_keys(self.entries@) =~= Seq::<Cell>::empty());
    }

    /// The keys, each once.
    pub fn keys(&self) -> (r: Vec<Cell>)
        requires
            self.wf(),
        ensures
            r@.no_duplicates(),
            r@.to_set() == self@.dom(),
            r@.len() == self@.dom().len(),
            r@ == entry_keys(self.entries_seq()),
    {
        let mut r: Vec<Cell> = Vec::new();
        let mut i: usize = 0;
        while i < self.entries.len()
            invariant
                i <= self.entries@.len(),
                r@ == entry_keys(self.entries@.take(i as int)),
            decreases self.entries@.len() - i,
        {
            r.push(self.entries[i].0);
            i = i + 1;
            assert(entry_keys(self.entries@.take(i as int)) =~= entry_keys(
                self.entries@.take(i - 1),
            ).push(self.entries@[i - 1].0));
        }
        assert(self.entries@.take(i as int) =~= self.entries@);
        proof {
            self.lemma_entries();
        }
        r
    }
}

/// A finite set of cells.
#[derive(Debug)]
pub struct CellSet {
    cells: Vec<Cell>,
}

impl Clone for CellSet {
    fn clone(&self) -> (r: Self)
        ensures
            r.elems() == self.elems(),
            r@ == self@,
            r.wf() == self.wf(),
    {
        CellSet { cells: self.cells.clone() }
    }
}

impl CellSet {
    pub closed spec fn wf(&self) -> bool {
        self.cells@.no_duplicates()
    }

    pub closed spec fn view(&self) -> Set<Cell> {
        self.cells@.to_set()
    }

    /// The members in storage order.
    pub closed spec fn elems(&self) -> Seq<Cell> {
        self.cells@
    }

    pub proof fn lemma_elems(&self)
        requires
            self.wf(),
        ensures
            self.elems().no_duplicates(),
            self@ == self.elems().to_set(),
            self@.finite(),
            self@.len() == self.elems().len(),
    {
        self.cells@.unique_seq_to_set();
    }

    pub fn new() -> (s: CellSet)
        ensures
            s.wf(),
            s@ == Set::<Cell>::empty(),
    {
        let s = CellSet { cells: Vec::new() };
        assert(s.cells@.to_set() =~= Set::<Cell>::empty());
        s
    }

    pub fn len(&self) -> (n: usize)
        requires
            self.wf(),
        ensures
            n == self@.len(),
    {
        proof {
            self.lemma_elems();
        }
        self.cells.len()
    }

    pub fn is_empty(&self) -> (r: bool)
        requires
            self.wf(),
        ensures
            r == (self@ == Set::<Cell>::empty()),
    {
        proof {
            if self.cells@.len() > 0 {
                assert(self@.contains(self.cells@[0]));
            } else {
                assert(self@ =~= Set::<Cell>::empty());
            }
        }
        self.cells.len() == 0
    }

    pub fn contains(&self, c: Cell) -> (r: bool)
        ensures
            r == self@.contains(c),
    {
        let mut i: usize = 0;
        while i < self.cells.len()
            invariant
                i <= self.cells@.len(),
                forall|j: int| 0 <= j < i ==> self.cells@[j] != c,
            decreases self.cells@.len() - i,
        {
            if self.cells[i] == c {
                assert(self.cells@.contains(c));
                return true;
            }
            i = i + 1;
        }
        false
    }

    /// Adds `c`; returns whether it was absent.
    pub fn insert(&mut self, c: Cell) -> (r: bool)
        requires
            old(self).wf(),
        ensures
            final(self).wf(),
            final(self)@ == old(self)@.insert(c),
            r == !old(self)@.contains(c),
            final(self).elems() == (if r { old(self).elems().push(c) } else { old(self).elems() }),
    {
        if self.contains(c) {
            false
        } else {
            self.cells.push(c);
            proof {
                old(self).cells@.lemma_push_to_set_commute(c);
            }
            true
        }
    }

    /// Removes `c`; returns whether it was present.
    pub fn remove(&mut self, c: Cell) -> (r: bool)
        requires
            old(self).wf(),
        ensures
            final(self).wf(),
            final(self)@ == old(self)@.remove(c),
            r == old(self)@.contains(c),
    {
        let mut i: usize = 0;
        while i < self.cells.len()
            invariant
                i <= self.cells@.len(),
                self.cells@ == old(self).cells@,
                old(self).cells@.no_duplicates(),
                forall|j: int| 0 <= j < i ==> self.cells@[j] != c,
            decreases self.cells@.len() - i,
        {
            if self.cells[i] == c {
                let ghost before = self.cells@;
                self.cells.remove(i);
                proof {
                    assert(self.cells@ =~= before.remove(i as int));
                    assert(self.cells@.no_duplicates()) by {
                        assert forall|a: int, b: int|
                            0 <= a < self.cells@.len() && 0 <= b < self.cells@.len() && a != b
                            implies self.cells@[a] != self.cells@[b] by {
                            let aa = if a < i { a } else { a + 1 };
                            let bb = if b < i { b } else { b + 1 };
                            assert(self.cells@[a] == before[aa]);
                            assert(self.cells@[b] == before[bb]);
                        }
                    }
                    assert forall|x: Cell| #[trigger] self@.contains(x) <==> old(self)@.remove(
                        c,
                    ).contains(x) by {
                        if self@.contains(x) {
                            let k = choose|k: int| 0 <= k < self.cells@.len() && self.cells@[k] == x;
                            let kk = if k < i { k } else { k + 1 };
                            assert(before[kk] == x);
                            assert(kk != i);
                            assert(before.contains(x));
                        }
                        if old(self)@.remove(c).contains(x) {
                            let k = choose|k: int| 0 <= k < before.len() && before[k] == x;
                            assert(k != i);
                            let kk = if k < i { k } else { k - 1 };
                            assert(self.cells@[kk] == x);
                        }
                    }
                    assert(self@ =~= old(self)@.remove(c));
                }
                return true;
            }
            i = i + 1;
        }
        assert(!old(self)@.contains(c));
        assert(old(self)@.remove(c) =~= old(self)@);
        false
    }

    /// Adds every member of `other`.
    pub fn extend(&mut self, other: &CellSet)
        requires
            old(self).wf(),
        ensures
            final(self).wf(),
            final(self)@ == old(self)@.union(other@),
    {
        let cells = other.to_vec();
        let mut i: usize = 0;
        while i < cells.len()
            invariant
                cells@ == other.elems(),
                other@ == other.elems().to_set(),
                i <= cells@.len(),
                self.wf(),
                self@ == old(self)@.union(cells@.take(i as int).to_set()),
            decreases cells@.len() - i,
        {
            self.insert(cells[i]);
            proof {
                assert(cells@.take(i + 1) =~= cells@.take(i as int).push(cells@[i as int]));
                cells@.take(i as int).lemma_push_to_set_commute(cells@[i as int]);
                assert(self@ =~= old(self)@.union(cells@.take(i + 1).to_set()));
            }
            i = i + 1;
        }
        assert(cells@.take(i as int) =~= cells@);
    }

    /// The members, each once.
    pub fn to_vec(&self) -> (r: Vec<Cell>)
        ensures
            r@ == self.elems(),
    {
        self.cells.clone()
    }

    /// The set of the given cells.
    pub fn from_slice(cells: &[Cell]) -> (s: CellSet)
        ensures
            s.wf(),
            s@ == cells@.to_set(),
    {
        let mut s = CellSet::new();
        let mut i: usize = 0;
        while i < cells.len()
            invariant
                i <= cells@.len(),
                s.wf(),
                s@ == cells@.take(i as int).to_set(),
            decreases cells@.len() - i,
        {
            s.insert(cells[i]);
            proof {
                assert(cells@.take(i + 1) =~= cells@.take(i as int).push(cells@[i as int]));
                cells@.take(i as int).lemma_push_to_set_commute(cells@[i as int]);
            }
            i = i + 1;
        }
        assert(cells@.take(i as int) =~= cells@);
        s
    }
}

} // verus!
