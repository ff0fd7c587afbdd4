use vstd::prelude::*;

verus! {

/// A map from (row, column) pairs of indices to values.
pub struct Table<V> {
    entries: Vec<(usize, usize, V)>,
}

impl<V> Table<V> {
    /// The cells that hold a value.
    pub closed spec fn view_map(&self) -> Map<(usize, usize), V> {
        Map::new(
            |k: (usize, usize)| exists|i: int| 0 <= i < self.entries@.len() && self.entries@[i].0 == k.0 && self.entries@[i].1 == k.1,
            |k: (usize, usize)| {
                let i = choose|i: int| 0 <= i < self.entries@.len() && self.entries@[i].0 == k.0 && self.entries@[i].1 == k.1;
                self.entries@[i].2
            },
        )
    }

    /// No cell is listed twice.
    pub closed spec fn wf(&self) -> bool {
        forall|i: int, j: int|
            0 <= i < self.entries@.len() && 0 <= j < self.entries@.len() && i != j ==> (#[trigger] self.entries@[i].0
                != #[trigger] self.entries@[j].0 || self.entries@[i].1 != self.entries@[j].1)
    }

    /// An empty table.
    pub fn new() -> (r: Self)
        ensures
            r.wf(),
            r.view_map() == Map::<(usize, usize), V>::empty(),
    {
        let r = Table { entries: Vec::new() };
        proof {
            assert(r.view_map() =~= Map::<(usize, usize), V>::empty());
        }
        r
    }

    fn position(&self, row: usize, col: usize) -> (r: Option<usize>)
        ensures
            match r {
                Some(i) => i < self.entries@.len() && self.entries@[i as int].0 == row && self.entries@[i as int].1 == col,
                None => forall|i: int| 0 <= i < self.entries@.len() ==> !(self.entries@[i].0 == row && self.entries@[i].1 == col),
            },
    {
        let mut i: usize = 0;
        while i < self.entries.len()
            invariant
                i <= self.entries@.len(),
                forall|j: int| 0 <= j < i ==> !(self.entries@[j].0 == row && self.entries@[j].1 == col),
            decreases self.entries@.len() - i,
        {
            if self.entries[i].0 == row && self.entries[i].1 == col {
                return Some(i);
            }
            i = i + 1;
        }
        None
    }

    /// The value in cell (`row`, `col`), if any.
    pub fn get(&self, row: &usize, col: &usize) -> (r: Option<&V>)
        requires
            self.wf(),
        ensures
            match r {
                Some(v) => self.view_map().contains_key((*row, *col)) && *v == self.view_map()[(*row, *col)],
                None => !self.view_map().contains_key((*row, *col)),
            },
    {
        match self.position(*row, *col) {
            Some(i) => {
                proof {
                    let k = (*row, *col);
                    assert(self.view_map().contains_key(k));
                    let j = choose|j: int| 0 <= j < self.entries@.len() && self.entries@[j].0 == k.0 && self.entries@[j].1 == k.1;
                    assert(j == i);
                }
                Some(&self.entries[i].2)
            },
            None => None,
        }
    }

    /// Puts `v` in cell (`row`, `col`), replacing what was there.
    pub fn set(&mut self, row: usize, col: usize, v: V)
        requires
            old(self).wf(),
        ensures
            final(self).wf(),
            final(self).view_map() == old(self).view_map().insert((row, col), v),
    {
        let ghost before = *self;
        match self.position(row, col) {
            Some(i) => {
                self.entries.set(i, (row, col, v));
                proof {
                    assert forall|k: (usize, usize)| #[trigger] self.view_map().contains_key(k) == before.view_map().insert((row, col), v).contains_key(k) by {
                        if before.view_map().contains_key(k) {
                            let j = choose|j: int| 0 <= j < before.entries@.len() && before.entries@[j].0 == k.0 && before.entries@[j].1 == k.1;
                            assert(self.entries@[j].0 == k.0 && self.entries@[j].1 == k.1);
                        }
                        if self.view_map().contains_key(k) {
                            let j = choose|j: int| 0 <= j < self.entries@.len() && self.entries@[j].0 == k.0 && self.entries@[j].1 == k.1;
                            assert(before.entries@[j].0 == k.0 && before.entries@[j].1 == k.1);
                        }
                    }
                    assert forall|k: (usize, usize)| #[trigger] self.view_map().contains_key(k) implies self.view_map()[k] == before.view_map().insert((row, col), v)[k] by {
                        let j = choose|j: int| 0 <= j < self.entries@.len() && self.entries@[j].0 == k.0 && self.entries@[j].1 == k.1;
                        if k == (row, col) {
                            assert(j == i);
                        } else {
                            assert(before.view_map().contains_key(k)) by {
                                assert(before.entries@[j].0 == k.0 && before.entries@[j].1 == k.1);
                            }
                            let j2 = choose|j2: int| 0 <= j2 < before.entries@.len() && before.entries@[j2].0 == k.0 && before.entries@[j2].1 == k.1;
                            assert(j2 == j);
                        }
                    }
                    assert(self.view_map() =~= before.view_map().insert((row, col), v));
                }
            },
            None => {
                self.entries.push((row, col, v));
                proof {
                    let n = before.entries@.len() as int;
                    assert forall|k: (usize, usize)| #[trigger] self.view_map().contains_key(k) == before.view_map().insert((row, col), v).contains_key(k) by {
                        if before.view_map().contains_key(k) {
                            let j = choose|j: int| 0 <= j < before.entries@.len() && before.entries@[j].0 == k.0 && before.entries@[j].1 == k.1;
                            assert(self.entries@[j].0 == k.0 && self.entries@[j].1 == k.1);
                        }
                        if k == (row, col) {
                            assert(self.entries@[n].0 == k.0 && self.entries@[n].1 == k.1);
                        }
                        if self.view_map().contains_key(k) && k != (row, col) {
                            let j = choose|j: int| 0 <= j < self.entries@.len() && self.entries@[j].0 == k.0 && self.entries@[j].1 == k.1;
                            assert(before.entries@[j].0 == k.0 && before.entries@[j].1 == k.1);
                        }
                    }
                    assert forall|k: (usize, usize)| #[trigger] self.view_map().contains_key(k) implies self.view_map()[k] == before.view_map().insert((row, col), v)[k] by {
                        let j = choose|j: int| 0 <= j < self.entries@.len() && self.entries@[j].0 == k.0 && self.entries@[j].1 == k.1;
                        if k == (row, col) {
                            assert(j == n);
                        } else {
                            assert(before.entries@[j].0 == k.0 && before.entries@[j].1 == k.1);
                            let j2 = choose|j2: int| 0 <= j2 < before.entries@.len() && before.entries@[j2].0 == k.0 && before.entries@[j2].1 == k.1;
                            assert(j2 == j);
                        }
                    }
                    assert(self.view_map() =~= before.view_map().insert((row, col), v));
                }
            },
        }
    }
}

} // verus!
