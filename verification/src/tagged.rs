//! An ordered coordinate map: a vector of `((x, y), value)` pairs kept
//! strictly increasing by key and searched by bisection.
use vstd::prelude::*;

verus! {

/// Lexicographic order on coordinates: first by `x`, then by `y`.
pub open spec fn key_lt(a: (i32, i32), b: (i32, i32)) -> bool {
    a.0 < b.0 || (a.0 == b.0 && a.1 < b.1)
}

/// A map from coordinates to values, stored as a sorted vector.
#[derive(Debug, Clone)]
pub struct Tagged<T> {
    entries: Vec<((i32, i32), T)>,
}

impl<T> View for Tagged<T> {
    type V = Seq<((i32, i32), T)>;

    /// The entries in storage order.
    closed spec fn view(&self) -> Seq<((i32, i32), T)> {
        self.entries@
    }
}

impl<T> Tagged<T> {
    /// Keys are strictly increasing in lexicographic order.
    pub open spec fn wf(&self) -> bool {
        forall|i: int, j: int|
            0 <= i < j < self@.len() ==> key_lt(#[trigger] self@[i].0, #[trigger] self@[j].0)
    }

    /// Whether some entry carries the key `k`.
    pub open spec fn has(&self, k: (i32, i32)) -> bool {
        exists|i: int| 0 <= i < self@.len() && (#[trigger] self@[i]).0 == k
    }

    /// The position of an entry with key `k`, where there is one.
    pub open spec fn index_of(&self, k: (i32, i32)) -> int {
        choose|i: int| 0 <= i < self@.len() && (#[trigger] self@[i]).0 == k
    }

    /// The contents as a mathematical map.
    pub open spec fn map(&self) -> Map<(i32, i32), T> {
        Map::new(|k: (i32, i32)| self.has(k), |k: (i32, i32)| self@[self.index_of(k)].1)
    }

    /// In a well-formed map the entry at position `i` is the one its key looks up.
    pub proof fn lemma_entry(&self, i: int)
        requires
            self.wf(),
            0 <= i < self@.len(),
        ensures
            self.has(self@[i].0),
            self.index_of(self@[i].0) == i,
            self.map().contains_key(self@[i].0),
            self.map()[self@[i].0] == self@[i].1,
    {
        let k = self@[i].0;
        let j = self.index_of(k);
        assert(0 <= j < self@.len() && self@[j].0 == k);
        if j < i {
            assert(key_lt(self@[j].0, self@[i].0));
        } else if i < j {
            assert(key_lt(self@[i].0, self@[j].0));
        }
    }

    /// The position of the key `k`, for a caller that knows it is present.
    pub proof fn search_hit(&self, k: (i32, i32)) -> (i: int)
        requires
            self.wf(),
            self.has(k),
        ensures
            0 <= i < self@.len(),
            self@[i].0 == k,
            i == self.index_of(k),
    {
        self.index_of(k)
    }

    /// An empty map.
    pub fn new() -> (r: Self)
        ensures
            r.wf(),
            r@.len() == 0,
            r.map() == Map::<(i32, i32), T>::empty(),
    {
        let r = Tagged { entries: Vec::new() };
        assert(r.map() =~= Map::<(i32, i32), T>::empty());
        r
    }

    /// The number of entries.
    pub fn len(&self) -> (n: usize)
        ensures
            n == self@.len(),
    {
        self.entries.len()
    }

    /// The entry at position `i` in key order.
    pub fn entry(&self, i: usize) -> (r: (i32, i32, &T))
        requires
            i < self@.len(),
        ensures
            (r.0, r.1) == self@[i as int].0,
            *r.2 == self@[i as int].1,
    {
        let e = &self.entries[i];
        (e.0.0, e.0.1, &e.1)
    }

    /// Bisects for the key `(x, y)`: `Ok` with its position where it is
    /// present, `Err` with the position at which it would be inserted.
    pub fn search(&self, x: i32, y: i32) -> (r: Result<usize, usize>)
        requires
            self.wf(),
        ensures
            match r {
                Ok(i) => i < self@.len() && self@[i as int].0 == (x, y),
                Err(i) => {
                    &&& i <= self@.len()
                    &&& !self.has((x, y))
                    &&& forall|j: int| 0 <= j < i ==> key_lt((#[trigger] self@[j]).0, (x, y))
                    &&& forall|j: int|
                        i <= j < self@.len() ==> key_lt((x, y), (#[trigger] self@[j]).0)
                },
            },
    {
        let mut lo: usize = 0;
        let mut hi: usize = self.entries.len();
        while lo < hi
            invariant
                self.wf(),
                lo <= hi <= self@.len(),
                forall|j: int| 0 <= j < lo ==> key_lt((#[trigger] self@[j]).0, (x, y)),
                forall|j: int| hi <= j < self@.len() ==> key_lt((x, y), (#[trigger] self@[j]).0),
            decreases hi - lo,
        {
            let mid: usize = lo + (hi - lo) / 2;
            let key = self.entries[mid].0;
            if key.0 == x && key.1 == y {
                return Ok(mid);
            }
            if key.0 < x || (key.0 == x && key.1 < y) {
                assert forall|j: int| 0 <= j < mid + 1 implies key_lt(
                    (#[trigger] self@[j]).0,
                    (x, y),
                ) by {
                    if j < mid {
                        assert(key_lt(self@[j].0, self@[mid as int].0));
                    }
                }
                lo = mid + 1;
            } else {
                assert forall|j: int| mid <= j < self@.len() implies key_lt(
                    (x, y),
                    (#[trigger] self@[j]).0,
                ) by {
                    if mid < j {
                        assert(key_lt(self@[mid as int].0, self@[j].0));
                    }
                }
                hi = mid;
            }
        }
        Err(lo)
    }

    /// The value stored under `(x, y)`, if any.
    pub fn get(&self, x: i32, y: i32) -> (r: Option<&T>)
        requires
            self.wf(),
        ensures
            match r {
                Some(v) => self.map().contains_key((x, y)) && *v == self.map()[(x, y)],
                None => !self.map().contains_key((x, y)),
            },
    {
        match self.search(x, y) {
            Ok(i) => {
                proof {
                    self.lemma_entry(i as int);
                }
                Some(&self.entries[i].1)
            },
            Err(_) => None,
        }
    }

    /// Stores `data` under `(x, y)`, replacing the value of an entry that is
    /// already there and keeping the keys in order otherwise.
    pub fn insert(&mut self, x: i32, y: i32, data: T)
        requires
            old(self).wf(),
        ensures
            final(self).wf(),
            final(self).map() == old(self).map().insert((x, y), data),
    {
        let ghost before = *self;
        match self.search(x, y) {
            Ok(i) => {
                self.entries.set(i, ((x, y), data));
                proof {
                    Self::lemma_updated(before, *self, i as int, data);
                }
            },
            Err(i) => {
                self.entries.insert(i, ((x, y), data));
                proof {
                    Self::lemma_inserted(before, *self, i as int, (x, y), data);
                }
            },
        }
    }

    /// Deletes the entry under `(x, y)`, if there is one.
    pub fn remove(&mut self, x: i32, y: i32)
        requires
            old(self).wf(),
        ensures
            final(self).wf(),
            final(self).map() == old(self).map().remove((x, y)),
    {
        let ghost before = *self;
        match self.search(x, y) {
            Ok(i) => {
                self.entries.remove(i);
                proof {
                    Self::lemma_removed(before, *self, i as int);
                }
            },
            Err(_) => {
                assert(self.map() =~= before.map().remove((x, y)));
            },
        }
    }

    proof fn lemma_updated(before: Self, after: Self, i: int, data: T)
        requires
            before.wf(),
            0 <= i < before@.len(),
            after@ == before@.update(i, (before@[i].0, data)),
        ensures
            after.wf(),
            after.map() == before.map().insert(before@[i].0, data),
    {
        assert forall|a: int, b: int| 0 <= a < b < after@.len() implies key_lt(
            #[trigger] after@[a].0,
            #[trigger] after@[b].0,
        ) by {
            assert(key_lt(before@[a].0, before@[b].0));
        }
        let want = before.map().insert(before@[i].0, data);
        assert forall|k: (i32, i32)| after.map().contains_key(k) <==> want.contains_key(k) by {
            if after.has(k) {
                let j = after.index_of(k);
                assert(before@[j].0 == k);
            }
            if before.has(k) {
                let j = before.index_of(k);
                assert(after@[j].0 == k);
            }
            assert(after@[i].0 == before@[i].0);
        }
        assert forall|k: (i32, i32)| after.map().contains_key(k) implies after.map()[k]
            == want[k] by {
            let j = after.index_of(k);
            after.lemma_entry(j);
            before.lemma_entry(j);
        }
        assert(after.map() =~= want);
    }

    proof fn lemma_inserted(before: Self, after: Self, i: int, k: (i32, i32), data: T)
        requires
            before.wf(),
            0 <= i <= before@.len(),
            !before.has(k),
            forall|j: int| 0 <= j < i ==> key_lt((#[trigger] before@[j]).0, k),
            forall|j: int| i <= j < before@.len() ==> key_lt(k, (#[trigger] before@[j]).0),
            after@ == before@.insert(i, (k, data)),
        ensures
            after.wf(),
            after.map() == before.map().insert(k, data),
    {
        assert forall|a: int, b: int| 0 <= a < b < after@.len() implies key_lt(
            #[trigger] after@[a].0,
            #[trigger] after@[b].0,
        ) by {
            let pa = if a < i { a } else { a - 1 };
            let pb = if b < i { b } else { b - 1 };
            if a != i && b != i {
                assert(after@[a] == before@[pa]);
                assert(after@[b] == before@[pb]);
                assert(key_lt(before@[pa].0, before@[pb].0));
            } else if a == i {
                assert(after@[b] == before@[pb]);
            } else {
                assert(after@[a] == before@[pa]);
            }
        }
        let want = before.map().insert(k, data);
        assert forall|q: (i32, i32)| after.map().contains_key(q) <==> want.contains_key(q) by {
            if after.has(q) {
                let j = after.index_of(q);
                if j < i {
                    assert(before@[j].0 == q);
                } else if j > i {
                    assert(before@[j - 1].0 == q);
                }
            }
            if before.has(q) {
                let j = before.index_of(q);
                if j < i {
                    assert(after@[j].0 == q);
                } else {
                    assert(after@[j + 1].0 == q);
                }
            }
            assert(after@[i].0 == k);
        }
        assert forall|q: (i32, i32)| after.map().contains_key(q) implies after.map()[q]
            == want[q] by {
            let j = after.index_of(q);
            after.lemma_entry(j);
            if j < i {
                before.lemma_entry(j);
            } else if j > i {
                before.lemma_entry(j - 1);
            }
        }
        assert(after.map() =~= want);
    }

    proof fn lemma_removed(before: Self, after: Self, i: int)
        requires
            before.wf(),
            0 <= i < before@.len(),
            after@ == before@.remove(i),
        ensures
            after.wf(),
            after.map() == before.map().remove(before@[i].0),
    {
        let k = before@[i].0;
        assert forall|a: int, b: int| 0 <= a < b < after@.len() implies key_lt(
            #[trigger] after@[a].0,
            #[trigger] after@[b].0,
        ) by {
            let pa = if a < i { a } else { a + 1 };
            let pb = if b < i { b } else { b + 1 };
            assert(after@[a] == before@[pa]);
            assert(after@[b] == before@[pb]);
            assert(key_lt(before@[pa].0, before@[pb].0));
        }
        let want = before.map().remove(k);
        assert forall|q: (i32, i32)| after.map().contains_key(q) <==> want.contains_key(q) by {
            if after.has(q) {
                let j = after.index_of(q);
                let pj = if j < i { j } else { j + 1 };
                assert(before@[pj].0 == q);
                if pj < i {
                    assert(key_lt(before@[pj].0, before@[i].0));
                } else {
                    assert(key_lt(before@[i].0, before@[pj].0));
                }
            }
            if before.has(q) && q != k {
                let j = before.index_of(q);
                if j < i {
                    assert(after@[j].0 == q);
                } else {
                    assert(after@[j - 1].0 == q);
                }
            }
        }
        assert forall|q: (i32, i32)| after.map().contains_key(q) implies after.map()[q]
            == want[q] by {
            let j = after.index_of(q);
            after.lemma_entry(j);
            let pj = if j < i { j } else { j + 1 };
            before.lemma_entry(pj);
        }
        assert(after.map() =~= want);
    }
}

} // verus!
