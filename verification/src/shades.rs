//! A cell type with as many tiles as the rules say, in which no cell may
//! hold the tile of a collapsed neighbour above, below, left or right.
//! Unlike the two-tile cell it narrows step by step before it commits.
use crate::cell::Working;
use vstd::prelude::*;

verus! {

/// Which tiles a cell may still take: tile `t` where the entry `t` is set.
#[derive(Debug, PartialEq)]
pub struct Shades(pub Vec<bool>);

impl Clone for Shades {
    fn clone(&self) -> (r: Self)
        ensures
            r.0@ == self.0@,
    {
        let mut open: Vec<bool> = Vec::new();
        let mut i: usize = 0;
        while i < self.0.len()
            invariant
                i <= self.0@.len(),
                open@ == self.0@.take(i as int),
            decreases self.0@.len() - i,
        {
            open.push(self.0[i]);
            assert(open@ =~= self.0@.take(i + 1));
            i += 1;
        }
        assert(self.0@.take(i as int) =~= self.0@);
        Shades(open)
    }
}

impl Shades {
    /// The number of entries of `open` that are set.
    pub open spec fn count_of(open: Seq<bool>) -> nat
        decreases open.len(),
    {
        if open.len() == 0 {
            0
        } else {
            Self::count_of(open.drop_last()) + if open.last() {
                1nat
            } else {
                0nat
            }
        }
    }

    /// The first position from `i` on at which `open` is set, or -1.
    pub open spec fn first_from(open: Seq<bool>, i: int) -> int
        decreases open.len() - i,
    {
        if i < 0 || i >= open.len() {
            -1
        } else if open[i] {
            i
        } else {
            Self::first_from(open, i + 1)
        }
    }

    /// The lowest tile that `open` allows, or 255 where it allows none.
    pub open spec fn pick(open: Seq<bool>) -> u8 {
        if Self::first_from(open, 0) < 0 {
            255
        } else {
            Self::first_from(open, 0) as u8
        }
    }

    /// Whether a collapsed cell among `neighbors` holds the tile `t`.
    pub open spec fn seen(neighbors: Seq<Result<u8, Shades>>, t: u8) -> bool {
        exists|j: int| 0 <= j < neighbors.len() && #[trigger] neighbors[j] == Ok::<u8, Shades>(t)
    }

    /// `open` without the tiles that collapsed neighbours hold.
    pub open spec fn struck(open: Seq<bool>, neighbors: Seq<Result<u8, Shades>>) -> Seq<bool> {
        Seq::new(open.len(), |i: int| open[i] && !(i < 256 && Self::seen(neighbors, i as u8)))
    }

    /// Where nothing was added, nothing more is set.
    pub proof fn lemma_count_le(a: Seq<bool>, b: Seq<bool>)
        requires
            a.len() == b.len(),
            forall|i: int| 0 <= i < a.len() && b[i] ==> a[i],
        ensures
            Self::count_of(b) <= Self::count_of(a),
        decreases a.len(),
    {
        if a.len() > 0 {
            Self::lemma_count_le(a.drop_last(), b.drop_last());
        }
    }

    /// Where nothing was added and the entry `k` was struck, less is set.
    pub proof fn lemma_count_lt(a: Seq<bool>, b: Seq<bool>, k: int)
        requires
            a.len() == b.len(),
            forall|i: int| 0 <= i < a.len() && b[i] ==> a[i],
            0 <= k < a.len(),
            a[k] && !b[k],
        ensures
            Self::count_of(b) < Self::count_of(a),
        decreases a.len(),
    {
        if k == a.len() - 1 {
            Self::lemma_count_le(a.drop_last(), b.drop_last());
        } else {
            Self::lemma_count_lt(a.drop_last(), b.drop_last(), k);
        }
    }

    /// The number of tiles that are still possible.
    pub fn count(&self) -> (n: usize)
        ensures
            n == Self::count_of(self.0@),
    {
        let mut n: usize = 0;
        let mut i: usize = 0;
        while i < self.0.len()
            invariant
                i <= self.0@.len(),
                n <= i,
                n == Self::count_of(self.0@.take(i as int)),
            decreases self.0@.len() - i,
        {
            assert(self.0@.take(i + 1).drop_last() =~= self.0@.take(i as int));
            if self.0[i] {
                n += 1;
            }
            i += 1;
        }
        assert(self.0@.take(i as int) =~= self.0@);
        n
    }
}

impl Working for Shades {
    type Tile = u8;

    type Rules = u8;

    type Grabber = [(i32, i32); 4];

    open spec fn offsets() -> Seq<(i32, i32)> {
        crate::parity::CROSS@
    }

    fn neighbors() -> [(i32, i32); 4] {
        crate::parity::CROSS
    }

    open spec fn possibilities(&self) -> nat {
        Self::count_of(self.0@)
    }

    /// The tiles of collapsed neighbours are struck; with at most one
    /// tile left the cell commits to the lowest, else it reports whether
    /// anything was struck.
    open spec fn refines(
        before: Self,
        neighbors: Seq<Result<u8, Self>>,
        rules: u8,
        after: Self,
        outcome: Result<u8, bool>,
    ) -> bool {
        &&& after.0@ == Self::struck(before.0@, neighbors)
        &&& outcome == if Self::count_of(after.0@) <= 1 {
            Ok::<u8, bool>(Self::pick(after.0@))
        } else {
            Err::<u8, bool>(after.0@ != before.0@)
        }
    }

    /// Strikes the tiles of collapsed neighbours and commits once at most
    /// one tile is left.
    fn refine(&mut self, neighbors: &[Result<&u8, &Self>], rules: &u8) -> (r: Result<u8, bool>)
    {
        let ghost all = crate::cell::heard(neighbors@);
        let mut change = false;
        let mut i: usize = 0;
        while i < neighbors.len()
            invariant
                i <= neighbors@.len(),
                all == crate::cell::heard(neighbors@),
                self.0@ == Self::struck(old(self).0@, all.take(i as int)),
                change == (self.0@ != old(self).0@),
            decreases neighbors@.len() - i,
        {
            let ghost was = self.0@;
            proof {
                let before = all.take(i as int);
                let after = all.take(i + 1);
                assert(after[i as int] == all[i as int]);
                assert(all[i as int] == crate::world::strip(neighbors@[i as int]));
                assert forall|t: u8| Self::seen(after, t) <==> Self::seen(before, t) || all[i as int]
                    == Ok::<u8, Shades>(t) by {
                    if Self::seen(before, t) {
                        let j = choose|j: int|
                            0 <= j < before.len() && #[trigger] before[j] == Ok::<u8, Shades>(t);
                        assert(after[j] == before[j]);
                    }
                    if Self::seen(after, t) {
                        let j = choose|j: int|
                            0 <= j < after.len() && #[trigger] after[j] == Ok::<u8, Shades>(t);
                        if j < i {
                            assert(before[j] == after[j]);
                        }
                    }
                }
            }
            match neighbors[i] {
                Ok(t) => {
                    let k: usize = *t as usize;
                    if k < self.0.len() {
                        if self.0[k] {
                            change = true;
                            self.0.set(k, false);
                            assert(self.0@[k as int] != old(self).0@[k as int]);
                        }
                    }
                },
                Err(_) => {},
            }
            assert(self.0@ =~= Self::struck(old(self).0@, all.take(i + 1)));
            i += 1;
        }
        proof {
            assert(all.take(i as int) =~= all);
        }
        if self.count() <= 1 {
            Ok(self.force_collapse())
        } else {
            proof {
                if change {
                    let a = old(self).0@;
                    let b = self.0@;
                    if !(exists|k: int| 0 <= k < a.len() && a[k] != b[k]) {
                        assert(a =~= b);
                    }
                    let k = choose|k: int| 0 <= k < a.len() && a[k] != b[k];
                    Self::lemma_count_lt(a, b, k);
                }
            }
            Err(change)
        }
    }

    /// The lowest tile that is still possible, or 255 where none is.
    fn force_collapse(&self) -> (t: u8)
        ensures
            t == Self::pick(self.0@),
    {
        let mut i: usize = 0;
        while i < self.0.len()
            invariant
                i <= self.0@.len(),
                Self::first_from(self.0@, 0) == Self::first_from(self.0@, i as int),
            decreases self.0@.len() - i,
        {
            if self.0[i] {
                return #[verifier::truncate] (i as u8);
            }
            i += 1;
        }
        255
    }

    /// Every tile below `rules` is possible.
    fn new(rules: &u8) -> (r: Self)
        ensures
            r.0@ == Seq::new(*rules as nat, |i: int| true),
    {
        let mut open: Vec<bool> = Vec::new();
        let mut i: u8 = 0;
        while i < *rules
            invariant
                i <= *rules,
                open@ == Seq::new(i as nat, |j: int| true),
            decreases *rules - i,
        {
            open.push(true);
            assert(open@ =~= Seq::new((i + 1) as nat, |j: int| true));
            i += 1;
        }
        Shades(open)
    }
}

} // verus!
