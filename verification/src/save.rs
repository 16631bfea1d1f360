//! Saving a world as a plain record and building a world from one.
use crate::bounding::Bounding;
use crate::cell::Working;
use crate::twolayer::Twolayer;
use crate::world::World;
use std::ops::Range;
use vstd::prelude::*;

verus! {

/// A world as a record: the rules, every recorded cell with its
/// coordinate, the collapsed ones first, and the corners of the window.
/// The base is not part of it: it is built from the rules again.
#[derive(Debug)]
pub struct WorldSave<W, T, R> {
    pub rules: R,
    pub cells: Vec<((i32, i32), Result<T, W>)>,
    pub bounding: Range<[i32; 2]>,
}

/// Whether `b` records the same kind of cell as `a`, or as little, with
/// a value that is a clone of the one in `a`.
pub open spec fn cell_cloned<T: Clone, S: Clone>(
    a: Option<Result<T, S>>,
    b: Option<Result<T, S>>,
) -> bool {
    match (a, b) {
        (None, None) => true,
        (Some(Ok(t)), Some(Ok(u))) => cloned(t, u),
        (Some(Err(v)), Some(Err(w))) => cloned(v, w),
        _ => false,
    }
}

impl<W: Working> World<W> {
    /// The record at `k` after the entries of `cells` have been written
    /// to an empty store one after the other: a tile replaces what is
    /// there, a superposition yields to a tile.
    pub open spec fn loaded_cell(
        cells: Seq<((i32, i32), Result<W::Tile, W>)>,
        k: (i32, i32),
    ) -> Option<Result<W::Tile, W>>
        decreases cells.len(),
    {
        if cells.len() == 0 {
            None
        } else {
            let prev = Self::loaded_cell(cells.drop_last(), k);
            let last = cells.last();
            if last.0 != k {
                prev
            } else {
                match last.1 {
                    Ok(t) => Some(Ok(t)),
                    Err(w) => match prev {
                        Some(Ok(_)) => prev,
                        _ => Some(Err(w)),
                    },
                }
            }
        }
    }

    /// A coordinate that no entry names has no record after loading.
    pub proof fn lemma_loaded_absent(cells: Seq<((i32, i32), Result<W::Tile, W>)>, k: (i32, i32))
        requires
            forall|i: int| 0 <= i < cells.len() ==> (#[trigger] cells[i]).0 != k,
        ensures
            Self::loaded_cell(cells, k).is_none(),
        decreases cells.len(),
    {
        if cells.len() > 0 {
            assert(cells.last().0 != k);
            assert forall|i: int| 0 <= i < cells.drop_last().len() implies (
            #[trigger] cells.drop_last()[i]).0 != k by {
                assert(cells.drop_last()[i] == cells[i]);
            }
            Self::lemma_loaded_absent(cells.drop_last(), k);
        }
    }

    /// A coordinate that exactly one entry names has that entry as its
    /// record after loading.
    pub proof fn lemma_loaded_single(
        cells: Seq<((i32, i32), Result<W::Tile, W>)>,
        i: int,
        k: (i32, i32),
    )
        requires
            0 <= i < cells.len(),
            cells[i].0 == k,
            forall|j: int| 0 <= j < cells.len() && j != i ==> (#[trigger] cells[j]).0 != k,
        ensures
            Self::loaded_cell(cells, k) == Some(cells[i].1),
        decreases cells.len(),
    {
        let rest = cells.drop_last();
        if i == cells.len() - 1 {
            assert forall|j: int| 0 <= j < rest.len() implies (#[trigger] rest[j]).0 != k by {
                assert(rest[j] == cells[j]);
            }
            Self::lemma_loaded_absent(rest, k);
        } else {
            assert(cells.last() == cells[cells.len() - 1]);
            assert(rest[i] == cells[i]);
            assert forall|j: int| 0 <= j < rest.len() && j != i implies (#[trigger] rest[j]).0
                != k by {
                assert(rest[j] == cells[j]);
            }
            Self::lemma_loaded_single(rest, i, k);
        }
    }

    /// Whether `v` is a world built from the record `s`.
    pub open spec fn loaded(s: WorldSave<W, W::Tile, W::Rules>, v: Self) -> bool {
        &&& v.wf()
        &&& v.rules_value() == s.rules
        &&& v.window() == Bounding::from_corners(s.bounding)
        &&& forall|k: (i32, i32)| #[trigger] v.cell(k) == Self::loaded_cell(s.cells@, k)
    }

    /// Builds a world from a record: the cells are written in the order
    /// of the record, the base is built from the rules.
    pub fn load(save: WorldSave<W, W::Tile, W::Rules>) -> (r: Self)
        ensures
            Self::loaded(save, r),
    {
        let ghost cells = save.cells@;
        let WorldSave { rules, cells: mut forward, bounding } = save;
        let mut backward: Vec<((i32, i32), Result<W::Tile, W>)> = Vec::new();
        while forward.len() > 0
            invariant
                forward@.len() + backward@.len() == cells.len(),
                forall|i: int| 0 <= i < forward@.len() ==> forward@[i] == cells[i],
                forall|i: int|
                    0 <= i < backward@.len() ==> backward@[i] == cells[cells.len() - 1 - i],
            decreases forward@.len(),
        {
            match forward.pop() {
                Some(e) => backward.push(e),
                None => {},
            }
        }
        let mut tiles: Twolayer<W::Tile, W> = Twolayer::new();
        let ghost mut done: int = 0;
        while backward.len() > 0
            invariant
                tiles.wf(),
                0 <= done <= cells.len(),
                backward@.len() == cells.len() - done,
                forall|i: int|
                    0 <= i < backward@.len() ==> backward@[i] == cells[cells.len() - 1 - i],
                forall|k: (i32, i32)| #[trigger]
                    tiles.cell(k) == Self::loaded_cell(cells.take(done), k),
            decreases backward@.len(),
        {
            let ghost before = tiles;
            proof {
                assert(cells.take(done + 1).drop_last() =~= cells.take(done));
                assert(cells.take(done + 1).last() == cells[done]);
            }
            match backward.pop() {
                Some(((x, y), Ok(t))) => {
                    tiles.insert_p(x, y, t);
                },
                Some(((x, y), Err(w))) => {
                    tiles.insert_s(x, y, w);
                },
                None => {},
            }
            proof {
                assert forall|k: (i32, i32)| #[trigger]
                    tiles.cell(k) == Self::loaded_cell(cells.take(done + 1), k) by {
                    assert(before.cell(k) == Self::loaded_cell(cells.take(done), k));
                }
                done = done + 1;
            }
        }
        proof {
            assert(cells.take(done) =~= cells);
        }
        World::assemble(rules, tiles, Bounding::from_range(bounding))
    }
}

impl<W: Working> From<WorldSave<W, W::Tile, W::Rules>> for World<W> {
    /// Builds a world from a record, as `World::load` does.
    fn from(save: WorldSave<W, W::Tile, W::Rules>) -> (r: Self)
        ensures
            World::loaded(save, r),
    {
        World::load(save)
    }
}

impl<W: Working> vstd::std_specs::convert::FromSpecImpl<WorldSave<W, W::Tile, W::Rules>> for World<W> {
    /// The base of the new world is whatever the cell type builds, so the
    /// result is stated by `World::loaded` and not as a function.
    open spec fn obeys_from_spec() -> bool {
        false
    }

    open spec fn from_spec(v: WorldSave<W, W::Tile, W::Rules>) -> Self {
        arbitrary()
    }
}

impl<W: Working> World<W> where W::Tile: Clone, W::Rules: Clone {
    /// Whether `s` is a record of the world `w`: clones of its rules and
    /// of its cells, the primary layer before the secondary, each in key
    /// order, and the corners of its window.
    pub open spec fn saved(w: Self, s: WorldSave<W, W::Tile, W::Rules>) -> bool {
        let p = w.layers().primary()@;
        let q = w.layers().secondary()@;
        &&& cloned(w.rules_value(), s.rules)
        &&& Bounding::from_corners(s.bounding) == w.window()
        &&& s.cells@.len() == p.len() + q.len()
        &&& forall|i: int|
            0 <= i < p.len() ==> (#[trigger] s.cells@[i]).0 == p[i].0 && match s.cells@[i].1 {
                Ok(t) => cloned(p[i].1, t),
                Err(_) => false,
            }
        &&& forall|j: int|
            0 <= j < q.len() ==> (#[trigger] s.cells@[p.len() + j]).0 == q[j].0 && match s.cells@[p.len()
                + j].1 {
                Ok(_) => false,
                Err(v) => cloned(q[j].1, v),
            }
    }

    /// The world as a record.
    pub fn get_save(&self) -> (s: WorldSave<W, W::Tile, W::Rules>)
        ensures
            Self::saved(*self, s),
    {
        let rules = self.rules().clone();
        let mut cells: Vec<((i32, i32), Result<W::Tile, W>)> = Vec::new();
        let primary = self.store().primary_layer();
        let mut i: usize = 0;
        while i < primary.len()
            invariant
                i <= primary@.len(),
                cells@.len() == i,
                forall|n: int|
                    0 <= n < i ==> (#[trigger] cells@[n]).0 == primary@[n].0 && match cells@[n].1 {
                        Ok(t) => cloned(primary@[n].1, t),
                        Err(_) => false,
                    },
            decreases primary@.len() - i,
        {
            let e = primary.entry(i);
            cells.push(((e.0, e.1), Ok(e.2.clone())));
            i += 1;
        }
        let secondary = self.store().secondary_layer();
        let mut j: usize = 0;
        while j < secondary.len()
            invariant
                j <= secondary@.len(),
                cells@.len() == primary@.len() + j,
                forall|n: int|
                    0 <= n < primary@.len() ==> (#[trigger] cells@[n]).0 == primary@[n].0
                        && match cells@[n].1 {
                        Ok(t) => cloned(primary@[n].1, t),
                        Err(_) => false,
                    },
                forall|n: int|
                    0 <= n < j ==> (#[trigger] cells@[primary@.len() + n]).0 == secondary@[n].0
                        && match cells@[primary@.len() + n].1 {
                        Ok(_) => false,
                        Err(v) => cloned(secondary@[n].1, v),
                    },
            decreases secondary@.len() - j,
        {
            let e = secondary.entry(j);
            cells.push(((e.0, e.1), Err(e.2.clone())));
            j += 1;
        }
        WorldSave { rules, cells, bounding: self.bounding().to_range() }
    }

    /// Saving a world and loading the record gives a world with the same
    /// window, rules that are a clone of the old ones, and at every
    /// coordinate a record of the same kind whose value is a clone of the
    /// old one, or no record where there was none.
    pub proof fn lemma_save_round_trip(w: Self, s: WorldSave<W, W::Tile, W::Rules>, v: Self)
        requires
            w.wf(),
            Self::saved(w, s),
            Self::loaded(s, v),
        ensures
            v.wf(),
            v.window() == w.window(),
            cloned(w.rules_value(), v.rules_value()),
            forall|k: (i32, i32)| cell_cloned(w.cell(k), #[trigger] v.cell(k)),
    {
        let primary = w.layers().primary();
        let secondary = w.layers().secondary();
        let p = primary@;
        let q = secondary@;
        let c = s.cells@;
        assert forall|k: (i32, i32)| cell_cloned(w.cell(k), #[trigger] v.cell(k)) by {
            assert(v.cell(k) == Self::loaded_cell(c, k));
            if primary.has(k) {
                let i = primary.search_hit(k);
                primary.lemma_entry(i);
                assert forall|j: int| 0 <= j < c.len() && j != i implies (#[trigger] c[j]).0
                    != k by {
                    if j < p.len() {
                        if j < i {
                            assert(crate::tagged::key_lt(p[j].0, p[i].0));
                        } else {
                            assert(crate::tagged::key_lt(p[i].0, p[j].0));
                        }
                    } else {
                        assert(c[p.len() + (j - p.len())].0 == q[j - p.len()].0);
                        secondary.lemma_entry(j - p.len());
                        assert(primary.map().contains_key(k));
                    }
                }
                Self::lemma_loaded_single(c, i, k);
            } else if secondary.has(k) {
                let i = secondary.search_hit(k);
                secondary.lemma_entry(i);
                assert(c[p.len() + i].0 == q[i].0);
                assert forall|j: int| 0 <= j < c.len() && j != p.len() + i implies (
                #[trigger] c[j]).0 != k by {
                    if j < p.len() {
                        primary.lemma_entry(j);
                    } else {
                        let n = j - p.len();
                        assert(c[p.len() + n].0 == q[n].0);
                        if n < i {
                            assert(crate::tagged::key_lt(q[n].0, q[i].0));
                        } else {
                            assert(crate::tagged::key_lt(q[i].0, q[n].0));
                        }
                    }
                }
                Self::lemma_loaded_single(c, p.len() + i, k);
            } else {
                assert forall|j: int| 0 <= j < c.len() implies (#[trigger] c[j]).0 != k by {
                    if j < p.len() {
                        assert(p[j].0 != k);
                    } else {
                        let n = j - p.len();
                        assert(c[p.len() + n].0 == q[n].0);
                        assert(q[n].0 != k);
                    }
                }
                Self::lemma_loaded_absent(c, k);
            }
        }
    }

    /// For a cell type whose clones equal what they were cloned from and
    /// whose base is a function of the rules, saving a world and loading
    /// the record gives a world that reads the same at every coordinate.
    pub proof fn lemma_save_round_trip_reads(
        w: Self,
        s: WorldSave<W, W::Tile, W::Rules>,
        v: Self,
    )
        requires
            w.wf(),
            Self::saved(w, s),
            Self::loaded(s, v),
            forall|a: W, b: W| #[trigger] cloned(a, b) ==> a == b,
            forall|a: W::Tile, b: W::Tile| #[trigger] cloned(a, b) ==> a == b,
            forall|a: W::Rules, b: W::Rules| #[trigger] cloned(a, b) ==> a == b,
            forall|r: W::Rules, a: W, b: W|
                #[trigger] call_ensures(W::new, (&r,), a) && #[trigger] call_ensures(
                    W::new,
                    (&r,),
                    b,
                ) ==> a == b,
        ensures
            v.window() == w.window(),
            v.rules_value() == w.rules_value(),
            v.base_value() == w.base_value(),
            forall|k: (i32, i32)| #[trigger] v.reading(k) == w.reading(k),
    {
        Self::lemma_save_round_trip(w, s, v);
        assert(cloned(w.rules_value(), v.rules_value()));
        assert(call_ensures(W::new, (&w.rules_value(),), w.base_value()));
        assert(call_ensures(W::new, (&w.rules_value(),), v.base_value()));
        assert forall|k: (i32, i32)| #[trigger] v.reading(k) == w.reading(k) by {
            assert(cell_cloned(w.cell(k), v.cell(k)));
        }
    }
}

} // verus!
