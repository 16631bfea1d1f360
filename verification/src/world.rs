//! The world: the two-layer store with its window, and the engine that
//! collapses cells and lets the change cascade to their neighbours.
use crate::bounding::shift;
use crate::bounding::Bounding;
use crate::cell::Working;
use crate::twolayer::Twolayer;
use std::ops::Range;
use vstd::prelude::*;

verus! {

/// What a borrowed reading of a cell refers to.
pub open spec fn strip<T, S>(r: Result<&T, &S>) -> Result<T, S> {
    match r {
        Ok(t) => Ok(*t),
        Err(s) => Err(*s),
    }
}

/// An infinite grid of cells of which a finite window is active.
#[derive(Debug, Clone)]
pub struct World<W: Working> {
    rules: W::Rules,
    base: W,
    tiles: Twolayer<W::Tile, W>,
    bounding: Bounding,
}

impl<W: Working> World<W> {
    /// The rules that the world was made with.
    pub closed spec fn rules_value(&self) -> W::Rules {
        self.rules
    }

    /// The base superposition, which describes every cell without a record.
    pub closed spec fn base_value(&self) -> W {
        self.base
    }

    /// The two-layer store.
    pub closed spec fn layers(&self) -> Twolayer<W::Tile, W> {
        self.tiles
    }

    /// The bounding window.
    pub closed spec fn window(&self) -> Bounding {
        self.bounding
    }

    /// The store is well formed and the base is one that the cell type
    /// builds from the rules.
    pub open spec fn wf(&self) -> bool {
        &&& self.layers().wf()
        &&& call_ensures(W::new, (&self.rules_value(),), self.base_value())
    }

    /// The record of the cell at `k`, if it has one.
    pub open spec fn cell(&self, k: (i32, i32)) -> Option<Result<W::Tile, W>> {
        self.layers().cell(k)
    }

    /// What reading the cell at `k` gives: its record, or the base.
    pub open spec fn reading(&self, k: (i32, i32)) -> Result<W::Tile, W> {
        match self.cell(k) {
            Some(e) => e,
            None => Err(self.base_value()),
        }
    }

    /// How far the cell at `k` is from its final state: nothing for a
    /// collapsed cell, else one more than its possibilities.
    pub open spec fn rank(&self, k: (i32, i32)) -> nat {
        match self.reading(k) {
            Ok(_) => 0,
            Err(w) => 1 + w.possibilities(),
        }
    }

    /// The ranks of the cells `(x, lo) .. (x, hi)` summed up.
    pub open spec fn row_energy(&self, x: i32, lo: int, hi: int) -> nat
        decreases hi - lo,
    {
        if hi <= lo {
            0
        } else {
            self.row_energy(x, lo, hi - 1) + self.rank((x, (hi - 1) as i32))
        }
    }

    /// The ranks of the cells of `b` in the rows below `hi` summed up.
    pub open spec fn grid_energy(&self, b: Bounding, hi: int) -> nat
        decreases hi - b.x0,
    {
        if hi <= b.x0 {
            0
        } else {
            self.grid_energy(b, hi - 1) + self.row_energy(
                (hi - 1) as i32,
                b.y0 as int,
                b.y1 as int,
            )
        }
    }

    /// The ranks of all cells in the window summed up: the work that the
    /// engine may still do.
    pub open spec fn energy(&self) -> nat {
        self.grid_energy(self.window(), self.window().x1 as int)
    }

    /// How a world may differ from an earlier one after the engine has
    /// worked inside `win`: rules and base are kept, cells outside `win` are
    /// untouched, collapsed cells keep their tile, no record is lost, and
    /// no cell has moved away from its final state.
    pub open spec fn evolves(pre: Self, post: Self, win: Bounding) -> bool {
        &&& post.wf()
        &&& post.rules_value() == pre.rules_value()
        &&& post.base_value() == pre.base_value()
        &&& forall|k: (i32, i32)| !win.holds(k) ==> #[trigger] post.cell(k) == pre.cell(k)
        &&& forall|k: (i32, i32)| (#[trigger] pre.cell(k)) matches Some(Ok(_)) ==> post.cell(k) == pre.cell(k)
        &&& forall|k: (i32, i32)| (#[trigger] pre.cell(k)).is_some() ==> post.cell(k).is_some()
        &&& forall|k: (i32, i32)| #[trigger] post.rank(k) <= pre.rank(k)
        &&& forall|k: (i32, i32)| post.rank(k) == pre.rank(k) ==> #[trigger] post.cell(k) == pre.cell(k)
    }

    /// Whether the cell at `k` is nearer to its final state in `post` than
    /// it was in `pre`. An evolution changes a cell in no other way.
    pub open spec fn lowered(pre: Self, post: Self, k: (i32, i32)) -> bool {
        post.rank(k) < pre.rank(k)
    }

    /// Where no cell has gained rank, no row has gained energy.
    proof fn lemma_row_le(pre: Self, post: Self, x: i32, lo: int, hi: int)
        requires
            forall|k: (i32, i32)| #[trigger] post.rank(k) <= pre.rank(k),
        ensures
            post.row_energy(x, lo, hi) <= pre.row_energy(x, lo, hi),
        decreases hi - lo,
    {
        if hi > lo {
            Self::lemma_row_le(pre, post, x, lo, hi - 1);
            assert(post.rank((x, (hi - 1) as i32)) <= pre.rank((x, (hi - 1) as i32)));
        }
    }

    /// Where no cell has gained rank and the cell `(x, y)` of the row has
    /// lost some, the row has lost energy.
    proof fn lemma_row_lt(pre: Self, post: Self, x: i32, lo: int, hi: int, y: i32)
        requires
            forall|k: (i32, i32)| #[trigger] post.rank(k) <= pre.rank(k),
            lo <= y < hi,
            post.rank((x, y)) < pre.rank((x, y)),
        ensures
            post.row_energy(x, lo, hi) < pre.row_energy(x, lo, hi),
        decreases hi - lo,
    {
        assert(post.rank((x, (hi - 1) as i32)) <= pre.rank((x, (hi - 1) as i32)));
        if hi - 1 == y {
            Self::lemma_row_le(pre, post, x, lo, hi - 1);
        } else {
            Self::lemma_row_lt(pre, post, x, lo, hi - 1, y);
        }
    }

    /// Where no cell has gained rank, the rows of `b` below `hi` have not
    /// gained energy.
    proof fn lemma_grid_le(pre: Self, post: Self, b: Bounding, hi: int)
        requires
            forall|k: (i32, i32)| #[trigger] post.rank(k) <= pre.rank(k),
        ensures
            post.grid_energy(b, hi) <= pre.grid_energy(b, hi),
        decreases hi - b.x0,
    {
        if hi > b.x0 {
            Self::lemma_grid_le(pre, post, b, hi - 1);
            Self::lemma_row_le(pre, post, (hi - 1) as i32, b.y0 as int, b.y1 as int);
        }
    }

    /// Where no cell has gained rank and the cell `k` in the rows of `b`
    /// below `hi` has lost some, those rows have lost energy.
    proof fn lemma_grid_lt(pre: Self, post: Self, b: Bounding, hi: int, k: (i32, i32))
        requires
            forall|k: (i32, i32)| #[trigger] post.rank(k) <= pre.rank(k),
            b.holds(k),
            k.0 < hi,
            post.rank(k) < pre.rank(k),
        ensures
            post.grid_energy(b, hi) < pre.grid_energy(b, hi),
        decreases hi - b.x0,
    {
        if hi - 1 == k.0 {
            Self::lemma_grid_le(pre, post, b, hi - 1);
            Self::lemma_row_lt(pre, post, k.0, b.y0 as int, b.y1 as int, k.1);
        } else {
            Self::lemma_grid_lt(pre, post, b, hi - 1, k);
            Self::lemma_row_le(pre, post, (hi - 1) as i32, b.y0 as int, b.y1 as int);
        }
    }

    /// The cascade ends: a world that evolved inside its own window has no
    /// more energy than before, and less if a cell in the window lost rank.
    pub proof fn lemma_energy(pre: Self, post: Self)
        requires
            Self::evolves(pre, post, pre.window()),
            post.window() == pre.window(),
        ensures
            post.energy() <= pre.energy(),
            forall|k: (i32, i32)|
                pre.window().holds(k) && #[trigger] post.rank(k) < pre.rank(k) ==> post.energy()
                    < pre.energy(),
    {
        let b = pre.window();
        Self::lemma_grid_le(pre, post, b, b.x1 as int);
        assert forall|k: (i32, i32)|
            pre.window().holds(k) && #[trigger] post.rank(k) < pre.rank(k) implies post.energy()
            < pre.energy() by {
            Self::lemma_grid_lt(pre, post, b, b.x1 as int, k);
        }
    }

    /// A world with no records, the base built from `rules`, and the window
    /// between the corners `bounding.start` and `bounding.end`.
    pub fn new(rules: W::Rules, bounding: Range<[i32; 2]>) -> (r: Self)
        ensures
            r.wf(),
            r.rules_value() == rules,
            r.window() == Bounding::from_corners(bounding),
            r.layers().primary()@.len() == 0,
            r.layers().secondary()@.len() == 0,
            forall|k: (i32, i32)| r.cell(k).is_none(),
    {
        Self::assemble(rules, Twolayer::new(), Bounding::from_range(bounding))
    }

    /// A world with the given store and window, and the base built from
    /// `rules`.
    pub fn assemble(rules: W::Rules, tiles: Twolayer<W::Tile, W>, bounding: Bounding) -> (r: Self)
        requires
            tiles.wf(),
        ensures
            r.wf(),
            r.rules_value() == rules,
            r.layers() == tiles,
            r.window() == bounding,
    {
        let base = W::new(&rules);
        World { rules, base, tiles, bounding }
    }

    /// The rules.
    pub fn rules(&self) -> (r: &W::Rules)
        ensures
            *r == self.rules_value(),
    {
        &self.rules
    }

    /// The two-layer store.
    pub fn store(&self) -> (r: &Twolayer<W::Tile, W>)
        ensures
            *r == self.layers(),
    {
        &self.tiles
    }

    /// The base superposition.
    pub fn base(&self) -> (r: &W)
        ensures
            *r == self.base_value(),
    {
        &self.base
    }

    /// The window that is active now.
    pub fn bounding(&self) -> (r: Bounding)
        ensures
            r == self.window(),
    {
        self.bounding
    }

    /// The record of the cell at `(x, y)`, if it has one.
    pub fn try_read(&self, x: i32, y: i32) -> (r: Option<Result<&W::Tile, &W>>)
        requires
            self.wf(),
        ensures
            match r {
                Some(e) => self.cell((x, y)) == Some(strip(e)),
                None => self.cell((x, y)).is_none(),
            },
    {
        self.tiles.get(x, y)
    }

    /// The cell at `(x, y)`: its tile if it has collapsed, else its
    /// superposition, which is the base where the cell has no record.
    pub fn read(&self, x: i32, y: i32) -> (r: Result<&W::Tile, &W>)
        requires
            self.wf(),
        ensures
            strip(r) == self.reading((x, y)),
    {
        match self.tiles.get(x, y) {
            Some(e) => e,
            None => Err(&self.base),
        }
    }

    /// Two evolutions in a row are one.
    pub proof fn lemma_evolves_trans(a: Self, b: Self, c: Self, win: Bounding)
        requires
            Self::evolves(a, b, win),
            Self::evolves(b, c, win),
        ensures
            Self::evolves(a, c, win),
    {
        assert forall|k: (i32, i32)| #[trigger] c.rank(k) <= a.rank(k) by {
            assert(b.rank(k) <= a.rank(k));
        }
        assert forall|k: (i32, i32)| !win.holds(k) implies #[trigger] c.cell(k) == a.cell(k) by {
            assert(b.cell(k) == a.cell(k));
        }
        assert forall|k: (i32, i32)| (#[trigger] a.cell(k)) matches Some(Ok(_)) implies c.cell(k)
            == a.cell(k) by {
            assert(b.cell(k) == a.cell(k));
        }
        assert forall|k: (i32, i32)| (#[trigger] a.cell(k)).is_some() implies c.cell(
            k,
        ).is_some() by {
            assert(b.cell(k).is_some());
        }
        assert forall|k: (i32, i32)| c.rank(k) == a.rank(k) implies #[trigger] c.cell(k)
            == a.cell(k) by {
            assert(c.rank(k) <= b.rank(k) && b.rank(k) <= a.rank(k));
            assert(c.cell(k) == b.cell(k) && b.cell(k) == a.cell(k));
        }
    }

    /// What recording the report `outcome` for the cell at `k` makes of
    /// the world `pre`: a tile goes to the primary layer, the narrowed
    /// superposition `working` to the secondary layer unless a tile is
    /// there, and a report of no change leaves the world as it is. No
    /// other cell is touched.
    pub open spec fn settled(
        pre: Self,
        post: Self,
        k: (i32, i32),
        outcome: Result<W::Tile, bool>,
        working: W,
    ) -> bool {
        &&& post.wf()
        &&& post.rules_value() == pre.rules_value()
        &&& post.base_value() == pre.base_value()
        &&& post.window() == pre.window()
        &&& outcome == Err::<W::Tile, bool>(false) ==> post == pre
        &&& forall|j: (i32, i32)| j != k ==> #[trigger] post.cell(j) == pre.cell(j)
        &&& post.cell(k) == match outcome {
            Ok(t) => Some(Ok::<W::Tile, W>(t)),
            Err(narrowed) => if narrowed && !(pre.cell(k) matches Some(Ok(_))) {
                Some(Err::<W::Tile, W>(working))
            } else {
                pre.cell(k)
            },
        }
    }

    /// Records what a cell's own `refine` reported for the cell at
    /// `(x, y)`: a tile it committed to goes to the primary layer, the
    /// narrowed superposition `working` to the secondary layer unless a
    /// tile is there, and a report of no change leaves the store as it is.
    /// Returns whether the report was one of change.
    pub fn settle(&mut self, x: i32, y: i32, outcome: Result<W::Tile, bool>, working: W) -> (changed:
        bool)
        requires
            old(self).wf(),
        ensures
            changed == (outcome != Err::<W::Tile, bool>(false)),
            Self::settled(*old(self), *final(self), (x, y), outcome, working),
    {
        match outcome {
            Ok(t) => {
                self.tiles.insert_p(x, y, t);
                true
            },
            Err(true) => {
                self.tiles.insert_s(x, y, working);
                true
            },
            Err(false) => false,
        }
    }

    /// No coordinate has a record in both layers.
    pub proof fn lemma_layers_disjoint(w: Self, k: (i32, i32))
        requires
            w.wf(),
        ensures
            !(w.layers().primary().map().contains_key(k) && w.layers().secondary().map().contains_key(
                k,
            )),
    {
    }

    /// Both layers hold their entries in strictly increasing key order.
    pub proof fn lemma_layers_sorted(w: Self, i: int, j: int)
        requires
            w.wf(),
            0 <= i < j,
        ensures
            j < w.layers().primary()@.len() ==> crate::tagged::key_lt(
                w.layers().primary()@[i].0,
                w.layers().primary()@[j].0,
            ),
            j < w.layers().secondary()@.len() ==> crate::tagged::key_lt(
                w.layers().secondary()@[i].0,
                w.layers().secondary()@[j].0,
            ),
    {
    }

    /// While the engine works, a cell only narrows: a collapsed cell keeps
    /// its tile, and a cell that is still superimposed afterwards allows
    /// no more than it did before.
    pub proof fn lemma_cells_narrow(pre: Self, post: Self, win: Bounding, k: (i32, i32))
        requires
            Self::evolves(pre, post, win),
        ensures
            match (pre.reading(k), post.reading(k)) {
                (Ok(t), r) => r == Ok::<W::Tile, W>(t),
                (Err(v), Err(w)) => w.possibilities() <= v.possibilities(),
                (Err(_), Ok(_)) => true,
            },
    {
        assert(post.rank(k) <= pre.rank(k));
        assert(pre.cell(k) matches Some(Ok(_)) ==> post.cell(k) == pre.cell(k));
    }

    /// Reading gives the base exactly where the store has no record,
    /// provided that no superposition equal to the base is recorded there.
    pub proof fn lemma_read_fallback(w: Self, k: (i32, i32))
        requires
            w.cell(k) != Some(Err::<W::Tile, W>(w.base_value())),
        ensures
            w.reading(k) == Err::<W::Tile, W>(w.base_value()) <==> w.cell(k).is_none(),
    {
    }
}

impl<W, const N: usize> World<W> where W: Working<Grabber = [(i32, i32); N]> {
    /// The record of the `i`-th neighbour of `k`.
    pub open spec fn neighbor_cell(&self, k: (i32, i32), i: int) -> Option<Result<W::Tile, W>> {
        match crate::bounding::shifted(k, W::offsets()[i]) {
            Some(n) => self.cell(n),
            None => None,
        }
    }

    /// What the `i`-th neighbour of `k` reads as.
    pub open spec fn neighbor_reading(&self, k: (i32, i32), i: int) -> Result<W::Tile, W> {
        match self.neighbor_cell(k, i) {
            Some(e) => e,
            None => Err(self.base_value()),
        }
    }

    /// Whether `k` is one of the first `n` neighbours of `o`.
    pub open spec fn near_upto(o: (i32, i32), k: (i32, i32), n: int) -> bool {
        exists|i: int|
            0 <= i < n && i < W::offsets().len() && #[trigger] crate::bounding::shifted(
                o,
                W::offsets()[i],
            ) == Some(k)
    }

    /// Whether `k` is a neighbour of `o`.
    pub open spec fn near(o: (i32, i32), k: (i32, i32)) -> bool {
        Self::near_upto(o, k, W::offsets().len() as int)
    }

    /// Whether `k` is a neighbour of a cell that changed between `pre` and
    /// `post`.
    pub open spec fn woken(pre: Self, post: Self, k: (i32, i32)) -> bool {
        exists|o: (i32, i32)| #[trigger] Self::near(o, k) && Self::lowered(pre, post, o)
    }

    /// Whether every cell that changed between `pre` and `post` is one of
    /// `roots` or a neighbour of a cell that changed: a change reaches no
    /// further than the cascade carries it.
    pub open spec fn cascades(pre: Self, post: Self, roots: Set<(i32, i32)>) -> bool {
        forall|k: (i32, i32)| #[trigger]
            Self::lowered(pre, post, k) ==> roots.contains(k) || Self::woken(pre, post, k)
    }

    /// A cell woken between two worlds is woken between an earlier and a
    /// later one.
    proof fn lemma_woken_widen(a: Self, b: Self, c: Self, d: Self, k: (i32, i32))
        requires
            Self::woken(b, c, k),
            forall|o: (i32, i32)| #[trigger] b.rank(o) <= a.rank(o),
            forall|o: (i32, i32)| #[trigger] d.rank(o) <= c.rank(o),
        ensures
            Self::woken(a, d, k),
    {
        let o = choose|o: (i32, i32)| #[trigger] Self::near(o, k) && Self::lowered(b, c, o);
        assert(b.rank(o) <= a.rank(o));
        assert(d.rank(o) <= c.rank(o));
        assert(Self::near(o, k) && Self::lowered(a, d, o));
    }

    /// Gathers what the neighbours of `(x, y)` hold, in the order of the
    /// offsets, reading the base for a neighbour without a record. `None`
    /// where no neighbour has a record.
    pub fn grab(&self, x: i32, y: i32) -> (r: Option<Vec<Result<&W::Tile, &W>>>)
        requires
            self.wf(),
        ensures
            match r {
                Some(v) => {
                    &&& v@.len() == W::offsets().len()
                    &&& exists|i: int|
                        0 <= i < W::offsets().len() && (#[trigger] self.neighbor_cell(
                            (x, y),
                            i,
                        )).is_some()
                    &&& forall|i: int|
                        0 <= i < v@.len() ==> strip(#[trigger] v@[i]) == self.neighbor_reading(
                            (x, y),
                            i,
                        )
                },
                None => forall|i: int|
                    0 <= i < W::offsets().len() ==> (#[trigger] self.neighbor_cell(
                        (x, y),
                        i,
                    )).is_none(),
            },
    {
        let offsets = W::neighbors();
        let mut out: Vec<Result<&W::Tile, &W>> = Vec::new();
        let mut any = false;
        let mut i: usize = 0;
        while i < offsets.len()
            invariant
                self.wf(),
                offsets@ == W::offsets(),
                i <= offsets@.len(),
                out@.len() == i,
                any <==> exists|j: int|
                    0 <= j < i && (#[trigger] self.neighbor_cell((x, y), j)).is_some(),
                forall|j: int|
                    0 <= j < i ==> strip(#[trigger] out@[j]) == self.neighbor_reading((x, y), j),
            decreases offsets@.len() - i,
        {
            let found = match shift(x, y, offsets[i]) {
                Some(n) => self.try_read(n.0, n.1),
                None => None,
            };
            assert(match found {
                Some(e) => self.neighbor_cell((x, y), i as int) == Some(strip(e)),
                None => self.neighbor_cell((x, y), i as int).is_none(),
            });
            match found {
                Some(e) => {
                    any = true;
                    out.push(e);
                },
                None => {
                    out.push(Err(&self.base));
                },
            }
            i += 1;
        }
        if any {
            Some(out)
        } else {
            None
        }
    }

    /// Whether the engine leaves the cell at `k` alone: it lies outside
    /// the window, has collapsed, or has no neighbour with a record.
    pub open spec fn inert(&self, k: (i32, i32)) -> bool {
        ||| !self.window().holds(k)
        ||| self.cell(k) matches Some(Ok(_))
        ||| forall|i: int|
            0 <= i < W::offsets().len() ==> (#[trigger] self.neighbor_cell(k, i)).is_none()
    }

    /// What the neighbours of `k` read as, in the order of the offsets.
    pub open spec fn neighbor_readings(&self, k: (i32, i32)) -> Seq<Result<W::Tile, W>> {
        Seq::new(W::offsets().len(), |i: int| self.neighbor_reading(k, i))
    }

    /// Whether asking the cell at `k` may give the report `outcome` and
    /// leave `working`: the cell is superimposed, and the cell type's
    /// `refine` may answer so when called on a clone of what the cell
    /// reads as, with what its neighbours read as and the world's rules.
    pub open spec fn asked(
        &self,
        k: (i32, i32),
        outcome: Result<W::Tile, bool>,
        working: W,
    ) -> bool {
        match self.reading(k) {
            Ok(_) => false,
            Err(stored) => exists|src: W|
                cloned(stored, src) && #[trigger] W::refines(
                    src,
                    self.neighbor_readings(k),
                    self.rules_value(),
                    working,
                    outcome,
                ),
        }
    }

    /// Asks the cell at `(x, y)` to narrow itself: a clone of what the
    /// cell reads as is handed to the cell type's `refine`, with what the
    /// neighbours read as and the rules. Returns what `refine` reported
    /// and the clone as `refine` left it, and `None`, without asking,
    /// exactly for a cell that the engine leaves alone.
    pub fn consult(&self, x: i32, y: i32) -> (r: Option<(Result<W::Tile, bool>, W)>)
        requires
            self.wf(),
        ensures
            r.is_none() == self.inert((x, y)),
            match r {
                Some((outcome, working)) => self.asked((x, y), outcome, working),
                None => true,
            },
            match r {
                Some((Err(true), working)) => match self.reading((x, y)) {
                    Ok(_) => false,
                    Err(w) => working.possibilities() < w.possibilities(),
                },
                _ => true,
            },
    {
        if !self.bounding.contains(x, y) {
            return None;
        }
        let stored = match self.read(x, y) {
            Ok(_) => {
                return None;
            },
            Err(w) => w,
        };
        let neighbors = match self.grab(x, y) {
            Some(ns) => ns,
            None => {
                return None;
            },
        };
        let mut tile = stored.clone();
        assert(cloned(*stored, tile));
        let ghost src = tile;
        assert(crate::cell::heard(neighbors@) =~= self.neighbor_readings((x, y)));
        let outcome = tile.refine(neighbors.as_slice(), &self.rules);
        assert(W::refines(src, self.neighbor_readings((x, y)), self.rules_value(), tile, outcome));
        Some((outcome, tile))
    }

    /// What one call of `refine` at `k` makes of the world `pre`, as far
    /// as the cell at `k` goes. A cell that the engine leaves alone is not
    /// asked and nothing changes. Any other cell is asked: a report of no
    /// change leaves the world as it is, a tile stands in the cell
    /// afterwards, and a narrowed superposition leaves the cell with no
    /// more possibilities than it was narrowed to. All that follows is an
    /// evolution inside the window that cascades from `k`.
    pub open spec fn stepped(pre: Self, post: Self, k: (i32, i32)) -> bool {
        &&& Self::evolves(pre, post, pre.window())
        &&& post.window() == pre.window()
        &&& Self::cascades(pre, post, set![k])
        &&& pre.inert(k) ==> post == pre
        &&& !pre.inert(k) ==> exists|outcome: Result<W::Tile, bool>, working: W| #[trigger]
            pre.asked(k, outcome, working) && match outcome {
                Err(false) => post == pre,
                Err(true) => Self::lowered(pre, post, k) && post.rank(k) <= 1
                    + working.possibilities(),
                Ok(t) => Self::lowered(pre, post, k) && post.cell(k) == Some(
                    Ok::<W::Tile, W>(t),
                ),
            }
    }

    /// Whether the step from `chain[i]` to `chain[i + 1]` is what a call
    /// of `refine` at the `i`-th neighbour of `c` makes, or no step at all
    /// where no `i32` pair names that neighbour. `bound` is the energy
    /// that no world of the chain exceeds.
    pub open spec fn linked(bound: nat, chain: Seq<Self>, c: (i32, i32), i: int) -> bool
        decreases bound, 1nat,
    {
        match crate::bounding::shifted(c, W::offsets()[i]) {
            Some(n) => chain[i].energy() <= bound && Self::refined(chain[i], chain[i + 1], n),
            None => chain[i + 1] == chain[i],
        }
    }

    /// Whether `chain` holds one world more than there are offsets, from
    /// `pre` to `post`.
    pub open spec fn spans(pre: Self, post: Self, chain: Seq<Self>) -> bool {
        &&& chain.len() == W::offsets().len() + 1
        &&& chain[0] == pre
        &&& chain[W::offsets().len() as int] == post
    }

    /// Whether `chain` lists the worlds through which `propagate` at `c`
    /// leads from `pre` to `post`: one step for each neighbour of `c`, in
    /// the order of the offsets.
    pub open spec fn chained(pre: Self, post: Self, c: (i32, i32), chain: Seq<Self>) -> bool
        decreases pre.energy(), 2nat,
    {
        &&& Self::spans(pre, post, chain)
        &&& forall|i: int|
            #![trigger chain[i]]
            0 <= i < W::offsets().len() ==> Self::linked(pre.energy(), chain, c, i)
    }

    /// What `propagate` at `c` makes of the world `pre`: every neighbour
    /// of `c` has had its turn to refine itself, one after the other in
    /// the order of the offsets, each in the world that the one before
    /// left.
    pub open spec fn propagated(pre: Self, post: Self, c: (i32, i32)) -> bool
        decreases pre.energy(), 3nat,
    {
        exists|chain: Seq<Self>| #[trigger]
            Self::spans(pre, post, chain) && Self::chained(pre, post, c, chain)
    }

    /// What `refine` at `k` makes of the world `pre`: the cell is asked
    /// unless the engine leaves it alone, what it reports is recorded, and
    /// where that was a change, which costs the world energy, its
    /// neighbours have had their turn, each refined in this same way.
    pub open spec fn refined(pre: Self, post: Self, k: (i32, i32)) -> bool
        decreases pre.energy(), 0nat,
    {
        &&& Self::stepped(pre, post, k)
        &&& !pre.inert(k) ==> exists|outcome: Result<W::Tile, bool>, working: W, mid: Self| #[trigger]
            Self::settled(pre, mid, k, outcome, working) && pre.asked(k, outcome, working)
                && if outcome == Err::<W::Tile, bool>(false) {
                post == pre
            } else {
                mid.energy() < pre.energy() && Self::propagated(mid, post, k)
            }
    }

    /// Lets the cell at `(x, y)` narrow itself by what its neighbours hold,
    /// and, if it changed, its neighbours in turn. A cell outside the
    /// window, a collapsed cell and a cell without any recorded neighbour
    /// are left alone.
    pub fn refine(&mut self, x: i32, y: i32)
        requires
            old(self).wf(),
        ensures
            Self::evolves(*old(self), *final(self), old(self).window()),
            final(self).window() == old(self).window(),
            old(self).inert((x, y)) ==> *final(self) == *old(self),
            Self::cascades(*old(self), *final(self), set![(x, y)]),
            forall|k: (i32, i32)| #[trigger]
                Self::lowered(*old(self), *final(self), k) ==> Self::lowered(
                    *old(self),
                    *final(self),
                    (x, y),
                ),
            Self::refined(*old(self), *final(self), (x, y)),
        decreases old(self).energy(), 0nat,
    {
        let ghost pre = *self;
        let (outcome, tile) = match self.consult(x, y) {
            Some(asked) => asked,
            None => {
                return ;
            },
        };
        let ghost report = outcome;
        let ghost working = tile;
        if !self.settle(x, y, outcome, tile) {
            proof {
                assert(pre.asked((x, y), report, working));
                assert(Self::settled(pre, pre, (x, y), report, working));
            }
            return ;
        }
        let ghost mid = *self;
        proof {
            assert(mid.rank((x, y)) < pre.rank((x, y)));
            assert forall|k: (i32, i32)| #[trigger] mid.rank(k) <= pre.rank(k) by {
                if k != (x, y) {
                    assert(mid.cell(k) == pre.cell(k));
                }
            }
            assert(Self::evolves(pre, mid, pre.window()));
            Self::lemma_energy(pre, mid);
        }
        self.propagate(x, y);
        proof {
            Self::lemma_evolves_trans(pre, mid, *self, pre.window());
            Self::lemma_cascade_from(pre, mid, *self, (x, y));
            assert(self.rank((x, y)) <= mid.rank((x, y)));
            assert(pre.asked((x, y), report, working));
            assert(Self::settled(pre, mid, (x, y), report, working));
            assert(mid.cell((x, y)) matches Some(Ok(_)) ==> self.cell((x, y)) == mid.cell((x, y)));
            assert(Self::stepped(pre, *self, (x, y)));
        }
    }

    /// A change at `c` alone, followed by a cascade from the neighbours of
    /// `c`, is a cascade from `c`.
    proof fn lemma_cascade_from(pre: Self, mid: Self, post: Self, c: (i32, i32))
        requires
            Self::evolves(pre, mid, pre.window()),
            Self::evolves(mid, post, pre.window()),
            Self::lowered(pre, mid, c),
            forall|k: (i32, i32)| k != c ==> #[trigger] mid.cell(k) == pre.cell(k),
            Self::cascades(mid, post, Set::new(|k: (i32, i32)| Self::near(c, k))),
        ensures
            Self::cascades(pre, post, set![c]),
    {
        assert forall|k: (i32, i32)| #[trigger] Self::lowered(pre, post, k) implies set![c].contains(
            k,
        ) || Self::woken(pre, post, k) by {
            if k != c {
                assert(mid.cell(k) == pre.cell(k));
                assert(Self::lowered(mid, post, k));
                if Self::near(c, k) {
                    assert(post.rank(c) <= mid.rank(c));
                    assert(Self::near(c, k) && Self::lowered(pre, post, c));
                } else {
                    assert(Self::woken(mid, post, k));
                    Self::lemma_woken_widen(pre, mid, post, post, k);
                }
            }
        }
    }

    /// Lets every neighbour of `(x, y)` refine itself, in the order of the
    /// offsets.
    pub fn propagate(&mut self, x: i32, y: i32)
        requires
            old(self).wf(),
        ensures
            Self::evolves(*old(self), *final(self), old(self).window()),
            final(self).window() == old(self).window(),
            Self::cascades(
                *old(self),
                *final(self),
                Set::new(|k: (i32, i32)| Self::near((x, y), k)),
            ),
            Self::propagated(*old(self), *final(self), (x, y)),
        decreases old(self).energy(), 1nat,
    {
        let ghost pre = *self;
        let ghost mut chain: Seq<Self> = seq![pre];
        let offsets = W::neighbors();
        let mut i: usize = 0;
        while i < offsets.len()
            invariant
                offsets@ == W::offsets(),
                i <= offsets@.len(),
                chain.len() == i + 1,
                chain[0] == pre,
                chain[i as int] == *self,
                forall|j: int|
                    0 <= j < i ==> #[trigger] Self::linked(pre.energy(), chain, (x, y), j),
                Self::cascades(
                    pre,
                    *self,
                    Set::new(|k: (i32, i32)| Self::near_upto((x, y), k, i as int)),
                ),
                Self::evolves(pre, *self, pre.window()),
                self.window() == pre.window(),
                self.energy() <= pre.energy(),
                pre == *old(self),
            decreases offsets@.len() - i,
        {
            let ghost mid = *self;
            match shift(x, y, offsets[i]) {
                Some(n) => {
                    self.refine(n.0, n.1);
                },
                None => {},
            }
            proof {
                Self::lemma_evolves_trans(pre, mid, *self, pre.window());
                Self::lemma_energy(pre, *self);
                Self::lemma_cascade_next(pre, mid, *self, (x, y), i as int);
                let longer = chain.push(*self);
                assert forall|j: int| 0 <= j < i + 1 implies #[trigger] Self::linked(
                    pre.energy(),
                    longer,
                    (x, y),
                    j,
                ) by {
                    if j < i {
                        assert(Self::linked(pre.energy(), chain, (x, y), j));
                        assert(longer[j] == chain[j] && longer[j + 1] == chain[j + 1]);
                    } else {
                        assert(longer[j] == mid && longer[j + 1] == *self);
                    }
                }
                chain = longer;
            }
            i += 1;
        }
        proof {
            assert forall|i: int|
                #![trigger chain[i]]
                0 <= i < W::offsets().len() implies Self::linked(pre.energy(), chain, (x, y), i) by {
                assert(Self::linked(pre.energy(), chain, (x, y), i));
            }
            assert(Self::spans(pre, *self, chain));
            assert(Self::chained(pre, *self, (x, y), chain));
        }
    }

    /// A cascade from the first `i` neighbours of `c`, followed by one
    /// from the next neighbour, or by nothing where that neighbour does
    /// not exist, is a cascade from the first `i + 1`.
    proof fn lemma_cascade_next(pre: Self, mid: Self, post: Self, c: (i32, i32), i: int)
        requires
            0 <= i < W::offsets().len(),
            Self::evolves(pre, mid, pre.window()),
            Self::evolves(mid, post, pre.window()),
            Self::cascades(pre, mid, Set::new(|k: (i32, i32)| Self::near_upto(c, k, i))),
            match crate::bounding::shifted(c, W::offsets()[i]) {
                Some(n) => Self::cascades(mid, post, set![n]),
                None => post == mid,
            },
        ensures
            Self::cascades(pre, post, Set::new(|k: (i32, i32)| Self::near_upto(c, k, i + 1))),
    {
        let before = Set::new(|k: (i32, i32)| Self::near_upto(c, k, i));
        let after = Set::new(|k: (i32, i32)| Self::near_upto(c, k, i + 1));
        assert forall|k: (i32, i32)| #[trigger] Self::lowered(pre, post, k) implies after.contains(
            k,
        ) || Self::woken(pre, post, k) by {
            assert(mid.rank(k) <= pre.rank(k));
            assert(post.rank(k) <= mid.rank(k));
            if Self::lowered(pre, mid, k) {
                if before.contains(k) {
                    let j = choose|j: int|
                        0 <= j < i && j < W::offsets().len() && #[trigger] crate::bounding::shifted(
                            c,
                            W::offsets()[j],
                        ) == Some(k);
                    assert(0 <= j < i + 1 && crate::bounding::shifted(c, W::offsets()[j]) == Some(
                        k,
                    ));
                } else {
                    assert(Self::woken(pre, mid, k));
                    Self::lemma_woken_widen(pre, pre, mid, post, k);
                }
            } else {
                assert(Self::lowered(mid, post, k));
                match crate::bounding::shifted(c, W::offsets()[i]) {
                    Some(n) => {
                        if k == n {
                            assert(0 <= i < i + 1 && crate::bounding::shifted(
                                c,
                                W::offsets()[i],
                            ) == Some(k));
                        } else {
                            assert(Self::woken(mid, post, k));
                            Self::lemma_woken_widen(pre, mid, post, post, k);
                        }
                    },
                    None => {},
                }
            }
        }
    }

    /// Whether `mid` is the world `pre` with nothing changed but the cell
    /// at `k`, which holds what it holds in `post`.
    pub open spec fn committed(pre: Self, mid: Self, post: Self, k: (i32, i32)) -> bool {
        &&& mid.wf()
        &&& mid.rules_value() == pre.rules_value()
        &&& mid.base_value() == pre.base_value()
        &&& mid.window() == pre.window()
        &&& mid.cell(k) == post.cell(k)
        &&& forall|j: (i32, i32)| j != k ==> #[trigger] mid.cell(j) == pre.cell(j)
    }

    /// What a call of `collapse` at `k` may make of the world `pre`.
    /// Outside the window and on a collapsed cell it makes nothing of it.
    /// Else the cell at `k` holds a tile that its superposition, or the
    /// base where it had none, picked, and from the world with that tile
    /// in place every neighbour of `k` has had its turn to refine itself,
    /// in the order of the offsets.
    pub open spec fn collapse_outcome(pre: Self, post: Self, k: (i32, i32)) -> bool {
        &&& Self::evolves(pre, post, pre.window())
        &&& Self::cascades(pre, post, set![k])
        &&& post.window() == pre.window()
        &&& !pre.window().holds(k) ==> post == pre
        &&& pre.cell(k) matches Some(Ok(_)) ==> post == pre
        &&& pre.window().holds(k) ==> match (pre.reading(k), post.cell(k)) {
            (Ok(t), Some(Ok(u))) => u == t,
            (Err(w), Some(Ok(u))) => call_ensures(W::force_collapse, (&w,), u),
            _ => false,
        }
        &&& pre.window().holds(k) && !(pre.cell(k) matches Some(Ok(_))) ==> exists|mid: Self| #[trigger]
            Self::committed(pre, mid, post, k) && Self::propagated(mid, post, k)
    }

    /// Collapsing the same cell twice in a row is collapsing it once: the
    /// second call changes nothing.
    pub proof fn lemma_collapse_idempotent(a: Self, b: Self, c: Self, k: (i32, i32))
        requires
            a.wf(),
            Self::collapse_outcome(a, b, k),
            Self::collapse_outcome(b, c, k),
        ensures
            c == b,
    {
    }

    /// Commits the cell at `(x, y)` to a tile that its superposition picks,
    /// and lets the change cascade. Nothing happens outside the window or
    /// to a cell that has collapsed already.
    pub fn collapse(&mut self, x: i32, y: i32)
        requires
            old(self).wf(),
        ensures
            Self::collapse_outcome(*old(self), *final(self), (x, y)),
    {
        if !self.bounding.contains(x, y) {
            return ;
        }
        let tile = match self.tiles.get(x, y) {
            Some(Err(w)) => w.force_collapse(),
            None => self.base.force_collapse(),
            Some(Ok(_)) => {
                return ;
            },
        };
        let ghost pre = *self;
        self.tiles.insert_p(x, y, tile);
        let ghost mid = *self;
        proof {
            assert forall|k: (i32, i32)| #[trigger] mid.rank(k) <= pre.rank(k) by {
                if k != (x, y) {
                    assert(mid.cell(k) == pre.cell(k));
                }
            }
            assert(Self::evolves(pre, mid, pre.window()));
        }
        self.propagate(x, y);
        proof {
            Self::lemma_evolves_trans(pre, mid, *self, pre.window());
            Self::lemma_cascade_from(pre, mid, *self, (x, y));
            assert(mid.cell((x, y)) matches Some(Ok(_)));
            assert(Self::committed(pre, mid, *self, (x, y)));
        }
    }

    /// A cascade from `roots`, followed by one from a cell among them, is
    /// a cascade from `roots`.
    proof fn lemma_cascade_join(
        pre: Self,
        mid: Self,
        post: Self,
        win: Bounding,
        roots: Set<(i32, i32)>,
        n: (i32, i32),
    )
        requires
            Self::evolves(pre, mid, win),
            Self::evolves(mid, post, win),
            Self::cascades(pre, mid, roots),
            Self::cascades(mid, post, set![n]),
            roots.contains(n),
        ensures
            Self::cascades(pre, post, roots),
    {
        assert forall|k: (i32, i32)| #[trigger] Self::lowered(pre, post, k) implies roots.contains(
            k,
        ) || Self::woken(pre, post, k) by {
            assert(mid.rank(k) <= pre.rank(k));
            assert(post.rank(k) <= mid.rank(k));
            if Self::lowered(pre, mid, k) {
                if !roots.contains(k) {
                    Self::lemma_woken_widen(pre, pre, mid, post, k);
                }
            } else {
                assert(Self::lowered(mid, post, k));
                if k != n {
                    Self::lemma_woken_widen(pre, mid, post, post, k);
                }
            }
        }
    }

    /// Whether `start` is the world `pre` with the window `fresh`, and
    /// `chain` holds one world more than `fresh` has cells, from `start`
    /// to `post`.
    pub open spec fn reopened(
        pre: Self,
        start: Self,
        post: Self,
        fresh: Bounding,
        chain: Seq<Self>,
    ) -> bool {
        &&& start.layers() == pre.layers()
        &&& start.rules_value() == pre.rules_value()
        &&& start.base_value() == pre.base_value()
        &&& start.window() == fresh
        &&& chain.len() == fresh.rows() * fresh.cols() + 1
        &&& chain[0] == start
        &&& chain[fresh.rows() * fresh.cols()] == post
    }

    /// Whether the step of `chain` for the cell in row `i`, place `j` of
    /// `fresh` is what a call of `refine` at that cell makes, or no step
    /// at all where the cell was in the window `stale` already.
    pub open spec fn entered(
        stale: Bounding,
        fresh: Bounding,
        chain: Seq<Self>,
        i: int,
        j: int,
    ) -> bool {
        let n = fresh.slot(i, j);
        let k = ((fresh.x0 + i) as i32, (fresh.y0 + j) as i32);
        if stale.holds(k) {
            chain[n + 1] == chain[n]
        } else {
            Self::refined(chain[n], chain[n + 1], k)
        }
    }

    /// What `set_bounding` makes of the world `pre` when it is given
    /// another window `fresh`: the window is replaced, and then the cells
    /// of `fresh` are gone through row by row, and each that was not in
    /// the old window has its turn to refine itself, in the world that
    /// the one before left.
    pub open spec fn rewindowed(pre: Self, post: Self, fresh: Bounding) -> bool {
        exists|start: Self, chain: Seq<Self>| #[trigger]
            Self::reopened(pre, start, post, fresh, chain) && forall|i: int, j: int|
                0 <= i < fresh.rows() && 0 <= j < fresh.cols() ==> #[trigger] Self::entered(
                    pre.window(),
                    fresh,
                    chain,
                    i,
                    j,
                )
    }

    /// Makes the rectangle between the corners of `bounding` the window
    /// and lets every cell that has newly come into it refine itself, row
    /// by row. The same window again changes nothing.
    pub fn set_bounding(&mut self, bounding: Range<[i32; 2]>)
        requires
            old(self).wf(),
        ensures
            final(self).window() == Bounding::from_corners(bounding),
            Self::evolves(*old(self), *final(self), final(self).window()),
            Bounding::from_corners(bounding) == old(self).window() ==> *final(self) == *old(self),
            Self::cascades(
                *old(self),
                *final(self),
                Set::new(
                    |k: (i32, i32)|
                        Bounding::from_corners(bounding).holds(k) && !old(self).window().holds(k),
                ),
            ),
            (forall|k: (i32, i32)|
                #![trigger old(self).window().holds(k)]
                Bounding::from_corners(bounding).holds(k) ==> old(self).window().holds(k))
                ==> final(self).layers() == old(self).layers(),
            Bounding::from_corners(bounding) != old(self).window() ==> Self::rewindowed(
                *old(self),
                *final(self),
                Bounding::from_corners(bounding),
            ),
    {
        let fresh = Bounding::from_range(bounding);
        let stale = self.bounding;
        if fresh == stale {
            return ;
        }
        self.bounding = fresh;
        let ghost pre = *self;
        let ghost roots = Set::new(|k: (i32, i32)| fresh.holds(k) && !stale.holds(k));
        let ghost inside = forall|k: (i32, i32)|
            #![trigger stale.holds(k)]
            fresh.holds(k) ==> stale.holds(k);
        let ghost mut chain: Seq<Self> = seq![pre];
        let mut cx: i32 = fresh.x0;
        while cx < fresh.x1
            invariant
                0 <= cx - fresh.x0 <= fresh.rows(),
                chain.len() == fresh.slot(cx - fresh.x0, 0) + 1,
                chain[0] == pre,
                chain[chain.len() - 1] == *self,
                forall|i: int, j: int|
                    0 <= i < cx - fresh.x0 && 0 <= j < fresh.cols() ==> #[trigger] Self::entered(
                        stale,
                        fresh,
                        chain,
                        i,
                        j,
                    ),
                self.window() == fresh,
                Self::evolves(pre, *self, fresh),
                inside == (forall|k: (i32, i32)|
                    #![trigger stale.holds(k)]
                    fresh.holds(k) ==> stale.holds(k)),
                inside ==> self.layers() == pre.layers(),
                fresh.x0 <= cx,
                roots == Set::new(|k: (i32, i32)| fresh.holds(k) && !stale.holds(k)),
                Self::cascades(pre, *self, roots),
            decreases fresh.x1 - cx,
        {
            let ghost row: int = cx - fresh.x0;
            let mut cy: i32 = fresh.y0;
            while cy < fresh.y1
                invariant
                    row == cx - fresh.x0,
                    0 <= row < fresh.rows(),
                    0 <= cy - fresh.y0 <= fresh.cols(),
                    chain.len() == fresh.slot(row, cy - fresh.y0) + 1,
                    chain[0] == pre,
                    chain[chain.len() - 1] == *self,
                    forall|i: int, j: int|
                        (0 <= i < row && 0 <= j < fresh.cols()) || (i == row && 0 <= j < cy
                            - fresh.y0) ==> #[trigger] Self::entered(stale, fresh, chain, i, j),
                    self.window() == fresh,
                    Self::evolves(pre, *self, fresh),
                    inside == (forall|k: (i32, i32)|
                        #![trigger stale.holds(k)]
                        fresh.holds(k) ==> stale.holds(k)),
                    inside ==> self.layers() == pre.layers(),
                    fresh.x0 <= cx < fresh.x1,
                    fresh.y0 <= cy,
                    roots == Set::new(|k: (i32, i32)| fresh.holds(k) && !stale.holds(k)),
                    Self::cascades(pre, *self, roots),
                decreases fresh.y1 - cy,
            {
                let ghost was = *self;
                if !stale.contains(cx, cy) {
                    let ghost mid = *self;
                    assert(fresh.holds((cx, cy)));
                    assert(!stale.holds((cx, cy)));
                    self.refine(cx, cy);
                    proof {
                        Self::lemma_evolves_trans(pre, mid, *self, fresh);
                        Self::lemma_cascade_join(pre, mid, *self, fresh, roots, (cx, cy));
                    }
                }
                proof {
                    let col: int = cy - fresh.y0;
                    let longer = chain.push(*self);
                    assert(row * fresh.cols() >= 0) by (nonlinear_arith)
                        requires
                            row >= 0,
                            fresh.cols() >= 0,
                    ;
                    assert forall|i: int, j: int|
                        (0 <= i < row && 0 <= j < fresh.cols()) || (i == row && 0 <= j < col
                            + 1) implies #[trigger] Self::entered(stale, fresh, longer, i, j) by {
                        let n = fresh.slot(i, j);
                        assert(i * fresh.cols() >= 0) by (nonlinear_arith)
                            requires
                                i >= 0,
                                fresh.cols() >= 0,
                        ;
                        if i == row && j == col {
                            assert(longer[n] == was);
                            assert(longer[n + 1] == *self);
                        } else {
                            fresh.lemma_slot_order(i, j, row, col);
                            assert(Self::entered(stale, fresh, chain, i, j));
                            assert(longer[n] == chain[n]);
                            assert(longer[n + 1] == chain[n + 1]);
                        }
                    }
                    chain = longer;
                }
                cy += 1;
            }
            proof {
                assert(fresh.slot(row, fresh.cols()) == fresh.slot(row + 1, 0)) by (nonlinear_arith)
                    requires
                        fresh.slot(row, fresh.cols()) == row * fresh.cols() + fresh.cols(),
                        fresh.slot(row + 1, 0) == (row + 1) * fresh.cols() + 0,
                ;
            }
            cx += 1;
        }
        proof {
            assert(Self::reopened(*old(self), pre, *self, fresh, chain));
        }
        proof {
            let first = *old(self);
            assert(pre.layers() == first.layers());
            assert forall|k: (i32, i32)| #[trigger] Self::lowered(first, *self, k) implies roots.contains(
                k,
            ) || Self::woken(first, *self, k) by {
                assert(Self::lowered(pre, *self, k));
                if !roots.contains(k) {
                    Self::lemma_woken_widen(first, pre, *self, *self, k);
                }
            }
            assert(roots =~= Set::new(
                |k: (i32, i32)|
                    Bounding::from_corners(bounding).holds(k) && !first.window().holds(k),
            ));
        }
    }
}

} // verus!
