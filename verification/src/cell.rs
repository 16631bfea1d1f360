//! The behaviour that a cell type supplies to the engine.
use vstd::prelude::*;

verus! {

/// What a cell hears of its neighbours: the tile or the superposition
/// that each of the borrowed readings refers to, in the same order.
pub open spec fn heard<T, S>(neighbors: Seq<Result<&T, &S>>) -> Seq<Result<T, S>> {
    Seq::new(neighbors.len(), |i: int| crate::world::strip(neighbors[i]))
}

/// A superposition: the tiles that a cell may still collapse to, with the
/// logic that narrows it from what its neighbours hold.
pub trait Working: Sized + Clone {
    /// A cell's final, committed value.
    type Tile;

    /// The rules that every cell of a world shares.
    type Rules;

    /// The type of the offsets: an array, `[(i32, i32); N]`, for the engine
    /// is written for cell types whose offsets are an array.
    type Grabber: View<V = Seq<(i32, i32)>>;

    /// The offsets from a cell to the cells that are handed to `refine` as
    /// its neighbours, in the order in which they are handed over and
    /// visited.
    spec fn offsets() -> Seq<(i32, i32)>;

    /// The offsets as a value.
    fn neighbors() -> (r: Self::Grabber)
        ensures
            r@ == Self::offsets(),
    ;

    /// How many possibilities the superposition still holds: the measure
    /// by which the engine's cascade ends.
    spec fn possibilities(&self) -> nat;

    /// Whether `refine`, called on the superposition `before` with what
    /// the neighbours hold and the rules, may leave `after` and report
    /// `outcome`: the cell type's own logic, in whose terms the engine
    /// states what it did.
    spec fn refines(
        before: Self,
        neighbors: Seq<Result<Self::Tile, Self>>,
        rules: Self::Rules,
        after: Self,
        outcome: Result<Self::Tile, bool>,
    ) -> bool;

    /// Narrows the superposition by what the neighbours hold: `Ok` with a
    /// tile when the cell has committed to it, `Err(true)` when it was
    /// narrowed and is still superimposed, `Err(false)` when nothing
    /// changed. A cell that reports `Err(true)` has strictly fewer
    /// possibilities than before, and than any value it was cloned from.
    fn refine(
        &mut self,
        neighbors: &[Result<&Self::Tile, &Self>],
        rules: &Self::Rules,
    ) -> (r: Result<Self::Tile, bool>)
        requires
            neighbors@.len() == Self::offsets().len(),
        ensures
            Self::refines(*old(self), heard(neighbors@), *rules, *final(self), r),
            r == Err::<Self::Tile, bool>(true) ==> forall|src: Self|
                cloned(src, *old(self)) ==> final(self).possibilities()
                    < #[trigger] src.possibilities(),
    ;

    /// Picks a tile from the current possibilities. The choice is the
    /// cell's own; it yields a tile even when nothing is possible any more.
    fn force_collapse(&self) -> Self::Tile;

    /// Builds the base superposition from the rules.
    fn new(rules: &Self::Rules) -> Self;
}

} // verus!
