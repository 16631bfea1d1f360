//! A small cell type with the two tiles 0 and 1, in which no cell may
//! hold the tile of a collapsed neighbour above, below, left or right.
use crate::cell::Working;
use vstd::prelude::*;

verus! {

/// The four orthogonal offsets.
pub const CROSS: [(i32, i32); 4] = [(-1, 0), (0, -1), (0, 1), (1, 0)];

/// Which of the tiles 0 and 1 a cell may still take.
#[derive(Debug, Clone, Copy, PartialEq, Eq, Structural)]
pub struct Parity {
    pub zero: bool,
    pub one: bool,
}

impl Parity {
    /// Whether a collapsed cell among `neighbors` holds the tile `t`.
    pub open spec fn seen(neighbors: Seq<Result<u8, Parity>>, t: u8) -> bool {
        exists|i: int| 0 <= i < neighbors.len() && #[trigger] neighbors[i] == Ok::<u8, Parity>(t)
    }

    /// The number of tiles that are still possible.
    pub open spec fn count(&self) -> nat {
        (if self.zero {
            1nat
        } else {
            0nat
        }) + (if self.one {
            1nat
        } else {
            0nat
        })
    }

    /// The lowest tile that is still possible, or 2 where none is.
    pub open spec fn pick(&self) -> u8 {
        if self.zero {
            0
        } else if self.one {
            1
        } else {
            2
        }
    }

    /// The superposition without the tiles that collapsed neighbours hold.
    pub open spec fn without(&self, neighbors: Seq<Result<u8, Parity>>) -> Parity {
        Parity {
            zero: self.zero && !Self::seen(neighbors, 0),
            one: self.one && !Self::seen(neighbors, 1),
        }
    }
}

impl Working for Parity {
    type Tile = u8;

    type Rules = ();

    type Grabber = [(i32, i32); 4];

    open spec fn offsets() -> Seq<(i32, i32)> {
        CROSS@
    }

    fn neighbors() -> [(i32, i32); 4] {
        CROSS
    }

    open spec fn possibilities(&self) -> nat {
        self.count()
    }

    /// The tiles of collapsed neighbours are struck; with at most one
    /// tile left the cell commits to the lowest, else nothing has changed.
    open spec fn refines(
        before: Self,
        neighbors: Seq<Result<u8, Self>>,
        rules: (),
        after: Self,
        outcome: Result<u8, bool>,
    ) -> bool {
        &&& after == before.without(neighbors)
        &&& outcome == if after.count() <= 1 {
            Ok::<u8, bool>(after.pick())
        } else {
            Err::<u8, bool>(false)
        }
    }

    /// Strikes the tiles of collapsed neighbours and commits once at most
    /// one tile is left.
    fn refine(&mut self, neighbors: &[Result<&u8, &Self>], rules: &()) -> (r: Result<u8, bool>)
    {
        let ghost all = crate::cell::heard(neighbors@);
        let mut change = false;
        let mut i: usize = 0;
        while i < neighbors.len()
            invariant
                i <= neighbors@.len(),
                all == crate::cell::heard(neighbors@),
                *self == old(self).without(all.take(i as int)),
                change == (*self != *old(self)),
            decreases neighbors@.len() - i,
        {
            proof {
                let before = all.take(i as int);
                let after = all.take(i + 1);
                assert(after[i as int] == all[i as int]);
                assert(all[i as int] == crate::world::strip(neighbors@[i as int]));
                assert forall|t: u8| Self::seen(after, t) <==> Self::seen(before, t) || all[i as int]
                    == Ok::<u8, Parity>(t) by {
                    if Self::seen(before, t) {
                        let j = choose|j: int|
                            0 <= j < before.len() && #[trigger] before[j] == Ok::<u8, Parity>(t);
                        assert(after[j] == before[j]);
                    }
                    if Self::seen(after, t) {
                        let j = choose|j: int|
                            0 <= j < after.len() && #[trigger] after[j] == Ok::<u8, Parity>(t);
                        if j < i {
                            assert(before[j] == after[j]);
                        }
                    }
                }
            }
            match neighbors[i] {
                Ok(t) => {
                    if *t == 0 {
                        change = change || self.zero;
                        self.zero = false;
                    } else if *t == 1 {
                        change = change || self.one;
                        self.one = false;
                    }
                },
                Err(_) => {},
            }
            i += 1;
        }
        proof {
            assert(all.take(i as int) =~= all);
        }
        if self.zero && self.one {
            Err(change)
        } else {
            Ok(self.force_collapse())
        }
    }

    /// The lowest tile that is still possible, or 2 where none is.
    fn force_collapse(&self) -> (t: u8)
        ensures
            t == self.pick(),
    {
        if self.zero {
            0
        } else if self.one {
            1
        } else {
            2
        }
    }

    /// Both tiles are possible, whatever the rules.
    fn new(rules: &()) -> (r: Self)
        ensures
            r == (Parity { zero: true, one: true }),
    {
        Parity { zero: true, one: true }
    }
}

} // verus!
