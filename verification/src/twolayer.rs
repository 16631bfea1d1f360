//! The two-layer store: collapsed tiles in a primary layer, superpositions
//! in a secondary layer, and never both under one coordinate.
use crate::tagged::Tagged;
use vstd::prelude::*;

verus! {

/// Two ordered coordinate maps with disjoint key sets.
#[derive(Debug, Clone)]
pub struct Twolayer<P, S> {
    primary: Tagged<P>,
    secondary: Tagged<S>,
}

impl<P, S> Twolayer<P, S> {
    /// The primary layer, which holds the collapsed tiles.
    pub closed spec fn primary(&self) -> Tagged<P> {
        self.primary
    }

    /// The secondary layer, which holds the superpositions.
    pub closed spec fn secondary(&self) -> Tagged<S> {
        self.secondary
    }

    /// Both layers are sorted and no coordinate is a key of both.
    pub open spec fn wf(&self) -> bool {
        &&& self.primary().wf()
        &&& self.secondary().wf()
        &&& forall|k: (i32, i32)|
            !(#[trigger] self.primary().map().contains_key(k) && self.secondary().map().contains_key(
                k,
            ))
    }

    /// What the store records for the coordinate `k`: a collapsed tile, a
    /// superposition, or nothing.
    pub open spec fn cell(&self, k: (i32, i32)) -> Option<Result<P, S>> {
        if self.primary().map().contains_key(k) {
            Some(Ok(self.primary().map()[k]))
        } else if self.secondary().map().contains_key(k) {
            Some(Err(self.secondary().map()[k]))
        } else {
            None
        }
    }

    /// An empty store.
    pub fn new() -> (r: Self)
        ensures
            r.wf(),
            r.primary()@.len() == 0,
            r.secondary()@.len() == 0,
            forall|k: (i32, i32)| r.cell(k).is_none(),
    {
        Twolayer { primary: Tagged::new(), secondary: Tagged::new() }
    }

    /// Read access to the primary layer.
    pub fn primary_layer(&self) -> (r: &Tagged<P>)
        ensures
            *r == self.primary(),
    {
        &self.primary
    }

    /// Read access to the secondary layer.
    pub fn secondary_layer(&self) -> (r: &Tagged<S>)
        ensures
            *r == self.secondary(),
    {
        &self.secondary
    }

    /// Looks `(x, y)` up, the primary layer first.
    pub fn get(&self, x: i32, y: i32) -> (r: Option<Result<&P, &S>>)
        requires
            self.wf(),
        ensures
            match r {
                Some(Ok(p)) => self.cell((x, y)) == Some(Ok::<P, S>(*p)),
                Some(Err(s)) => self.cell((x, y)) == Some(Err::<P, S>(*s)),
                None => self.cell((x, y)).is_none(),
            },
    {
        match self.primary.get(x, y) {
            Some(p) => Some(Ok(p)),
            None => match self.secondary.get(x, y) {
                Some(s) => Some(Err(s)),
                None => None,
            },
        }
    }

    /// Records a collapsed tile under `(x, y)`, replacing whatever either
    /// layer held there.
    pub fn insert_p(&mut self, x: i32, y: i32, data: P)
        requires
            old(self).wf(),
        ensures
            final(self).wf(),
            final(self).primary().map() == old(self).primary().map().insert((x, y), data),
            final(self).secondary().map() == old(self).secondary().map().remove((x, y)),
            final(self).cell((x, y)) == Some(Ok::<P, S>(data)),
            forall|k: (i32, i32)| k != (x, y) ==> final(self).cell(k) == old(self).cell(k),
    {
        self.rm_s(x, y);
        self.primary.insert(x, y, data);
    }

    /// Records a superposition under `(x, y)` unless a collapsed tile is
    /// there, in which case nothing changes.
    pub fn insert_s(&mut self, x: i32, y: i32, data: S)
        requires
            old(self).wf(),
        ensures
            final(self).wf(),
            final(self).primary() == old(self).primary(),
            old(self).primary().map().contains_key((x, y)) ==> *final(self) == *old(self),
            !old(self).primary().map().contains_key((x, y)) ==> {
                &&& final(self).secondary().map() == old(self).secondary().map().insert(
                    (x, y),
                    data,
                )
                &&& final(self).cell((x, y)) == Some(Err::<P, S>(data))
            },
            forall|k: (i32, i32)| k != (x, y) ==> final(self).cell(k) == old(self).cell(k),
    {
        if self.primary.search(x, y).is_err() {
            self.secondary.insert(x, y, data);
        }
    }

    /// Drops the superposition under `(x, y)`, if there is one.
    pub fn rm_s(&mut self, x: i32, y: i32)
        requires
            old(self).wf(),
        ensures
            final(self).wf(),
            final(self).primary() == old(self).primary(),
            final(self).secondary().map() == old(self).secondary().map().remove((x, y)),
            forall|k: (i32, i32)| k != (x, y) ==> final(self).cell(k) == old(self).cell(k),
    {
        self.secondary.remove(x, y);
    }
}

} // verus!
