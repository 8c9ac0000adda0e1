//! Walks over an arena's handles and values in physical order.
use vstd::prelude::*;

use crate::arena::{Arena, ArenaId, ArenaView};

verus! {

/// A walk over an arena's handle/value pairs, front to back.
///
/// Made by [`Arena::pairs`].
pub struct Pairs<'a, T> {
    arena: &'a Arena<T>,
    pos: usize,
}

/// A walk over an arena's handles, front to back.
///
/// Made by [`Arena::ids`].
pub struct Ids<'a, T> {
    arena: &'a Arena<T>,
    pos: usize,
}

impl<'a, T> Pairs<'a, T> {
    /// The arena walked over.
    pub closed spec fn source(&self) -> ArenaView<T> {
        self.arena@
    }

    /// The number of pairs already handed out.
    pub closed spec fn done(&self) -> nat {
        self.pos as nat
    }

    pub closed spec fn wf(&self) -> bool {
        self.arena.wf() && self.pos <= self.arena@.len()
    }

    /// Hands out the next handle with its value, or `None` at the end.
    pub fn next(&mut self) -> (r: Option<(ArenaId, &'a T)>)
        requires
            old(self).wf(),
        ensures
            final(self).wf(),
            final(self).source() == old(self).source(),
            ({
                let v = old(self).source();
                let k = old(self).done();
                if k < v.len() {
                    &&& r == Some((v.ids[k as int], &v.values[k as int]))
                    &&& final(self).done() == k + 1
                } else {
                    &&& r is None
                    &&& final(self).done() == k
                }
            }),
    {
        let arena: &'a Arena<T> = self.arena;
        if self.pos >= arena.len() {
            return None;
        }
        let k = self.pos;
        self.pos = k + 1;
        match arena.id_at(k) {
            Some(id) => Some((id, &arena.as_slice()[k])),
            None => None,
        }
    }
}

impl<'a, T> Ids<'a, T> {
    /// The arena walked over.
    pub closed spec fn source(&self) -> ArenaView<T> {
        self.arena@
    }

    /// The number of handles already handed out.
    pub closed spec fn done(&self) -> nat {
        self.pos as nat
    }

    pub closed spec fn wf(&self) -> bool {
        self.arena.wf() && self.pos <= self.arena@.len()
    }

    /// Hands out the next handle, or `None` at the end.
    pub fn next(&mut self) -> (r: Option<ArenaId>)
        requires
            old(self).wf(),
        ensures
            final(self).wf(),
            final(self).source() == old(self).source(),
            ({
                let v = old(self).source();
                let k = old(self).done();
                if k < v.len() {
                    &&& r == Some(v.ids[k as int])
                    &&& final(self).done() == k + 1
                } else {
                    &&& r is None
                    &&& final(self).done() == k
                }
            }),
    {
        let arena: &'a Arena<T> = self.arena;
        if self.pos >= arena.len() {
            return None;
        }
        let k = self.pos;
        self.pos = k + 1;
        arena.id_at(k)
    }
}

impl<T> Arena<T> {
    /// Walks over all handle/value pairs in physical order. Each handle is
    /// found from its position's owning slot, in constant time.
    pub fn pairs(&self) -> (r: Pairs<'_, T>)
        requires
            self.wf(),
        ensures
            r.wf(),
            r.source() == self@,
            r.done() == 0,
    {
        Pairs { arena: self, pos: 0 }
    }

    /// Walks over all handles in physical order.
    pub fn ids(&self) -> (r: Ids<'_, T>)
        requires
            self.wf(),
        ensures
            r.wf(),
            r.source() == self@,
            r.done() == 0,
    {
        Ids { arena: self, pos: 0 }
    }
}

} // verus!
