//! Cursors over sequences of chunks that live in a slab and are linked by
//! the index of their cell.
use crate::chunk::{Chunk, EMPTY_INDEX};
use vstd::prelude::*;

verus! {

/// The chunk that index `at` leads to in `slab`, if it leads to one: the
/// index must not be the empty link, must lie in the slab, and its cell must
/// hold a chunk.
pub open spec fn chunk_at<T>(slab: Seq<Option<Chunk<T, usize>>>, at: usize) -> Option<
    Chunk<T, usize>,
> {
    if at != EMPTY_INDEX && at < slab.len() {
        slab[at as int]
    } else {
        None
    }
}

/// A cursor for reading a sequence of chunks in a slab.
pub struct Cursor<'a, T> {
    data: &'a [Option<Chunk<T, usize>>],
    current: usize,
}

impl<'a, T> Cursor<'a, T> {
    /// The slab that the cursor walks in.
    pub closed spec fn slab(&self) -> Seq<Option<Chunk<T, usize>>> {
        self.data@
    }

    /// The index of the chunk that comes next.
    pub closed spec fn position(&self) -> usize {
        self.current
    }

    /// A cursor over the sequence that begins in cell `start` of `data`.
    pub fn new(data: &'a [Option<Chunk<T, usize>>], start: usize) -> (r: Self)
        ensures
            r.slab() == data@,
            r.position() == start,
    {
        Self { data, current: start }
    }

    /// Yields the next chunk with the index of its cell and moves on to its
    /// successor.  Yields nothing, and stays, where the sequence has ended.
    pub fn next(&mut self) -> (r: Option<(usize, &'a Chunk<T, usize>)>)
        ensures
            final(self).slab() == old(self).slab(),
            match chunk_at(old(self).slab(), old(self).position()) {
                Some(c) => r == Some((old(self).position(), &c)) && final(self).position()
                    == c.link(),
                None => r is None && final(self).position() == old(self).position(),
            },
    {
        if self.current == EMPTY_INDEX || self.current >= self.data.len() {
            return None;
        }
        match &self.data[self.current] {
            Some(chunk) => {
                let at = self.current;
                self.current = *chunk.next_hint();
                Some((at, chunk))
            },
            None => None,
        }
    }
}

/// A cursor for changing a sequence of chunks in a slab.
pub struct CursorMut<'a, T> {
    pub data: &'a mut [Option<Chunk<T, usize>>],
    pub current: usize,
}

impl<'a, T> CursorMut<'a, T> {
    /// The slab that the cursor walks in.
    pub open spec fn slab(&self) -> Seq<Option<Chunk<T, usize>>> {
        self.data@
    }

    /// The index of the chunk that comes next.
    pub open spec fn position(&self) -> usize {
        self.current
    }

    /// A cursor over the sequence that begins in cell `start` of `data`.
    pub fn new(data: &'a mut [Option<Chunk<T, usize>>], start: usize) -> (r: Self)
        ensures
            r.slab() == old(data)@,
            r.position() == start,
    {
        Self { data, current: start }
    }

    /// A second cursor at the place of this one.  It can be moved forward
    /// while this one stays: when the second is gone, this one stands where
    /// it stood, over the slab as the second left it.
    pub fn reborrow<'b>(&'b mut self) -> (r: CursorMut<'b, T>)
        ensures
            r.slab() == old(self).slab(),
            r.position() == old(self).position(),
            final(self).position() == old(self).position(),
            final(self).slab() == final(r.data)@,
    {
        CursorMut { data: &mut *self.data, current: self.current }
    }

    /// Yields the next chunk with the index of its cell and moves on to the
    /// successor that it has at this time.  Yields nothing, and stays, where
    /// the sequence has ended.
    pub fn next<'b>(&'b mut self) -> (r: Option<(usize, &'b mut Chunk<T, usize>)>)
        ensures
            match chunk_at(old(self).slab(), old(self).position()) {
                Some(c) => match r {
                    Some((at, chunk)) => at == old(self).position() && *chunk == c && final(self).position() == c.link() && final(self).slab() == old(self).slab().update(
                        at as int,
                        Some(*final(chunk)),
                    ),
                    None => false,
                },
                None => r is None && final(self).position() == old(self).position() && final(self).slab() == old(self).slab(),
            },
    {
        if self.current == EMPTY_INDEX || self.current >= self.data.len() {
            return None;
        }
        let at = self.current;
        match &mut self.data[at] {
            Some(chunk) => {
                self.current = *chunk.next_hint();
                Some((at, chunk))
            },
            None => None,
        }
    }
}

} // verus!
