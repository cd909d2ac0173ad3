//! A free list that lives inside the slab whose cells it hands out.
use crate::chunk::{check_fits, fits, slots, slots_of, Chunk, EMPTY_INDEX};
use crate::laws::{ascending, free_set, lemma_free_count, lemma_runs_ascend, total};
use crate::model::{
    before, lemma_chunk_at, lemma_runs_next, lemma_seal, lemma_unseal, lemma_walk_on,
    starts_ascend, Node, State,
};
use crate::ptrlist::Cursor;
use crate::steps::{
    after_steal, best_fit, cut, granted_len, granted_start, has_succ, into_new, lemma_extend_prev,
    lemma_extend_succ, lemma_insert_new, lemma_locate, lemma_merge, lemma_no_run_at,
    lemma_not_free, lemma_overflow, lemma_scan_end, lemma_scan_fit, lemma_scan_step, lemma_steal,
    lemma_take_all, lemma_take_front, located, merge_releases, merged, no_runs, outcome, post_adj,
    pre_adj, release_frees_chunk, released, run_used, scanned, serve_frees_chunk, served, stolen,
    succ_chunk, succ_index, take_releases, taken, within,
};
use vstd::prelude::*;

verus! {

/// A run of `len` free cells that begins at cell `start`.
#[derive(Debug, Copy, Clone)]
pub struct Entry {
    pub start: u32,
    pub len: u32,
}

/// A chunk of free runs, linked by slab index.
pub type EntryChunk = Chunk<Entry, usize>;

impl Entry {
    /// The first cell after the run.
    pub open spec fn end(self) -> int {
        self.start + self.len
    }

    /// Whether cell `c` lies in the run.
    pub open spec fn contains(self, c: int) -> bool {
        self.start <= c < self.start + self.len
    }

    /// Takes `count` cells from the front of the run.
    pub fn allocate(&mut self, count: u32)
        requires
            count <= old(self).len,
            old(self).start + count <= u32::MAX,
        ensures
            final(self).start == old(self).start + count,
            final(self).len == old(self).len - count,
    {
        self.start += count;
        self.len -= count;
    }
}

impl EntryChunk {
    /// Finds the first run of at least `count` cells, or else the first of
    /// the longest runs, and says where in this chunk it stands.
    ///
    /// `Ok(i)` is the first run that is long enough.  Where none is,
    /// `Err((i, len))` is the first of the longest runs with its length, and
    /// `Err((0, 0))` stands for a chunk without runs.
    pub fn find_space(&self, count: u32) -> (r: Result<usize, (usize, u32)>)
        ensures
            match r {
                Ok(i) => {
                    &&& i < self@.len()
                    &&& self@[i as int].len >= count
                    &&& forall|j: int| 0 <= j < i ==> (#[trigger] self@[j]).len < count
                },
                Err((i, m)) => {
                    &&& forall|j: int|
                        0 <= j < self@.len() ==> (#[trigger] self@[j]).len < count && self@[j].len
                            <= m
                    &&& m == 0 ==> i == 0
                    &&& m > 0 ==> i < self@.len() && self@[i as int].len == m && forall|j: int|
                        0 <= j < i ==> (#[trigger] self@[j]).len < m
                },
            },
    {
        let runs = self.as_slice();
        let mut max: (usize, u32) = (0, 0);
        let mut i: usize = 0;
        while i < runs.len()
            invariant
                runs@ == self@,
                i <= runs@.len(),
                forall|j: int| 0 <= j < i ==> (#[trigger] runs@[j]).len < count && runs@[j].len
                    <= max.1,
                max.1 == 0 ==> max.0 == 0,
                max.1 > 0 ==> max.0 < i && runs@[max.0 as int].len == max.1 && forall|j: int|
                    0 <= j < max.0 ==> (#[trigger] runs@[j]).len < max.1,
            decreases runs@.len() - i,
        {
            let e = runs[i];
            if e.len >= count {
                return Ok(i);
            }
            if max.1 < e.len {
                max = (i, e.len);
            }
            i += 1;
        }
        Err(max)
    }
}

/// Searches runs that begin in ascending order, none of them at `pos`, for
/// the place of a run that begins at `pos`: after the runs that begin
/// before `pos`.
fn lower_bound(runs: &[Entry], pos: u32) -> (p: usize)
    requires
        starts_ascend(runs@),
        forall|j: int| 0 <= j < runs@.len() ==> (#[trigger] runs@[j]).start != pos,
    ensures
        p <= runs@.len(),
        forall|j: int| 0 <= j < p ==> (#[trigger] runs@[j]).start < pos,
        forall|j: int| p <= j < runs@.len() ==> (#[trigger] runs@[j]).start > pos,
{
    let mut lo: usize = 0;
    let mut hi: usize = runs.len();
    while lo < hi
        invariant
            starts_ascend(runs@),
            lo <= hi <= runs@.len(),
            forall|j: int| 0 <= j < runs@.len() ==> (#[trigger] runs@[j]).start != pos,
            forall|j: int| 0 <= j < lo ==> (#[trigger] runs@[j]).start < pos,
            forall|j: int| hi <= j < runs@.len() ==> (#[trigger] runs@[j]).start > pos,
        decreases hi - lo,
    {
        let mid = lo + (hi - lo) / 2;
        if runs[mid].start < pos {
            lo = mid + 1;
        } else {
            hi = mid;
        }
    }
    lo
}

/// Looks for the run that holds the cell `at`.
fn find_run(runs: &[Entry], at: u32) -> (r: Option<usize>)
    ensures
        match r {
            Some(i) => i < runs@.len() && runs@[i as int].contains(at as int),
            None => forall|j: int| 0 <= j < runs@.len() ==> !(#[trigger] runs@[j]).contains(
                at as int,
            ),
        },
{
    let mut i: usize = 0;
    while i < runs.len()
        invariant
            i <= runs@.len(),
            forall|j: int| 0 <= j < i ==> !(#[trigger] runs@[j]).contains(at as int),
        decreases runs@.len() - i,
    {
        let e = runs[i];
        if e.start as u64 <= at as u64 && (at as u64) < e.start as u64 + e.len as u64 {
            return Some(i);
        }
        i += 1;
    }
    None
}

/// What a cell of the slab holds, as the model sees it.
pub open spec fn node_of(cell: Option<EntryChunk>) -> Option<Node> {
    match cell {
        Some(c) => Some(Node { entries: c@, next: c.link() }),
        None => None,
    }
}

/// Whether a chunk can hold free runs at all: a run fits into a cell, and a
/// chunk has room for two of them.
pub open spec fn entry_layout() -> bool {
    fits::<Entry, usize>() && slots_of::<Entry>() >= 2
}

/// Where a range that is being released belongs, and how it lies to the
/// runs around that place.
struct Place {
    /// The cell of the chunk.
    id: usize,
    /// The place in the chunk.
    p: usize,
    /// Whether the run before the place ends where the range begins.
    pre: bool,
    /// Whether the run after the place begins where the range ends.
    post: bool,
    /// The cell of the chunk that holds the run after the place.
    at: usize,
    /// The place of that run in its chunk.
    i: usize,
    /// Whether the chunk has no room for another run.
    full: bool,
    /// The position of the chunk in the chain.
    k: Ghost<int>,
}

/// The run that a request is served from.
struct Pick {
    /// The cell of the chunk that holds the run.
    id: usize,
    /// The place of the run in its chunk.
    i: usize,
    /// The cell of the chunk before that chunk, if it is not the root.
    prev: Option<usize>,
    /// The position of the chunk in the chain.
    k: Ghost<int>,
}

/// A free list over a slab of cells.
///
/// The list keeps its runs of free cells in chunks that live in cells of the
/// slab itself.  Each cell of the slab is free, in use, or holds one of those
/// chunks.
pub struct FreeList<'a, T> {
    initial: usize,
    chunks: &'a mut [Option<EntryChunk>],
    path: Ghost<Seq<usize>>,
    phantom: core::marker::PhantomData<T>,
}

impl<'a, T> FreeList<'a, T> {
    /// The slab and the chain of chunks in it.
    pub closed spec fn view(&self) -> State {
        State {
            cells: Seq::new(self.chunks@.len(), |i: int| node_of(self.chunks@[i])),
            path: self.path@,
        }
    }

    /// The cell of the root chunk.
    pub closed spec fn root(&self) -> usize {
        self.initial
    }

    /// The list is well formed and its root is the first chunk of the chain.
    pub open spec fn wf(&self) -> bool {
        self@.wf() && self.root() == self@.path[0]
    }

    /// The chunk in cell `id`.
    fn peek(&self, id: usize) -> (r: &EntryChunk)
        requires
            id < self@.cells.len(),
            self@.cells[id as int] is Some,
        ensures
            r@ == self@.cells[id as int]->0.entries,
            r.link() == self@.cells[id as int]->0.next,
    {
        self.chunks[id].as_ref().unwrap()
    }

    /// Takes the chunk out of cell `id`.
    fn lift(&mut self, id: usize) -> (r: EntryChunk)
        requires
            id < old(self)@.cells.len(),
            old(self)@.cells[id as int] is Some,
        ensures
            r@ == old(self)@.cells[id as int]->0.entries,
            r.link() == old(self)@.cells[id as int]->0.next,
            final(self)@.cells == old(self)@.cells.update(id as int, None),
            final(self)@.path == old(self)@.path,
            final(self).root() == old(self).root(),
    {
        let r = self.chunks[id].take().unwrap();
        assert(self@.cells =~= old(self)@.cells.update(id as int, None));
        r
    }

    /// Puts `chunk` into cell `id`.
    fn edit(&mut self, id: usize, chunk: EntryChunk)
        requires
            id < old(self)@.cells.len(),
        ensures
            final(self)@.cells == old(self)@.cells.update(
                id as int,
                Some(Node { entries: chunk@, next: chunk.link() }),
            ),
            final(self)@.path == old(self)@.path,
            final(self).root() == old(self).root(),
    {
        self.chunks[id] = Some(chunk);
        assert(self@.cells =~= old(self)@.cells.update(
            id as int,
            Some(Node { entries: chunk@, next: chunk.link() }),
        ));
    }

    /// Replaces the run at place `i` of the chunk in cell `id`.
    fn put(&mut self, id: usize, i: usize, e: Entry, Ghost(k): Ghost<int>)
        requires
            old(self)@.linked(),
            0 <= k < old(self)@.path.len(),
            id == old(self)@.path[k],
            i < old(self)@.node(k).entries.len(),
        ensures
            final(self)@ == old(self)@.set(k, i as int, e),
            final(self).root() == old(self).root(),
    {
        let mut c = self.lift(id);
        c.set(i, e);
        self.edit(id, c);
        assert(self@.cells =~= old(self)@.set(k, i as int, e).cells);
    }

    /// Removes the run at place `i` of the chunk in cell `id`.
    fn cut_out(&mut self, id: usize, i: usize, Ghost(k): Ghost<int>) -> (r: Entry)
        requires
            old(self)@.linked(),
            0 <= k < old(self)@.path.len(),
            id == old(self)@.path[k],
            i < old(self)@.node(k).entries.len(),
        ensures
            r == old(self)@.ent(k, i as int),
            final(self)@ == old(self)@.remove(k, i as int),
            final(self).root() == old(self).root(),
    {
        let mut c = self.lift(id);
        let r = c.remove(i).unwrap();
        self.edit(id, c);
        assert(self@.cells =~= old(self)@.remove(k, i as int).cells);
        r
    }

    /// Puts a run in at place `i` of the chunk in cell `id`, which has room.
    fn put_in(&mut self, id: usize, i: usize, e: Entry, Ghost(k): Ghost<int>)
        requires
            old(self)@.linked(),
            0 <= k < old(self)@.path.len(),
            id == old(self)@.path[k],
            i <= old(self)@.node(k).entries.len(),
            old(self)@.node(k).entries.len() < slots_of::<Entry>(),
        ensures
            final(self)@ == old(self)@.insert(k, i as int, e),
            final(self).root() == old(self).root(),
    {
        let mut c = self.lift(id);
        c.insert(i, e);
        self.edit(id, c);
        assert(self@.cells =~= old(self)@.insert(k, i as int, e).cells);
    }

    /// Takes the chunk in cell `id`, which follows the chunk in cell `prev`,
    /// out of the chain.
    fn drop_chunk(&mut self, prev: usize, id: usize, Ghost(k): Ghost<int>)
        requires
            old(self)@.linked(),
            1 <= k < old(self)@.path.len(),
            prev == old(self)@.path[k - 1],
            id == old(self)@.path[k],
        ensures
            final(self)@ == old(self)@.unlink(k),
            final(self).root() == old(self).root(),
    {
        let gone = self.lift(id);
        let next = *gone.next_hint();
        assert(old(self)@.path[k - 1] != old(self)@.path[k]);
        let mut c = self.lift(prev);
        c.set_next_hint(next);
        self.edit(prev, c);
        proof {
            self.path@ = self.path@.remove(k);
        }
        assert(self@.cells =~= old(self)@.unlink(k).cells);
    }

    /// Takes the root out of the chain and makes its successor the root.
    fn drop_root(&mut self)
        requires
            old(self)@.linked(),
            old(self)@.path.len() >= 2,
            old(self).root() == old(self)@.path[0],
        ensures
            final(self)@ == old(self)@.promote(),
            final(self).root() == old(self)@.path[1],
    {
        let gone = self.lift(self.initial);
        let next = *gone.next_hint();
        assert(old(self)@.node(0).next == old(self)@.next_of(0));
        self.initial = next;
        proof {
            self.path@ = self.path@.remove(0);
        }
        assert(self@.cells =~= old(self)@.promote().cells);
    }

    /// Cuts the chunk in cell `id` at place `q` and moves what follows into
    /// a new chunk in cell `fresh`, which becomes its successor.
    fn split_chunk(&mut self, id: usize, q: usize, fresh: usize, Ghost(k): Ghost<int>)
        requires
            old(self)@.linked(),
            0 <= k < old(self)@.path.len(),
            id == old(self)@.path[k],
            q <= old(self)@.node(k).entries.len(),
            fresh < old(self)@.cells.len(),
            fresh != id,
        ensures
            final(self)@ == old(self)@.split(k, q as int, fresh),
            final(self).root() == old(self).root(),
    {
        let mut c = self.lift(id);
        let next = *c.next_hint();
        let mut cell: Option<EntryChunk> = None;
        let tail = c.split(q, &mut cell);
        tail.set_next_hint(next);
        c.set_next_hint(fresh);
        self.edit(id, c);
        self.edit(fresh, cell.unwrap());
        proof {
            self.path@ = self.path@.insert(k + 1, fresh);
        }
        assert(self@.cells =~= old(self)@.split(k, q as int, fresh).cells);
    }

    /// Walks the chain to the first chunk whose last run ends at or after
    /// `pos`, or to the last chunk where there is none.
    fn find_chunk(&self, pos: u32) -> (r: (usize, Option<usize>, Ghost<int>))
        requires
            self.wf(),
        ensures
            ({
                let k = r.2@;
                let s = self@;
                &&& 0 <= k < s.path.len()
                &&& r.0 == s.path[k]
                &&& k == 0 ==> r.1 is None
                &&& k > 0 ==> r.1 == Some(s.path[k - 1])
                &&& forall|a: int, j: int|
                    s.valid(a, j) && a < k ==> (#[trigger] s.ent(a, j)).end() < pos
                &&& k == s.path.len() - 1 || (s.node(k).entries.len() >= 1 && s.node(
                    k,
                ).entries.last().end() >= pos)
            }),
    {
        let ghost s = self@;
        proof {
            lemma_seal(s);
        }
        let mut id = self.initial;
        let mut prev: Option<usize> = None;
        let ghost mut k: int = 0;
        loop
            invariant
                s == self@,
                s.sealed(),
                0 <= k < s.path.len(),
                id == s.path[k],
                k == 0 ==> prev is None,
                k > 0 ==> prev == Some(s.path[k - 1]),
                forall|a: int, j: int| s.valid(a, j) && a < k ==> (#[trigger] s.ent(a, j)).end()
                    < pos,
            decreases s.path.len() - k,
        {
            proof {
                lemma_chunk_at(s, k);
            }
            let chunk = self.peek(id);
            let n = chunk.len();
            if n > 0 {
                let last = chunk.as_slice()[n - 1];
                if last.start as u64 + last.len as u64 >= pos as u64 {
                    return (id, prev, Ghost(k));
                }
            }
            let next = *chunk.next_hint();
            if next == EMPTY_INDEX {
                return (id, prev, Ghost(k));
            }
            proof {
                lemma_walk_on(s, k, pos as int);
                k = k + 1;
            }
            prev = Some(id);
            id = next;
        }
    }

    /// Searches the chunk in cell `id` for the place of a run that begins
    /// at `pos`: after the runs that begin before `pos`.
    fn find_slot(&self, id: usize, pos: u32, Ghost(k): Ghost<int>) -> (p: usize)
        requires
            self.wf(),
            0 <= k < self@.path.len(),
            id == self@.path[k],
            forall|j: int|
                0 <= j < self@.node(k).entries.len() ==> (#[trigger] self@.ent(k, j)).start != pos,
        ensures
            p <= self@.node(k).entries.len(),
            forall|j: int| 0 <= j < p ==> (#[trigger] self@.ent(k, j)).start < pos,
            forall|j: int|
                p <= j < self@.node(k).entries.len() ==> (#[trigger] self@.ent(k, j)).start > pos,
    {
        proof {
            lemma_seal(self@);
            lemma_chunk_at(self@, k);
        }
        let chunk = self.peek(id);
        let runs = chunk.as_slice();
        assert forall|j: int| 0 <= j < runs@.len() implies (#[trigger] runs@[j]).start != pos by {
            assert(runs@[j] == self@.ent(k, j));
        }
        let p = lower_bound(runs, pos);
        assert forall|j: int| 0 <= j < p implies (#[trigger] self@.ent(k, j)).start < pos by {
            assert(runs@[j] == self@.ent(k, j));
        }
        assert forall|j: int| p <= j < self@.node(k).entries.len() implies (#[trigger] self@.ent(
            k,
            j,
        )).start > pos by {
            assert(runs@[j] == self@.ent(k, j));
        }
        p
    }

    /// Releases a range that touches only the run before its place: that
    /// run grows by the range.
    fn release_prev(&mut self, pos: u32, count: u32, id: usize, p: usize, Ghost(k): Ghost<int>)
        requires
            old(self).wf(),
            run_used(old(self)@, pos as int, count as int),
            located(old(self)@, pos as int, count as int, k, p as int),
            id == old(self)@.path[k],
            pre_adj(old(self)@, pos as int, k, p as int),
            !post_adj(old(self)@, pos as int, count as int, k, p as int),
        ensures
            final(self)@ == released(old(self)@, pos as int, count as int, k, p as int),
            final(self).wf(),
            final(self)@.cells.len() == old(self)@.cells.len(),
            forall|c: int| #[trigger]
                final(self)@.is_used(c) <==> old(self)@.is_used(c) && !within(
                    c,
                    pos as int,
                    count as int,
                ),
    {
        proof {
            lemma_extend_prev(self@, pos as int, count as int, k, p as int);
        }
        let e = self.peek(id).as_slice()[p - 1];
        self.put(id, p - 1, Entry { start: e.start, len: e.len + count }, Ghost(k));
    }

    /// Releases a range that touches only the run after its place, which
    /// stands at place `i` of the chunk in cell `at`: that run grows
    /// downwards by the range.
    fn release_succ(
        &mut self,
        pos: u32,
        count: u32,
        at: usize,
        i: usize,
        Ghost(k): Ghost<int>,
        Ghost(p): Ghost<int>,
    )
        requires
            old(self).wf(),
            run_used(old(self)@, pos as int, count as int),
            located(old(self)@, pos as int, count as int, k, p),
            !pre_adj(old(self)@, pos as int, k, p),
            post_adj(old(self)@, pos as int, count as int, k, p),
            at == old(self)@.path[succ_chunk(old(self)@, k, p)],
            i == succ_index(old(self)@, k, p),
        ensures
            final(self)@ == released(old(self)@, pos as int, count as int, k, p),
            final(self).wf(),
            final(self)@.cells.len() == old(self)@.cells.len(),
            forall|c: int| #[trigger]
                final(self)@.is_used(c) <==> old(self)@.is_used(c) && !within(
                    c,
                    pos as int,
                    count as int,
                ),
    {
        let ghost sk = succ_chunk(self@, k, p);
        proof {
            lemma_extend_succ(self@, pos as int, count as int, k, p);
        }
        let x = self.peek(at).as_slice()[i];
        self.put(at, i, Entry { start: pos, len: x.len + count }, Ghost(sk));
    }

    /// Releases a range that touches no run into a chunk that has room: the
    /// range becomes a run at its place.
    fn release_new(&mut self, pos: u32, count: u32, id: usize, p: usize, Ghost(k): Ghost<int>)
        requires
            old(self).wf(),
            run_used(old(self)@, pos as int, count as int),
            located(old(self)@, pos as int, count as int, k, p as int),
            id == old(self)@.path[k],
            !pre_adj(old(self)@, pos as int, k, p as int),
            !post_adj(old(self)@, pos as int, count as int, k, p as int),
            old(self)@.node(k).entries.len() < slots_of::<Entry>(),
        ensures
            final(self)@ == released(old(self)@, pos as int, count as int, k, p as int),
            final(self).wf(),
            final(self)@.cells.len() == old(self)@.cells.len(),
            forall|c: int| #[trigger]
                final(self)@.is_used(c) <==> old(self)@.is_used(c) && !within(
                    c,
                    pos as int,
                    count as int,
                ),
    {
        proof {
            lemma_insert_new(self@, pos as int, count as int, k, p as int);
        }
        self.put_in(id, p, Entry { start: pos, len: count }, Ghost(k));
    }

    /// Releases a range that touches no run into a chunk that is full.
    ///
    /// The list cannot hand itself a cell for a new chunk in the middle of
    /// a release, so the full chunk gives up the last cell of its last run.
    /// The chunk is cut at the place of the range, what follows moves to a
    /// new chunk in that cell, and the range becomes the last run of the
    /// first half, or the only run of the second where that got none.
    fn release_overflow(&mut self, pos: u32, count: u32, id: usize, p: usize, Ghost(k): Ghost<int>)
        requires
            old(self).wf(),
            run_used(old(self)@, pos as int, count as int),
            located(old(self)@, pos as int, count as int, k, p as int),
            id == old(self)@.path[k],
            !pre_adj(old(self)@, pos as int, k, p as int),
            !post_adj(old(self)@, pos as int, count as int, k, p as int),
            old(self)@.node(k).entries.len() == slots_of::<Entry>(),
        ensures
            final(self).wf(),
            final(self)@.cells.len() == old(self)@.cells.len(),
            final(self)@ == released(old(self)@, pos as int, count as int, k, p as int),
            forall|c: int| #[trigger]
                final(self)@.is_used(c) <==> old(self)@.is_used(c) && !within(
                    c,
                    pos as int,
                    count as int,
                ),
    {
        let ghost s = self@;
        proof {
            lemma_steal(s, k);
            lemma_overflow(s, pos as int, count as int, k, p as int);
        }
        let chunk = self.peek(id);
        let n = chunk.len();
        let last = chunk.as_slice()[n - 1];
        assert(s.valid(k, n - 1) && last == s.ent(k, n - 1));
        let fresh = (last.start + last.len - 1) as usize;
        let rest = if last.len >= 2 {
            self.put(id, n - 1, Entry { start: last.start, len: last.len - 1 }, Ghost(k));
            n
        } else {
            self.cut_out(id, n - 1, Ghost(k));
            n - 1
        };
        assert(self@ == after_steal(s, k));
        assert(fresh == stolen(s, k));
        assert(rest == self@.node(k).entries.len());
        assert(fresh != id) by {
            if fresh == id {
                assert(self@.path[k] == fresh);
                assert(self@.is_meta(fresh as int));
            }
        }
        let q = if p < rest {
            p
        } else {
            rest
        };
        assert(q == cut(s, k, p as int));
        self.split_chunk(id, q, fresh, Ghost(k));
        if q == rest {
            assert(into_new(s, k, p as int));
            self.put_in(fresh, 0, Entry { start: pos, len: count }, Ghost(k + 1));
        } else {
            self.put_in(id, q, Entry { start: pos, len: count }, Ghost(k));
        }
    }

    /// Releases a range that touches the runs on both sides of its place:
    /// the run after it, at place `i` of the chunk in cell `at`, goes, and
    /// the run before it grows to where that one ended.  A chunk that this
    /// empties leaves the chain, and its cell is returned for release.
    fn release_merge(
        &mut self,
        pos: u32,
        count: u32,
        id: usize,
        p: usize,
        at: usize,
        i: usize,
        Ghost(k): Ghost<int>,
    ) -> (r: Option<usize>)
        requires
            old(self).wf(),
            run_used(old(self)@, pos as int, count as int),
            located(old(self)@, pos as int, count as int, k, p as int),
            id == old(self)@.path[k],
            pre_adj(old(self)@, pos as int, k, p as int),
            post_adj(old(self)@, pos as int, count as int, k, p as int),
            at == old(self)@.path[succ_chunk(old(self)@, k, p as int)],
            i == succ_index(old(self)@, k, p as int),
        ensures
            final(self).wf(),
            final(self)@.cells.len() == old(self)@.cells.len(),
            final(self)@ == released(old(self)@, pos as int, count as int, k, p as int),
            r is Some <==> merge_releases(old(self)@, k, p as int),
            r is Some ==> r->0 == old(self)@.path[k + 1] && !within(
                r->0 as int,
                pos as int,
                count as int,
            ) && final(self)@.path.len() == old(self)@.path.len() - 1,
            forall|c: int| #[trigger]
                final(self)@.is_used(c) <==> (old(self)@.is_used(c) && !within(
                    c,
                    pos as int,
                    count as int,
                )) || (r is Some && c == r->0),
    {
        let ghost s = self@;
        let ghost sk = succ_chunk(s, k, p as int);
        proof {
            lemma_merge(s, pos as int, count as int, k, p as int);
        }
        let x = self.cut_out(at, i, Ghost(sk));
        let e = self.peek(id).as_slice()[p - 1];
        self.put(id, p - 1, Entry { start: e.start, len: e.len + count + x.len }, Ghost(k));
        if at != id && self.peek(at).len() == 0 {
            assert(sk == k + 1) by {
                if sk == k {
                    assert(s.path[sk] == s.path[k]);
                }
            }
            assert(merge_releases(s, k, p as int));
            self.drop_chunk(id, at, Ghost(k + 1));
            Some(at)
        } else {
            assert(!merge_releases(s, k, p as int)) by {
                if sk != k {
                    assert(s.path[k] != s.path[k + 1]);
                }
            }
            None
        }
    }

    /// Finds the place where the range `[pos, pos + count)` belongs and how
    /// it lies to the runs around that place.
    fn survey(&self, pos: u32, count: u32) -> (r: Place)
        requires
            self.wf(),
            run_used(self@, pos as int, count as int),
        ensures
            located(self@, pos as int, count as int, r.k@, r.p as int),
            r.id == self@.path[r.k@],
            r.pre == pre_adj(self@, pos as int, r.k@, r.p as int),
            r.post == post_adj(self@, pos as int, count as int, r.k@, r.p as int),
            r.post ==> r.at == self@.path[succ_chunk(self@, r.k@, r.p as int)] && r.i
                == succ_index(self@, r.k@, r.p as int),
            r.full == (self@.node(r.k@).entries.len() == slots_of::<Entry>()),
            self@.node(r.k@).entries.len() <= slots_of::<Entry>(),
    {
        let ghost s = self@;
        proof {
            crate::steps::lemma_run_used(s, pos as int, count as int);
            lemma_no_run_at(s, pos as int, count as int);
        }
        let (id, _, Ghost(k)) = self.find_chunk(pos);
        let p = self.find_slot(id, pos, Ghost(k));
        proof {
            lemma_locate(s, pos as int, count as int, k, p as int);
        }
        let chunk = self.peek(id);
        let n = chunk.len();
        let cap = chunk.capacity();
        let next = *chunk.next_hint();
        let runs = chunk.as_slice();
        let expected = pos + count;
        let pre = if p > 0 {
            let e = runs[p - 1];
            assert(s.valid(k, p - 1) && e == s.ent(k, p - 1));
            e.start + e.len == pos
        } else {
            false
        };
        assert(next == s.next_of(k));
        let mut at = id;
        let mut i = p;
        let mut post = false;
        if p < n {
            post = runs[p].start == expected;
        } else if next != EMPTY_INDEX {
            assert(k + 1 < s.path.len());
            assert(s.path[k + 1] < s.cells.len());
            assert(s.valid(k + 1, 0)) by {
                let _ = s.node(k + 1);
            }
            at = next;
            i = 0;
            post = self.peek(next).as_slice()[0].start == expected;
        } else {
            assert(!has_succ(s, k, p as int)) by {
                if k + 1 < s.path.len() {
                    assert(s.path[k + 1] < s.cells.len());
                }
            }
        }
        Place { id, p, pre, post, at, i, full: n >= cap, k: Ghost(k) }
    }

    /// Marks the cells `[pos, pos + count)` as free.
    ///
    /// Only ever release cells that are in use, and only once: cells that
    /// were handed out by [`FreeList::allocate`], or that the caller set
    /// aside before the list was made.
    ///
    /// The range is merged with the free runs that it touches.  Where it
    /// touches none it becomes a run of its own, in a new chunk where the
    /// chunk for it is full.
    pub fn free(&mut self, pos: u32, count: u32)
        requires
            old(self).wf(),
            forall|c: int| pos <= c < pos + count ==> #[trigger] old(self)@.is_used(c),
        ensures
            final(self).wf(),
            final(self)@.cells.len() == old(self)@.cells.len(),
            forall|c: int| #[trigger]
                final(self)@.is_used(c) <==> old(self)@.is_used(c) && !within(
                    c,
                    pos as int,
                    count as int,
                ),
            count == 0 ==> final(self)@ == old(self)@,
            count > 0 ==> exists|k: int, p: int|
                located(old(self)@, pos as int, count as int, k, p) && (release_frees_chunk(
                    old(self)@,
                    pos as int,
                    count as int,
                    k,
                    p,
                ) || final(self)@ == #[trigger] released(
                    old(self)@,
                    pos as int,
                    count as int,
                    k,
                    p,
                )),
        decreases old(self)@.path.len(),
    {
        if count == 0 {
            return ;
        }
        let ghost s = self@;
        let place = self.survey(pos, count);
        let ghost k = place.k@;
        let ghost p = place.p as int;
        if place.pre && place.post {
            let gone = self.release_merge(
                pos,
                count,
                place.id,
                place.p,
                place.at,
                place.i,
                place.k,
            );
            match gone {
                Some(cell) => {
                    let ghost mid = self@;
                    assert(mid.is_used(cell as int));
                    assert(s.is_meta(cell as int)) by {
                        assert(s.path[place.k@ + 1] == cell);
                    }
                    self.free(cell as u32, 1);
                    assert forall|c: int| #[trigger]
                        self@.is_used(c) <==> s.is_used(c) && !within(
                            c,
                            pos as int,
                            count as int,
                        ) by {
                        let _ = mid.is_used(c);
                    }
                },
                None => {},
            }
        } else if place.pre {
            self.release_prev(pos, count, place.id, place.p, place.k);
        } else if place.post {
            self.release_succ(pos, count, place.at, place.i, place.k, Ghost(place.p as int));
        } else if !place.full {
            self.release_new(pos, count, place.id, place.p, place.k);
        } else {
            self.release_overflow(pos, count, place.id, place.p, place.k);
        }
        assert(located(s, pos as int, count as int, k, p) && (release_frees_chunk(
            s,
            pos as int,
            count as int,
            k,
            p,
        ) || self@ == released(s, pos as int, count as int, k, p)));
    }

    /// Walks the chain for the run that a request for `count` cells is
    /// served from: the first run that is long enough, found without
    /// looking further, or else the first of the longest runs.
    fn choose_run(&self, count: u32) -> (r: Option<Pick>)
        requires
            self.wf(),
        ensures
            match r {
                None => no_runs(self@),
                Some(pick) => {
                    &&& best_fit(self@, count as int, pick.k@, pick.i as int)
                    &&& pick.id == self@.path[pick.k@]
                    &&& pick.k@ == 0 ==> pick.prev is None
                    &&& pick.k@ > 0 ==> pick.prev == Some(self@.path[pick.k@ - 1])
                },
            },
    {
        let ghost s = self@;
        proof {
            lemma_seal(s);
        }
        let mut id = self.initial;
        let mut prev: Option<usize> = None;
        let ghost mut k: int = 0;
        let mut best: Option<Pick> = None;
        let mut best_len: u32 = 0;
        let ghost mut kb: int = -1;
        let ghost mut ib: int = 0;
        loop
            invariant
                s.sealed(),
                s == self@,
                0 <= k < s.path.len(),
                id == s.path[k],
                k == 0 ==> prev is None,
                k > 0 ==> prev == Some(s.path[k - 1]),
                scanned(s, count as int, k, kb, ib, best_len as int),
                kb < 0 <==> best is None,
                best is Some ==> {
                    &&& best->0.k@ == kb
                    &&& best->0.i == ib
                    &&& best->0.id == s.path[kb]
                    &&& kb == 0 ==> best->0.prev is None
                    &&& kb > 0 ==> best->0.prev == Some(s.path[kb - 1])
                },
            decreases s.path.len() - k,
        {
            proof {
                lemma_chunk_at(s, k);
            }
            let chunk = self.peek(id);
            assert(chunk@ == s.node(k).entries);
            match chunk.find_space(count) {
                Ok(i) => {
                    proof {
                        lemma_scan_fit(s, count as int, k, kb, ib, best_len as int, i as int);
                    }
                    return Some(Pick { id, i, prev, k: Ghost(k) });
                },
                Err((i, len)) => {
                    proof {
                        lemma_unseal(s);
                        lemma_scan_step(
                            s,
                            count as int,
                            k,
                            kb,
                            ib,
                            best_len as int,
                            i as int,
                            len as int,
                        );
                    }
                    if len > best_len {
                        best = Some(Pick { id, i, prev, k: Ghost(k) });
                        best_len = len;
                        proof {
                            kb = k;
                            ib = i as int;
                        }
                    }
                },
            }
            let next = *chunk.next_hint();
            if next == EMPTY_INDEX {
                proof {
                    lemma_unseal(s);
                    lemma_scan_end(s, count as int, kb, ib, best_len as int);
                }
                return best;
            }
            proof {
                k = k + 1;
            }
            prev = Some(id);
            id = next;
        }
    }

    /// Hands out the whole run at place `pick.i` of the chunk in cell
    /// `pick.id`.  A chunk that this empties leaves the chain, unless it is
    /// the only one, and its cell is returned for release.
    fn take_whole(&mut self, pick: Pick) -> (r: Option<usize>)
        requires
            old(self).wf(),
            old(self)@.valid(pick.k@, pick.i as int),
            pick.id == old(self)@.path[pick.k@],
            pick.k@ == 0 ==> pick.prev is None,
            pick.k@ > 0 ==> pick.prev == Some(old(self)@.path[pick.k@ - 1]),
        ensures
            final(self).wf(),
            final(self)@ == taken(old(self)@, pick.k@, pick.i as int),
            final(self)@.cells.len() == old(self)@.cells.len(),
            r is Some <==> take_releases(old(self)@, pick.k@),
            r is Some ==> r->0 == pick.id && final(self)@.path.len() == old(self)@.path.len() - 1
                && !old(self)@.ent(pick.k@, pick.i as int).contains(pick.id as int),
            forall|c: int| #[trigger]
                final(self)@.is_used(c) <==> old(self)@.is_used(c) || old(self)@.ent(
                    pick.k@,
                    pick.i as int,
                ).contains(c) || (r is Some && c == pick.id),
    {
        let ghost s = self@;
        let ghost k = pick.k@;
        proof {
            lemma_take_all(s, k, pick.i as int);
            assert(s.node(k).next == s.next_of(k));
            if k + 1 < s.path.len() {
                assert(s.path[k + 1] < s.cells.len());
            }
        }
        self.cut_out(pick.id, pick.i, Ghost(k));
        let chunk = self.peek(pick.id);
        if chunk.len() == 0 {
            match pick.prev {
                Some(prev) => {
                    self.drop_chunk(prev, pick.id, Ghost(k));
                    Some(pick.id)
                },
                None => {
                    if chunk.has_next() {
                        self.drop_root();
                        Some(pick.id)
                    } else {
                        None
                    }
                },
            }
        } else {
            None
        }
    }

    /// Tries to hand out `count` adjacent cells.
    ///
    /// The request is served from the first free run of at least `count`
    /// cells, or else from the first of the longest runs, always from the
    /// front of the run.  `Ok(start)` hands out the cells
    /// `[start, start + count)`.  Where no run is that long,
    /// `Err((start, len))` hands out all `len` cells of the run, fewer than
    /// were asked for: ask again for the rest.  `Err((0, 0))` says that no
    /// cell is free.
    pub fn allocate(&mut self, count: u32) -> (r: Result<usize, (usize, u32)>)
        requires
            old(self).wf(),
        ensures
            final(self).wf(),
            final(self)@.cells.len() == old(self)@.cells.len(),
            no_runs(old(self)@) ==> r == Err::<usize, (usize, u32)>((0usize, 0u32)) && final(self)@
                == old(self)@,
            !no_runs(old(self)@) ==> exists|k: int, i: int|
                best_fit(old(self)@, count as int, k, i) && r == outcome(
                    #[trigger] old(self)@.ent(k, i),
                    count,
                ) && (serve_frees_chunk(old(self)@, count as int, k, i) || final(self)@ == served(
                    old(self)@,
                    count as int,
                    k,
                    i,
                )),
            forall|c: int|
                within(c, granted_start(r), granted_len(r, count)) ==> #[trigger] old(
                    self,
                )@.is_free(c),
            forall|c: int| #[trigger]
                final(self)@.is_used(c) <==> old(self)@.is_used(c) || within(
                    c,
                    granted_start(r),
                    granted_len(r, count),
                ),
    {
        let ghost s = self@;
        let pick = match self.choose_run(count) {
            None => {
                return Err((0, 0));
            },
            Some(pick) => pick,
        };
        let ghost k = pick.k@;
        let mut x = self.peek(pick.id).as_slice()[pick.i];
        assert(x == s.ent(k, pick.i as int));
        assert(s.valid(k, pick.i as int));
        assert(!no_runs(s));
        let to_alloc = if count < x.len {
            count
        } else {
            x.len
        };
        let start = x.start as usize;
        let r = if to_alloc == count {
            Ok(start)
        } else {
            Err((start, to_alloc))
        };
        assert(r == outcome(x, count));
        assert forall|c: int|
            within(c, granted_start(r), granted_len(r, count)) implies #[trigger] s.is_free(c) by {
            assert(s.ent(k, pick.i as int).contains(c));
        }
        if to_alloc == 0 {
            assert(self@ == served(s, count as int, k, pick.i as int));
            return r;
        }
        if to_alloc < x.len {
            proof {
                lemma_take_front(s, k, pick.i as int, to_alloc as int);
            }
            x.allocate(to_alloc);
            self.put(pick.id, pick.i, x, Ghost(k));
        } else {
            let gone = self.take_whole(pick);
            match gone {
                Some(cell) => {
                    let ghost mid = self@;
                    assert(mid.is_used(cell as int));
                    assert(s.is_meta(cell as int)) by {
                        assert(s.path[k] == cell);
                    }
                    proof {
                        lemma_take_all(s, k, pick.i as int);
                    }
                    self.free(cell as u32, 1);
                    assert forall|c: int| #[trigger]
                        self@.is_used(c) <==> s.is_used(c) || within(
                            c,
                            granted_start(r),
                            granted_len(r, count),
                        ) by {
                        let _ = mid.is_used(c);
                    }
                },
                None => {},
            }
        }
        assert(serve_frees_chunk(s, count as int, k, pick.i as int) || self@ == served(
            s,
            count as int,
            k,
            pick.i as int,
        ));
        r
    }

    /// The index of the cell that holds the root chunk.
    pub fn initial(&self) -> (r: usize)
        ensures
            r == self.root(),
    {
        self.initial
    }

    /// The number of cells of the slab.
    pub fn cells(&self) -> (r: usize)
        ensures
            r == self@.cells.len(),
    {
        self.chunks.len()
    }

    /// The chunk of free runs that cell `id` holds, if it holds one.
    pub fn get(&self, id: usize) -> (r: Option<&EntryChunk>)
        ensures
            match r {
                Some(c) => id < self@.cells.len() && self@.cells[id as int] == Some(
                    Node { entries: c@, next: c.link() },
                ),
                None => id >= self@.cells.len() || self@.cells[id as int] is None,
            },
    {
        if id < self.chunks.len() {
            self.chunks[id].as_ref()
        } else {
            None
        }
    }

    /// A cursor over the chunks of the list, the root first.
    pub fn iter(&self) -> (r: Cursor<'_, Entry>)
        ensures
            r.position() == self.root(),
            r.slab().len() == self@.cells.len(),
            forall|i: int|
                0 <= i < r.slab().len() ==> node_of(#[trigger] r.slab()[i]) == self@.cells[i],
    {
        Cursor::new(&*self.chunks, self.initial)
    }

    /// All free runs, in ascending order.
    pub fn extents(&self) -> (r: Vec<Entry>)
        requires
            self.wf(),
        ensures
            r@ == self@.runs(),
            ascending(r@, self@.cells.len() as int),
            total(r@) == free_set(self@).len(),
    {
        let ghost s = self@;
        proof {
            lemma_seal(s);
        }
        let mut out: Vec<Entry> = Vec::new();
        let mut id = self.initial;
        let ghost mut k: int = 0;
        loop
            invariant
                s.sealed(),
                s == self@,
                0 <= k < s.path.len(),
                id == s.path[k],
                out@ == s.runs_upto(k),
            decreases s.path.len() - k,
        {
            proof {
                lemma_chunk_at(s, k);
                lemma_runs_next(s, k);
            }
            let chunk = self.peek(id);
            let runs = chunk.as_slice();
            let mut i: usize = 0;
            while i < runs.len()
                invariant
                    runs@ == s.node(k).entries,
                    i <= runs@.len(),
                    out@ == s.runs_upto(k) + runs@.subrange(0, i as int),
                decreases runs@.len() - i,
            {
                out.push(runs[i]);
                i += 1;
                assert(out@ =~= s.runs_upto(k) + runs@.subrange(0, i as int));
            }
            assert(out@ =~= s.runs_upto(k + 1)) by {
                assert(runs@.subrange(0, i as int) =~= runs@);
            }
            let next = *chunk.next_hint();
            if next == EMPTY_INDEX {
                proof {
                    lemma_unseal(s);
                    lemma_runs_ascend(s);
                    lemma_free_count(s);
                }
                return out;
            }
            proof {
                k = k + 1;
            }
            id = next;
        }
    }

    /// Marks the cell `pos` as used, and says whether it was free.  A cell
    /// that was not is left as it was.
    ///
    /// The run that holds the cell is taken out whole, and what lies in it
    /// before and behind the cell is released again.
    pub fn mark_used(&mut self, pos: usize) -> (r: bool)
        requires
            old(self).wf(),
        ensures
            final(self).wf(),
            final(self)@.cells.len() == old(self)@.cells.len(),
            r == old(self)@.is_free(pos as int),
            forall|c: int| #[trigger] final(self)@.is_used(c) <==> old(self)@.is_used(c) || (r && c
                == pos),
            !r ==> final(self)@ == old(self)@,
    {
        let ghost s = self@;
        if pos >= self.chunks.len() {
            proof {
                if s.is_free(pos as int) {
                    let (a, j) = choose|a: int, j: int|
                        s.valid(a, j) && (#[trigger] s.ent(a, j)).contains(pos as int);
                }
            }
            return false;
        }
        let at = pos as u32;
        let (id, prev, Ghost(k)) = self.find_chunk(at);
        proof {
            lemma_seal(s);
            lemma_chunk_at(s, k);
        }
        let runs = self.peek(id).as_slice();
        let i = match find_run(runs, at) {
            Some(i) => i,
            None => {
                proof {
                    assert forall|j: int| 0 <= j < s.node(k).entries.len() implies !(
                    #[trigger] s.ent(k, j)).contains(pos as int) by {
                        assert(runs@[j] == s.ent(k, j));
                    }
                    lemma_not_free(s, pos as int, k);
                }
                return false;
            },
        };
        let x = runs[i];
        assert(s.valid(k, i as int) && x == s.ent(k, i as int));
        assert(s.ent(k, i as int).contains(pos as int));
        assert(s.is_free(pos as int));
        assert(x.len >= 1 && x.end() <= s.cells.len());
        let gone = self.take_whole(Pick { id, i, prev, k: Ghost(k) });
        match gone {
            Some(cell) => {
                assert(s.is_meta(cell as int)) by {
                    assert(s.path[k] == cell);
                }
                self.free(cell as u32, 1);
            },
            None => {},
        }
        let ghost mid = self@;
        assert forall|c: int| #[trigger] mid.is_used(c) <==> s.is_used(c) || x.contains(c) by {}
        self.free(x.start, at - x.start);
        let ghost low = self@;
        assert forall|c: int| #[trigger] low.is_used(c) <==> s.is_used(c) || (pos <= c < x.end()) by {
            let _ = mid.is_used(c);
        }
        self.free(at + 1, x.start + x.len - at - 1);
        assert forall|c: int| #[trigger] self@.is_used(c) <==> s.is_used(c) || c == pos by {
            let _ = low.is_used(c);
        }
        true
    }

    /// Creates a free list over the slab `c` with its root chunk in cell
    /// `initial`.  Every other cell is free; no other cell is touched.
    pub fn new(c: &'a mut [Option<EntryChunk>], initial: u32) -> (r: Self)
        requires
            entry_layout(),
            initial < old(c)@.len() <= u32::MAX,
        ensures
            r.wf(),
            r.root() == initial,
            r@.cells.len() == old(c)@.len(),
            r@.path == seq![initial as usize],
            r@.node(0).entries == Self::initial_runs(initial, old(c)@.len()),
            forall|x: int| !r@.is_used(x),
    {
        let len = c.len() as u32;
        let mut base = EntryChunk::new();
        if initial > 0 {
            base.push(Entry { start: 0, len: initial });
        }
        let remain = len - (initial + 1);
        if remain > 0 {
            base.push(Entry { start: initial + 1, len: remain });
        }
        c[initial as usize] = Some(base);
        let ghost path = seq![initial as usize];
        let r = FreeList {
            initial: initial as usize,
            chunks: c,
            path: Ghost(path),
            phantom: core::marker::PhantomData,
        };
        proof {
            let s = r@;
            assert(s.path[0] == initial);
            assert(s.node(0).entries =~= Self::initial_runs(initial, old(c)@.len()));
            assert(s.linked());
            assert(s.bounded());
            assert(s.ordered());
            assert(s.apart());
            assert forall|x: int| !s.is_used(x) by {
                if 0 <= x < s.cells.len() {
                    if x == initial {
                        assert(s.path[0] == x);
                    } else if x < initial {
                        assert(s.valid(0, 0) && s.ent(0, 0).contains(x));
                    } else {
                        let i = if initial > 0 {
                            1int
                        } else {
                            0int
                        };
                        assert(s.valid(0, i) && s.ent(0, i).contains(x));
                    }
                }
            }
        }
        r
    }

    /// Creates a free list as [`FreeList::new`] does, where that can be
    /// done: the root must be a cell of the slab, the slab must have no more
    /// cells than a run can count, and a chunk must have room for two runs.
    /// Does nothing otherwise.
    pub fn try_new(c: &'a mut [Option<EntryChunk>], initial: u32) -> (r: Option<Self>)
        ensures
            r is Some <==> entry_layout() && initial < old(c)@.len() <= u32::MAX,
            r is Some ==> {
                &&& r->0.wf()
                &&& r->0.root() == initial
                &&& r->0@.cells.len() == old(c)@.len()
                &&& r->0@.path == seq![initial as usize]
                &&& r->0@.node(0).entries == Self::initial_runs(initial, old(c)@.len())
                &&& forall|x: int| !r->0@.is_used(x)
            },
            r is None ==> final(c)@ == old(c)@,
    {
        if check_fits::<Entry, usize>() && slots::<Entry>() >= 2 && (initial as usize) < c.len() && c.len()
            <= 0xFFFF_FFFF {
            Some(Self::new(c, initial))
        } else {
            None
        }
    }

    /// Takes up a free list that was made in the slab `c` before, with its
    /// root chunk in cell `initial`.
    ///
    /// The caller vouches for the slab: its cells must hold a well-formed
    /// list with that root.
    pub fn new_from(c: &'a mut [Option<EntryChunk>], initial: usize) -> (r: Self)
        requires
            exists|path: Seq<usize>|
                (#[trigger] Self::found(old(c)@, path)).wf() && path[0] == initial,
        ensures
            r.wf(),
            r.root() == initial,
            r@.cells == Self::found(old(c)@, r@.path).cells,
    {
        let ghost path = choose|path: Seq<usize>|
            (#[trigger] Self::found(c@, path)).wf() && path[0] == initial;
        let r = FreeList { initial, chunks: c, path: Ghost(path), phantom: core::marker::PhantomData };
        assert(r@.cells =~= Self::found(old(c)@, path).cells);
        r
    }

    /// The state of a list with the chain `path` in the slab `slab`.
    pub open spec fn found(slab: Seq<Option<EntryChunk>>, path: Seq<usize>) -> State {
        State { cells: Seq::new(slab.len(), |i: int| node_of(slab[i])), path }
    }

    /// The runs of a fresh list over `n` cells with its root in cell
    /// `initial`: the cells before the root and the cells after it, each
    /// left out where there are none.
    pub open spec fn initial_runs(initial: u32, n: nat) -> Seq<Entry> {
        let low = if initial > 0 {
            seq![Entry { start: 0, len: initial }]
        } else {
            Seq::<Entry>::empty()
        };
        if n - initial - 1 > 0 {
            low.push(Entry { start: (initial + 1) as u32, len: (n - initial - 1) as u32 })
        } else {
            low
        }
    }
}

} // verus!
