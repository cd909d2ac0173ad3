//! The mathematical model of a free list: which cells of a slab hold chunks
//! of free runs, how those chunks are chained, and which cells are therefore
//! free, taken by the list itself, or in use.
use crate::chunk::{slots_of, EMPTY_INDEX};
use crate::freelist::{entry_layout, Entry};
use vstd::prelude::*;

verus! {

/// What a cell that holds a chunk of free runs contains.
pub struct Node {
    pub entries: Seq<Entry>,
    pub next: usize,
}

/// A slab as the free list sees it.
///
/// `cells[c]` is `None` for a cell that holds no chunk of the list.  `path`
/// lists the cells that hold the chunks of the list, in chain order, the root
/// first.
pub struct State {
    pub cells: Seq<Option<Node>>,
    pub path: Seq<usize>,
}

/// Whether position `(a, i)` comes before position `(b, j)` in chain order.
pub open spec fn before(a: int, i: int, b: int, j: int) -> bool {
    a < b || (a == b && i < j)
}

impl State {
    /// The `k`-th chunk of the chain.
    pub open spec fn node(self, k: int) -> Node {
        self.cells[self.path[k] as int]->0
    }

    /// Whether `(k, i)` is the position of a run: the `i`-th run of the
    /// `k`-th chunk.
    pub open spec fn valid(self, k: int, i: int) -> bool {
        0 <= k < self.path.len() && 0 <= i < self.node(k).entries.len()
    }

    /// The run at position `(k, i)`.
    pub open spec fn ent(self, k: int, i: int) -> Entry {
        self.node(k).entries[i]
    }

    /// The link that the `k`-th chunk of the chain must hold.
    pub open spec fn next_of(self, k: int) -> usize {
        if k + 1 < self.path.len() {
            self.path[k + 1]
        } else {
            EMPTY_INDEX
        }
    }

    /// The chain is in the slab, holds no cell twice, and each chunk links to
    /// the one after it, the last to none.
    pub open spec fn linked(self) -> bool {
        &&& self.cells.len() <= u32::MAX
        &&& self.path.len() >= 1
        &&& entry_layout()
        &&& forall|k: int|
            0 <= k < self.path.len() ==> {
                &&& (#[trigger] self.path[k]) < self.cells.len()
                &&& self.cells[self.path[k] as int] is Some
                &&& self.node(k).entries.len() <= slots_of::<Entry>()
            }
        &&& forall|k: int| 0 <= k < self.path.len() ==> self.node(k).next == #[trigger] self.next_of(k)
        &&& forall|j: int, k: int|
            0 <= j < k < self.path.len() ==> #[trigger] self.path[j] != #[trigger] self.path[k]
    }

    /// Every run holds at least one cell and ends inside the slab.
    pub open spec fn bounded(self) -> bool {
        forall|k: int, i: int|
            self.valid(k, i) ==> (#[trigger] self.ent(k, i)).len >= 1 && self.ent(k, i).end()
                <= self.cells.len()
    }

    /// The runs ascend along the chain, with at least one cell that is not
    /// free between any two of them.
    pub open spec fn ordered(self) -> bool {
        forall|a: int, i: int, b: int, j: int|
            self.valid(a, i) && self.valid(b, j) && before(a, i, b, j) ==> (#[trigger] self.ent(
                a,
                i,
            )).end() < (#[trigger] self.ent(b, j)).start
    }

    /// No cell that holds a chunk of the list lies in a free run.
    pub open spec fn apart(self) -> bool {
        forall|k: int, a: int, i: int|
            0 <= k < self.path.len() && self.valid(a, i) ==> !(#[trigger] self.ent(
                a,
                i,
            )).contains(#[trigger] self.path[k] as int)
    }

    /// No chunk but `hole` is empty, unless it is the only one.
    pub open spec fn filled_but(self, hole: int) -> bool {
        forall|k: int|
            0 <= k < self.path.len() && self.path.len() > 1 && k != hole ==> (#[trigger] self.node(
                k,
            )).entries.len() >= 1
    }

    /// All that holds of a free list between two operations, but that the
    /// chunk `hole` may be empty.
    pub open spec fn wf_but(self, hole: int) -> bool {
        &&& self.linked()
        &&& self.bounded()
        &&& self.ordered()
        &&& self.apart()
        &&& self.filled_but(hole)
    }

    /// All that holds of a free list between two operations.
    pub open spec fn wf(self) -> bool {
        self.wf_but(-1)
    }

    /// The list is well formed.  This says no more than [`State::wf`], but
    /// keeps what that means out of sight where only the fact is carried
    /// along.
    pub closed spec fn sealed(self) -> bool {
        self.wf()
    }

    /// Whether cell `c` is free: it lies in one of the runs.
    pub open spec fn is_free(self, c: int) -> bool {
        exists|k: int, i: int| self.valid(k, i) && (#[trigger] self.ent(k, i)).contains(c)
    }

    /// Whether cell `c` holds a chunk of the list.
    pub open spec fn is_meta(self, c: int) -> bool {
        exists|k: int| 0 <= k < self.path.len() && #[trigger] self.path[k] == c
    }

    /// Whether cell `c` is in use: it is a cell of the slab that is neither
    /// free nor holds a chunk of the list.
    pub open spec fn is_used(self, c: int) -> bool {
        0 <= c < self.cells.len() && !self.is_free(c) && !self.is_meta(c)
    }

    /// The runs of the first `k` chunks of the chain, in chain order.
    pub open spec fn runs_upto(self, k: int) -> Seq<Entry>
        decreases k,
    {
        if k <= 0 {
            Seq::empty()
        } else {
            self.runs_upto(k - 1) + self.node(k - 1).entries
        }
    }

    /// All runs of the list, in chain order.
    pub open spec fn runs(self) -> Seq<Entry> {
        self.runs_upto(self.path.len() as int)
    }

    /// The state in which the `k`-th chunk holds the runs `es`.
    pub open spec fn with_entries(self, k: int, es: Seq<Entry>) -> State {
        State {
            cells: self.cells.update(
                self.path[k] as int,
                Some(Node { entries: es, next: self.node(k).next }),
            ),
            path: self.path,
        }
    }

    /// The state in which the run at `(k, i)` is `e`.
    pub open spec fn set(self, k: int, i: int, e: Entry) -> State {
        self.with_entries(k, self.node(k).entries.update(i, e))
    }

    /// The state without the run at `(k, i)`.
    pub open spec fn remove(self, k: int, i: int) -> State {
        self.with_entries(k, self.node(k).entries.remove(i))
    }

    /// The state with the run `e` put in at `(k, i)`.
    pub open spec fn insert(self, k: int, i: int, e: Entry) -> State {
        self.with_entries(k, self.node(k).entries.insert(i, e))
    }

    /// The state in which the `k`-th chunk, which is not the root, has left
    /// the chain and its cell holds no chunk.
    pub open spec fn unlink(self, k: int) -> State {
        State {
            cells: self.cells.update(
                self.path[k - 1] as int,
                Some(Node { entries: self.node(k - 1).entries, next: self.node(k).next }),
            ).update(self.path[k] as int, None),
            path: self.path.remove(k),
        }
    }

    /// The state in which the root has left the chain, its cell holds no
    /// chunk and its successor is the root.
    pub open spec fn promote(self) -> State {
        State { cells: self.cells.update(self.path[0] as int, None), path: self.path.remove(0) }
    }

    /// The state in which the `k`-th chunk keeps its first `q` runs and the
    /// rest has moved to a new chunk in cell `id`, which follows it in the
    /// chain.
    pub open spec fn split(self, k: int, q: int, id: usize) -> State {
        let es = self.node(k).entries;
        State {
            cells: self.cells.update(
                self.path[k] as int,
                Some(Node { entries: es.subrange(0, q), next: id }),
            ).update(
                id as int,
                Some(Node { entries: es.subrange(q, es.len() as int), next: self.node(k).next }),
            ),
            path: self.path.insert(k + 1, id),
        }
    }
}

/// The runs begin in ascending order.
pub open spec fn starts_ascend(runs: Seq<Entry>) -> bool {
    forall|i: int, j: int|
        0 <= i < j < runs.len() ==> (#[trigger] runs[i]).start < (#[trigger] runs[j]).start
}

/// A well-formed list is sealed.
pub proof fn lemma_seal(s: State)
    requires
        s.wf(),
    ensures
        s.sealed(),
{
}

/// A sealed list is well formed.
pub proof fn lemma_unseal(s: State)
    requires
        s.sealed(),
    ensures
        s.wf(),
{
}

/// What a walk along the chain of a well-formed list finds at the `k`-th
/// chunk: the chunk is in its cell, it links to the chunk after it, or to
/// none where it is the last, and its runs begin in ascending order.
pub proof fn lemma_chunk_at(s: State, k: int)
    requires
        s.sealed(),
        0 <= k < s.path.len(),
    ensures
        s.path[k] < s.cells.len(),
        s.cells[s.path[k] as int] is Some,
        s.node(k).entries.len() <= slots_of::<Entry>(),
        entry_layout(),
        k + 1 < s.path.len() ==> s.node(k).next == s.path[k + 1] && s.node(k).next != EMPTY_INDEX,
        k + 1 == s.path.len() ==> s.node(k).next == EMPTY_INDEX,
        starts_ascend(s.node(k).entries),
        forall|j: int|
            0 <= j < s.node(k).entries.len() ==> (#[trigger] s.node(k).entries[j]).len >= 1,
{
    assert(s.node(k).next == s.next_of(k));
    if k + 1 < s.path.len() {
        assert(s.path[k + 1] < s.cells.len());
    }
    assert forall|i: int, j: int| 0 <= i < j < s.node(k).entries.len() implies (
    #[trigger] s.node(k).entries[i]).start < (#[trigger] s.node(k).entries[j]).start by {
        assert(s.valid(k, i) && s.valid(k, j) && before(k, i, k, j));
        let _ = s.ent(k, i);
        let _ = s.ent(k, j);
    }
    assert forall|j: int| 0 <= j < s.node(k).entries.len() implies (#[trigger] s.node(
        k,
    ).entries[j]).len >= 1 by {
        assert(s.valid(k, j));
        let _ = s.ent(k, j);
    }
}

/// Where all runs of the chunks before the `k`-th end before `pos`, and
/// the `k`-th chunk holds no run or its last run ends before `pos`, all runs
/// of the chunks up to the `k`-th end before `pos`.
pub proof fn lemma_walk_on(s: State, k: int, pos: int)
    requires
        s.sealed(),
        0 <= k < s.path.len(),
        forall|a: int, j: int| s.valid(a, j) && a < k ==> (#[trigger] s.ent(a, j)).end() < pos,
        s.node(k).entries.len() == 0 || s.node(k).entries.last().end() < pos,
    ensures
        forall|a: int, j: int| s.valid(a, j) && a < k + 1 ==> (#[trigger] s.ent(a, j)).end() < pos,
{
    let n = s.node(k).entries.len() as int;
    assert forall|a: int, j: int| s.valid(a, j) && a < k + 1 implies (#[trigger] s.ent(
        a,
        j,
    )).end() < pos by {
        if a == k {
            let _ = s.ent(k, n - 1);
            if j < n - 1 {
                assert(before(k, j, k, n - 1));
            }
        }
    }
}

/// The runs of one more chunk follow the runs of the chunks before it.
pub proof fn lemma_runs_next(s: State, k: int)
    requires
        0 <= k,
    ensures
        s.runs_upto(k + 1) == s.runs_upto(k) + s.node(k).entries,
{
}

/// Changing the runs of one chunk leaves the chain and the other chunks as
/// they are.
pub proof fn lemma_with_entries(s: State, k: int, es: Seq<Entry>)
    requires
        s.linked(),
        0 <= k < s.path.len(),
        es.len() <= slots_of::<Entry>(),
    ensures
        s.with_entries(k, es).linked(),
        s.with_entries(k, es).node(k).entries == es,
        forall|a: int|
            0 <= a < s.path.len() && a != k ==> #[trigger] s.with_entries(k, es).node(a) == s.node(
                a,
            ),
{
    let t = s.with_entries(k, es);
    assert forall|a: int| 0 <= a < s.path.len() && a != k implies #[trigger] t.node(a) == s.node(
        a,
    ) by {
        assert(s.path[a] != s.path[k]);
    }
    assert forall|a: int| 0 <= a < t.path.len() implies {
        &&& (#[trigger] t.path[a]) < t.cells.len()
        &&& t.cells[t.path[a] as int] is Some
        &&& t.node(a).next == t.next_of(a)
        &&& t.node(a).entries.len() <= slots_of::<Entry>()
    } by {
        assert(s.path[a] < s.cells.len());
        assert(s.node(a).next == s.next_of(a));
        if a != k {
            assert(t.node(a) == s.node(a));
        }
    }
}

/// Replacing a run by one that still lies strictly between its neighbours,
/// and covers no cell that holds a chunk, keeps the list well formed.  The
/// cells of the new run are free, those that only the old run covered are not.
#[verifier::rlimit(50)]
pub proof fn lemma_set(s: State, h: int, k: int, i: int, e: Entry)
    requires
        s.wf_but(h),
        s.valid(k, i),
        e.len >= 1,
        e.end() <= s.cells.len(),
        forall|a: int, j: int|
            s.valid(a, j) && before(a, j, k, i) ==> (#[trigger] s.ent(a, j)).end() < e.start,
        forall|a: int, j: int|
            s.valid(a, j) && before(k, i, a, j) ==> e.end() < (#[trigger] s.ent(a, j)).start,
        forall|m: int| 0 <= m < s.path.len() ==> !e.contains(#[trigger] s.path[m] as int),
    ensures
        s.set(k, i, e).wf_but(h),
        s.set(k, i, e).path == s.path,
        s.set(k, i, e).cells.len() == s.cells.len(),
        s.set(k, i, e).node(k).entries == s.node(k).entries.update(i, e),
        forall|a: int|
            0 <= a < s.path.len() && a != k ==> #[trigger] s.set(k, i, e).node(a) == s.node(a),
        forall|c: int| #[trigger]
            s.set(k, i, e).is_free(c) <==> e.contains(c) || (s.is_free(c) && !s.ent(k, i).contains(
                c,
            )),
        forall|c: int| #[trigger] s.set(k, i, e).is_meta(c) <==> s.is_meta(c),
{
    let es = s.node(k).entries.update(i, e);
    let t = s.set(k, i, e);
    lemma_with_entries(s, k, es);
    assert forall|a: int, j: int| t.valid(a, j) implies #[trigger] t.ent(a, j) == (if a == k && j
        == i {
        e
    } else {
        s.ent(a, j)
    }) && s.valid(a, j) by {
        if a != k {
            assert(t.node(a) == s.node(a));
        }
    }
    assert forall|a: int, j: int| s.valid(a, j) implies t.valid(a, j) by {
        if a != k {
            assert(t.node(a) == s.node(a));
        }
    }
    assert(t.bounded()) by {
        assert forall|a: int, j: int| t.valid(a, j) implies (#[trigger] t.ent(a, j)).len >= 1
            && t.ent(a, j).end() <= t.cells.len() by {
            assert(s.valid(a, j));
            let _ = s.ent(a, j);
        }
    }
    assert(t.ordered()) by {
        assert forall|a: int, j: int, b: int, l: int|
            t.valid(a, j) && t.valid(b, l) && before(a, j, b, l) implies (#[trigger] t.ent(
            a,
            j,
        )).end() < (#[trigger] t.ent(b, l)).start by {
            let _ = s.ent(a, j);
            let _ = s.ent(b, l);
        }
    }
    assert(t.apart()) by {
        assert forall|m: int, a: int, j: int|
            0 <= m < t.path.len() && t.valid(a, j) implies !(#[trigger] t.ent(a, j)).contains(
            #[trigger] t.path[m] as int,
        ) by {
            let _ = s.ent(a, j);
            let _ = s.path[m];
        }
    }
    assert(t.filled_but(h)) by {
        assert forall|a: int| 0 <= a < t.path.len() && t.path.len() > 1 && a != h implies (
        #[trigger] t.node(a)).entries.len() >= 1 by {
            let _ = s.node(a);
            if a != k {
                assert(t.node(a) == s.node(a));
            }
        }
    }
    assert forall|c: int| #[trigger]
        t.is_free(c) <==> e.contains(c) || (s.is_free(c) && !s.ent(k, i).contains(c)) by {
        if t.is_free(c) {
            let (a, j) = choose|a: int, j: int| t.valid(a, j) && (#[trigger] t.ent(a, j)).contains(c);
            if !(a == k && j == i) {
                assert(s.valid(a, j) && s.ent(a, j).contains(c));
                let _ = s.ent(k, i);
                assert(before(a, j, k, i) || before(k, i, a, j));
            }
        }
        if e.contains(c) {
            assert(t.valid(k, i) && t.ent(k, i).contains(c));
        }
        if s.is_free(c) && !s.ent(k, i).contains(c) {
            let (a, j) = choose|a: int, j: int| s.valid(a, j) && (#[trigger] s.ent(a, j)).contains(c);
            assert(t.valid(a, j) && t.ent(a, j).contains(c));
        }
    }
    assert forall|c: int| #[trigger] t.is_meta(c) <==> s.is_meta(c) by {
        if t.is_meta(c) {
            let m = choose|m: int| 0 <= m < t.path.len() && #[trigger] t.path[m] == c;
            assert(s.path[m] == c);
        }
        if s.is_meta(c) {
            let m = choose|m: int| 0 <= m < s.path.len() && #[trigger] s.path[m] == c;
            assert(t.path[m] == c);
        }
    }
}

/// Two states with one chain hold their chunks in the same cells.
pub proof fn lemma_same_path(s: State, t: State)
    requires
        s.path == t.path,
    ensures
        forall|c: int| #[trigger] t.is_meta(c) <==> s.is_meta(c),
{
    assert forall|c: int| #[trigger] t.is_meta(c) <==> s.is_meta(c) by {
        if t.is_meta(c) {
            let m = choose|m: int| 0 <= m < t.path.len() && #[trigger] t.path[m] == c;
            assert(s.path[m] == c);
        }
        if s.is_meta(c) {
            let m = choose|m: int| 0 <= m < s.path.len() && #[trigger] s.path[m] == c;
            assert(t.path[m] == c);
        }
    }
}

/// Removing a run keeps the list well formed, but for the chunk that held
/// it, which may now be empty.  The cells of the run are no longer free.
#[verifier::rlimit(50)]
pub proof fn lemma_remove(s: State, h: int, k: int, i: int)
    requires
        s.wf_but(h),
        s.valid(k, i),
    ensures
        s.node(k).entries.len() >= 2 ==> s.remove(k, i).wf_but(h),
        s.wf_but(k) ==> s.remove(k, i).wf_but(k),
        s.remove(k, i).path == s.path,
        s.remove(k, i).cells.len() == s.cells.len(),
        s.remove(k, i).node(k).entries == s.node(k).entries.remove(i),
        forall|a: int|
            0 <= a < s.path.len() && a != k ==> #[trigger] s.remove(k, i).node(a) == s.node(a),
        forall|c: int| #[trigger]
            s.remove(k, i).is_free(c) <==> s.is_free(c) && !s.ent(k, i).contains(c),
        forall|c: int| #[trigger] s.remove(k, i).is_meta(c) <==> s.is_meta(c),
{
    let es = s.node(k).entries.remove(i);
    let t = s.remove(k, i);
    lemma_with_entries(s, k, es);
    lemma_same_path(s, t);
    assert forall|a: int, j: int| t.valid(a, j) implies #[trigger] t.ent(a, j) == s.ent(
        a,
        if a == k && j >= i {
            j + 1
        } else {
            j
        },
    ) && s.valid(
        a,
        if a == k && j >= i {
            j + 1
        } else {
            j
        },
    ) by {
        if a != k {
            assert(t.node(a) == s.node(a));
        }
    }
    assert forall|a: int, j: int| s.valid(a, j) && !(a == k && j == i) implies t.valid(
        a,
        if a == k && j > i {
            j - 1
        } else {
            j
        },
    ) && t.ent(
        a,
        if a == k && j > i {
            j - 1
        } else {
            j
        },
    ) == s.ent(a, j) by {
        if a != k {
            assert(t.node(a) == s.node(a));
        }
    }
    assert(t.bounded()) by {
        assert forall|a: int, j: int| t.valid(a, j) implies (#[trigger] t.ent(a, j)).len >= 1
            && t.ent(a, j).end() <= t.cells.len() by {
            let jj = if a == k && j >= i {
                j + 1
            } else {
                j
            };
            let _ = s.ent(a, jj);
        }
    }
    assert(t.ordered()) by {
        assert forall|a: int, j: int, b: int, l: int|
            t.valid(a, j) && t.valid(b, l) && before(a, j, b, l) implies (#[trigger] t.ent(
            a,
            j,
        )).end() < (#[trigger] t.ent(b, l)).start by {
            let jj = if a == k && j >= i {
                j + 1
            } else {
                j
            };
            let ll = if b == k && l >= i {
                l + 1
            } else {
                l
            };
            let _ = s.ent(a, jj);
            let _ = s.ent(b, ll);
            assert(before(a, jj, b, ll));
        }
    }
    assert(t.apart()) by {
        assert forall|m: int, a: int, j: int|
            0 <= m < t.path.len() && t.valid(a, j) implies !(#[trigger] t.ent(a, j)).contains(
            #[trigger] t.path[m] as int,
        ) by {
            let jj = if a == k && j >= i {
                j + 1
            } else {
                j
            };
            let _ = s.ent(a, jj);
            let _ = s.path[m];
        }
    }
    assert(t.node(k).entries.len() == s.node(k).entries.len() - 1);
    assert forall|a: int| 0 <= a < t.path.len() && a != k implies #[trigger] t.node(a) == s.node(
        a,
    ) by {}
    if s.node(k).entries.len() >= 2 {
        assert(t.filled_but(h)) by {
            assert forall|a: int|
                0 <= a < t.path.len() && t.path.len() > 1 && a != h implies (#[trigger] t.node(
                a,
            )).entries.len() >= 1 by {
                let _ = s.node(a);
            }
        }
    }
    if s.wf_but(k) {
        assert(t.filled_but(k)) by {
            assert forall|a: int|
                0 <= a < t.path.len() && t.path.len() > 1 && a != k implies (#[trigger] t.node(
                a,
            )).entries.len() >= 1 by {
                let _ = s.node(a);
            }
        }
    }
    assert forall|c: int| #[trigger]
        t.is_free(c) <==> s.is_free(c) && !s.ent(k, i).contains(c) by {
        if t.is_free(c) {
            let (a, j) = choose|a: int, j: int| t.valid(a, j) && (#[trigger] t.ent(a, j)).contains(c);
            let jj = if a == k && j >= i {
                j + 1
            } else {
                j
            };
            assert(s.valid(a, jj) && s.ent(a, jj).contains(c));
            let _ = s.ent(k, i);
            assert(before(a, jj, k, i) || before(k, i, a, jj));
        }
        if s.is_free(c) && !s.ent(k, i).contains(c) {
            let (a, j) = choose|a: int, j: int| s.valid(a, j) && (#[trigger] s.ent(a, j)).contains(c);
            let jj = if a == k && j > i {
                j - 1
            } else {
                j
            };
            assert(t.valid(a, jj) && t.ent(a, jj).contains(c));
        }
    }
}

/// Putting in a run that lies strictly between its neighbours, and covers no
/// cell that holds a chunk, makes the list well formed where at most the
/// chunk that takes it was empty.  The cells of the run become free.
#[verifier::rlimit(50)]
pub proof fn lemma_insert(s: State, k: int, i: int, e: Entry)
    requires
        s.wf_but(k),
        0 <= k < s.path.len(),
        0 <= i <= s.node(k).entries.len(),
        s.node(k).entries.len() < slots_of::<Entry>(),
        e.len >= 1,
        e.end() <= s.cells.len(),
        forall|a: int, j: int|
            s.valid(a, j) && before(a, j, k, i) ==> (#[trigger] s.ent(a, j)).end() < e.start,
        forall|a: int, j: int|
            s.valid(a, j) && !before(a, j, k, i) ==> e.end() < (#[trigger] s.ent(a, j)).start,
        forall|m: int| 0 <= m < s.path.len() ==> !e.contains(#[trigger] s.path[m] as int),
    ensures
        s.insert(k, i, e).wf(),
        s.insert(k, i, e).path == s.path,
        s.insert(k, i, e).cells.len() == s.cells.len(),
        s.insert(k, i, e).node(k).entries == s.node(k).entries.insert(i, e),
        forall|a: int|
            0 <= a < s.path.len() && a != k ==> #[trigger] s.insert(k, i, e).node(a) == s.node(a),
        forall|c: int| #[trigger] s.insert(k, i, e).is_free(c) <==> e.contains(c) || s.is_free(c),
        forall|c: int| #[trigger] s.insert(k, i, e).is_meta(c) <==> s.is_meta(c),
{
    let es = s.node(k).entries.insert(i, e);
    let t = s.insert(k, i, e);
    lemma_with_entries(s, k, es);
    lemma_same_path(s, t);
    assert forall|a: int, j: int| t.valid(a, j) && !(a == k && j == i) implies #[trigger] t.ent(
        a,
        j,
    ) == s.ent(
        a,
        if a == k && j > i {
            j - 1
        } else {
            j
        },
    ) && s.valid(
        a,
        if a == k && j > i {
            j - 1
        } else {
            j
        },
    ) by {
        if a != k {
            assert(t.node(a) == s.node(a));
        }
    }
    assert(t.valid(k, i) && t.ent(k, i) == e);
    assert forall|a: int, j: int| s.valid(a, j) implies t.valid(
        a,
        if a == k && j >= i {
            j + 1
        } else {
            j
        },
    ) && t.ent(
        a,
        if a == k && j >= i {
            j + 1
        } else {
            j
        },
    ) == s.ent(a, j) by {
        if a != k {
            assert(t.node(a) == s.node(a));
        }
    }
    assert(t.bounded()) by {
        assert forall|a: int, j: int| t.valid(a, j) implies (#[trigger] t.ent(a, j)).len >= 1
            && t.ent(a, j).end() <= t.cells.len() by {
            if !(a == k && j == i) {
                let jj = if a == k && j > i {
                    j - 1
                } else {
                    j
                };
                let _ = s.ent(a, jj);
            }
        }
    }
    assert(t.ordered()) by {
        assert forall|a: int, j: int, b: int, l: int|
            t.valid(a, j) && t.valid(b, l) && before(a, j, b, l) implies (#[trigger] t.ent(
            a,
            j,
        )).end() < (#[trigger] t.ent(b, l)).start by {
            let jj = if a == k && j > i {
                j - 1
            } else {
                j
            };
            let ll = if b == k && l > i {
                l - 1
            } else {
                l
            };
            if a == k && j == i {
                let _ = s.ent(b, ll);
                assert(!before(b, ll, k, i));
            } else if b == k && l == i {
                let _ = s.ent(a, jj);
                assert(before(a, jj, k, i));
            } else {
                let _ = s.ent(a, jj);
                let _ = s.ent(b, ll);
                assert(before(a, jj, b, ll));
            }
        }
    }
    assert(t.apart()) by {
        assert forall|m: int, a: int, j: int|
            0 <= m < t.path.len() && t.valid(a, j) implies !(#[trigger] t.ent(a, j)).contains(
            #[trigger] t.path[m] as int,
        ) by {
            let _ = s.path[m];
            if !(a == k && j == i) {
                let jj = if a == k && j > i {
                    j - 1
                } else {
                    j
                };
                let _ = s.ent(a, jj);
            }
        }
    }
    assert(t.filled_but(-1)) by {
        assert forall|a: int| 0 <= a < t.path.len() && t.path.len() > 1 implies (#[trigger] t.node(
            a,
        )).entries.len() >= 1 by {
            let _ = s.node(a);
            if a != k {
                assert(t.node(a) == s.node(a));
            }
        }
    }
    assert forall|c: int| #[trigger] t.is_free(c) <==> e.contains(c) || s.is_free(c) by {
        if t.is_free(c) {
            let (a, j) = choose|a: int, j: int| t.valid(a, j) && (#[trigger] t.ent(a, j)).contains(c);
            if !(a == k && j == i) {
                let jj = if a == k && j > i {
                    j - 1
                } else {
                    j
                };
                assert(s.valid(a, jj) && s.ent(a, jj).contains(c));
            }
        }
        if e.contains(c) {
            assert(t.valid(k, i) && t.ent(k, i).contains(c));
        }
        if s.is_free(c) {
            let (a, j) = choose|a: int, j: int| s.valid(a, j) && (#[trigger] s.ent(a, j)).contains(c);
            let jj = if a == k && j >= i {
                j + 1
            } else {
                j
            };
            assert(t.valid(a, jj) && t.ent(a, jj).contains(c));
        }
    }
}

/// Taking an empty chunk that is not the root out of the chain makes the
/// list well formed where only that chunk was empty.  Its cell no longer
/// holds a chunk; the free cells stay the same.
#[verifier::rlimit(50)]
pub proof fn lemma_unlink(s: State, k: int)
    requires
        s.wf_but(k),
        1 <= k < s.path.len(),
        s.node(k).entries.len() == 0,
    ensures
        s.unlink(k).wf(),
        s.unlink(k).cells.len() == s.cells.len(),
        s.unlink(k).path == s.path.remove(k),
        forall|c: int| #[trigger] s.unlink(k).is_free(c) <==> s.is_free(c),
        forall|c: int| #[trigger] s.unlink(k).is_meta(c) <==> s.is_meta(c) && c != s.path[k],
{
    let t = s.unlink(k);
    assert forall|a: int| 0 <= a < t.path.len() implies #[trigger] t.path[a] == s.path[if a < k {
        a
    } else {
        a + 1
    }] by {}
    assert forall|a: int| 0 <= a < t.path.len() implies (#[trigger] t.node(a)).entries == s.node(
        if a < k {
            a
        } else {
            a + 1
        },
    ).entries && t.cells[t.path[a] as int] is Some && t.node(a).next == t.next_of(a) by {
        let aa = if a < k {
            a
        } else {
            a + 1
        };
        assert(s.path[aa] != s.path[k]);
        assert(s.path[aa] < s.cells.len());
        assert(s.path[k] < s.cells.len());
        assert(s.path[k - 1] < s.cells.len());
        assert(s.node(aa).next == s.next_of(aa));
        assert(s.node(k).next == s.next_of(k));
        if aa != k - 1 {
            assert(s.path[aa] != s.path[k - 1]);
            assert(t.node(a) == s.node(aa));
            if a + 1 < t.path.len() {
                assert(t.path[a + 1] == s.path[aa + 1]);
            }
        } else {
            if a + 1 < t.path.len() {
                assert(t.path[a + 1] == s.path[k + 1]);
            }
        }
    }
    assert(t.linked()) by {
        assert forall|a: int| 0 <= a < t.path.len() implies {
            &&& (#[trigger] t.path[a]) < t.cells.len()
            &&& t.cells[t.path[a] as int] is Some
            &&& t.node(a).next == t.next_of(a)
            &&& t.node(a).entries.len() <= slots_of::<Entry>()
        } by {
            let aa = if a < k {
                a
            } else {
                a + 1
            };
            assert(s.path[aa] < s.cells.len());
            let _ = t.node(a);
        }
        assert forall|j: int, l: int| 0 <= j < l < t.path.len() implies #[trigger] t.path[j]
            != #[trigger] t.path[l] by {
            let jj = if j < k {
                j
            } else {
                j + 1
            };
            let ll = if l < k {
                l
            } else {
                l + 1
            };
            assert(s.path[jj] != s.path[ll]);
        }
    }
    assert forall|a: int, j: int| t.valid(a, j) implies #[trigger] t.ent(a, j) == s.ent(
        if a < k {
            a
        } else {
            a + 1
        },
        j,
    ) && s.valid(
        if a < k {
            a
        } else {
            a + 1
        },
        j,
    ) by {
        let _ = t.node(a);
    }
    assert forall|a: int, j: int| s.valid(a, j) implies a != k && t.valid(
        if a < k {
            a
        } else {
            a - 1
        },
        j,
    ) && t.ent(
        if a < k {
            a
        } else {
            a - 1
        },
        j,
    ) == s.ent(a, j) by {
        let aa = if a < k {
            a
        } else {
            a - 1
        };
        let _ = t.node(aa);
    }
    assert(t.bounded()) by {
        assert forall|a: int, j: int| t.valid(a, j) implies (#[trigger] t.ent(a, j)).len >= 1
            && t.ent(a, j).end() <= t.cells.len() by {
            let aa = if a < k {
                a
            } else {
                a + 1
            };
            let _ = s.ent(aa, j);
        }
    }
    assert(t.ordered()) by {
        assert forall|a: int, j: int, b: int, l: int|
            t.valid(a, j) && t.valid(b, l) && before(a, j, b, l) implies (#[trigger] t.ent(
            a,
            j,
        )).end() < (#[trigger] t.ent(b, l)).start by {
            let aa = if a < k {
                a
            } else {
                a + 1
            };
            let bb = if b < k {
                b
            } else {
                b + 1
            };
            let _ = s.ent(aa, j);
            let _ = s.ent(bb, l);
            assert(before(aa, j, bb, l));
        }
    }
    assert(t.apart()) by {
        assert forall|m: int, a: int, j: int|
            0 <= m < t.path.len() && t.valid(a, j) implies !(#[trigger] t.ent(a, j)).contains(
            #[trigger] t.path[m] as int,
        ) by {
            let aa = if a < k {
                a
            } else {
                a + 1
            };
            let mm = if m < k {
                m
            } else {
                m + 1
            };
            let _ = s.ent(aa, j);
            let _ = s.path[mm];
        }
    }
    assert(t.filled_but(-1)) by {
        assert forall|a: int| 0 <= a < t.path.len() && t.path.len() > 1 implies (#[trigger] t.node(
            a,
        )).entries.len() >= 1 by {
            let aa = if a < k {
                a
            } else {
                a + 1
            };
            let _ = s.node(aa);
        }
    }
    assert forall|c: int| #[trigger] t.is_free(c) <==> s.is_free(c) by {
        if t.is_free(c) {
            let (a, j) = choose|a: int, j: int| t.valid(a, j) && (#[trigger] t.ent(a, j)).contains(c);
            let aa = if a < k {
                a
            } else {
                a + 1
            };
            assert(s.valid(aa, j) && s.ent(aa, j).contains(c));
        }
        if s.is_free(c) {
            let (a, j) = choose|a: int, j: int| s.valid(a, j) && (#[trigger] s.ent(a, j)).contains(c);
            let aa = if a < k {
                a
            } else {
                a - 1
            };
            assert(t.valid(aa, j) && t.ent(aa, j).contains(c));
        }
    }
    assert forall|c: int| #[trigger] t.is_meta(c) <==> s.is_meta(c) && c != s.path[k] by {
        if t.is_meta(c) {
            let m = choose|m: int| 0 <= m < t.path.len() && #[trigger] t.path[m] == c;
            let mm = if m < k {
                m
            } else {
                m + 1
            };
            assert(s.path[mm] == c);
            assert(s.path[mm] != s.path[k]);
        }
        if s.is_meta(c) && c != s.path[k] {
            let m = choose|m: int| 0 <= m < s.path.len() && #[trigger] s.path[m] == c;
            let mm = if m < k {
                m
            } else {
                m - 1
            };
            assert(t.path[mm] == c);
        }
    }
}

/// Dropping an empty root that has a successor makes the list well formed
/// where only the root was empty.  Its cell no longer holds a chunk; the
/// free cells stay the same.
#[verifier::rlimit(50)]
pub proof fn lemma_promote(s: State)
    requires
        s.wf_but(0),
        s.path.len() >= 2,
        s.node(0).entries.len() == 0,
    ensures
        s.promote().wf(),
        s.promote().cells.len() == s.cells.len(),
        s.promote().path == s.path.remove(0),
        s.promote().path[0] == s.node(0).next,
        forall|c: int| #[trigger] s.promote().is_free(c) <==> s.is_free(c),
        forall|c: int| #[trigger] s.promote().is_meta(c) <==> s.is_meta(c) && c != s.path[0],
{
    let t = s.promote();
    assert(s.path[0] < s.cells.len());
    assert(s.node(0).next == s.next_of(0));
    assert forall|a: int| 0 <= a < t.path.len() implies #[trigger] t.path[a] == s.path[a + 1] by {}
    assert forall|a: int| 0 <= a < t.path.len() implies #[trigger] t.node(a) == s.node(a + 1)
        && t.cells[t.path[a] as int] is Some && t.node(a).next == t.next_of(a) by {
        assert(s.path[a + 1] != s.path[0]);
        assert(s.path[a + 1] < s.cells.len());
        assert(s.node(a + 1).next == s.next_of(a + 1));
        if a + 1 < t.path.len() {
            assert(t.path[a + 1] == s.path[a + 2]);
        }
    }
    assert(t.linked()) by {
        assert forall|a: int| 0 <= a < t.path.len() implies {
            &&& (#[trigger] t.path[a]) < t.cells.len()
            &&& t.cells[t.path[a] as int] is Some
            &&& t.node(a).next == t.next_of(a)
            &&& t.node(a).entries.len() <= slots_of::<Entry>()
        } by {
            assert(s.path[a + 1] < s.cells.len());
            let _ = t.node(a);
        }
        assert forall|j: int, l: int| 0 <= j < l < t.path.len() implies #[trigger] t.path[j]
            != #[trigger] t.path[l] by {
            assert(s.path[j + 1] != s.path[l + 1]);
        }
    }
    assert forall|a: int, j: int| t.valid(a, j) implies #[trigger] t.ent(a, j) == s.ent(a + 1, j)
        && s.valid(a + 1, j) by {
        let _ = t.node(a);
    }
    assert forall|a: int, j: int| s.valid(a, j) implies a != 0 && t.valid(a - 1, j) && t.ent(
        a - 1,
        j,
    ) == s.ent(a, j) by {
        let _ = t.node(a - 1);
    }
    assert(t.bounded()) by {
        assert forall|a: int, j: int| t.valid(a, j) implies (#[trigger] t.ent(a, j)).len >= 1
            && t.ent(a, j).end() <= t.cells.len() by {
            let _ = s.ent(a + 1, j);
        }
    }
    assert(t.ordered()) by {
        assert forall|a: int, j: int, b: int, l: int|
            t.valid(a, j) && t.valid(b, l) && before(a, j, b, l) implies (#[trigger] t.ent(
            a,
            j,
        )).end() < (#[trigger] t.ent(b, l)).start by {
            let _ = s.ent(a + 1, j);
            let _ = s.ent(b + 1, l);
            assert(before(a + 1, j, b + 1, l));
        }
    }
    assert(t.apart()) by {
        assert forall|m: int, a: int, j: int|
            0 <= m < t.path.len() && t.valid(a, j) implies !(#[trigger] t.ent(a, j)).contains(
            #[trigger] t.path[m] as int,
        ) by {
            let _ = s.ent(a + 1, j);
            let _ = s.path[m + 1];
        }
    }
    assert(t.filled_but(-1)) by {
        assert forall|a: int| 0 <= a < t.path.len() && t.path.len() > 1 implies (#[trigger] t.node(
            a,
        )).entries.len() >= 1 by {
            let _ = s.node(a + 1);
        }
    }
    assert forall|c: int| #[trigger] t.is_free(c) <==> s.is_free(c) by {
        if t.is_free(c) {
            let (a, j) = choose|a: int, j: int| t.valid(a, j) && (#[trigger] t.ent(a, j)).contains(c);
            assert(s.valid(a + 1, j) && s.ent(a + 1, j).contains(c));
        }
        if s.is_free(c) {
            let (a, j) = choose|a: int, j: int| s.valid(a, j) && (#[trigger] s.ent(a, j)).contains(c);
            assert(t.valid(a - 1, j) && t.ent(a - 1, j).contains(c));
        }
    }
    assert forall|c: int| #[trigger] t.is_meta(c) <==> s.is_meta(c) && c != s.path[0] by {
        if t.is_meta(c) {
            let m = choose|m: int| 0 <= m < t.path.len() && #[trigger] t.path[m] == c;
            assert(s.path[m + 1] == c);
            assert(s.path[m + 1] != s.path[0]);
        }
        if s.is_meta(c) && c != s.path[0] {
            let m = choose|m: int| 0 <= m < s.path.len() && #[trigger] s.path[m] == c;
            assert(t.path[m - 1] == c);
        }
    }
}

/// Splitting a chunk in two, the second in a cell that was in use, keeps the
/// runs and their order.  The list is well formed but for the half that got
/// no run, if there is one.
#[verifier::rlimit(50)]
pub proof fn lemma_split(s: State, k: int, q: int, id: usize)
    requires
        s.wf(),
        0 <= k < s.path.len(),
        0 <= q <= s.node(k).entries.len(),
        s.node(k).entries.len() >= 1,
        s.is_used(id as int),
    ensures
        s.split(k, q, id).linked(),
        s.split(k, q, id).bounded(),
        s.split(k, q, id).ordered(),
        s.split(k, q, id).apart(),
        q == 0 ==> s.split(k, q, id).wf_but(k),
        q == s.node(k).entries.len() ==> s.split(k, q, id).wf_but(k + 1),
        0 < q < s.node(k).entries.len() ==> s.split(k, q, id).wf(),
        s.split(k, q, id).cells.len() == s.cells.len(),
        s.split(k, q, id).path == s.path.insert(k + 1, id),
        s.split(k, q, id).node(k).entries == s.node(k).entries.subrange(0, q),
        s.split(k, q, id).node(k + 1).entries == s.node(k).entries.subrange(
            q,
            s.node(k).entries.len() as int,
        ),
        forall|a: int, j: int|
            s.split(k, q, id).valid(a, j) ==> #[trigger] s.split(k, q, id).ent(a, j) == s.ent(
                if a <= k {
                    a
                } else {
                    a - 1
                },
                if a == k + 1 {
                    q + j
                } else {
                    j
                },
            ) && s.valid(
                if a <= k {
                    a
                } else {
                    a - 1
                },
                if a == k + 1 {
                    q + j
                } else {
                    j
                },
            ),
        forall|c: int| #[trigger] s.split(k, q, id).is_free(c) <==> s.is_free(c),
        forall|c: int| #[trigger] s.split(k, q, id).is_meta(c) <==> s.is_meta(c) || c == id,
{
    let t = s.split(k, q, id);
    let es = s.node(k).entries;
    assert forall|m: int| 0 <= m < s.path.len() implies #[trigger] s.path[m] != id by {
        if s.path[m] == id {
            assert(s.is_meta(id as int));
        }
    }
    assert forall|a: int| 0 <= a < t.path.len() implies #[trigger] t.path[a] == (if a <= k {
        s.path[a]
    } else if a == k + 1 {
        id
    } else {
        s.path[a - 1]
    }) by {}
    assert(s.path[k] < s.cells.len());
    assert(s.node(k).next == s.next_of(k));
    assert forall|a: int| 0 <= a < t.path.len() implies (#[trigger] t.node(a)).entries == (if a
        == k {
        es.subrange(0, q)
    } else if a == k + 1 {
        es.subrange(q, es.len() as int)
    } else if a < k {
        s.node(a).entries
    } else {
        s.node(a - 1).entries
    }) && t.cells[t.path[a] as int] is Some && t.node(a).next == t.next_of(a) by {
        let aa = if a <= k {
            a
        } else {
            a - 1
        };
        assert(s.path[aa] < s.cells.len());
        assert(s.path[aa] != id);
        if a != k && a != k + 1 {
            assert(s.path[aa] != s.path[k]);
            assert(t.node(a) == s.node(aa));
            assert(s.node(aa).next == s.next_of(aa));
            if a + 1 < t.path.len() {
                let _ = t.path[a + 1];
            }
        } else if a == k + 1 {
            if a + 1 < t.path.len() {
                let _ = t.path[a + 1];
            }
        } else {
            let _ = t.path[a + 1];
        }
    }
    assert(t.linked()) by {
        assert forall|a: int| 0 <= a < t.path.len() implies {
            &&& (#[trigger] t.path[a]) < t.cells.len()
            &&& t.cells[t.path[a] as int] is Some
            &&& t.node(a).next == t.next_of(a)
            &&& t.node(a).entries.len() <= slots_of::<Entry>()
        } by {
            let aa = if a <= k {
                a
            } else {
                a - 1
            };
            assert(s.path[aa] < s.cells.len());
            let _ = t.node(a);
        }
        assert forall|j: int, l: int| 0 <= j < l < t.path.len() implies #[trigger] t.path[j]
            != #[trigger] t.path[l] by {
            let jj = if j <= k {
                j
            } else {
                j - 1
            };
            let ll = if l <= k {
                l
            } else {
                l - 1
            };
            assert(s.path[jj] != id);
            assert(s.path[ll] != id);
            if j != k + 1 && l != k + 1 {
                assert(s.path[jj] != s.path[ll]);
            }
        }
    }
    assert forall|a: int, j: int| t.valid(a, j) implies #[trigger] t.ent(a, j) == s.ent(
        if a <= k {
            a
        } else {
            a - 1
        },
        if a == k + 1 {
            q + j
        } else {
            j
        },
    ) && s.valid(
        if a <= k {
            a
        } else {
            a - 1
        },
        if a == k + 1 {
            q + j
        } else {
            j
        },
    ) by {
        let _ = t.node(a);
    }
    assert forall|a: int, j: int| s.valid(a, j) implies t.valid(
        if a < k || (a == k && j < q) {
            a
        } else {
            a + 1
        },
        if a == k && j >= q {
            j - q
        } else {
            j
        },
    ) && t.ent(
        if a < k || (a == k && j < q) {
            a
        } else {
            a + 1
        },
        if a == k && j >= q {
            j - q
        } else {
            j
        },
    ) == s.ent(a, j) by {
        let aa = if a < k || (a == k && j < q) {
            a
        } else {
            a + 1
        };
        let _ = t.node(aa);
    }
    assert(t.bounded()) by {
        assert forall|a: int, j: int| t.valid(a, j) implies (#[trigger] t.ent(a, j)).len >= 1
            && t.ent(a, j).end() <= t.cells.len() by {
            let aa = if a <= k {
                a
            } else {
                a - 1
            };
            let jj = if a == k + 1 {
                q + j
            } else {
                j
            };
            let _ = s.ent(aa, jj);
        }
    }
    assert(t.ordered()) by {
        assert forall|a: int, j: int, b: int, l: int|
            t.valid(a, j) && t.valid(b, l) && before(a, j, b, l) implies (#[trigger] t.ent(
            a,
            j,
        )).end() < (#[trigger] t.ent(b, l)).start by {
            let aa = if a <= k {
                a
            } else {
                a - 1
            };
            let jj = if a == k + 1 {
                q + j
            } else {
                j
            };
            let bb = if b <= k {
                b
            } else {
                b - 1
            };
            let ll = if b == k + 1 {
                q + l
            } else {
                l
            };
            let _ = s.ent(aa, jj);
            let _ = s.ent(bb, ll);
            assert(before(aa, jj, bb, ll));
        }
    }
    assert(t.apart()) by {
        assert forall|m: int, a: int, j: int|
            0 <= m < t.path.len() && t.valid(a, j) implies !(#[trigger] t.ent(a, j)).contains(
            #[trigger] t.path[m] as int,
        ) by {
            let aa = if a <= k {
                a
            } else {
                a - 1
            };
            let jj = if a == k + 1 {
                q + j
            } else {
                j
            };
            let mm = if m <= k {
                m
            } else {
                m - 1
            };
            let _ = s.ent(aa, jj);
            let _ = s.path[mm];
            if m == k + 1 {
                if s.ent(aa, jj).contains(id as int) {
                    assert(s.is_free(id as int));
                }
            }
        }
    }
    assert forall|a: int| 0 <= a < t.path.len() && a != k && a != k + 1 implies (#[trigger] t.node(
        a,
    )).entries.len() >= 1 by {
        let aa = if a <= k {
            a
        } else {
            a - 1
        };
        let _ = s.node(aa);
        if s.path.len() == 1 {
            assert(aa == k);
        }
    }
    assert forall|c: int| #[trigger] t.is_free(c) <==> s.is_free(c) by {
        if t.is_free(c) {
            let (a, j) = choose|a: int, j: int| t.valid(a, j) && (#[trigger] t.ent(a, j)).contains(c);
            let aa = if a <= k {
                a
            } else {
                a - 1
            };
            let jj = if a == k + 1 {
                q + j
            } else {
                j
            };
            assert(s.valid(aa, jj) && s.ent(aa, jj).contains(c));
        }
        if s.is_free(c) {
            let (a, j) = choose|a: int, j: int| s.valid(a, j) && (#[trigger] s.ent(a, j)).contains(c);
            let aa = if a < k || (a == k && j < q) {
                a
            } else {
                a + 1
            };
            let jj = if a == k && j >= q {
                j - q
            } else {
                j
            };
            assert(t.valid(aa, jj) && t.ent(aa, jj).contains(c));
        }
    }
    assert forall|c: int| #[trigger] t.is_meta(c) <==> s.is_meta(c) || c == id by {
        if t.is_meta(c) {
            let m = choose|m: int| 0 <= m < t.path.len() && #[trigger] t.path[m] == c;
            if m != k + 1 {
                let mm = if m <= k {
                    m
                } else {
                    m - 1
                };
                assert(s.path[mm] == c);
            }
        }
        if s.is_meta(c) {
            let m = choose|m: int| 0 <= m < s.path.len() && #[trigger] s.path[m] == c;
            let mm = if m <= k {
                m
            } else {
                m + 1
            };
            assert(t.path[mm] == c);
        }
        if c == id {
            assert(t.path[k + 1] == c);
        }
    }
}

} // verus!
