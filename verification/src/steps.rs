//! The moves that a free list makes when a range of cells is released or
//! handed out, each as a change of the model, with the proof that the list
//! stays well formed and that exactly the cells of the range change sides.
use crate::chunk::slots_of;
use crate::freelist::Entry;
use crate::model::{
    before, lemma_insert, lemma_promote, lemma_remove, lemma_set, lemma_split, lemma_unlink, State,
};
use vstd::prelude::*;

verus! {

/// The cells `[pos, pos + count)` are in use, and there is at least one.
pub open spec fn run_used(s: State, pos: int, count: int) -> bool {
    count >= 1 && forall|c: int| pos <= c < pos + count ==> #[trigger] s.is_used(c)
}

/// Position `(k, p)` is where a run for the cells `[pos, pos + count)`
/// belongs: all runs before it end at or before `pos`, those of earlier
/// chunks strictly before, and all others begin at or after `pos + count`.
pub open spec fn located(s: State, pos: int, count: int, k: int, p: int) -> bool {
    &&& 0 <= k < s.path.len()
    &&& 0 <= p <= s.node(k).entries.len()
    &&& forall|a: int, j: int| s.valid(a, j) && a < k ==> (#[trigger] s.ent(a, j)).end() < pos
    &&& forall|j: int| 0 <= j < p ==> (#[trigger] s.ent(k, j)).end() <= pos
    &&& forall|a: int, j: int|
        s.valid(a, j) && !before(a, j, k, p) ==> (#[trigger] s.ent(a, j)).start >= pos + count
}

/// Whether the run just before `(k, p)` in its chunk ends at `pos`.
pub open spec fn pre_adj(s: State, pos: int, k: int, p: int) -> bool {
    p > 0 && s.ent(k, p - 1).end() == pos
}

/// Whether a run stands at or after `(k, p)`.
pub open spec fn has_succ(s: State, k: int, p: int) -> bool {
    p < s.node(k).entries.len() || k + 1 < s.path.len()
}

/// The chunk of the first run at or after `(k, p)`.
pub open spec fn succ_chunk(s: State, k: int, p: int) -> int {
    if p < s.node(k).entries.len() {
        k
    } else {
        k + 1
    }
}

/// The place in its chunk of the first run at or after `(k, p)`.
pub open spec fn succ_index(s: State, k: int, p: int) -> int {
    if p < s.node(k).entries.len() {
        p
    } else {
        0
    }
}

/// Whether the first run at or after `(k, p)` begins at `pos + count`.
pub open spec fn post_adj(s: State, pos: int, count: int, k: int, p: int) -> bool {
    has_succ(s, k, p) && s.ent(succ_chunk(s, k, p), succ_index(s, k, p)).start == pos + count
}

/// Cell `c` lies in `[pos, pos + count)`.
pub open spec fn within(c: int, pos: int, count: int) -> bool {
    pos <= c < pos + count
}

/// A range of cells in use lies in the slab, touches no free run and holds
/// no chunk of the list.
pub proof fn lemma_run_used(s: State, pos: int, count: int)
    requires
        s.bounded(),
        run_used(s, pos, count),
    ensures
        0 <= pos,
        pos + count <= s.cells.len(),
        forall|m: int|
            0 <= m < s.path.len() ==> !within(#[trigger] s.path[m] as int, pos, count),
        forall|a: int, j: int|
            s.valid(a, j) ==> (#[trigger] s.ent(a, j)).end() <= pos || s.ent(a, j).start >= pos
                + count,
{
    assert(s.is_used(pos));
    assert(s.is_used(pos + count - 1));
    assert forall|m: int| 0 <= m < s.path.len() implies !within(
        #[trigger] s.path[m] as int,
        pos,
        count,
    ) by {
        if within(s.path[m] as int, pos, count) {
            assert(s.is_used(s.path[m] as int));
            assert(s.is_meta(s.path[m] as int));
        }
    }
    assert forall|a: int, j: int| s.valid(a, j) implies (#[trigger] s.ent(a, j)).end() <= pos
        || s.ent(a, j).start >= pos + count by {
        let e = s.ent(a, j);
        if e.end() > pos && e.start < pos + count {
            let c = if e.start >= pos {
                e.start as int
            } else {
                pos
            };
            assert(e.contains(c));
            assert(s.is_used(c));
            assert(s.is_free(c));
        }
    }
}

/// A range of cells in use begins at no free run.
pub proof fn lemma_no_run_at(s: State, pos: int, count: int)
    requires
        s.bounded(),
        run_used(s, pos, count),
    ensures
        forall|a: int, j: int| s.valid(a, j) ==> (#[trigger] s.ent(a, j)).start != pos,
{
    lemma_run_used(s, pos, count);
}

/// The place that a walk along the chain and a search in the chunk find is
/// the place where the range belongs.
pub proof fn lemma_locate(s: State, pos: int, count: int, k: int, p: int)
    requires
        s.wf(),
        run_used(s, pos, count),
        0 <= k < s.path.len(),
        0 <= p <= s.node(k).entries.len(),
        forall|a: int, j: int| s.valid(a, j) && a < k ==> (#[trigger] s.ent(a, j)).end() < pos,
        forall|j: int| 0 <= j < p ==> (#[trigger] s.ent(k, j)).start < pos,
        forall|j: int| p <= j < s.node(k).entries.len() ==> (#[trigger] s.ent(k, j)).start > pos,
        k == s.path.len() - 1 || (s.node(k).entries.len() >= 1 && s.node(k).entries.last().end()
            >= pos),
    ensures
        located(s, pos, count, k, p),
{
    lemma_run_used(s, pos, count);
    assert forall|a: int, j: int| s.valid(a, j) && !before(a, j, k, p) implies (#[trigger] s.ent(
        a,
        j,
    )).start >= pos + count by {
        if a > k {
            let l = s.node(k).entries.len() as int;
            let _ = s.ent(k, l - 1);
            assert(s.valid(k, l - 1));
            assert(before(k, l - 1, a, j));
        }
    }
}

/// A cell is not free where the walk for it came to a chunk none of whose
/// runs holds it.
pub proof fn lemma_not_free(s: State, pos: int, k: int)
    requires
        s.wf(),
        0 <= k < s.path.len(),
        forall|a: int, j: int| s.valid(a, j) && a < k ==> (#[trigger] s.ent(a, j)).end() < pos,
        k == s.path.len() - 1 || (s.node(k).entries.len() >= 1 && s.node(k).entries.last().end()
            >= pos),
        forall|j: int| 0 <= j < s.node(k).entries.len() ==> !(#[trigger] s.ent(k, j)).contains(pos),
    ensures
        !s.is_free(pos),
{
    if s.is_free(pos) {
        let (a, j) = choose|a: int, j: int| s.valid(a, j) && (#[trigger] s.ent(a, j)).contains(pos);
        if a > k {
            let l = s.node(k).entries.len() as int;
            let _ = s.ent(k, l - 1);
            assert(s.valid(k, l - 1));
            assert(before(k, l - 1, a, j));
        }
    }
}

/// Where the run before the place does not touch the range, every run
/// before the place ends strictly before it.
pub proof fn lemma_strict_before(s: State, pos: int, count: int, k: int, p: int)
    requires
        s.wf(),
        located(s, pos, count, k, p),
        !pre_adj(s, pos, k, p),
    ensures
        forall|a: int, j: int|
            s.valid(a, j) && before(a, j, k, p) ==> (#[trigger] s.ent(a, j)).end() < pos,
{
    assert forall|a: int, j: int| s.valid(a, j) && before(a, j, k, p) implies (#[trigger] s.ent(
        a,
        j,
    )).end() < pos by {
        if a == k {
            let _ = s.ent(k, p - 1);
            if j < p - 1 {
                assert(before(k, j, k, p - 1));
                assert(s.valid(k, p - 1));
            }
        }
    }
}

/// Where the run after the place does not touch the range, every run at or
/// after the place begins strictly after it.
pub proof fn lemma_strict_after(s: State, pos: int, count: int, k: int, p: int)
    requires
        s.wf(),
        located(s, pos, count, k, p),
        !post_adj(s, pos, count, k, p),
    ensures
        forall|a: int, j: int|
            s.valid(a, j) && !before(a, j, k, p) ==> (#[trigger] s.ent(a, j)).start > pos + count,
{
    let sk = succ_chunk(s, k, p);
    let si = succ_index(s, k, p);
    assert forall|a: int, j: int| s.valid(a, j) && !before(a, j, k, p) implies (#[trigger] s.ent(
        a,
        j,
    )).start > pos + count by {
        if a > k {
            let _ = s.node(k + 1);
        }
        assert(has_succ(s, k, p));
        assert(s.valid(sk, si));
        let _ = s.ent(sk, si);
        assert(!before(sk, si, k, p));
        if !(a == sk && j == si) {
            assert(before(sk, si, a, j));
        }
    }
}

/// The cells in use after the free cells grew by `[pos, pos + count)`.
pub proof fn lemma_used_after_release(s: State, t: State, pos: int, count: int)
    requires
        run_used(s, pos, count),
        t.cells.len() == s.cells.len(),
        forall|c: int| #[trigger] t.is_free(c) <==> s.is_free(c) || within(c, pos, count),
        forall|c: int| #[trigger] t.is_meta(c) <==> s.is_meta(c),
    ensures
        forall|c: int| #[trigger] t.is_used(c) <==> s.is_used(c) && !within(c, pos, count),
{
    assert forall|c: int| #[trigger] t.is_used(c) <==> s.is_used(c) && !within(c, pos, count) by {
        let _ = t.is_free(c);
        let _ = t.is_meta(c);
    }
}

/// The run before the place grows by the range, where it touches the range
/// and the run after the place does not.
pub proof fn lemma_extend_prev(s: State, pos: int, count: int, k: int, p: int)
    requires
        s.wf(),
        run_used(s, pos, count),
        located(s, pos, count, k, p),
        pre_adj(s, pos, k, p),
        !post_adj(s, pos, count, k, p),
    ensures
        s.ent(k, p - 1).len + count <= u32::MAX,
        ({
            let prev = s.ent(k, p - 1);
            let t = s.set(k, p - 1, Entry { start: prev.start, len: (prev.len + count) as u32 });
            &&& t.wf()
            &&& t.path == s.path
            &&& t.cells.len() == s.cells.len()
            &&& forall|c: int| #[trigger] t.is_used(c) <==> s.is_used(c) && !within(c, pos, count)
        }),
{
    let prev = s.ent(k, p - 1);
    lemma_run_used(s, pos, count);
    lemma_strict_after(s, pos, count, k, p);
    assert(s.valid(k, p - 1));
    let e = Entry { start: prev.start, len: (prev.len + count) as u32 };
    let t = s.set(k, p - 1, e);
    assert forall|a: int, j: int| s.valid(a, j) && before(k, p - 1, a, j) implies e.end() < (
    #[trigger] s.ent(a, j)).start by {
        assert(!before(a, j, k, p));
    }
    assert forall|m: int| 0 <= m < s.path.len() implies !e.contains(
        #[trigger] s.path[m] as int,
    ) by {
        assert(!within(s.path[m] as int, pos, count));
        assert(!prev.contains(s.path[m] as int));
    }
    lemma_set(s, -1, k, p - 1, e);
    assert forall|c: int| #[trigger] t.is_free(c) <==> s.is_free(c) || within(c, pos, count) by {
        if prev.contains(c) {
            assert(s.is_free(c));
        }
    }
    lemma_used_after_release(s, t, pos, count);
}

/// The run after the place grows downwards by the range, where it touches
/// the range and the run before the place does not.
pub proof fn lemma_extend_succ(s: State, pos: int, count: int, k: int, p: int)
    requires
        s.wf(),
        run_used(s, pos, count),
        located(s, pos, count, k, p),
        !pre_adj(s, pos, k, p),
        post_adj(s, pos, count, k, p),
    ensures
        s.valid(succ_chunk(s, k, p), succ_index(s, k, p)),
        s.ent(succ_chunk(s, k, p), succ_index(s, k, p)).len + count <= u32::MAX,
        ({
            let sk = succ_chunk(s, k, p);
            let si = succ_index(s, k, p);
            let t = s.set(
                sk,
                si,
                Entry { start: pos as u32, len: (s.ent(sk, si).len + count) as u32 },
            );
            &&& t.wf()
            &&& t.path == s.path
            &&& t.cells.len() == s.cells.len()
            &&& forall|c: int| #[trigger] t.is_used(c) <==> s.is_used(c) && !within(c, pos, count)
        }),
{
    let sk = succ_chunk(s, k, p);
    let si = succ_index(s, k, p);
    if p >= s.node(k).entries.len() {
        let _ = s.node(k + 1);
    }
    assert(s.valid(sk, si));
    let x = s.ent(sk, si);
    lemma_run_used(s, pos, count);
    lemma_strict_before(s, pos, count, k, p);
    let e = Entry { start: pos as u32, len: (x.len + count) as u32 };
    let t = s.set(sk, si, e);
    assert(e.end() == x.end());
    assert forall|a: int, j: int| s.valid(a, j) && before(a, j, sk, si) implies (#[trigger] s.ent(
        a,
        j,
    )).end() < e.start by {
        assert(before(a, j, k, p));
    }
    assert forall|m: int| 0 <= m < s.path.len() implies !e.contains(
        #[trigger] s.path[m] as int,
    ) by {
        assert(!within(s.path[m] as int, pos, count));
        assert(!x.contains(s.path[m] as int));
    }
    lemma_set(s, -1, sk, si, e);
    assert forall|c: int| #[trigger] t.is_free(c) <==> s.is_free(c) || within(c, pos, count) by {
        if x.contains(c) {
            assert(s.is_free(c));
        }
    }
    lemma_used_after_release(s, t, pos, count);
}

/// The range becomes a run of its own at the place, where neither
/// neighbour touches it and the chunk has room.
pub proof fn lemma_insert_new(s: State, pos: int, count: int, k: int, p: int)
    requires
        s.wf(),
        run_used(s, pos, count),
        located(s, pos, count, k, p),
        !pre_adj(s, pos, k, p),
        !post_adj(s, pos, count, k, p),
        s.node(k).entries.len() < slots_of::<Entry>(),
    ensures
        ({
            let t = s.insert(k, p, Entry { start: pos as u32, len: count as u32 });
            &&& t.wf()
            &&& t.path == s.path
            &&& t.cells.len() == s.cells.len()
            &&& forall|c: int| #[trigger] t.is_used(c) <==> s.is_used(c) && !within(c, pos, count)
        }),
{
    lemma_run_used(s, pos, count);
    lemma_strict_before(s, pos, count, k, p);
    lemma_strict_after(s, pos, count, k, p);
    let e = Entry { start: pos as u32, len: count as u32 };
    let t = s.insert(k, p, e);
    assert forall|m: int| 0 <= m < s.path.len() implies !e.contains(
        #[trigger] s.path[m] as int,
    ) by {
        assert(!within(s.path[m] as int, pos, count));
    }
    lemma_insert(s, k, p, e);
    assert forall|c: int| #[trigger] t.is_free(c) <==> s.is_free(c) || within(c, pos, count) by {}
    lemma_used_after_release(s, t, pos, count);
}

/// Whether merging the range with both neighbours empties the chunk after
/// chunk `k`, which then leaves the chain.
pub open spec fn merge_releases(s: State, k: int, p: int) -> bool {
    succ_chunk(s, k, p) != k && s.node(k + 1).entries.len() == 1
}

/// The state after the range has been merged with both neighbours: the run
/// after the place is gone, the run before it reaches to where that one
/// ended, and a chunk that this emptied has left the chain.
pub open spec fn merged(s: State, pos: int, count: int, k: int, p: int) -> State {
    let sk = succ_chunk(s, k, p);
    let si = succ_index(s, k, p);
    let prev = s.ent(k, p - 1);
    let e = Entry { start: prev.start, len: (prev.len + count + s.ent(sk, si).len) as u32 };
    let t = s.remove(sk, si).set(k, p - 1, e);
    if merge_releases(s, k, p) {
        t.unlink(k + 1)
    } else {
        t
    }
}

/// Merging the range with both neighbours keeps the list well formed and
/// takes the range out of use.  The cell of a chunk that left the chain is
/// then in use, so that it can be released in turn.
pub proof fn lemma_merge(s: State, pos: int, count: int, k: int, p: int)
    requires
        s.wf(),
        run_used(s, pos, count),
        located(s, pos, count, k, p),
        pre_adj(s, pos, k, p),
        post_adj(s, pos, count, k, p),
    ensures
        s.valid(succ_chunk(s, k, p), succ_index(s, k, p)),
        s.ent(k, p - 1).len + count + s.ent(succ_chunk(s, k, p), succ_index(s, k, p)).len
            <= u32::MAX,
        s.remove(succ_chunk(s, k, p), succ_index(s, k, p)).linked(),
        s.remove(succ_chunk(s, k, p), succ_index(s, k, p)).valid(k, p - 1),
        s.remove(succ_chunk(s, k, p), succ_index(s, k, p)).ent(k, p - 1) == s.ent(k, p - 1),
        ({
            let sk = succ_chunk(s, k, p);
            let si = succ_index(s, k, p);
            let prev = s.ent(k, p - 1);
            let e = Entry { start: prev.start, len: (prev.len + count + s.ent(sk, si).len) as u32 };
            let t = s.remove(sk, si).set(k, p - 1, e);
            &&& t.linked()
            &&& t.path == s.path
            &&& merge_releases(s, k, p) ==> t.node(k + 1).entries.len() == 0
        }),
        merged(s, pos, count, k, p).wf(),
        merged(s, pos, count, k, p).cells.len() == s.cells.len(),
        forall|c: int| #[trigger]
            merged(s, pos, count, k, p).is_used(c) <==> (s.is_used(c) && !within(c, pos, count))
                || (merge_releases(s, k, p) && c == s.path[k + 1]),
        merge_releases(s, k, p) ==> !within(s.path[k + 1] as int, pos, count),
{
    let sk = succ_chunk(s, k, p);
    let si = succ_index(s, k, p);
    if p >= s.node(k).entries.len() {
        let _ = s.node(k + 1);
    }
    assert(s.valid(sk, si));
    assert(s.valid(k, p - 1));
    let x = s.ent(sk, si);
    let prev = s.ent(k, p - 1);
    lemma_run_used(s, pos, count);
    let e = Entry { start: prev.start, len: (prev.len + count + x.len) as u32 };
    assert(e.end() == x.end());
    let s1 = s.remove(sk, si);
    let h = if sk == k {
        -1
    } else {
        sk
    };
    lemma_remove(s, -1, sk, si);
    assert(s1.wf_but(h));
    assert(s1.valid(k, p - 1) && s1.ent(k, p - 1) == prev) by {
        if sk != k {
            assert(s1.node(k) == s.node(k));
        }
    }
    assert forall|a: int, j: int| s1.valid(a, j) implies #[trigger] s1.ent(a, j) == s.ent(
        a,
        if a == sk && j >= si {
            j + 1
        } else {
            j
        },
    ) && s.valid(
        a,
        if a == sk && j >= si {
            j + 1
        } else {
            j
        },
    ) by {
        if a != sk {
            assert(s1.node(a) == s.node(a));
        }
    }
    assert forall|a: int, j: int| s1.valid(a, j) && before(a, j, k, p - 1) implies (
    #[trigger] s1.ent(a, j)).end() < e.start by {
        let jj = if a == sk && j >= si {
            j + 1
        } else {
            j
        };
        let _ = s.ent(a, jj);
        assert(before(a, jj, k, p - 1));
    }
    assert forall|a: int, j: int| s1.valid(a, j) && before(k, p - 1, a, j) implies e.end() < (
    #[trigger] s1.ent(a, j)).start by {
        let jj = if a == sk && j >= si {
            j + 1
        } else {
            j
        };
        let _ = s.ent(a, jj);
        assert(before(sk, si, a, jj));
    }
    assert forall|m: int| 0 <= m < s1.path.len() implies !e.contains(
        #[trigger] s1.path[m] as int,
    ) by {
        assert(!within(s.path[m] as int, pos, count));
        assert(!prev.contains(s.path[m] as int));
        assert(!x.contains(s.path[m] as int));
    }
    lemma_set(s1, h, k, p - 1, e);
    let s2 = s1.set(k, p - 1, e);
    assert forall|c: int| #[trigger] s2.is_free(c) <==> s.is_free(c) || within(c, pos, count) by {
        let _ = s1.is_free(c);
        if prev.contains(c) || x.contains(c) {
            assert(s.is_free(c));
        }
    }
    assert forall|c: int| #[trigger] s2.is_meta(c) <==> s.is_meta(c) by {
        let _ = s1.is_meta(c);
    }
    let t = merged(s, pos, count, k, p);
    if merge_releases(s, k, p) {
        assert(s2.node(k + 1) == s1.node(k + 1));
        assert(s1.node(k + 1).entries.len() == 0);
        lemma_unlink(s2, k + 1);
        assert(!within(s.path[k + 1] as int, pos, count));
        assert(!s.is_free(s.path[k + 1] as int)) by {
            if s.is_free(s.path[k + 1] as int) {
                let (a, j) = choose|a: int, j: int|
                    s.valid(a, j) && (#[trigger] s.ent(a, j)).contains(s.path[k + 1] as int);
                let _ = s.path[k + 1];
            }
        }
        assert(s.path[k + 1] < s.cells.len());
        assert forall|c: int| #[trigger]
            t.is_used(c) <==> (s.is_used(c) && !within(c, pos, count)) || c == s.path[k + 1] by {
            let _ = t.is_free(c);
            let _ = t.is_meta(c);
            let _ = s2.is_free(c);
            let _ = s2.is_meta(c);
        }
    } else {
        if sk != k {
            assert(s.node(sk).entries.len() >= 2);
        }
        assert(s2.wf());
        assert forall|c: int| #[trigger]
            t.is_used(c) <==> s.is_used(c) && !within(c, pos, count) by {
            let _ = s2.is_free(c);
            let _ = s2.is_meta(c);
        }
    }
}

/// The cell that a full chunk gives up to hold a new chunk: the last cell of
/// its last run.
pub open spec fn stolen(s: State, k: int) -> int {
    s.node(k).entries.last().end() - 1
}

/// The state after chunk `k` gave up the last cell of its last run.
pub open spec fn after_steal(s: State, k: int) -> State {
    let l = s.node(k).entries.len() as int;
    let last = s.node(k).entries.last();
    if last.len >= 2 {
        s.set(k, l - 1, Entry { start: last.start, len: (last.len - 1) as u32 })
    } else {
        s.remove(k, l - 1)
    }
}

/// Where chunk `k` is cut after the steal: at the place, or at its end where
/// the place lies beyond it.
pub open spec fn cut(s: State, k: int, p: int) -> int {
    let l1 = after_steal(s, k).node(k).entries.len() as int;
    if p < l1 {
        p
    } else {
        l1
    }
}

/// Whether the new run goes into the new chunk: it does where the cut left
/// the new chunk empty.
pub open spec fn into_new(s: State, k: int, p: int) -> bool {
    cut(s, k, p) == after_steal(s, k).node(k).entries.len()
}

/// The state after a range was released at a place in a full chunk: the
/// chunk gave up a cell, was cut in two with the second half in that cell,
/// and the range became a run at the end of the first half, or the only run
/// of the second where that got none.
pub open spec fn overflowed(s: State, pos: int, count: int, k: int, p: int) -> State {
    let e = Entry { start: pos as u32, len: count as u32 };
    let s2 = after_steal(s, k).split(k, cut(s, k, p), stolen(s, k) as usize);
    if into_new(s, k, p) {
        s2.insert(k + 1, 0, e)
    } else {
        s2.insert(k, cut(s, k, p), e)
    }
}

/// Giving up the last cell of the last run of a chunk with two runs or more
/// keeps the list well formed.  The cell is then in use, and every run is
/// where it was, the last run of the chunk a cell shorter or gone.
pub proof fn lemma_steal(s: State, k: int)
    requires
        s.wf(),
        0 <= k < s.path.len(),
        s.node(k).entries.len() >= 2,
    ensures
        0 <= stolen(s, k) < s.cells.len(),
        s.is_free(stolen(s, k)),
        after_steal(s, k).wf(),
        after_steal(s, k).path == s.path,
        after_steal(s, k).cells.len() == s.cells.len(),
        after_steal(s, k).node(k).entries.len() >= 1,
        s.node(k).entries.len() - 1 <= after_steal(s, k).node(k).entries.len() <= s.node(
            k,
        ).entries.len(),
        after_steal(s, k).is_used(stolen(s, k)),
        forall|c: int| #[trigger]
            after_steal(s, k).is_free(c) <==> s.is_free(c) && c != stolen(s, k),
        forall|c: int| #[trigger] after_steal(s, k).is_meta(c) <==> s.is_meta(c),
        forall|a: int, j: int|
            after_steal(s, k).valid(a, j) ==> s.valid(a, j) && (#[trigger] after_steal(s, k).ent(
                a,
                j,
            )).start == s.ent(a, j).start && after_steal(s, k).ent(a, j).end() <= s.ent(
                a,
                j,
            ).end(),
{
    let l = s.node(k).entries.len() as int;
    let last = s.ent(k, l - 1);
    assert(s.valid(k, l - 1));
    let id = stolen(s, k);
    let s1 = after_steal(s, k);
    assert(last.contains(id));
    assert(s.is_free(id));
    assert(!s.is_meta(id)) by {
        if s.is_meta(id) {
            let m = choose|m: int| 0 <= m < s.path.len() && #[trigger] s.path[m] == id;
            assert(!last.contains(s.path[m] as int));
        }
    }
    if last.len >= 2 {
        let sh = Entry { start: last.start, len: (last.len - 1) as u32 };
        assert forall|a: int, j: int| s.valid(a, j) && before(a, j, k, l - 1) implies (
        #[trigger] s.ent(a, j)).end() < sh.start by {}
        assert forall|a: int, j: int| s.valid(a, j) && before(k, l - 1, a, j) implies sh.end() < (
        #[trigger] s.ent(a, j)).start by {}
        assert forall|m: int| 0 <= m < s.path.len() implies !sh.contains(
            #[trigger] s.path[m] as int,
        ) by {
            assert(!last.contains(s.path[m] as int));
        }
        lemma_set(s, -1, k, l - 1, sh);
    } else {
        lemma_remove(s, -1, k, l - 1);
    }
    assert forall|c: int| #[trigger] s1.is_free(c) <==> s.is_free(c) && c != id by {
        if last.contains(c) {
            assert(s.is_free(c));
        }
    }
    assert(s1.is_used(id)) by {
        let _ = s1.is_free(id);
        let _ = s1.is_meta(id);
    }
    assert forall|a: int, j: int| s1.valid(a, j) implies s.valid(a, j) && (#[trigger] s1.ent(
        a,
        j,
    )).start == s.ent(a, j).start && s1.ent(a, j).end() <= s.ent(a, j).end() by {
        if a != k {
            assert(s1.node(a) == s.node(a));
        }
    }
}

/// The chunk that takes the new run after a full chunk was cut.
pub open spec fn target_chunk(s: State, k: int, p: int) -> int {
    if into_new(s, k, p) {
        k + 1
    } else {
        k
    }
}

/// The place that the new run takes in its chunk after a full chunk was
/// cut.
pub open spec fn target_index(s: State, k: int, p: int) -> int {
    if into_new(s, k, p) {
        0
    } else {
        cut(s, k, p)
    }
}

/// After the steal and the cut, the runs before the target end before the
/// range and the others begin after it.
proof fn lemma_overflow_order(s: State, pos: int, count: int, k: int, p: int)
    requires
        s.wf(),
        run_used(s, pos, count),
        located(s, pos, count, k, p),
        !pre_adj(s, pos, k, p),
        !post_adj(s, pos, count, k, p),
        s.node(k).entries.len() >= 2,
    ensures
        ({
            let s2 = after_steal(s, k).split(k, cut(s, k, p), stolen(s, k) as usize);
            let kt = target_chunk(s, k, p);
            let it = target_index(s, k, p);
            &&& forall|a: int, j: int|
                s2.valid(a, j) && before(a, j, kt, it) ==> (#[trigger] s2.ent(a, j)).end() < pos
            &&& forall|a: int, j: int|
                s2.valid(a, j) && !before(a, j, kt, it) ==> pos + count < (#[trigger] s2.ent(
                    a,
                    j,
                )).start
        }),
{
    lemma_strict_before(s, pos, count, k, p);
    lemma_strict_after(s, pos, count, k, p);
    lemma_steal(s, k);
    let s1 = after_steal(s, k);
    let q = cut(s, k, p);
    let id = stolen(s, k);
    lemma_split(s1, k, q, id as usize);
    let s2 = s1.split(k, q, id as usize);
    let kt = target_chunk(s, k, p);
    let it = target_index(s, k, p);
    assert forall|a: int, j: int| s2.valid(a, j) && before(a, j, kt, it) implies (#[trigger] s2.ent(
        a,
        j,
    )).end() < pos by {
        let aa = if a <= k {
            a
        } else {
            a - 1
        };
        let jj = if a == k + 1 {
            q + j
        } else {
            j
        };
        assert(s1.valid(aa, jj) && s2.ent(a, j) == s1.ent(aa, jj));
        let _ = s1.ent(aa, jj);
        let _ = s.ent(aa, jj);
        assert(before(aa, jj, k, p));
    }
    assert forall|a: int, j: int| s2.valid(a, j) && !before(a, j, kt, it) implies pos + count < (
    #[trigger] s2.ent(a, j)).start by {
        let aa = if a <= k {
            a
        } else {
            a - 1
        };
        let jj = if a == k + 1 {
            q + j
        } else {
            j
        };
        assert(s1.valid(aa, jj) && s2.ent(a, j) == s1.ent(aa, jj));
        let _ = s1.ent(aa, jj);
        let _ = s.ent(aa, jj);
        assert(!before(aa, jj, k, p));
    }
}

/// Releasing a range at a place in a full chunk, by way of a stolen cell,
/// keeps the list well formed and takes exactly the range out of use.
pub proof fn lemma_overflow(s: State, pos: int, count: int, k: int, p: int)
    requires
        s.wf(),
        run_used(s, pos, count),
        located(s, pos, count, k, p),
        !pre_adj(s, pos, k, p),
        !post_adj(s, pos, count, k, p),
        s.node(k).entries.len() == slots_of::<Entry>(),
    ensures
        0 <= cut(s, k, p) <= after_steal(s, k).node(k).entries.len(),
        ({
            let s2 = after_steal(s, k).split(k, cut(s, k, p), stolen(s, k) as usize);
            &&& s2.linked()
            &&& s2.path == s.path.insert(k + 1, stolen(s, k) as usize)
            &&& s2.node(k).entries.len() == cut(s, k, p)
            &&& !into_new(s, k, p) ==> s2.node(k).entries.len() < slots_of::<Entry>()
            &&& into_new(s, k, p) ==> s2.node(k + 1).entries.len() == 0
        }),
        overflowed(s, pos, count, k, p).wf(),
        overflowed(s, pos, count, k, p).cells.len() == s.cells.len(),
        forall|c: int| #[trigger]
            overflowed(s, pos, count, k, p).is_used(c) <==> s.is_used(c) && !within(c, pos, count),
{
    let id = stolen(s, k);
    lemma_run_used(s, pos, count);
    lemma_steal(s, k);
    let s1 = after_steal(s, k);
    let q = cut(s, k, p);
    let s2 = s1.split(k, q, id as usize);
    let e = Entry { start: pos as u32, len: count as u32 };
    let kt = target_chunk(s, k, p);
    let it = target_index(s, k, p);
    assert(s2.linked() && s2.wf_but(kt) && s2.cells.len() == s.cells.len() && s2.path
        == s.path.insert(k + 1, id as usize) && s2.node(k).entries.len() == q && (into_new(s, k, p)
        ==> s2.node(k + 1).entries.len() == 0) && (forall|c: int| #[trigger]
        s2.is_free(c) <==> s1.is_free(c)) && (forall|c: int| #[trigger]
        s2.is_meta(c) <==> s1.is_meta(c) || c == id)) by {
        lemma_split(s1, k, q, id as usize);
    }
    assert(!within(id, pos, count)) by {
        if within(id, pos, count) {
            assert(s.is_used(id));
        }
    }
    assert forall|m: int| 0 <= m < s2.path.len() implies !e.contains(
        #[trigger] s2.path[m] as int,
    ) by {
        if m != k + 1 {
            let mm = if m <= k {
                m
            } else {
                m - 1
            };
            assert(s2.path[m] == s.path[mm]);
            assert(!within(s.path[mm] as int, pos, count));
        }
    }
    lemma_overflow_order(s, pos, count, k, p);
    lemma_insert(s2, kt, it, e);
    let t = overflowed(s, pos, count, k, p);
    assert(t == s2.insert(kt, it, e));
    assert forall|c: int| #[trigger] t.is_used(c) <==> s.is_used(c) && !within(c, pos, count) by {
        let _ = t.is_free(c);
        let _ = t.is_meta(c);
        let _ = s2.is_free(c);
        let _ = s2.is_meta(c);
        let _ = s1.is_free(c);
        let _ = s1.is_meta(c);
    }
}

/// The state after the range `[pos, pos + count)` has been released at the
/// place `(k, p)`.
///
/// A range that touches the runs on both sides of the place joins them to
/// one run.  One that touches the run on one side makes that run longer.
/// One that touches neither becomes a run of its own at the place, by way
/// of a stolen cell and a new chunk where the chunk is full.
pub open spec fn released(s: State, pos: int, count: int, k: int, p: int) -> State {
    let sk = succ_chunk(s, k, p);
    let si = succ_index(s, k, p);
    if pre_adj(s, pos, k, p) && post_adj(s, pos, count, k, p) {
        merged(s, pos, count, k, p)
    } else if pre_adj(s, pos, k, p) {
        s.set(
            k,
            p - 1,
            Entry { start: s.ent(k, p - 1).start, len: (s.ent(k, p - 1).len + count) as u32 },
        )
    } else if post_adj(s, pos, count, k, p) {
        s.set(sk, si, Entry { start: pos as u32, len: (s.ent(sk, si).len + count) as u32 })
    } else if s.node(k).entries.len() < slots_of::<Entry>() {
        s.insert(k, p, Entry { start: pos as u32, len: count as u32 })
    } else {
        overflowed(s, pos, count, k, p)
    }
}

/// Whether releasing the range at the place `(k, p)` empties a chunk, whose
/// cell is then released in turn.
pub open spec fn release_frees_chunk(s: State, pos: int, count: int, k: int, p: int) -> bool {
    pre_adj(s, pos, k, p) && post_adj(s, pos, count, k, p) && merge_releases(s, k, p)
}

/// The state after a request for `count` cells has been served from the
/// run at `(k, i)`: the run has lost that many cells at its front, or is
/// gone where it had no more than that.
pub open spec fn served(s: State, count: int, k: int, i: int) -> State {
    let x = s.ent(k, i);
    if count == 0 {
        s
    } else if count < x.len {
        s.set(k, i, Entry { start: (x.start + count) as u32, len: (x.len - count) as u32 })
    } else {
        taken(s, k, i)
    }
}

/// Whether serving a request for `count` cells from the run at `(k, i)`
/// empties a chunk, whose cell is then released in turn.
pub open spec fn serve_frees_chunk(s: State, count: int, k: int, i: int) -> bool {
    count > 0 && count >= s.ent(k, i).len && take_releases(s, k)
}

/// Handing out the first `n` cells of a longer run keeps the list well
/// formed and puts exactly those cells in use.
pub proof fn lemma_take_front(s: State, k: int, i: int, n: int)
    requires
        s.wf(),
        s.valid(k, i),
        1 <= n < s.ent(k, i).len,
    ensures
        ({
            let x = s.ent(k, i);
            let t = s.set(k, i, Entry { start: (x.start + n) as u32, len: (x.len - n) as u32 });
            &&& x.start + n <= u32::MAX
            &&& t.wf()
            &&& t.path == s.path
            &&& t.cells.len() == s.cells.len()
            &&& forall|c: int| #[trigger]
                t.is_used(c) <==> s.is_used(c) || within(c, x.start as int, n)
        }),
{
    let x = s.ent(k, i);
    let e = Entry { start: (x.start + n) as u32, len: (x.len - n) as u32 };
    let t = s.set(k, i, e);
    assert forall|a: int, j: int| s.valid(a, j) && before(a, j, k, i) implies (#[trigger] s.ent(
        a,
        j,
    )).end() < e.start by {}
    assert forall|a: int, j: int| s.valid(a, j) && before(k, i, a, j) implies e.end() < (
    #[trigger] s.ent(a, j)).start by {}
    assert forall|m: int| 0 <= m < s.path.len() implies !e.contains(
        #[trigger] s.path[m] as int,
    ) by {
        assert(!x.contains(s.path[m] as int));
    }
    lemma_set(s, -1, k, i, e);
    assert forall|c: int| #[trigger]
        t.is_used(c) <==> s.is_used(c) || within(c, x.start as int, n) by {
        let _ = t.is_free(c);
        let _ = t.is_meta(c);
        if x.contains(c) {
            assert(s.is_free(c));
            if s.is_meta(c) {
                let m = choose|m: int| 0 <= m < s.path.len() && #[trigger] s.path[m] == c;
                assert(!x.contains(s.path[m] as int));
            }
        }
    }
}

/// Whether handing out the whole run at `(k, i)` empties a chunk that then
/// leaves the chain: it does where the run is the only one of its chunk and
/// the chunk is not the only one.
pub open spec fn take_releases(s: State, k: int) -> bool {
    s.node(k).entries.len() == 1 && s.path.len() >= 2
}

/// The state after the whole run at `(k, i)` has been handed out: the run is
/// gone, and a chunk that this emptied has left the chain, its successor
/// taking its place as the root where it was the root.
pub open spec fn taken(s: State, k: int, i: int) -> State {
    let t = s.remove(k, i);
    if take_releases(s, k) {
        if k == 0 {
            t.promote()
        } else {
            t.unlink(k)
        }
    } else {
        t
    }
}

/// Handing out a whole run keeps the list well formed and puts exactly its
/// cells in use, and with them the cell of a chunk that left the chain, so
/// that it can be released in turn.
pub proof fn lemma_take_all(s: State, k: int, i: int)
    requires
        s.wf(),
        s.valid(k, i),
    ensures
        s.remove(k, i).linked(),
        s.remove(k, i).path == s.path,
        s.remove(k, i).node(k).entries.len() == s.node(k).entries.len() - 1,
        taken(s, k, i).wf(),
        taken(s, k, i).cells.len() == s.cells.len(),
        take_releases(s, k) ==> !s.ent(k, i).contains(s.path[k] as int),
        forall|c: int| #[trigger]
            taken(s, k, i).is_used(c) <==> s.is_used(c) || s.ent(k, i).contains(c) || (
            take_releases(s, k) && c == s.path[k]),
{
    let x = s.ent(k, i);
    let s1 = s.remove(k, i);
    lemma_remove(s, -1, k, i);
    let t = taken(s, k, i);
    assert(!x.contains(s.path[k] as int));
    assert(s.path[k] < s.cells.len());
    assert(!s.is_free(s.path[k] as int)) by {
        if s.is_free(s.path[k] as int) {
            let (a, j) = choose|a: int, j: int|
                s.valid(a, j) && (#[trigger] s.ent(a, j)).contains(s.path[k] as int);
            let _ = s.path[k];
        }
    }
    assert forall|c: int| x.contains(c) implies 0 <= c < s.cells.len() && s.is_free(c)
        && !s.is_meta(c) by {
        assert(s.is_free(c));
        if s.is_meta(c) {
            let m = choose|m: int| 0 <= m < s.path.len() && #[trigger] s.path[m] == c;
            assert(!x.contains(s.path[m] as int));
        }
    }
    if take_releases(s, k) {
        if k == 0 {
            lemma_promote(s1);
        } else {
            lemma_unlink(s1, k);
        }
        assert forall|c: int| #[trigger]
            t.is_used(c) <==> s.is_used(c) || x.contains(c) || c == s.path[k] by {
            let _ = t.is_free(c);
            let _ = t.is_meta(c);
            let _ = s1.is_free(c);
            let _ = s1.is_meta(c);
        }
    } else {
        assert(s1.wf());
        assert forall|c: int| #[trigger] t.is_used(c) <==> s.is_used(c) || x.contains(c) by {
            let _ = s1.is_free(c);
            let _ = s1.is_meta(c);
        }
    }
}

/// The list holds no free run.
pub open spec fn no_runs(s: State) -> bool {
    forall|a: int, j: int| !s.valid(a, j)
}

/// The run at `(k, i)` is the first one of at least `count` cells.
pub open spec fn first_fit(s: State, count: int, k: int, i: int) -> bool {
    &&& s.valid(k, i)
    &&& s.ent(k, i).len >= count
    &&& forall|a: int, j: int|
        s.valid(a, j) && before(a, j, k, i) ==> (#[trigger] s.ent(a, j)).len < count
}

/// No run has `count` cells, and the run at `(k, i)` is the first of the
/// longest ones.
pub open spec fn first_largest(s: State, count: int, k: int, i: int) -> bool {
    &&& s.valid(k, i)
    &&& forall|a: int, j: int|
        s.valid(a, j) ==> (#[trigger] s.ent(a, j)).len < count && s.ent(a, j).len <= s.ent(
            k,
            i,
        ).len
    &&& forall|a: int, j: int|
        s.valid(a, j) && before(a, j, k, i) ==> (#[trigger] s.ent(a, j)).len < s.ent(k, i).len
}

/// The run at `(k, i)` is the one that a request for `count` cells is
/// served from: the first that is long enough, or else the first of the
/// longest.
pub open spec fn best_fit(s: State, count: int, k: int, i: int) -> bool {
    first_fit(s, count, k, i) || first_largest(s, count, k, i)
}

/// What a walk for a request of `count` cells knows when it has looked at
/// the first `k` chunks without finding a run that is long enough: no run
/// of those chunks is, and of their runs the one at `(kb, ib)` is the first
/// of the longest, with `len` cells.  Where those chunks hold no run at
/// all, `kb` is negative and `len` is zero.
pub open spec fn scanned(s: State, count: int, k: int, kb: int, ib: int, len: int) -> bool {
    &&& forall|a: int, j: int|
        s.valid(a, j) && a < k ==> (#[trigger] s.ent(a, j)).len < count && s.ent(a, j).len <= len
    &&& if kb < 0 {
        len == 0
    } else {
        &&& kb < k
        &&& s.valid(kb, ib)
        &&& s.ent(kb, ib).len == len
        &&& forall|a: int, j: int|
            s.valid(a, j) && before(a, j, kb, ib) ==> (#[trigger] s.ent(a, j)).len < len
    }
}

/// A walk that has looked at `k` chunks knows one more when the next chunk
/// has no run that is long enough either: its first longest run, at `i`
/// with `m` cells, is the new first of the longest where it is longer than
/// the one known so far.
pub proof fn lemma_scan_step(
    s: State,
    count: int,
    k: int,
    kb: int,
    ib: int,
    len: int,
    i: int,
    m: int,
)
    requires
        s.bounded(),
        0 <= k < s.path.len(),
        scanned(s, count, k, kb, ib, len),
        forall|j: int|
            0 <= j < s.node(k).entries.len() ==> (#[trigger] s.ent(k, j)).len < count && s.ent(
                k,
                j,
            ).len <= m,
        m == 0 ==> i == 0,
        m > 0 ==> 0 <= i < s.node(k).entries.len() && s.ent(k, i).len == m && forall|j: int|
            0 <= j < i ==> (#[trigger] s.ent(k, j)).len < m,
    ensures
        m > len ==> scanned(s, count, k + 1, k, i, m),
        m <= len ==> scanned(s, count, k + 1, kb, ib, len),
{
    if m > len {
        assert forall|a: int, j: int| s.valid(a, j) && before(a, j, k, i) implies (#[trigger] s.ent(
            a,
            j,
        )).len < m by {}
    }
}

/// A walk that has looked at all chunks without finding a run that is long
/// enough has found the first of the longest runs, or that there is none.
pub proof fn lemma_scan_end(s: State, count: int, kb: int, ib: int, len: int)
    requires
        s.bounded(),
        scanned(s, count, s.path.len() as int, kb, ib, len),
    ensures
        kb < 0 ==> no_runs(s),
        kb >= 0 ==> first_largest(s, count, kb, ib),
{
    if kb < 0 {
        assert forall|a: int, j: int| !s.valid(a, j) by {
            if s.valid(a, j) {
                let _ = s.ent(a, j);
            }
        }
    }
}

/// A run that is long enough, in the chunk that a walk looks at after
/// `k` chunks without such a run, with no such run before it in that chunk,
/// is the first run that is long enough.
pub proof fn lemma_scan_fit(s: State, count: int, k: int, kb: int, ib: int, len: int, i: int)
    requires
        0 <= k < s.path.len(),
        scanned(s, count, k, kb, ib, len),
        s.valid(k, i),
        s.ent(k, i).len >= count,
        forall|j: int| 0 <= j < i ==> (#[trigger] s.ent(k, j)).len < count,
    ensures
        first_fit(s, count, k, i),
{
}

/// What a request for `count` cells gets from the run `x`: its first cell
/// where it is long enough, and else its first cell and its length.
pub open spec fn outcome(x: Entry, count: u32) -> Result<usize, (usize, u32)> {
    if x.len >= count {
        Ok(x.start as usize)
    } else {
        Err((x.start as usize, x.len))
    }
}

/// The first of the cells that the answer `r` hands out.
pub open spec fn granted_start(r: Result<usize, (usize, u32)>) -> int {
    match r {
        Ok(start) => start as int,
        Err((start, _)) => start as int,
    }
}

/// The number of cells that the answer `r` to a request for `count` cells
/// hands out.
pub open spec fn granted_len(r: Result<usize, (usize, u32)>, count: u32) -> int {
    match r {
        Ok(_) => count as int,
        Err((_, len)) => len as int,
    }
}

} // verus!
