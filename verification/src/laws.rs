//! What holds of every well-formed free list: its runs ascend with gaps
//! between them, they hold exactly the free cells, and the cells of the slab
//! are free, hold a chunk of the list, or are in use.
use crate::freelist::Entry;
use crate::model::{before, State};
use crate::steps::within;
use vstd::prelude::*;
use vstd::set_lib::{lemma_int_range, set_int_range};

verus! {

/// The number of cells in the runs `runs`.
pub open spec fn total(runs: Seq<Entry>) -> nat
    decreases runs.len(),
{
    if runs.len() == 0 {
        0
    } else {
        total(runs.drop_last()) + runs.last().len as nat
    }
}

/// The runs ascend: each holds a cell and ends within `n` cells, and each
/// begins after the end of those before it, with a cell between them.
pub open spec fn ascending(runs: Seq<Entry>, n: int) -> bool {
    &&& forall|i: int| 0 <= i < runs.len() ==> (#[trigger] runs[i]).len >= 1 && runs[i].end() <= n
    &&& forall|i: int, j: int|
        0 <= i < j < runs.len() ==> (#[trigger] runs[i]).end() < (#[trigger] runs[j]).start
}

/// The cells that lie in one of the runs.
pub open spec fn covered(runs: Seq<Entry>) -> Set<int> {
    Set::new(|c: int| exists|i: int| 0 <= i < runs.len() && (#[trigger] runs[i]).contains(c))
}

/// The free cells.
pub open spec fn free_set(s: State) -> Set<int> {
    Set::new(|c: int| s.is_free(c))
}

/// The cells that hold a chunk of the list.
pub open spec fn meta_set(s: State) -> Set<int> {
    Set::new(|c: int| s.is_meta(c))
}

/// The cells in use.
pub open spec fn used_set(s: State) -> Set<int> {
    Set::new(|c: int| s.is_used(c))
}

/// Ascending runs cover as many cells as their lengths add up to.
pub proof fn lemma_covered_len(runs: Seq<Entry>, n: int)
    requires
        ascending(runs, n),
    ensures
        covered(runs).finite(),
        covered(runs).len() == total(runs),
    decreases runs.len(),
{
    if runs.len() == 0 {
        assert(covered(runs) =~= Set::empty());
    } else {
        let rest = runs.drop_last();
        let last = runs.last();
        assert(ascending(rest, n)) by {
            assert forall|i: int| 0 <= i < rest.len() implies (#[trigger] rest[i]).len >= 1
                && rest[i].end() <= n by {
                assert(rest[i] == runs[i]);
            }
            assert forall|i: int, j: int| 0 <= i < j < rest.len() implies (#[trigger] rest[i]).end()
                < (#[trigger] rest[j]).start by {
                assert(rest[i] == runs[i] && rest[j] == runs[j]);
            }
        }
        lemma_covered_len(rest, n);
        let span = set_int_range(last.start as int, last.end());
        lemma_int_range(last.start as int, last.end());
        assert(covered(runs) =~= covered(rest) + span) by {
            assert forall|c: int| covered(runs).contains(c) <==> covered(rest).contains(c)
                || span.contains(c) by {
                if covered(runs).contains(c) {
                    let i = choose|i: int| 0 <= i < runs.len() && (#[trigger] runs[i]).contains(c);
                    if i < rest.len() {
                        assert(rest[i].contains(c));
                    }
                }
                if covered(rest).contains(c) {
                    let i = choose|i: int| 0 <= i < rest.len() && (#[trigger] rest[i]).contains(c);
                    assert(runs[i].contains(c));
                }
                if span.contains(c) {
                    assert(runs[runs.len() - 1].contains(c));
                }
            }
        }
        assert(covered(rest).intersect(span) =~= Set::empty()) by {
            assert forall|c: int| !(covered(rest).contains(c) && span.contains(c)) by {
                if covered(rest).contains(c) && span.contains(c) {
                    let i = choose|i: int| 0 <= i < rest.len() && (#[trigger] rest[i]).contains(c);
                    assert(runs[i].end() < runs[runs.len() - 1].start);
                }
            }
        }
        assert(covered(rest).difference(span) =~= covered(rest));
        assert(span.difference(covered(rest)) =~= span);
        vstd::set_lib::lemma_set_difference_len(covered(rest), span);
        vstd::set_lib::lemma_set_union_finite_iff(covered(rest), span);
    }
}

/// The run at `(k, i)` stands in the runs of the first `m` chunks, behind
/// the runs of the first `k` chunks and `i` further runs.
pub proof fn lemma_runs_index(s: State, m: int, k: int, i: int)
    requires
        0 <= k < m <= s.path.len(),
        0 <= i < s.node(k).entries.len(),
    ensures
        s.runs_upto(k).len() + i < s.runs_upto(m).len(),
        s.runs_upto(m)[s.runs_upto(k).len() + i] == s.ent(k, i),
    decreases m,
{
    if k < m - 1 {
        lemma_runs_index(s, m - 1, k, i);
    }
}

/// The chunk and the place in it of the `n`-th of the runs of the first `m`
/// chunks.
pub proof fn lemma_runs_locate(s: State, m: int, n: int) -> (r: (int, int))
    requires
        0 <= m <= s.path.len(),
        0 <= n < s.runs_upto(m).len(),
    ensures
        0 <= r.0 < m,
        s.valid(r.0, r.1),
        s.runs_upto(r.0).len() + r.1 == n,
        s.runs_upto(m)[n] == s.ent(r.0, r.1),
    decreases m,
{
    if n >= s.runs_upto(m - 1).len() {
        (m - 1, n - s.runs_upto(m - 1).len())
    } else {
        lemma_runs_locate(s, m - 1, n)
    }
}

/// The runs of more chunks are no fewer.
pub proof fn lemma_runs_grow(s: State, a: int, b: int)
    requires
        0 <= a <= b,
    ensures
        s.runs_upto(a).len() <= s.runs_upto(b).len(),
        a < b ==> s.runs_upto(a).len() + s.node(a).entries.len() <= s.runs_upto(b).len(),
    decreases b,
{
    if a < b {
        lemma_runs_grow(s, a, b - 1);
    }
}

/// The runs of a well-formed list ascend, with at least one cell that is
/// not free between any two of them, and lie within the slab.
pub proof fn lemma_runs_ascend(s: State)
    requires
        s.wf(),
    ensures
        ascending(s.runs(), s.cells.len() as int),
{
    let runs = s.runs();
    let m = s.path.len() as int;
    assert forall|i: int| 0 <= i < runs.len() implies (#[trigger] runs[i]).len >= 1
        && runs[i].end() <= s.cells.len() by {
        let (k, j) = lemma_runs_locate(s, m, i);
        let _ = s.ent(k, j);
    }
    assert forall|i: int, j: int| 0 <= i < j < runs.len() implies (#[trigger] runs[i]).end() < (
    #[trigger] runs[j]).start by {
        let (ka, ia) = lemma_runs_locate(s, m, i);
        let (kb, ib) = lemma_runs_locate(s, m, j);
        if ka > kb {
            lemma_runs_grow(s, kb, ka);
        }
        assert(before(ka, ia, kb, ib));
        let _ = s.ent(ka, ia);
        let _ = s.ent(kb, ib);
    }
}

/// The free cells of a list are the cells that its runs cover.
pub proof fn lemma_free_is_covered(s: State)
    requires
        s.wf(),
    ensures
        free_set(s) == covered(s.runs()),
{
    let runs = s.runs();
    let m = s.path.len() as int;
    assert forall|c: int| free_set(s).contains(c) <==> covered(runs).contains(c) by {
        if s.is_free(c) {
            let (k, i) = choose|k: int, i: int| s.valid(k, i) && (#[trigger] s.ent(k, i)).contains(c);
            lemma_runs_index(s, m, k, i);
            assert(runs[s.runs_upto(k).len() + i].contains(c));
        }
        if covered(runs).contains(c) {
            let n = choose|n: int| 0 <= n < runs.len() && (#[trigger] runs[n]).contains(c);
            let (k, i) = lemma_runs_locate(s, m, n);
            assert(s.valid(k, i) && s.ent(k, i).contains(c));
        }
    }
    assert(free_set(s) =~= covered(runs));
}

/// The lengths of the runs of a well-formed list add up to the number of
/// free cells.
pub proof fn lemma_free_count(s: State)
    requires
        s.wf(),
    ensures
        free_set(s).finite(),
        free_set(s).len() == total(s.runs()),
{
    lemma_runs_ascend(s);
    lemma_free_is_covered(s);
    lemma_covered_len(s.runs(), s.cells.len() as int);
}

/// Every cell of the slab of a well-formed list is free, holds a chunk of
/// the list, or is in use, and is only one of these.  There are as many
/// cells that hold a chunk as the chain has chunks.
pub proof fn lemma_cells_partition(s: State)
    requires
        s.wf(),
    ensures
        free_set(s).finite(),
        meta_set(s).finite(),
        used_set(s).finite(),
        meta_set(s).len() == s.path.len(),
        free_set(s).len() + meta_set(s).len() + used_set(s).len() == s.cells.len(),
        forall|c: int|
            0 <= c < s.cells.len() ==> (s.is_free(c) || s.is_meta(c) || #[trigger] s.is_used(c)),
        forall|c: int| !(s.is_free(c) && s.is_meta(c)),
        forall|c: int| #[trigger] s.is_free(c) || s.is_meta(c) ==> 0 <= c < s.cells.len(),
{
    lemma_free_count(s);
    let all = set_int_range(0, s.cells.len() as int);
    lemma_int_range(0, s.cells.len() as int);
    let free = free_set(s);
    let meta = meta_set(s);
    let used = used_set(s);
    let cells = s.path.map(|i: int, x: usize| x as int);
    assert(cells.no_duplicates()) by {
        assert forall|i: int, j: int| 0 <= i < cells.len() && 0 <= j < cells.len() && i
            != j implies cells[i] != cells[j] by {
            if i < j {
                assert(s.path[i] != s.path[j]);
            } else {
                assert(s.path[j] != s.path[i]);
            }
        }
    }
    cells.unique_seq_to_set();
    assert(meta =~= cells.to_set()) by {
        assert forall|c: int| meta.contains(c) <==> cells.to_set().contains(c) by {
            if s.is_meta(c) {
                let k = choose|k: int| 0 <= k < s.path.len() && #[trigger] s.path[k] == c;
                assert(cells[k] == c);
            }
            if cells.to_set().contains(c) {
                let k = choose|k: int| 0 <= k < cells.len() && cells[k] == c;
                assert(s.path[k] == c);
            }
        }
    }
    assert forall|c: int| !(s.is_free(c) && s.is_meta(c)) by {
        if s.is_free(c) && s.is_meta(c) {
            let (k, i) = choose|k: int, i: int| s.valid(k, i) && (#[trigger] s.ent(k, i)).contains(c);
            let m = choose|m: int| 0 <= m < s.path.len() && #[trigger] s.path[m] == c;
            assert(!s.ent(k, i).contains(s.path[m] as int));
        }
    }
    assert forall|c: int| #[trigger] s.is_free(c) || s.is_meta(c) implies 0 <= c
        < s.cells.len() by {
        if s.is_free(c) {
            let (k, i) = choose|k: int, i: int| s.valid(k, i) && (#[trigger] s.ent(k, i)).contains(c);
        } else {
            let m = choose|m: int| 0 <= m < s.path.len() && #[trigger] s.path[m] == c;
        }
    }
    assert(free.intersect(meta) =~= Set::empty());
    assert(free.difference(meta) =~= free);
    assert(meta.difference(free) =~= meta);
    vstd::set_lib::lemma_set_difference_len(free, meta);
    vstd::set_lib::lemma_set_union_finite_iff(free, meta);
    let taken = free + meta;
    assert(used =~= all.difference(taken));
    assert(all.intersect(taken) =~= taken);
    vstd::set_lib::lemma_set_difference_len(all, taken);
}

/// Handing out a range of cells and releasing exactly that range leaves
/// the same cells in use as before, whatever the list did to its chunks in
/// between.  So the free cells and the cells that hold chunks are together
/// as many as before, and where the list has as many chunks as before, as
/// many cells are free as before.
///
/// `first`, `between` and `last` are the states before the cells are
/// handed out, after that, and after they are released; the cells are those
/// in `[start, start + n)`.
pub proof fn lemma_allocate_free_round_trip(
    first: State,
    between: State,
    last: State,
    start: int,
    n: int,
)
    requires
        first.wf(),
        last.wf(),
        last.cells.len() == first.cells.len(),
        forall|c: int| within(c, start, n) ==> first.is_free(c),
        forall|c: int| #[trigger] between.is_used(c) <==> first.is_used(c) || within(c, start, n),
        forall|c: int| #[trigger] last.is_used(c) <==> between.is_used(c) && !within(c, start, n),
    ensures
        used_set(last) == used_set(first),
        total(last.runs()) + last.path.len() == total(first.runs()) + first.path.len(),
        last.path.len() == first.path.len() ==> total(last.runs()) == total(first.runs()),
{
    assert forall|c: int| last.is_used(c) <==> first.is_used(c) by {
        let _ = between.is_used(c);
    }
    assert(used_set(last) =~= used_set(first));
    lemma_cells_partition(first);
    lemma_cells_partition(last);
    lemma_free_count(first);
    lemma_free_count(last);
}

/// Where no cell is in use, all cells but those that hold the chunks of the
/// list are free: a list with one chunk has all cells but one free.
pub proof fn lemma_all_released(s: State)
    requires
        s.wf(),
        forall|c: int| !s.is_used(c),
    ensures
        total(s.runs()) + s.path.len() == s.cells.len(),
        s.path.len() == 1 ==> total(s.runs()) == s.cells.len() - 1,
{
    lemma_cells_partition(s);
    lemma_free_count(s);
    assert(used_set(s) =~= Set::empty());
}

} // verus!
