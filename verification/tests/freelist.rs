use chunk_list::freelist::{Entry, EntryChunk, FreeList};
use rand::Rng;

fn slab(n: usize) -> Vec<Option<EntryChunk>> {
    (0..n).map(|_| None).collect()
}

fn count_free_chunks<T>(l: &FreeList<T>) -> usize {
    l.extents().iter().map(|e| e.len as usize).sum::<usize>()
}

fn count_chunks<T>(l: &FreeList<T>) -> usize {
    let mut n = 0;
    let mut i = l.iter();
    while i.next().is_some() {
        n += 1;
    }
    n
}

fn check_disjunct<T>(l: &FreeList<T>) {
    let mut last_free = 0;
    let mut first = true;
    for e in l.extents() {
        assert!(e.len >= 1);
        if first {
            assert!(e.start >= last_free);
        } else {
            assert!(e.start > last_free);
        }
        first = false;
        last_free = e.start + e.len;
    }
    assert!(last_free as usize <= l.cells());
    let mut i = l.iter();
    while let Some((id, chunk)) = i.next() {
        for e in l.extents() {
            assert!(!(e.start as usize <= id && id < (e.start + e.len) as usize));
        }
        assert!(chunk.len() >= 1 || (id == l.initial() && !chunk.has_next()));
    }
}

fn alloc_all<R: Rng>(allocations: &mut Vec<Entry>, freelist: &mut FreeList<u8>, mut rng: R) {
    'outer: loop {
        let mut size = rng.gen_range(1, 50);
        let tgt = size;
        let pre = count_free_chunks(freelist);
        'retry: loop {
            let got = freelist.allocate(size);
            check_disjunct(freelist);
            match got {
                Ok(pos) => {
                    allocations.push(Entry {
                        start: pos as u32,
                        len: size,
                    });
                    break 'retry;
                }
                Err((pos, len)) => {
                    if len == 0 {
                        break 'outer;
                    };
                    allocations.push(Entry {
                        start: pos as u32,
                        len,
                    });
                    size -= len;
                }
            }
        }
        let post = count_free_chunks(freelist);
        assert_eq!(pre - post, tgt as usize);
    }
}

fn free_some<R: Rng>(allocations: &mut Vec<Entry>, freelist: &mut FreeList<u8>, n: usize, mut rng: R) {
    // free in a random order to hit edge cases
    for _ in 0..n {
        let which = rng.gen_range(0, allocations.len());
        let which = allocations.remove(which);
        let pre = count_free_chunks(freelist);
        freelist.free(which.start, which.len);
        let post = count_free_chunks(freelist);
        // needs to have freed the whole allocation
        // but is allowed to snag one chunk for bookkeeping
        let expected_post = pre + which.len as usize;
        if post < expected_post {
            assert!(expected_post - post <= 1);
        }
        check_disjunct(freelist);
    }
}

#[test]
fn freelist_alloc_free() {
    let mut allocations: Vec<Entry> = vec![];
    let n_chunks = 30_000;
    let mut base = slab(n_chunks);

    let mut freelist = FreeList::<u8>::new(&mut base, 5);
    let mut rng = rand::thread_rng();
    alloc_all(&mut allocations, &mut freelist, &mut rng);
    let len = allocations.len();
    free_some(&mut allocations, &mut freelist, len, &mut rng);

    {
        let chunk = freelist.get(freelist.initial()).unwrap();
        assert!(!chunk.has_next());
        assert_eq!(chunk.len(), 2);
    }
    assert_eq!(count_free_chunks(&freelist), n_chunks - 1);

    alloc_all(&mut allocations, &mut freelist, &mut rng);
    let len = allocations.len();
    free_some(&mut allocations, &mut freelist, len / 2, &mut rng);
    // try allocation after partial deallocation
    alloc_all(&mut allocations, &mut freelist, &mut rng);
    let len = allocations.len();
    free_some(&mut allocations, &mut freelist, len, &mut rng);

    let chunk = freelist.get(freelist.initial()).unwrap();
    assert!(!chunk.has_next());
    assert_eq!(chunk.len(), 2);
    assert_eq!(chunk.as_slice()[0].start, 0);
    assert_eq!(chunk.as_slice()[0].len, 5);
    assert_eq!(chunk.as_slice()[1].start, 6);
    assert_eq!(chunk.as_slice()[1].len, 29_994);
    assert_eq!(count_free_chunks(&freelist), n_chunks - 1);
}

fn runs<T>(l: &FreeList<T>) -> Vec<(u32, u32)> {
    l.extents().iter().map(|e| (e.start, e.len)).collect()
}

#[test]
fn fresh_list_has_the_cells_around_the_root() {
    let mut base = slab(100);
    let l = FreeList::<u8>::new(&mut base, 5);
    assert_eq!(l.initial(), 5);
    assert_eq!(l.cells(), 100);
    assert_eq!(runs(&l), vec![(0, 5), (6, 94)]);

    let mut base = slab(100);
    let l = FreeList::<u8>::new(&mut base, 0);
    assert_eq!(runs(&l), vec![(1, 99)]);

    let mut base = slab(100);
    let l = FreeList::<u8>::new(&mut base, 99);
    assert_eq!(runs(&l), vec![(0, 99)]);

    let mut base = slab(1);
    let mut l = FreeList::<u8>::new(&mut base, 0);
    assert_eq!(runs(&l), vec![]);
    assert_eq!(l.allocate(3), Err((0, 0)));
    assert_eq!(l.allocate(0), Err((0, 0)));
}

#[test]
fn allocate_takes_first_fit_from_the_front() {
    let mut base = slab(100);
    let mut l = FreeList::<u8>::new(&mut base, 5);
    // the run before the root is too short, the one behind it is not
    assert_eq!(l.allocate(10), Ok(6));
    assert_eq!(runs(&l), vec![(0, 5), (16, 84)]);
    // the first run that is long enough wins
    assert_eq!(l.allocate(5), Ok(0));
    assert_eq!(runs(&l), vec![(16, 84)]);
    assert_eq!(l.allocate(0), Ok(16));
    assert_eq!(runs(&l), vec![(16, 84)]);
    // nothing is long enough: the longest run goes, whole
    assert_eq!(l.allocate(100), Err((16, 84)));
    assert_eq!(runs(&l), vec![]);
    // exhausted
    assert_eq!(l.allocate(1), Err((0, 0)));
    check_disjunct(&l);
}

#[test]
fn partial_allocation_prefers_the_first_of_the_longest() {
    let mut base = slab(40);
    let mut l = FreeList::<u8>::new(&mut base, 10);
    // runs (0, 10) and (11, 29)
    assert_eq!(l.allocate(29), Ok(11));
    l.free(11, 10);
    l.free(30, 10);
    assert_eq!(runs(&l), vec![(0, 10), (11, 10), (30, 10)]);
    assert_eq!(l.allocate(11), Err((0, 10)));
    assert_eq!(runs(&l), vec![(11, 10), (30, 10)]);
}

#[test]
fn free_merges_with_its_neighbours() {
    let mut base = slab(100);
    let mut l = FreeList::<u8>::new(&mut base, 0);
    assert_eq!(l.allocate(99), Ok(1));
    assert_eq!(runs(&l), vec![]);
    // no neighbour
    l.free(10, 5);
    assert_eq!(runs(&l), vec![(10, 5)]);
    l.free(30, 5);
    assert_eq!(runs(&l), vec![(10, 5), (30, 5)]);
    // the run before it grows
    l.free(15, 2);
    assert_eq!(runs(&l), vec![(10, 7), (30, 5)]);
    // the run behind it grows downwards
    l.free(28, 2);
    assert_eq!(runs(&l), vec![(10, 7), (28, 7)]);
    // both: the three become one
    l.free(17, 11);
    assert_eq!(runs(&l), vec![(10, 25)]);
    // an empty range changes nothing
    l.free(50, 0);
    assert_eq!(runs(&l), vec![(10, 25)]);
    l.free(1, 9);
    l.free(35, 65);
    assert_eq!(runs(&l), vec![(1, 99)]);
    check_disjunct(&l);
}

#[test]
fn allocate_then_free_restores_the_runs() {
    let mut base = slab(1000);
    let mut l = FreeList::<u8>::new(&mut base, 5);
    let before = runs(&l);
    for k in [1u32, 2, 7, 50, 994] {
        let start = l.allocate(k).unwrap();
        assert_eq!(count_free_chunks(&l), 999 - k as usize);
        l.free(start as u32, k);
        assert_eq!(runs(&l), before);
        assert_eq!(count_free_chunks(&l), 999);
    }
}

/// Takes every cell and releases every second one, until the root chunk
/// is full of runs of one cell each.
fn fill_root(l: &mut FreeList<u8>, capacity: usize) {
    let n = l.cells() as u32;
    assert_eq!(l.allocate(n), Err((1, n - 1)));
    assert_eq!(runs(l), vec![]);
    for i in 0..capacity as u32 {
        l.free(1 + 2 * i, 1);
    }
    assert_eq!(l.extents().len(), capacity);
    assert_eq!(count_chunks(l), 1);
}

#[test]
fn overflow_steals_the_tail_of_the_last_run() {
    let capacity = EntryChunk::new().capacity();
    let n = 4 * capacity + 10;
    let mut base = slab(n);
    let mut l = FreeList::<u8>::new(&mut base, 0);
    fill_root(&mut l, capacity);
    // make the last run two cells long, so that it survives the steal
    let last = 1 + 2 * (capacity as u32 - 1);
    l.free(last + 1, 1);
    assert_eq!(*runs(&l).last().unwrap(), (last, 2));

    // one more run, in the middle of the full chunk
    let pos = 3 * capacity as u32;
    assert!(pos > last + 2);
    let middle = (capacity / 2) as u32;
    let before = runs(&l);
    // a cell between run `middle - 1` and run `middle` cannot be had, they
    // are one apart: take one out first
    assert_eq!(before[middle as usize], (1 + 2 * middle, 1));
    l.free(pos, 1);

    // a second chunk exists, in the stolen cell, behind the root
    assert_eq!(count_chunks(&l), 2);
    let root = l.get(l.initial()).unwrap();
    let stolen = *root.next_hint();
    assert_eq!(stolen, last as usize + 1);
    assert!(root.has_next());
    let second = l.get(stolen).unwrap();
    assert!(!second.has_next());
    // the place of the new run was the end of the full chunk: the root
    // keeps its runs and the new chunk holds the new run alone
    assert_eq!(root.len(), capacity);
    assert_eq!(second.as_slice().len(), 1);
    assert_eq!(second.as_slice()[0].start, pos);
    let mut expected = before.clone();
    expected[capacity - 1] = (last, 1);
    expected.push((pos, 1));
    assert_eq!(runs(&l), expected);
    check_disjunct(&l);
}

#[test]
fn overflow_in_the_middle_cuts_the_chunk_at_the_place() {
    let capacity = EntryChunk::new().capacity();
    let n = 4 * capacity + 10;
    let mut base = slab(n);
    let mut l = FreeList::<u8>::new(&mut base, 0);
    // runs of one cell at 1, 5, 9, ..: two cells in use between them
    let cells = l.cells() as u32;
    assert_eq!(l.allocate(cells), Err((1, cells - 1)));
    for i in 0..capacity as u32 {
        l.free(1 + 4 * i, 1);
    }
    assert_eq!(count_chunks(&l), 1);
    let before = runs(&l);
    let last = before[capacity - 1].0;

    // between the runs at 1 + 4 * 9 and 1 + 4 * 10
    let pos = 1 + 4 * 9 + 2;
    l.free(pos, 1);

    assert_eq!(count_chunks(&l), 2);
    let root = l.get(l.initial()).unwrap();
    let stolen = *root.next_hint();
    // the last run held one cell: it is gone, and its cell holds the new chunk
    assert_eq!(stolen, last as usize);
    let second = l.get(stolen).unwrap();
    assert!(!second.has_next());
    assert_eq!(root.len(), 11);
    assert_eq!(root.as_slice()[10].start, pos);
    assert_eq!(second.len(), capacity - 11);
    assert_eq!(second.as_slice()[0].start, 1 + 4 * 10);
    let mut expected = before.clone();
    expected.pop();
    expected.insert(10, (pos, 1));
    assert_eq!(runs(&l), expected);
    check_disjunct(&l);

    // releasing everything else merges the runs again; the list keeps
    // what its chunks need
    for i in 0..capacity as u32 {
        let at = 1 + 4 * i;
        if at == last {
            continue;
        }
        if i == 9 {
            l.free(at + 1, 1);
            l.free(at + 3, 1);
        } else {
            l.free(at + 1, 3);
        }
        check_disjunct(&l);
    }
    l.free(last + 1, cells - last - 1);
    check_disjunct(&l);
    assert_eq!(count_free_chunks(&l) + count_chunks(&l), cells as usize);
}

#[test]
fn emptied_chunk_is_unlinked_and_its_cell_released() {
    let capacity = EntryChunk::new().capacity();
    let n = 4 * capacity + 10;
    let mut base = slab(n);
    let mut l = FreeList::<u8>::new(&mut base, 0);
    fill_root(&mut l, capacity);
    let last = 1 + 2 * (capacity as u32 - 1);
    let pos = 3 * capacity as u32;
    l.free(pos, 1);
    assert_eq!(count_chunks(&l), 2);
    let second = *l.get(l.initial()).unwrap().next_hint();
    assert_eq!(second, last as usize);
    assert_eq!(runs(&l).len(), capacity);

    // the only run of the second chunk goes: the chunk leaves the chain
    // and its cell is free again
    assert_eq!(l.allocate(2), Err((1, 1)));
    let total = count_free_chunks(&l) + count_chunks(&l);
    let before = runs(&l);
    assert_eq!(*before.last().unwrap(), (pos, 1));
    // take runs from the front until the run in the second chunk is the one
    let mut taken = vec![(1u32, 1u32)];
    while runs(&l).len() > 1 {
        match l.allocate(1) {
            Ok(start) => taken.push((start as u32, 1)),
            Err(_) => unreachable!(),
        }
        check_disjunct(&l);
    }
    assert_eq!(count_chunks(&l), 1);
    assert!(!l.get(l.initial()).unwrap().has_next());
    // the old root is free now, and the second chunk is the root
    assert_eq!(l.initial(), second);
    assert_eq!(count_free_chunks(&l) + count_chunks(&l) + taken.len() - 1, total);
    check_disjunct(&l);
}

#[test]
fn root_stays_when_the_slab_is_exhausted() {
    let mut base = slab(10);
    let mut l = FreeList::<u8>::new(&mut base, 3);
    assert_eq!(l.allocate(6), Ok(4));
    assert_eq!(l.allocate(6), Err((0, 3)));
    assert_eq!(l.allocate(6), Err((0, 0)));
    assert_eq!(l.initial(), 3);
    assert_eq!(count_chunks(&l), 1);
    assert_eq!(l.get(3).unwrap().len(), 0);
    assert!(l.get(4).is_none());
    assert!(l.get(10).is_none());
    l.free(7, 2);
    assert_eq!(runs(&l), vec![(7, 2)]);
}

#[test]
fn find_space_in_a_chunk() {
    let mut chunk = EntryChunk::new();
    assert_eq!(chunk.find_space(1), Err((0, 0)));
    for (start, len) in [(0u32, 2u32), (10, 5), (20, 5), (30, 1)] {
        chunk.push(Entry { start, len });
    }
    assert_eq!(chunk.find_space(2), Ok(0));
    assert_eq!(chunk.find_space(3), Ok(1));
    assert_eq!(chunk.find_space(5), Ok(1));
    assert_eq!(chunk.find_space(6), Err((1, 5)));
    assert_eq!(chunk.find_space(0), Ok(0));
}

#[test]
fn entry_allocate_takes_from_the_front() {
    let mut e = Entry { start: 7, len: 5 };
    e.allocate(2);
    assert_eq!((e.start, e.len), (9, 3));
    e.allocate(3);
    assert_eq!((e.start, e.len), (12, 0));
}

#[test]
fn try_new_checks_what_new_asks() {
    let mut base = slab(10);
    assert!(FreeList::<u8>::try_new(&mut base, 10).is_none());
    assert!(FreeList::<u8>::try_new(&mut base, 11).is_none());
    let mut empty = slab(0);
    assert!(FreeList::<u8>::try_new(&mut empty, 0).is_none());
    let l = FreeList::<u8>::try_new(&mut base, 9).unwrap();
    assert_eq!(runs(&l), vec![(0, 9)]);
}

#[test]
fn new_from_takes_up_a_list() {
    let mut base = slab(50);
    {
        let mut l = FreeList::<u8>::new(&mut base, 7);
        assert_eq!(l.allocate(4), Ok(0));
        assert_eq!(l.allocate(40), Ok(8));
    }
    let mut l = FreeList::<u8>::new_from(&mut base, 7);
    assert_eq!(l.initial(), 7);
    assert_eq!(runs(&l), vec![(4, 3), (48, 2)]);
    l.free(0, 4);
    l.free(8, 40);
    assert_eq!(runs(&l), vec![(0, 7), (8, 42)]);
}

#[test]
fn mark_used_takes_one_cell_out_of_a_run() {
    let mut base = slab(20);
    let mut l = FreeList::<u8>::new(&mut base, 5);
    assert_eq!(runs(&l), vec![(0, 5), (6, 14)]);
    // in the middle of a run: the run falls in two
    assert!(l.mark_used(10));
    assert_eq!(runs(&l), vec![(0, 5), (6, 4), (11, 9)]);
    // already in use
    assert!(!l.mark_used(10));
    // the cell of the root chunk
    assert!(!l.mark_used(5));
    // outside the slab
    assert!(!l.mark_used(20));
    assert!(!l.mark_used(usize::MAX));
    assert_eq!(runs(&l), vec![(0, 5), (6, 4), (11, 9)]);
    // at the front and at the back of a run
    assert!(l.mark_used(0));
    assert!(l.mark_used(19));
    assert_eq!(runs(&l), vec![(1, 4), (6, 4), (11, 8)]);
    // a run of one cell goes
    assert!(l.mark_used(1));
    assert!(l.mark_used(2));
    assert!(l.mark_used(4));
    assert_eq!(runs(&l), vec![(3, 1), (6, 4), (11, 8)]);
    assert!(l.mark_used(3));
    assert_eq!(runs(&l), vec![(6, 4), (11, 8)]);
    // and comes back when the cell is released
    l.free(3, 1);
    l.free(10, 1);
    assert_eq!(runs(&l), vec![(3, 1), (6, 13)]);
    check_disjunct(&l);
}

#[test]
fn mark_used_in_a_full_chunk() {
    let capacity = EntryChunk::new().capacity();
    let n = 6 * capacity + 10;
    let mut base = slab(n);
    let mut l = FreeList::<u8>::new(&mut base, 0);
    let cells = l.cells() as u32;
    assert_eq!(l.allocate(cells), Err((1, cells - 1)));
    // runs of three cells each, one cell in use between them
    for i in 0..capacity as u32 {
        l.free(1 + 4 * i, 3);
    }
    assert_eq!(count_chunks(&l), 1);
    let total = count_free_chunks(&l) + count_chunks(&l);
    // the middle of a run in the full chunk: there is a run more afterwards
    assert!(l.mark_used(1 + 4 * 7 + 1));
    assert_eq!(count_chunks(&l), 2);
    assert_eq!(count_free_chunks(&l) + count_chunks(&l), total - 1);
    assert!(!l.mark_used(1 + 4 * 7 + 1));
    check_disjunct(&l);
}
