use chunk_list::chunk::EMPTY_INDEX;
use chunk_list::ptrlist::{Cursor, CursorMut};
use chunk_list::Chunk;

fn slab() -> Vec<Option<Chunk<u32, usize>>> {
    // the sequence 2 -> 0 -> 3, cell 1 is raw
    let mut cells: Vec<Option<Chunk<u32, usize>>> = (0..4).map(|_| None).collect();
    for (at, next, value) in [(2usize, 0usize, 20u32), (0, 3, 0), (3, EMPTY_INDEX, 30)] {
        let mut c = Chunk::new();
        c.push(value);
        c.set_next_hint(next);
        cells[at] = Some(c);
    }
    cells
}

#[test]
fn cursor_follows_the_links() {
    let cells = slab();
    let mut c = Cursor::new(&cells, 2);
    let mut seen = Vec::new();
    while let Some((id, chunk)) = c.next() {
        seen.push((id, chunk.as_slice()[0]));
    }
    assert_eq!(seen, vec![(2, 20), (0, 0), (3, 30)]);
    assert!(c.next().is_none());
}

#[test]
fn cursor_ends_at_a_raw_cell_or_outside_the_slab() {
    let cells = slab();
    assert!(Cursor::new(&cells, 1).next().is_none());
    assert!(Cursor::new(&cells, 4).next().is_none());
    assert!(Cursor::new(&cells, EMPTY_INDEX).next().is_none());
}

#[test]
fn cursor_mut_changes_chunks_and_reborrows() {
    let mut cells = slab();
    {
        let mut c = CursorMut::new(&mut cells, 2);
        {
            let (id, chunk) = c.next().unwrap();
            assert_eq!(id, 2);
            chunk.push(21);
        }
        {
            // look ahead without moving
            let mut peek = c.reborrow();
            let (id, chunk) = peek.next().unwrap();
            assert_eq!(id, 0);
            chunk.push(1);
            let (id, _) = peek.next().unwrap();
            assert_eq!(id, 3);
            assert!(peek.next().is_none());
        }
        let (id, chunk) = c.next().unwrap();
        assert_eq!(id, 0);
        assert_eq!(chunk.as_slice(), &[0, 1]);
    }
    assert_eq!(cells[2].as_ref().unwrap().as_slice(), &[20, 21]);
}

#[test]
fn slice_cursors_are_the_same_cursors() {
    let mut cells = slab();
    {
        let mut c = chunk_list::slicelist::SliceIter::new(&cells, 0);
        assert_eq!(c.next().unwrap().0, 0);
        assert_eq!(c.next().unwrap().0, 3);
        assert!(c.next().is_none());
    }
    let mut c = chunk_list::slicelist::SliceIterMut::new(&mut cells, 3);
    assert_eq!(c.next().unwrap().0, 3);
    assert!(c.next().is_none());
}
