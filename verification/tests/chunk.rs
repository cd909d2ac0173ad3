use chunk_list::anchor::Owned;
use chunk_list::chunk::{buffer_size, check_fits, Link, EMPTY_INDEX};
use chunk_list::Chunk;

#[test]
fn sizes() {
    assert_eq!(Chunk::<u8, usize>::size(), 4096);
    assert_eq!(Chunk::<u8, usize>::align(), 4096);
}

#[test]
fn push_pop() {
    let mut chunk = Chunk::<usize, usize>::new();
    assert_eq!(chunk.capacity(), buffer_size() / std::mem::size_of::<usize>());

    for i in 0usize..chunk.capacity() {
        assert_eq!(chunk.push(i), None);
    }
    assert_eq!(chunk.push(0), Some(0));

    for _ in 0..chunk.capacity() {
        assert!(chunk.pop().is_some());
    }
    assert_eq!(chunk.pop(), None);
}

#[test]
fn insert_remove() {
    let mut chunk = Chunk::<u128, usize>::new();

    for i in 0u128..(chunk.capacity() - 1) as u128 {
        assert_eq!(chunk.push(i), None);
    }

    assert_eq!(chunk.insert(3, 666u128), None);
    assert_eq!(chunk.insert(3, 666u128), Some(666));
    assert_eq!(chunk.as_slice()[3], 666u128);

    assert_eq!(chunk.remove(3), Some(666));

    // extreme cases

    let last = chunk.len();
    assert_eq!(chunk.insert(last, 666), None);
    assert_eq!(chunk.as_slice()[last], 666u128);
    assert_eq!(chunk.remove(last), Some(666));
}

#[test]
fn split() {
    let mut chunk: Chunk<u128, usize> = Chunk::new();
    let capacity = chunk.capacity();

    for s in (0..capacity)
        .step_by(32)
        .chain(std::iter::once(capacity - 1))
    {
        let mut chunk = Chunk::<u128, usize>::new();
        for i in 0u128..(chunk.capacity()) as u128 {
            assert_eq!(chunk.push(i), None);
        }

        let mut store = None;
        chunk.split(s, &mut store);
        let mut new = store.unwrap();

        assert_eq!(new.len() + chunk.len(), capacity);
        assert_eq!(chunk.len(), s);

        let remain = new.capacity() - new.len();

        for _ in 0..remain {
            assert_eq!(new.push(s as u128), None);
        }
    }
    // check that splits at 0 for 0-sized chunks also work.
    let mut store = None;
    chunk.split(0, &mut store);
    let new = store.unwrap();
    assert_eq!(new.len(), chunk.len());
    assert_eq!(chunk.len(), 0);
}

#[test]
fn capacity_by_element_size() {
    if std::mem::size_of::<usize>() == 8 {
        assert_eq!(buffer_size(), 4086);
        assert_eq!(Chunk::<u8, usize>::new().capacity(), 4086);
        assert_eq!(Chunk::<usize, usize>::new().capacity(), 510);
        assert_eq!(Chunk::<u128, usize>::new().capacity(), 255);
    }
    assert_eq!(
        Chunk::<u8, usize>::new().capacity(),
        4096 - 2 - std::mem::size_of::<usize>()
    );
    assert_eq!(Chunk::<(), usize>::new().capacity(), 0);
    assert_eq!(Chunk::<(), usize>::new().push(()), Some(()));
}

#[test]
fn fresh_chunk_is_empty_and_unlinked() {
    let chunk = Chunk::<u32, usize>::new();
    assert_eq!(chunk.len(), 0);
    assert!(!chunk.has_next());
    assert_eq!(*chunk.next_hint(), EMPTY_INDEX);
    assert!(<usize as Link>::is_empty(chunk.next_hint()));
    assert_eq!(<usize as Link>::empty(), 0xFFFF_FFFF);

    let mut cell = Some(Chunk::<u32, usize>::new());
    cell.as_mut().unwrap().push(7);
    cell.as_mut().unwrap().set_next_hint(3);
    let again = Chunk::initialize(&mut cell);
    assert_eq!(again.len(), 0);
    assert!(!again.has_next());
    assert_eq!(cell.unwrap().len(), 0);
}

#[test]
fn boundary_push_then_pop_in_reverse() {
    let mut chunk = Chunk::<usize, usize>::new();
    let capacity = chunk.capacity();
    for i in 0..capacity {
        assert_eq!(chunk.push(i), None);
        assert_eq!(chunk.len(), i + 1);
    }
    assert_eq!(chunk.push(capacity), Some(capacity));
    assert_eq!(chunk.len(), capacity);
    for i in (0..capacity).rev() {
        assert_eq!(chunk.pop(), Some(i));
    }
    assert_eq!(chunk.pop(), None);
    assert_eq!(chunk.len(), 0);
}

#[test]
fn insert_shifts_and_remove_restores() {
    let mut chunk = Chunk::<u128, usize>::new();
    let capacity = chunk.capacity();
    for i in 0..(capacity as u128 - 1) {
        assert_eq!(chunk.push(i), None);
    }
    let before: Vec<u128> = chunk.as_slice().to_vec();
    assert_eq!(chunk.insert(3, 666), None);
    let mut expected = before.clone();
    expected.insert(3, 666);
    assert_eq!(chunk.as_slice(), &expected[..]);
    assert_eq!(&chunk.as_slice()[..6], &[0, 1, 2, 666, 3, 4]);
    assert_eq!(chunk.insert(3, 666), Some(666));
    assert_eq!(chunk.as_slice(), &expected[..]);
    assert_eq!(chunk.remove(3), Some(666));
    assert_eq!(chunk.as_slice(), &before[..]);
    assert_eq!(chunk.remove(capacity), None);
    assert_eq!(chunk.as_slice(), &before[..]);
}

#[test]
fn split_keeps_order_and_links() {
    let mut chunk = Chunk::<u128, usize>::new();
    let capacity = chunk.capacity();
    for i in 0..capacity as u128 {
        assert_eq!(chunk.push(i), None);
    }
    chunk.set_next_hint(17);
    let all: Vec<u128> = chunk.as_slice().to_vec();
    let mut store = Some(Chunk::<u128, usize>::new());
    store.as_mut().unwrap().set_next_hint(5);
    {
        let new = chunk.split(32, &mut store);
        assert_eq!(new.len(), capacity - 32);
    }
    let new = store.unwrap();
    assert_eq!(chunk.len(), 32);
    assert_eq!(chunk.as_slice(), &all[..32]);
    assert_eq!(new.as_slice(), &all[32..]);
    assert_eq!(*chunk.next_hint(), 17);
    assert!(!new.has_next());
    let mut joined = chunk.as_slice().to_vec();
    joined.extend_from_slice(new.as_slice());
    assert_eq!(joined, all);
}

#[test]
fn get_and_set() {
    let mut chunk = Chunk::<u32, usize>::new();
    chunk.push(1);
    chunk.push(2);
    assert_eq!(chunk.get(1), Some(&2));
    assert_eq!(chunk.get(2), None);
    chunk.set(0, 9);
    assert_eq!(chunk.as_slice(), &[9, 2]);
    assert_eq!(chunk.set_next_hint(4), EMPTY_INDEX);
    *chunk.next_hint_mut() = 6;
    assert_eq!(*chunk.next_hint(), 6);
    assert!(chunk.has_next());
}

#[test]
fn layout_conditions() {
    assert!(check_fits::<u8, usize>());
    assert!(check_fits::<u128, usize>());
    assert!(check_fits::<(), usize>());
    assert!(check_fits::<u128, Owned<u128>>());
    assert!(check_fits::<[u8; 4000], usize>());
    // an element that is larger than the buffer
    assert!(!check_fits::<[u8; 4091], usize>());
    // a link that is wider than a word
    assert!(!check_fits::<u8, (usize, usize)>());
    assert!(!check_fits::<u8, u8>());
}
