use chunk_list::anchor::{Anchor, AnchorIterator, AnchorIteratorMut};

#[test]
fn anchor_iter() {
    let a: Anchor<u8> = Anchor::new();
    let mut i = a.iter();
    assert!(i.next().is_none());
}

#[test]
fn anchor_iter_empty() {
    let a: Anchor<u8> = Anchor::new_empty();
    let mut i: AnchorIterator<_> = a.iter();
    assert!(i.next().is_some());
}

#[test]
fn anchor_iter_mut() {
    let mut a: Anchor<u8> = Anchor::new_empty();
    let mut i: AnchorIteratorMut<_> = a.iter_mut();
    let mut n = i.next().unwrap();
    n.split(0);
    let mut n = i.next().unwrap();
    n.split(0);
    assert!(i.next().is_some());
    assert!(i.next().is_none());
}

#[test]
fn split_during_traversal_visits_new_chunks() {
    let mut a: Anchor<u32> = Anchor::new_empty();
    {
        let mut i = a.iter_mut();
        let mut first = i.next().unwrap();
        for v in 0..10 {
            first.push(v);
        }
        first.split(4);
        assert!(first.has_next());
        let mut second = i.next().unwrap();
        assert_eq!(second.chunk.as_slice(), &[4, 5, 6, 7, 8, 9]);
        second.split(0);
        let third = i.next().unwrap();
        assert_eq!(third.chunk.as_slice(), &[4, 5, 6, 7, 8, 9]);
        assert!(!third.has_next());
        assert!(i.next().is_none());
        assert!(i.next().is_none());
    }
    let lens: Vec<usize> = {
        let mut out = Vec::new();
        let mut i = a.iter();
        while let Some(c) = i.next() {
            out.push(c.len());
        }
        out
    };
    assert_eq!(lens, vec![4, 0, 6]);
}

#[test]
fn push_splits_a_full_chunk() {
    let mut a: Anchor<u128> = Anchor::new_empty();
    {
        let mut i = a.iter_mut();
        let mut c = i.next().unwrap();
        let capacity = c.chunk.capacity() as u128;
        for v in 0..capacity {
            c.push(v);
        }
        assert!(!c.has_next());
        c.push(1000);
        assert!(c.has_next());
        assert_eq!(c.chunk.len() as u128, capacity - 1);
        let next = i.next().unwrap();
        assert_eq!(next.chunk.as_slice(), &[capacity - 1, 1000]);
    }
}

#[test]
fn get_does_not_advance() {
    let mut a: Anchor<u8> = Anchor::new_empty();
    let mut i = a.iter_mut();
    i.get().unwrap().push(1);
    let first = i.next().unwrap();
    assert_eq!(first.chunk.as_slice(), &[1]);
    assert!(i.get().is_some());
    assert!(i.next().is_none());
    assert!(i.get().is_none());
}

/// An anchor whose chunks hold the given values, one chunk per slice.
fn anchor_of(chunks: &[&[u32]]) -> Anchor<u32> {
    let mut a: Anchor<u32> = Anchor::new_empty();
    {
        let mut i = a.iter_mut();
        let mut c = i.next().unwrap();
        for v in chunks.iter().flat_map(|c| c.iter()) {
            c.push(*v);
        }
        let mut rest = &chunks[..];
        while rest.len() > 1 {
            let mut c = i.get().unwrap();
            c.split(rest[0].len());
            rest = &rest[1..];
            i.next();
        }
    }
    a
}

#[test]
fn anchor_of_builds_the_chunks() {
    let a = anchor_of(&[&[1, 2], &[], &[3]]);
    let mut i = a.iter();
    assert_eq!(i.next().unwrap().as_slice(), &[1, 2]);
    assert_eq!(i.next().unwrap().as_slice(), &[] as &[u32]);
    assert_eq!(i.next().unwrap().as_slice(), &[3]);
    assert!(i.next().is_none());
}

#[test]
fn search_finds_the_chunk_and_the_place() {
    let mut a = anchor_of(&[&[1, 3, 5], &[7, 9], &[11, 13, 15]]);
    assert_eq!(a.iter_mut().search(&3), Ok((1, 1)));
    assert_eq!(a.iter_mut().search(&4), Err((1, 2)));
    assert_eq!(a.iter_mut().search(&1), Ok((1, 0)));
    assert_eq!(a.iter_mut().search(&9), Ok((2, 1)));
    assert_eq!(a.iter_mut().search(&8), Err((2, 1)));
    assert_eq!(a.iter_mut().search(&15), Ok((3, 2)));
    assert_eq!(a.iter_mut().search(&12), Err((3, 1)));
    // between two chunks: the place is the front of the later one
    assert_eq!(a.iter_mut().search(&6), Err((2, 0)));
    // beyond every element: the end of the last chunk
    assert_eq!(a.iter_mut().search(&16), Err((3, 3)));
    // before every element the search never gets past the least element
    assert_eq!(a.iter_mut().search(&0), Err((3, 3)));
}

#[test]
fn search_leaves_the_cursor_on_the_chunk() {
    let mut a = anchor_of(&[&[1, 3, 5], &[7, 9], &[11, 13, 15]]);
    let mut i = a.iter_mut();
    assert_eq!(i.search(&9), Ok((2, 1)));
    assert_eq!(i.get().unwrap().chunk.as_slice(), &[7, 9]);
    // a second search goes on behind that chunk
    assert_eq!(i.search(&13), Ok((1, 1)));
    assert_eq!(i.get().unwrap().chunk.as_slice(), &[11, 13, 15]);
    assert_eq!(i.search(&13), Err((0, 0)));
}

#[test]
fn search_skips_empty_chunks() {
    let mut a = anchor_of(&[&[], &[2, 4], &[], &[6]]);
    assert_eq!(a.iter_mut().search(&4), Ok((2, 1)));
    assert_eq!(a.iter_mut().search(&6), Ok((4, 0)));
    assert_eq!(a.iter_mut().search(&5), Err((4, 0)));
    let mut a = anchor_of(&[&[2, 4], &[]]);
    assert_eq!(a.iter_mut().search(&9), Err((2, 0)));
    let mut a: Anchor<u32> = Anchor::new();
    assert_eq!(a.iter_mut().search(&9), Err((0, 0)));
    let mut a: Anchor<u32> = Anchor::new_empty();
    assert_eq!(a.iter_mut().search(&9), Err((1, 0)));
}

#[test]
fn long_sequence_is_released_without_recursion() {
    let mut a: Anchor<u8> = Anchor::new_empty();
    {
        let mut i = a.iter_mut();
        let mut n = 0;
        while n < 300_000 {
            let mut c = i.next().unwrap();
            c.split(0);
            n += 1;
        }
    }
    let mut count = 0;
    let mut i = a.iter();
    while i.next().is_some() {
        count += 1;
    }
    assert_eq!(count, 300_001);
    drop(a);
}

#[test]
fn clear_leaves_no_chunk() {
    let mut a = anchor_of(&[&[1, 2], &[3]]);
    a.clear();
    assert!(a.iter().next().is_none());
    assert!(a.iter_mut().next().is_none());
}

#[test]
fn unlink_cuts_a_chunk_off_its_successor() {
    let mut a = anchor_of(&[&[1], &[2], &[3]]);
    let mut i = a.iter_mut();
    let first = i.next().unwrap();
    let rest = first.chunk.unlink().unwrap();
    assert!(!first.has_next());
    assert_eq!(rest.as_slice(), &[2]);
    assert!(rest.has_next());
    assert!(first.chunk.unlink().is_none());
}
