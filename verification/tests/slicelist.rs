use chunk_list::slicelist::IterExt;

#[test]
fn max_cutoff() {
    let a = [1, 2, 4, 5];
    let b = a.iter().max_by_key_with_cutoff(|e| **e, 6);
    assert_eq!(b, Some(&5));

    let b = a.iter().max_by_key_with_cutoff(|e| **e, 2);
    assert_eq!(b, Some(&2));

    let b = a.iter().max_by_key_with_cutoff(|e| **e, 3);
    assert_eq!(b, Some(&4));

    let a = [];
    let b = a.iter().max_by_key_with_cutoff(|e| **e, 3);
    assert_eq!(b, None);
}

#[test]
fn first_wins_on_ties() {
    let a = [(3u32, 'a'), (7, 'b'), (7, 'c'), (2, 'd')];
    assert_eq!(
        a.iter().max_by_key_with_cutoff(|e| e.0, 5),
        Some(&(7, 'b'))
    );
    assert_eq!(
        a.iter().max_by_key_with_cutoff(|e| e.0, 100),
        Some(&(7, 'b'))
    );
    assert_eq!(
        a.iter().max_by_key_with_cutoff(|e| e.0, 0),
        Some(&(3, 'a'))
    );
}

#[test]
fn stops_at_the_first_sufficient_item() {
    let seen = std::cell::Cell::new(0u32);
    let a = [1u32, 9, 3, 12];
    let b = a.iter().max_by_key_with_cutoff(
        |e| {
            seen.set(seen.get() + 1);
            **e
        },
        5,
    );
    assert_eq!(b, Some(&9));
    assert_eq!(seen.get(), 2);
}

#[test]
fn keys_of_any_ordered_type() {
    let a = ["pear", "fig", "banana", "kiwi"];
    assert_eq!(
        a.iter().max_by_key_with_cutoff(|e| e.len() as i64, 5),
        Some(&"banana")
    );
    assert_eq!(
        a.iter().max_by_key_with_cutoff(|e| e.to_string(), "g".to_string()),
        Some(&"pear")
    );
    assert_eq!(
        a.iter().max_by_key_with_cutoff(|e| e.to_string(), "z".to_string()),
        Some(&"pear")
    );
    assert_eq!(
        a.iter().max_by_key_with_cutoff(|e| (e.len(), 0u8), (4, 0)),
        Some(&"pear")
    );
}
