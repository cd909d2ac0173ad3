use chunk_list::order::{binary_search, rank, Rank};

#[test]
fn rank_compares() {
    assert_eq!(rank(&1, &2), Rank::Before);
    assert_eq!(rank(&2, &2), Rank::Same);
    assert_eq!(rank(&3, &2), Rank::After);
}

#[test]
fn binary_search_finds_the_place() {
    let s = [1u32, 3, 5, 7];
    assert_eq!(binary_search(&s, &1), Ok(0));
    assert_eq!(binary_search(&s, &7), Ok(3));
    assert_eq!(binary_search(&s, &0), Err(0));
    assert_eq!(binary_search(&s, &4), Err(2));
    assert_eq!(binary_search(&s, &8), Err(4));
    assert_eq!(binary_search(&[] as &[u32], &8), Err(0));
    let twice = [2u32, 2, 2];
    assert!(binary_search(&twice, &2).is_ok());
}
