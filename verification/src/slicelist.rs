//! Walking a sequence of chunks in a slice of cells, and a fold that looks
//! for the first item whose key reaches a cutoff and settles for the item
//! with the greatest key where there is none.
use crate::order::{gt, lawful, lt, rank, Rank};
use crate::ptrlist::{Cursor, CursorMut};
use vstd::prelude::*;
use vstd::std_specs::iter::IteratorSpec;

verus! {

/// A cursor for reading a sequence of chunks in a slice of cells.
pub type SliceIter<'a, T> = Cursor<'a, T>;

/// A cursor for changing a sequence of chunks in a slice of cells.
pub type SliceIterMut<'a, T> = CursorMut<'a, T>;

/// Whether, of the keys that were looked at, the one at `j` is the pick for
/// `cutoff`.
///
/// Either it is the first key that reaches the cutoff, and then no key after
/// it was looked at.  Or no key reaches the cutoff, and it is the first of
/// the greatest keys.
pub open spec fn is_pick<B: Ord>(keys: Seq<B>, cutoff: B, j: int) -> bool {
    &&& 0 <= j < keys.len()
    &&& forall|i: int| 0 <= i < j ==> lt(#[trigger] keys[i], cutoff) && lt(keys[i], keys[j])
    &&& if !lt(keys[j], cutoff) {
        keys.len() == j + 1
    } else {
        forall|i: int| j <= i < keys.len() ==> !gt(#[trigger] keys[i], keys[j])
    }
}

/// Whether `keys` are keys of the first items of `items` under `f`, one for
/// one.
pub open spec fn keys_of<T, B, F: Fn(&T) -> B>(f: F, items: Seq<T>, keys: Seq<B>) -> bool {
    &&& keys.len() <= items.len()
    &&& forall|i: int| 0 <= i < keys.len() ==> call_ensures(f, (&items[i],), #[trigger] keys[i])
}

/// Whether `r` is the answer of the fold over `items` when it looked at the
/// keys `keys` and picked the item at `j`: the keys are keys of the first
/// items, all items were looked at unless the key of the pick reaches the
/// cutoff, and, where the order of the keys is lawful, the key at `j` is the
/// pick.
pub open spec fn answers<T, B: Ord, F: Fn(&T) -> B>(
    f: F,
    items: Seq<T>,
    cutoff: B,
    keys: Seq<B>,
    j: int,
    r: Option<T>,
) -> bool {
    &&& keys_of(f, items, keys)
    &&& 0 <= j < keys.len()
    &&& r == Some(items[j])
    &&& lawful::<B>() ==> is_pick(keys, cutoff, j) && (!lt(keys[j], cutoff) || keys.len()
        == items.len())
}

pub trait IterExt: Iterator + Sized {
    /// Returns the first item whose key is at least `cutoff`, without
    /// looking at the items behind it.  Where no item has such a key, returns
    /// the first of the items with the greatest key.  Returns nothing for an
    /// iterator without items.
    fn max_by_key_with_cutoff<B: Ord, F: Fn(&Self::Item) -> B>(self, f: F, cutoff: B) -> (r: Option<
        Self::Item,
    >)
        requires
            self.obeys_prophetic_iter_laws(),
            self.decrease() is Some,
            forall|item: Self::Item| call_requires(f, (&item,)),
        ensures
            self.remaining().len() == 0 ==> r is None,
            self.remaining().len() > 0 ==> exists|j: int, keys: Seq<B>|
                answers(f, self.remaining(), cutoff, keys, j, r),
    ;
}

impl<I: Iterator> IterExt for I {
    fn max_by_key_with_cutoff<B: Ord, F: Fn(&Self::Item) -> B>(self, f: F, cutoff: B) -> (r: Option<
        Self::Item,
    >) {
        let mut iter = self;
        let ghost items = iter.remaining();
        let first = match iter.next() {
            Some(first) => first,
            None => {
                return None;
            },
        };
        let mut max_key = f(&first);
        let mut max = first;
        let ghost mut keys = seq![max_key];
        let ghost mut j: int = 0;
        assert(lawful::<B>() ==> crate::order::same(keys[0], keys[0]));
        match rank(&max_key, &cutoff) {
            Rank::Before => {},
            _ => {
                assert(answers(f, items, cutoff, keys, j, Some(max)));
                return Some(max);
            },
        }
        loop
            invariant
                iter.obeys_prophetic_iter_laws(),
                iter.decrease() is Some,
                forall|item: I::Item| call_requires(f, (&item,)),
                items == self.remaining(),
                keys_of(f, items, keys),
                1 <= keys.len(),
                iter.remaining() == items.subrange(keys.len() as int, items.len() as int),
                0 <= j < keys.len(),
                lawful::<B>() ==> is_pick(keys, cutoff, j),
                lawful::<B>() ==> lt(keys[j], cutoff),
                keys[j] == max_key,
                max == items[j],
            decreases iter.decrease()->0,
        {
            let item = match iter.next() {
                Some(item) => item,
                None => {
                    assert(keys.len() == items.len());
                    assert(answers(f, items, cutoff, keys, j, Some(max)));
                    return Some(max);
                },
            };
            assert(item == items[keys.len() as int]);
            let key = f(&item);
            let ghost before = keys;
            proof {
                keys = keys.push(key);
                assert(iter.remaining() =~= items.subrange(keys.len() as int, items.len() as int));
                assert forall|i: int| 0 <= i < keys.len() implies call_ensures(
                    f,
                    (&items[i],),
                    #[trigger] keys[i],
                ) by {
                    if i < before.len() {
                        assert(keys[i] == before[i]);
                    }
                }
            }
            match rank(&key, &max_key) {
                Rank::After => {
                    let reaches = match rank(&key, &cutoff) {
                        Rank::Before => false,
                        _ => true,
                    };
                    proof {
                        if lawful::<B>() {
                            // the new key comes after the greatest so far,
                            // and so after every key before it
                            assert(gt(key, before[j]) && lt(before[j], key));
                            assert(lt(before[j], cutoff));
                            assert(crate::order::same(key, key));
                            assert forall|i: int| 0 <= i < keys.len() - 1 implies lt(
                                #[trigger] keys[i],
                                cutoff,
                            ) && lt(keys[i], key) by {
                                assert(keys[i] == before[i]);
                                if i < j {
                                    assert(lt(before[i], before[j]));
                                    assert(lt(before[i], key));
                                } else if i > j {
                                    assert(!gt(before[i], before[j]));
                                    if lt(before[i], before[j]) {
                                        assert(lt(before[i], key));
                                        assert(lt(before[i], cutoff));
                                    } else {
                                        assert(crate::order::same(before[i], before[j]));
                                        assert(lt(before[i], key));
                                        assert(lt(before[i], cutoff));
                                    }
                                }
                            }
                            assert(keys[keys.len() - 1] == key);
                            assert(is_pick(keys, cutoff, keys.len() - 1));
                        }
                        j = keys.len() - 1;
                    }
                    max_key = key;
                    max = item;
                    if reaches {
                        assert(answers(f, items, cutoff, keys, j, Some(max)));
                        return Some(max);
                    }
                },
                _ => {
                    proof {
                        if lawful::<B>() {
                            assert(!gt(key, before[j]));
                            assert forall|i: int| j <= i < keys.len() implies !gt(
                                #[trigger] keys[i],
                                keys[j],
                            ) by {
                                if i < before.len() {
                                    assert(keys[i] == before[i]);
                                }
                            }
                            assert forall|i: int| 0 <= i < j implies lt(#[trigger] keys[i], cutoff)
                                && lt(keys[i], keys[j]) by {
                                assert(keys[i] == before[i]);
                            }
                            assert(keys[j] == before[j]);
                            assert(is_pick(keys, cutoff, j));
                        }
                    }
                },
            }
        }
    }
}

} // verus!
