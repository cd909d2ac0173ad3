//! The order of elements, as far as searching needs it.
use core::cmp::Ordering;
use vstd::prelude::*;
use vstd::std_specs::cmp::OrdSpec;

verus! {

/// `a` comes before `b`.
pub open spec fn lt<T: Ord>(a: T, b: T) -> bool {
    a.cmp_spec(&b) == Ordering::Less
}

/// `a` comes after `b`.
pub open spec fn gt<T: Ord>(a: T, b: T) -> bool {
    a.cmp_spec(&b) == Ordering::Greater
}

/// `a` and `b` take the same place in the order.
pub open spec fn same<T: Ord>(a: T, b: T) -> bool {
    a.cmp_spec(&b) == Ordering::Equal
}

/// The order of `T` is what comparing two values computes, and it is a
/// total order: a value takes its own place, turning a comparison round
/// turns its result round, what comes before something that comes before a
/// third comes before the third, and values that take the same place
/// compare alike with every value.
pub open spec fn lawful<T: Ord>() -> bool {
    &&& T::obeys_cmp_spec()
    &&& forall|x: T| #[trigger] same(x, x)
    &&& forall|x: T, y: T| #[trigger] lt(x, y) <==> gt(y, x)
    &&& forall|x: T, y: T| #[trigger] same(x, y) ==> same(y, x)
    &&& forall|x: T, y: T, z: T| #[trigger] lt(x, y) && #[trigger] lt(y, z) ==> lt(x, z)
    &&& forall|x: T, y: T, z: T| #[trigger] same(x, y) && #[trigger] lt(y, z) ==> lt(x, z)
    &&& forall|x: T, y: T, z: T| #[trigger] lt(x, y) && #[trigger] same(y, z) ==> lt(x, z)
}

/// No element of `s` comes after a later one.
pub open spec fn sorted<T: Ord>(s: Seq<T>) -> bool {
    forall|i: int, j: int| 0 <= i < j < s.len() ==> !gt(#[trigger] s[i], #[trigger] s[j])
}

/// How one value stands to another.
#[derive(Clone, Copy, Debug, PartialEq, Eq, Structural)]
pub enum Rank {
    Before,
    Same,
    After,
}

/// How `a` stands to `b`.
pub open spec fn rank_of<T: Ord>(a: T, b: T) -> Rank {
    if lt(a, b) {
        Rank::Before
    } else if gt(a, b) {
        Rank::After
    } else {
        Rank::Same
    }
}

/// Compares `a` with `b`.
pub fn rank<T: Ord>(a: &T, b: &T) -> (r: Rank)
    ensures
        T::obeys_cmp_spec() ==> r == rank_of(*a, *b),
{
    match a.cmp(b) {
        Ordering::Less => Rank::Before,
        Ordering::Equal => Rank::Same,
        Ordering::Greater => Rank::After,
    }
}

/// Whether `i` is the place of `needle` in `s`: what stands before it comes
/// before the needle, and what stands at or behind it comes after the
/// needle.
pub open spec fn is_place<T: Ord>(s: Seq<T>, needle: T, i: int) -> bool {
    &&& 0 <= i <= s.len()
    &&& forall|j: int| 0 <= j < i ==> lt(#[trigger] s[j], needle)
    &&& forall|j: int| i <= j < s.len() ==> gt(#[trigger] s[j], needle)
}

/// Searches the sorted slice `s` for `needle`.
///
/// `Ok(i)` says that the element at `i` takes the place of the needle in
/// the order; where several do, any of them may be found.  `Err(i)` says
/// that no element does, and that `i` is where the needle belongs.
pub fn binary_search<T: Ord>(s: &[T], needle: &T) -> (r: Result<usize, usize>)
    ensures
        match r {
            Ok(i) => i < s@.len() && (lawful::<T>() ==> same(*needle, s@[i as int])),
            Err(i) => i <= s@.len() && (lawful::<T>() && sorted(s@) ==> is_place(
                s@,
                *needle,
                i as int,
            )),
        },
{
    let mut lo: usize = 0;
    let mut hi: usize = s.len();
    while lo < hi
        invariant
            lo <= hi <= s@.len(),
            lawful::<T>() && sorted(s@) ==> forall|j: int| 0 <= j < lo ==> lt(#[trigger] s@[j], *needle),
            lawful::<T>() && sorted(s@) ==> forall|j: int|
                hi <= j < s@.len() ==> gt(#[trigger] s@[j], *needle),
        decreases hi - lo,
    {
        let mid = lo + (hi - lo) / 2;
        match rank(needle, &s[mid]) {
            Rank::Same => {
                return Ok(mid);
            },
            Rank::After => {
                proof {
                    if lawful::<T>() && sorted(s@) {
                        assert(lt(s@[mid as int], *needle));
                        assert forall|j: int| 0 <= j < mid + 1 implies lt(
                            #[trigger] s@[j],
                            *needle,
                        ) by {
                            if j < mid {
                                assert(!gt(s@[j], s@[mid as int]));
                                if same(s@[j], s@[mid as int]) {
                                } else {
                                    assert(lt(s@[j], s@[mid as int]));
                                }
                            }
                        }
                    }
                }
                lo = mid + 1;
            },
            Rank::Before => {
                proof {
                    if lawful::<T>() && sorted(s@) {
                        assert(lt(*needle, s@[mid as int]));
                        assert forall|j: int| mid <= j < s@.len() implies gt(
                            #[trigger] s@[j],
                            *needle,
                        ) by {
                            if j > mid {
                                assert(!gt(s@[mid as int], s@[j]));
                                if same(s@[mid as int], s@[j]) {
                                    assert(lt(*needle, s@[j]));
                                } else {
                                    assert(lt(s@[mid as int], s@[j]));
                                    assert(lt(*needle, s@[j]));
                                }
                            }
                        }
                    }
                }
                hi = mid;
            },
        }
    }
    Err(lo)
}

/// The order of the unsigned 32-bit integers is lawful.
pub proof fn lemma_u32_lawful()
    ensures
        lawful::<u32>(),
{
    broadcast use vstd::laws_cmp::group_laws_cmp;

    assert(vstd::laws_cmp::obeys_cmp::<u32>());
    reveal(vstd::laws_cmp::obeys_cmp_ord);
    reveal(vstd::laws_cmp::obeys_cmp_partial_ord);
    reveal(vstd::laws_cmp::obeys_partial_cmp_spec_properties);
}

/// The order of the unsigned 64-bit integers is lawful.
pub proof fn lemma_u64_lawful()
    ensures
        lawful::<u64>(),
{
    broadcast use vstd::laws_cmp::group_laws_cmp;

    assert(vstd::laws_cmp::obeys_cmp::<u64>());
    reveal(vstd::laws_cmp::obeys_cmp_ord);
    reveal(vstd::laws_cmp::obeys_cmp_partial_ord);
    reveal(vstd::laws_cmp::obeys_partial_cmp_spec_properties);
}

/// The order of the word-sized unsigned integers is lawful.
pub proof fn lemma_usize_lawful()
    ensures
        lawful::<usize>(),
{
    broadcast use vstd::laws_cmp::group_laws_cmp;

    assert(vstd::laws_cmp::obeys_cmp::<usize>());
    reveal(vstd::laws_cmp::obeys_cmp_ord);
    reveal(vstd::laws_cmp::obeys_cmp_partial_ord);
    reveal(vstd::laws_cmp::obeys_partial_cmp_spec_properties);
}

/// The order of the signed 32-bit integers is lawful.
pub proof fn lemma_i32_lawful()
    ensures
        lawful::<i32>(),
{
    broadcast use vstd::laws_cmp::group_laws_cmp;

    assert(vstd::laws_cmp::obeys_cmp::<i32>());
    reveal(vstd::laws_cmp::obeys_cmp_ord);
    reveal(vstd::laws_cmp::obeys_cmp_partial_ord);
    reveal(vstd::laws_cmp::obeys_partial_cmp_spec_properties);
}

} // verus!
