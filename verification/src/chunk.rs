//! The chunk primitive: a bounded, gap-free run of element slots with a link
//! to a successor.
use vstd::layout::{align_of, size_of};
use vstd::prelude::*;

verus! {

/// Size in bytes of the cell that one chunk occupies.
pub const CELL_SIZE: usize = 4096;

/// Alignment in bytes of the cell that one chunk occupies.
pub const CELL_ALIGN: usize = 4096;

/// Bytes of a cell taken by the 16-bit element count.
pub const LEN_SIZE: usize = 2;

/// The link value of a slab index that stands for "no successor".
pub const EMPTY_INDEX: usize = 0xFFFF_FFFF;

/// Size in bytes of a machine word, which is the footprint of every link.
pub open spec fn word_size() -> nat {
    size_of::<usize>()
}

/// Bytes of a cell that are left for element slots: the cell without the
/// element count and the link.
pub open spec fn buf_size() -> nat {
    (CELL_SIZE - LEN_SIZE - word_size()) as nat
}

/// The word is four or eight bytes wide.
pub proof fn lemma_word_size()
    ensures
        word_size() == 4 || word_size() == 8,
        word_size() * 8 == usize::BITS,
{
    broadcast use vstd::layout::layout_of_primitives;
}

/// The element buffer, the element count and the link fill a cell exactly.
pub proof fn lemma_cell_layout()
    ensures
        buf_size() + LEN_SIZE + word_size() == CELL_SIZE,
        CELL_SIZE == 4096,
        CELL_ALIGN == 4096,
{
    lemma_word_size();
}

/// Computes [`buf_size`].
pub fn buffer_size() -> (r: usize)
    ensures
        r == buf_size(),
        r == 4086 || r == 4090,
{
    proof {
        lemma_word_size();
    }
    CELL_SIZE - LEN_SIZE - core::mem::size_of::<usize>()
}

/// How a chunk refers to its successor.
pub trait Link: Sized {
    /// Whether the link refers to no successor.
    spec fn spec_is_empty(&self) -> bool;

    /// The link that refers to no successor.
    fn empty() -> (r: Self)
        ensures
            r.spec_is_empty(),
    ;

    /// Whether the link refers to no successor.
    fn is_empty(&self) -> (r: bool)
        ensures
            r == self.spec_is_empty(),
    ;
}

/// A slab index: the successor is the cell with that index, and
/// `EMPTY_INDEX` stands for none.
impl Link for usize {
    open spec fn spec_is_empty(&self) -> bool {
        *self == EMPTY_INDEX
    }

    fn empty() -> (r: Self)
        ensures
            r == EMPTY_INDEX,
    {
        EMPTY_INDEX
    }

    fn is_empty(&self) -> (r: bool) {
        *self == EMPTY_INDEX
    }
}

/// A single page-sized chunk.
///
/// It holds up to `capacity` elements in slots `[0, len)` and a link to the
/// next chunk.  The link is only a hint: what owns the successor is decided by
/// the sequence that the chunk is part of.
pub struct Chunk<T, L> {
    items: Vec<T>,
    next_hint: L,
}

/// The number of slots of element type `T` that fit into the element buffer.
/// A type without size gets no slots.
pub open spec fn slots_of<T>() -> nat {
    if size_of::<T>() == 0 {
        0
    } else {
        buf_size() / size_of::<T>()
    }
}

/// Whether chunks of element type `T` and link type `L` can be
/// constructed: one element fits into the buffer, a cell is aligned
/// strictly enough for it, and the link has the size and the alignment of a
/// word.
pub open spec fn fits<T, L>() -> bool {
    &&& size_of::<T>() <= buf_size()
    &&& align_of::<T>() <= CELL_ALIGN
    &&& size_of::<L>() == word_size()
    &&& align_of::<L>() == align_of::<usize>()
}

/// Computes [`fits`].
pub fn check_fits<T, L>() -> (r: bool)
    ensures
        r == fits::<T, L>(),
{
    core::mem::size_of::<T>() <= buffer_size() && core::mem::align_of::<T>() <= CELL_ALIGN
        && core::mem::size_of::<L>() == core::mem::size_of::<usize>() && core::mem::align_of::<L>()
        == core::mem::align_of::<usize>()
}

/// Computes [`slots_of`].
pub fn slots<T>() -> (r: usize)
    ensures
        r == slots_of::<T>(),
        r <= 4090,
{
    let size = core::mem::size_of::<T>();
    if size == 0 {
        0
    } else {
        let buf = buffer_size();
        proof {
            vstd::arithmetic::div_mod::lemma_div_is_ordered_by_denominator(
                buf as int,
                1,
                size as int,
            );
            vstd::arithmetic::div_mod::lemma_div_basics(buf as int);
        }
        buf / size
    }
}

/// On a machine with eight-byte words a chunk holds 4086 bytes, 510 words or
/// 255 values of sixteen bytes.
pub proof fn lemma_slots_on_64_bit()
    requires
        word_size() == 8,
    ensures
        buf_size() == 4086,
        slots_of::<u8>() == 4086,
        slots_of::<usize>() == 510,
        slots_of::<u128>() == 255,
{
    broadcast use vstd::layout::layout_of_primitives;
}

/// The slot count is the buffer size divided by the element size, rounded down.
pub proof fn lemma_slots_formula<T>()
    requires
        size_of::<T>() > 0,
    ensures
        slots_of::<T>() == (4096 - 2 - word_size()) / (size_of::<T>() as int),
        slots_of::<T>() * size_of::<T>() <= buf_size(),
        buf_size() < (slots_of::<T>() + 1) * size_of::<T>(),
{
    lemma_word_size();
    let b = buf_size() as int;
    let s = size_of::<T>() as int;
    vstd::arithmetic::div_mod::lemma_fundamental_div_mod(b, s);
    vstd::arithmetic::div_mod::lemma_mod_bound(b, s);
    assert((b / s + 1) * s == (b / s) * s + s) by (nonlinear_arith);
    assert(s * (b / s) == (b / s) * s) by (nonlinear_arith);
}

/// What pushing `v` makes of the contents `s` of a chunk with `cap` slots,
/// and what it hands back.
pub open spec fn pushed<T>(s: Seq<T>, cap: nat, v: T) -> (Seq<T>, Option<T>) {
    if s.len() < cap {
        (s.push(v), None)
    } else {
        (s, Some(v))
    }
}

/// What popping makes of the contents `s` of a chunk, and what it hands
/// out.
pub open spec fn popped<T>(s: Seq<T>) -> (Seq<T>, Option<T>) {
    if s.len() > 0 {
        (s.drop_last(), Some(s.last()))
    } else {
        (s, None)
    }
}

/// What inserting `v` at `i` makes of the contents `s` of a chunk with
/// `cap` slots, and what it hands back.
pub open spec fn inserted<T>(s: Seq<T>, cap: nat, i: int, v: T) -> (Seq<T>, Option<T>) {
    if s.len() < cap {
        (s.insert(i, v), None)
    } else {
        (s, Some(v))
    }
}

/// What removing the element at `i` makes of the contents `s` of a chunk,
/// and what it hands out.
pub open spec fn removed<T>(s: Seq<T>, i: int) -> (Seq<T>, Option<T>) {
    if 0 <= i < s.len() {
        (s.remove(i), Some(s[i]))
    } else {
        (s, None)
    }
}

/// The two halves that splitting at `i` makes of the contents `s` of a
/// chunk: what stays, and what goes to the new chunk.
pub open spec fn split_at<T>(s: Seq<T>, i: int) -> (Seq<T>, Seq<T>) {
    (s.subrange(0, i), s.subrange(i, s.len() as int))
}

/// Whatever is pushed, popped, inserted or removed, a chunk that held no
/// more elements than it has slots holds no more than that afterwards.
pub proof fn lemma_len_stays_bounded<T>(s: Seq<T>, cap: nat, i: int, v: T)
    requires
        s.len() <= cap,
        0 <= i <= s.len(),
    ensures
        pushed(s, cap, v).0.len() <= cap,
        popped(s).0.len() <= cap,
        inserted(s, cap, i, v).0.len() <= cap,
        removed(s, i).0.len() <= cap,
        split_at(s, i).0.len() <= cap,
        split_at(s, i).1.len() <= cap,
{
}

/// What was pushed is what pops, and the chunk is as it was before.
pub proof fn lemma_push_pop<T>(s: Seq<T>, cap: nat, v: T)
    requires
        s.len() < cap,
    ensures
        pushed(s, cap, v).1 is None,
        popped(pushed(s, cap, v).0) == (s, Some(v)),
{
    assert(s.push(v).drop_last() =~= s);
}

/// What was inserted at a place is what removing at that place hands out,
/// and the chunk is as it was before.
pub proof fn lemma_insert_remove<T>(s: Seq<T>, cap: nat, i: int, v: T)
    requires
        s.len() < cap,
        0 <= i <= s.len(),
    ensures
        inserted(s, cap, i, v).1 is None,
        inserted(s, cap, i, v).0[i] == v,
        removed(inserted(s, cap, i, v).0, i) == (s, Some(v)),
{
    assert(s.insert(i, v).remove(i) =~= s);
}

/// Inserting shifts what stood at or behind the place up by one and leaves
/// the rest where it was.
pub proof fn lemma_insert_shifts<T>(s: Seq<T>, cap: nat, i: int, v: T)
    requires
        s.len() < cap,
        0 <= i <= s.len(),
    ensures
        inserted(s, cap, i, v).0.len() == s.len() + 1,
        forall|j: int| 0 <= j < i ==> inserted(s, cap, i, v).0[j] == s[j],
        forall|j: int| i <= j < s.len() ==> inserted(s, cap, i, v).0[j + 1] == s[j],
{
}

/// The two halves of a split, put together again, are the chunk as it was;
/// the first holds what stood before the place of the split.
pub proof fn lemma_split_rejoin<T>(s: Seq<T>, i: int)
    requires
        0 <= i <= s.len(),
    ensures
        split_at(s, i).0 + split_at(s, i).1 == s,
        split_at(s, i).0.len() == i,
        split_at(s, i).0.len() + split_at(s, i).1.len() == s.len(),
{
    assert(split_at(s, i).0 + split_at(s, i).1 =~= s);
}

/// The link of a chunk is a part of the chunk.
pub proof fn lemma_link_is_part<T, L: Link>(c: Chunk<T, L>)
    ensures
        decreases_to!(c => c.link()),
{
}

impl<T, L: Link> Chunk<T, L> {
    /// The elements in slots `[0, len)`, in order.
    pub closed spec fn view(&self) -> Seq<T> {
        self.items@
    }

    /// The link to the successor.
    pub closed spec fn link(&self) -> L {
        self.next_hint
    }

    /// The total number of slots of this chunk.
    pub open spec fn spec_capacity(&self) -> nat {
        slots_of::<T>()
    }

    /// A chunk never holds more elements than it has slots, and its
    /// elements and its link fit into a cell.
    pub open spec fn wf(&self) -> bool {
        self@.len() <= slots_of::<T>() && fits::<T, L>()
    }

    /// Size in bytes of the cell that a chunk occupies.
    pub fn size() -> (r: usize)
        ensures
            r == 4096,
            r == buf_size() + LEN_SIZE + word_size(),
    {
        proof {
            lemma_cell_layout();
        }
        CELL_SIZE
    }

    /// Alignment in bytes of the cell that a chunk occupies.
    pub fn align() -> (r: usize)
        ensures
            r == 4096,
    {
        CELL_ALIGN
    }

    /// An empty chunk without a successor.
    pub fn new() -> (r: Self)
        requires
            fits::<T, L>(),
        ensures
            r@ == Seq::<T>::empty(),
            r.link().spec_is_empty(),
            r.wf(),
    {
        Chunk { items: Vec::new(), next_hint: L::empty() }
    }

    /// Turns the cell `store` into an empty chunk without a successor, in
    /// place, whatever the cell held before.
    pub fn initialize(store: &mut Option<Self>) -> (r: &mut Self)
        requires
            fits::<T, L>(),
        ensures
            r@ == Seq::<T>::empty(),
            r.link().spec_is_empty(),
            r.wf(),
            *final(store) == Some(*final(r)),
    {
        store.insert(Chunk { items: Vec::new(), next_hint: L::empty() })
    }

    /// Total (not remaining) capacity of this chunk.
    pub fn capacity(&self) -> (r: usize)
        ensures
            r == self.spec_capacity(),
            r == slots_of::<T>(),
            r <= 4090,
    {
        slots::<T>()
    }

    /// Number of elements in this chunk.
    pub fn len(&self) -> (r: usize)
        ensures
            r == self@.len(),
    {
        self.items.len()
    }

    /// Appends `value` if a slot is free.  A full chunk is left as it is and
    /// hands the value back.
    pub fn push(&mut self, value: T) -> (r: Option<T>)
        requires
            old(self).wf(),
        ensures
            final(self).wf(),
            final(self).link() == old(self).link(),
            (final(self)@, r) == pushed(old(self)@, slots_of::<T>(), value),
    {
        if self.items.len() < self.capacity() {
            self.items.push(value);
            None
        } else {
            Some(value)
        }
    }

    /// Removes and returns the last element, if there is one.
    pub fn pop(&mut self) -> (r: Option<T>)
        requires
            old(self).wf(),
        ensures
            final(self).wf(),
            final(self).link() == old(self).link(),
            (final(self)@, r) == popped(old(self)@),
    {
        self.items.pop()
    }

    /// Inserts `element` at `index`, shifting all following elements up by
    /// one.  A full chunk is left as it is and hands the element back.
    pub fn insert(&mut self, index: usize, element: T) -> (r: Option<T>)
        requires
            old(self).wf(),
            index <= old(self)@.len(),
        ensures
            final(self).wf(),
            final(self).link() == old(self).link(),
            (final(self)@, r) == inserted(old(self)@, slots_of::<T>(), index as int, element),
    {
        if self.items.len() < self.capacity() {
            self.items.insert(index, element);
            None
        } else {
            Some(element)
        }
    }

    /// Removes and returns the element at `index`, shifting all following
    /// elements down by one.  An index past the last element removes nothing.
    pub fn remove(&mut self, index: usize) -> (r: Option<T>)
        requires
            old(self).wf(),
        ensures
            final(self).wf(),
            final(self).link() == old(self).link(),
            (final(self)@, r) == removed(old(self)@, index as int),
    {
        if index < self.items.len() {
            Some(self.items.remove(index))
        } else {
            None
        }
    }

    /// Splits this chunk at `index`: what lies before `index` stays, the rest
    /// moves, in order, into the cell `other`, which is turned into a chunk
    /// for it whatever it held before.
    ///
    /// The link of this chunk is left untouched and the new chunk has no
    /// successor: how the two are linked is up to the caller.
    pub fn split<'a>(&mut self, index: usize, other: &'a mut Option<Self>) -> (r: &'a mut Self)
        requires
            old(self).wf(),
            index <= old(self)@.len(),
        ensures
            final(self).wf(),
            r.wf(),
            (final(self)@, r@) == split_at(old(self)@, index as int),
            final(self).link() == old(self).link(),
            r.link().spec_is_empty(),
            *final(other) == Some(*final(r)),
    {
        let tail = self.items.split_off(index);
        other.insert(Chunk { items: tail, next_hint: L::empty() })
    }

    /// The elements of this chunk as a slice.
    pub fn as_slice(&self) -> (r: &[T])
        ensures
            r@ == self@,
    {
        self.items.as_slice()
    }

    /// The element at `index`, if there is one.
    pub fn get(&self, index: usize) -> (r: Option<&T>)
        ensures
            index < self@.len() ==> r == Some(&self@[index as int]),
            index >= self@.len() ==> r is None,
    {
        if index < self.items.len() {
            Some(&self.items[index])
        } else {
            None
        }
    }

    /// Replaces the element at `index`.
    pub fn set(&mut self, index: usize, element: T)
        requires
            index < old(self)@.len(),
        ensures
            final(self)@ == old(self)@.update(index as int, element),
            final(self).link() == old(self).link(),
    {
        self.items[index] = element;
    }

    /// The link to the successor.
    pub fn next_hint(&self) -> (r: &L)
        ensures
            *r == self.link(),
    {
        &self.next_hint
    }

    /// Replaces the link to the successor and returns the one it had.
    pub fn set_next_hint(&mut self, link: L) -> (r: L)
        ensures
            r == old(self).link(),
            final(self).link() == link,
            final(self)@ == old(self)@,
        opens_invariants none
        no_unwind
    {
        let mut link = link;
        core::mem::swap(&mut self.next_hint, &mut link);
        link
    }

    /// The link to the successor, for changing it in place.
    pub fn next_hint_mut(&mut self) -> (r: &mut L)
        ensures
            *r == old(self).link(),
            final(self).link() == *final(r),
            final(self)@ == old(self)@,
        opens_invariants none
        no_unwind
    {
        &mut self.next_hint
    }

    /// Whether this chunk has a successor.
    pub fn has_next(&self) -> (r: bool)
        ensures
            r == !self.link().spec_is_empty(),
    {
        !self.next_hint.is_empty()
    }
}

} // verus!
