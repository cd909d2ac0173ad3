//! Sequences of chunks in which each chunk owns the next.
use crate::chunk::{fits, lemma_link_is_part, slots_of, Chunk, Link};
use crate::order::{binary_search, gt, is_place, lawful, lt, rank, same, sorted, Rank};
use vstd::prelude::*;

verus! {

/// The link of a chunk that owns its successor.
pub struct Owned<T>(pub Option<Box<Chunk<T, Owned<T>>>>);

/// A chunk that owns its successor.
pub type OwnedChunk<T> = Chunk<T, Owned<T>>;

impl<T> Link for Owned<T> {
    open spec fn spec_is_empty(&self) -> bool {
        self.0 is None
    }

    fn empty() -> (r: Self) {
        Owned(None)
    }

    fn is_empty(&self) -> (r: bool) {
        self.0.is_none()
    }
}

/// The contents of the chunks from `c` on, chunk by chunk.
pub open spec fn chain<T>(c: OwnedChunk<T>) -> Seq<Seq<T>>
    decreases c,
    via chain_decreases::<T>
{
    match c.link().0 {
        None => seq![c@],
        Some(b) => seq![c@] + chain(*b),
    }
}

#[via_fn]
proof fn chain_decreases<T>(c: OwnedChunk<T>) {
    lemma_link_is_part(c);
}

/// A chain holds at least the chunk that it begins with.
pub proof fn lemma_chain_first<T>(c: OwnedChunk<T>)
    ensures
        chain(c).len() >= 1,
        chain(c)[0] == c@,
        chain(c).drop_first() == links(c.link()),
{
    assert(chain(c).drop_first() =~= links(c.link()));
}

/// Whether a search for `needle` has got past the least element by the
/// time it looks at chunk `c`: the needle does not come before the first
/// element of that chunk, or of one before it.
pub open spec fn reached<T: Ord>(chunks: Seq<Seq<T>>, needle: T, c: int) -> bool {
    exists|b: int| 0 <= b <= c && (#[trigger] chunks[b]).len() > 0 && !lt(needle, chunks[b].first())
}

/// Whether a search for `needle` stops at chunk `c`: the chunk holds
/// something, the search has got past the least element, and the needle
/// does not come after the last element of the chunk.
pub open spec fn lands<T: Ord>(chunks: Seq<Seq<T>>, needle: T, c: int) -> bool {
    &&& 0 <= c < chunks.len()
    &&& chunks[c].len() > 0
    &&& reached(chunks, needle, c)
    &&& !gt(needle, chunks[c].last())
}

/// A search has got past the least element by chunk `c` where it had done
/// so a chunk earlier, or where the needle does not come before the first
/// element of chunk `c`.
pub proof fn lemma_reached_step<T: Ord>(chunks: Seq<Seq<T>>, needle: T, c: int)
    requires
        0 <= c < chunks.len(),
    ensures
        reached(chunks, needle, c) <==> (c > 0 && reached(chunks, needle, c - 1)) || (
        chunks[c].len() > 0 && !lt(needle, chunks[c].first())),
{
    if reached(chunks, needle, c) {
        let b = choose|b: int|
            0 <= b <= c && (#[trigger] chunks[b]).len() > 0 && !lt(needle, chunks[b].first());
        if b < c {
            assert(reached(chunks, needle, c - 1));
        }
    }
    if c > 0 && reached(chunks, needle, c - 1) {
        let b = choose|b: int|
            0 <= b <= c - 1 && (#[trigger] chunks[b]).len() > 0 && !lt(needle, chunks[b].first());
        assert(0 <= b <= c);
    }
    if chunks[c].len() > 0 && !lt(needle, chunks[c].first()) {
        assert(0 <= c <= c && chunks[c].len() > 0);
    }
}

/// Looks at the elements of one chunk in the course of a search for
/// `needle`.
///
/// Says whether the search has got past the least element, which it has
/// where it had before (`past_min`) or where the needle does not come before
/// the first of the elements.  Where it has, and the needle does not come
/// after the last element, the search stops here, and the answer is that of
/// a binary search among the elements.
fn look<T: Ord>(items: &[T], needle: &T, past_min: bool) -> (r: (
    bool,
    Option<Result<usize, usize>>,
))
    ensures
        lawful::<T>() ==> r.0 == (past_min || (items@.len() > 0 && !lt(*needle, items@.first()))),
        lawful::<T>() ==> (r.1 is Some <==> items@.len() > 0 && r.0 && !gt(
            *needle,
            items@.last(),
        )),
        match r.1 {
            Some(Ok(i)) => i < items@.len() && (lawful::<T>() ==> same(*needle, items@[i as int])),
            Some(Err(i)) => i <= items@.len() && (lawful::<T>() && sorted(items@) ==> is_place(
                items@,
                *needle,
                i as int,
            )),
            None => true,
        },
{
    let n = items.len();
    if n == 0 {
        return (past_min, None);
    }
    let past = past_min || match rank(needle, &items[0]) {
        Rank::Before => false,
        _ => true,
    };
    let stop = past && match rank(needle, &items[n - 1]) {
        Rank::After => false,
        _ => true,
    };
    if stop {
        (past, Some(binary_search(items, needle)))
    } else {
        (past, None)
    }
}

/// The contents of the chunks that the link `l` leads to, chunk by chunk.
pub open spec fn links<T>(l: Owned<T>) -> Seq<Seq<T>> {
    match l.0 {
        None => Seq::empty(),
        Some(b) => chain(*b),
    }
}

/// Every chunk from `c` on holds no more elements than it has slots.
pub open spec fn chain_wf<T>(c: OwnedChunk<T>) -> bool
    decreases c,
    via chain_wf_decreases::<T>
{
    c.wf() && match c.link().0 {
        None => true,
        Some(b) => chain_wf(*b),
    }
}

#[via_fn]
proof fn chain_wf_decreases<T>(c: OwnedChunk<T>) {
    lemma_link_is_part(c);
}

/// A sequence of chunks, each owned by the one before it.
///
/// This is only the anchor: it holds the first chunk and that is all.  What
/// is of interest chunk by chunk is done through its iterators.  It does not
/// allocate until a first chunk is asked for.
pub struct Anchor<T> {
    start: Owned<T>,
}

impl<T> Anchor<T> {
    /// The contents of the sequence, chunk by chunk.
    pub closed spec fn view(&self) -> Seq<Seq<T>> {
        links(self.start)
    }

    /// Every chunk of the sequence holds no more elements than it has slots.
    pub closed spec fn wf(&self) -> bool {
        match self.start.0 {
            None => true,
            Some(b) => chain_wf(*b),
        }
    }

    /// An anchor without chunks.
    pub fn new() -> (r: Self)
        ensures
            r@ == Seq::<Seq<T>>::empty(),
            r.wf(),
    {
        Self { start: Owned(None) }
    }

    /// An anchor with one allocated, but empty chunk.
    pub fn new_empty() -> (r: Self)
        requires
            fits::<T, Owned<T>>(),
        ensures
            r@ == seq![Seq::<T>::empty()],
            r.wf(),
    {
        let start: OwnedChunk<T> = Chunk::new();
        Self { start: Owned(Some(Box::new(start))) }
    }

    /// Takes all chunks out of the anchor and releases them.
    pub fn clear(&mut self)
        ensures
            final(self)@ == Seq::<Seq<T>>::empty(),
            final(self).wf(),
    {
        self.start = Owned(None);
    }

    /// An iterator over the chunks.
    pub fn iter(&self) -> (r: AnchorIterator<'_, T>)
        ensures
            r@ == self@,
    {
        AnchorIterator::new(self)
    }

    /// A cursor over the chunks through which they can be changed.
    pub fn iter_mut(&mut self) -> (r: AnchorIteratorMut<'_, T>)
        ensures
            r.rest() == old(self)@,
            r.at_start(),
            r.wf() == old(self).wf(),
            final(self)@ == (match r.chunk {
                Some(c) => chain(*final(c)),
                None => Seq::empty(),
            }),
    {
        AnchorIteratorMut::new(self)
    }
}

/// An iterator over the chunks of an anchor.
pub struct AnchorIterator<'a, T> {
    chunk: Option<&'a OwnedChunk<T>>,
}

impl<'a, T> AnchorIterator<'a, T> {
    /// The contents of the chunks that are still to come.
    pub closed spec fn view(&self) -> Seq<Seq<T>> {
        match self.chunk {
            None => Seq::empty(),
            Some(c) => chain(*c),
        }
    }

    pub fn new(index: &'a Anchor<T>) -> (r: Self)
        ensures
            r@ == index@,
    {
        let chunk = match &index.start.0 {
            Some(b) => Some(&**b),
            None => None,
        };
        Self { chunk }
    }

    /// The next chunk, if there is one.
    pub fn next(&mut self) -> (r: Option<&'a OwnedChunk<T>>)
        ensures
            old(self)@.len() == 0 ==> r is None && final(self)@ == old(self)@,
            old(self)@.len() > 0 ==> r is Some && r->0@ == old(self)@[0] && chain(*r->0) == old(
                self,
            )@ && final(self)@ == old(self)@.drop_first(),
    {
        match self.chunk {
            Some(chunk) => {
                self.chunk = match &chunk.next_hint().0 {
                    Some(b) => Some(&**b),
                    None => None,
                };
                assert(chain(*chunk).drop_first() =~= self@);
                Some(chunk)
            },
            None => None,
        }
    }
}

/// One chunk of an anchor, handed out by a cursor for changing it.
pub struct ChunkMut<'a, T> {
    pub chunk: &'a mut OwnedChunk<T>,
}

impl<T> Chunk<T, Owned<T>> {
    /// Cuts this chunk off its successor and hands the successor out.
    pub fn unlink(&mut self) -> (r: Option<Box<OwnedChunk<T>>>)
        ensures
            r == old(self).link().0,
            final(self).link().0 is None,
            final(self)@ == old(self)@,
        opens_invariants none
        no_unwind
    {
        let mut out: Option<Box<OwnedChunk<T>>> = None;
        core::mem::swap(&mut self.next_hint_mut().0, &mut out);
        out
    }
}

impl<'a, T> ChunkMut<'a, T> {
    /// The contents of this chunk and of those that follow it.
    pub open spec fn view(&self) -> Seq<Seq<T>> {
        chain(*self.chunk)
    }

    /// This chunk and those that follow it hold no more elements than they
    /// have slots.
    pub open spec fn wf(&self) -> bool {
        chain_wf(*self.chunk)
    }

    /// Splits this chunk at `pos`: what lies before `pos` stays, the rest
    /// moves to a new chunk that is linked in between this chunk and its
    /// successor.
    pub fn split(&mut self, pos: usize)
        requires
            old(self).wf(),
            pos <= old(self)@[0].len(),
        ensures
            final(self).wf(),
            final(self)@ == seq![
                old(self)@[0].subrange(0, pos as int),
                old(self)@[0].subrange(pos as int, old(self)@[0].len() as int),
            ] + old(self)@.drop_first(),
            *final(final(self).chunk) == *final(old(self).chunk),
    {
        let mut cell: Option<OwnedChunk<T>> = None;
        let tail = self.chunk.split(pos, &mut cell);
        let rest = self.chunk.set_next_hint(Owned(None));
        tail.set_next_hint(rest);
        let tail = cell.unwrap();
        proof {
            assert(chain(tail) =~= seq![tail@] + links(rest));
            assert(links(rest) =~= old(self)@.drop_first());
            assert(chain_wf(tail));
        }
        self.chunk.set_next_hint(Owned(Some(Box::new(tail))));
        assert(chain_wf(*self.chunk));
    }

    /// Pushes a new element to this chunk.  Where the chunk is full, it is
    /// split before its last element, and the element goes into the new
    /// chunk behind that one.
    pub fn push(&mut self, element: T)
        requires
            old(self).wf(),
            slots_of::<T>() >= 2,
        ensures
            final(self).wf(),
            old(self)@[0].len() < slots_of::<T>() ==> final(self)@ == old(self)@.update(
                0,
                old(self)@[0].push(element),
            ),
            old(self)@[0].len() >= slots_of::<T>() ==> final(self)@ == seq![
                old(self)@[0].drop_last(),
                seq![old(self)@[0].last(), element],
            ] + old(self)@.drop_first(),
            *final(final(self).chunk) == *final(old(self).chunk),
    {
        proof {
            lemma_chain_first(*self.chunk);
        }
        match self.chunk.push(element) {
            Some(element) => {
                let n = self.chunk.len();
                self.split(n - 1);
                let ghost mid = *self.chunk;
                proof {
                    lemma_chain_first(mid);
                }
                let mut link = self.chunk.set_next_hint(Owned(None));
                match link.0.take() {
                    Some(mut b) => {
                        let ghost before = *b;
                        proof {
                            lemma_chain_first(before);
                        }
                        b.push(element);
                        proof {
                            lemma_chain_first(*b);
                            assert(chain(mid).drop_first() == chain(before));
                            assert(chain(mid).drop_first().drop_first() =~= old(
                                self,
                            )@.drop_first());
                            assert(before@ == chain(mid)[1]);
                            assert(before@ =~= seq![old(self)@[0].last()]);
                            assert(before@.push(element) =~= seq![old(self)@[0].last(), element]);
                            assert(chain(*b) =~= seq![before@.push(element)] + links(
                                before.link(),
                            ));
                            assert(chain_wf(before));
                            assert(chain_wf(*b));
                        }
                        self.chunk.set_next_hint(Owned(Some(b)));
                    },
                    None => {
                        assert(chain(mid).len() >= 2);
                    },
                }
                proof {
                    lemma_chain_first(*self.chunk);
                    assert(self.chunk@ == mid@);
                    assert(old(self)@[0].subrange(n - 1, n as int) =~= seq![old(self)@[0].last()]);
                    assert(old(self)@[0].subrange(0, n - 1) =~= old(self)@[0].drop_last());
                    assert(self@ =~= seq![
                        old(self)@[0].drop_last(),
                        seq![old(self)@[0].last(), element],
                    ] + old(self)@.drop_first());
                    assert(chain_wf(*self.chunk));
                }
            },
            None => {
                proof {
                    lemma_chain_first(*self.chunk);
                    assert(self@ =~= old(self)@.update(0, old(self)@[0].push(element)));
                    assert(chain_wf(*old(self).chunk));
                    assert(chain_wf(*self.chunk));
                }
            },
        }
    }

    /// Whether a chunk follows this one.
    pub fn has_next(&self) -> (r: bool)
        ensures
            r == (self@.len() > 1),
    {
        proof {
            lemma_chain_first(*self.chunk);
            if let Some(b) = self.chunk.link().0 {
                lemma_chain_first(*b);
            }
        }
        self.chunk.has_next()
    }
}

/// A cursor over the chunks of an anchor through which they can be changed.
///
/// The cursor stands on the chunk that it handed out last, not on the one
/// to come: it looks up the successor only when it is asked to advance, so
/// that a chunk which was split off the current one in the meantime is the
/// next to be handed out.
pub struct AnchorIteratorMut<'a, T> {
    pub chunk: Option<&'a mut OwnedChunk<T>>,
    pub first: bool,
}

impl<'a, T> AnchorIteratorMut<'a, T> {
    /// The contents of the chunk that the cursor stands on and of those
    /// that follow it.
    pub open spec fn rest(&self) -> Seq<Seq<T>> {
        match self.chunk {
            None => Seq::empty(),
            Some(c) => chain(*c),
        }
    }

    /// The chunk that the cursor stands on and those that follow it hold
    /// no more elements than they have slots.
    pub open spec fn wf(&self) -> bool {
        match self.chunk {
            None => true,
            Some(c) => chain_wf(*c),
        }
    }

    /// The contents of the chunks that the cursor has yet to hand out.
    pub open spec fn ahead(&self) -> Seq<Seq<T>> {
        if self.first {
            self.rest()
        } else if self.rest().len() > 0 {
            self.rest().drop_first()
        } else {
            Seq::empty()
        }
    }

    /// Whether the cursor has not handed out a chunk yet.
    pub open spec fn at_start(&self) -> bool {
        self.first
    }

    pub fn new(index: &'a mut Anchor<T>) -> (r: Self)
        ensures
            r.rest() == old(index)@,
            r.at_start(),
            r.wf() == old(index).wf(),
            final(index)@ == (match r.chunk {
                Some(c) => chain(*final(c)),
                None => Seq::empty(),
            }),
    {
        let chunk = match index.start.0.as_mut() {
            Some(b) => Some(&mut **b),
            None => None,
        };
        Self { chunk, first: true }
    }

    /// Advances the cursor and hands out the chunk that it then stands on:
    /// the first chunk at the first call, and from then on the successor of
    /// the chunk handed out before, as that chunk is linked at the time of
    /// the call.
    ///
    /// The chunk is lent for as long as the cursor is not used again, so
    /// that no two chunks are out at a time.
    pub fn next<'b>(&'b mut self) -> (r: Option<ChunkMut<'b, T>>)
        ensures
            old(self).rest().len() == 0 ==> r is None,
            old(self).at_start() && old(self).rest().len() > 0 ==> r is Some && r->0@ == old(
                self,
            ).rest(),
            !old(self).at_start() && old(self).rest().len() == 1 ==> r is None,
            !old(self).at_start() && old(self).rest().len() > 1 ==> r is Some && r->0@ == old(
                self,
            ).rest().drop_first(),
            r is Some ==> r->0@.len() >= 1 && (old(self).wf() ==> r->0.wf()),
            r is Some ==> !final(self).at_start() && final(self).rest() == chain(
                *final(r->0.chunk),
            ) && final(self).wf() == chain_wf(*final(r->0.chunk)),
            r is None ==> final(self).rest().len() == 0 && final(self).wf(),
            old(self).chunk is None ==> final(self).chunk is None,
            old(self).chunk is Some && old(self).at_start() ==> final(self).chunk is Some
                && *final(final(self).chunk->0) == *final(old(self).chunk->0),
            old(self).chunk is Some && !old(self).at_start() ==> chain(
                *final(old(self).chunk->0),
            ) == seq![old(self).rest()[0]] + (match final(self).chunk {
                Some(c) => chain(*final(c)),
                None => Seq::empty(),
            }),
    {
        if self.chunk.is_some() {
            if self.first {
                self.first = false;
            } else {
                let chunk = self.chunk.take().unwrap();
                proof {
                    lemma_chain_first(*chunk);
                }
                let hint = chunk.next_hint_mut();
                self.chunk = match hint.0.as_mut() {
                    Some(b) => Some(&mut **b),
                    None => None,
                };
            }
            match self.chunk.as_mut() {
                Some(c) => {
                    proof {
                        lemma_chain_first(**c);
                    }
                    Some(ChunkMut { chunk: &mut **c })
                },
                None => None,
            }
        } else {
            None
        }
    }

    /// Hands out the chunk that the cursor stands on without advancing.
    pub fn get<'b>(&'b mut self) -> (r: Option<ChunkMut<'b, T>>)
        ensures
            old(self).rest().len() == 0 ==> r is None,
            old(self).rest().len() > 0 ==> r is Some && r->0@ == old(self).rest(),
            r is Some ==> (old(self).wf() ==> r->0.wf()),
            r is Some ==> final(self).at_start() == old(self).at_start() && final(self).rest()
                == chain(*final(r->0.chunk)) && final(self).wf() == chain_wf(
                *final(r->0.chunk),
            ),
            r is None ==> final(self).rest().len() == 0 && final(self).wf(),
            old(self).chunk is None ==> final(self).chunk is None,
            old(self).chunk is Some ==> final(self).chunk is Some && *final(final(self).chunk->0)
                == *final(old(self).chunk->0),
    {
        match self.chunk.as_mut() {
            Some(c) => {
                proof {
                    lemma_chain_first(**c);
                }
                Some(ChunkMut { chunk: &mut **c })
            },
            None => None,
        }
    }

    /// Searches the chunks that the cursor has yet to hand out for
    /// `needle`, in a sequence whose elements ascend.
    ///
    /// The cursor advances chunk by chunk until the needle does not come
    /// after the last element of the chunk it stands on, having once not
    /// come before the first element of a chunk, and searches that chunk.
    /// `Ok((n, pos))` says that the needle was found at `pos` in the `n`-th
    /// chunk handed out, `Err((n, pos))` that it was not and belongs at
    /// `pos` there.  Where the cursor comes to the last chunk without
    /// stopping, the answer is `Err` with the end of that chunk.
    ///
    /// The cursor is left on the chunk of the answer, and no chunk is
    /// changed.
    #[verifier::rlimit(50)]
    pub fn search(&mut self, needle: &T) -> (r: Result<(usize, usize), (usize, usize)>) where
        T: Ord,

        requires
            old(self).ahead().len() < usize::MAX,
        ensures
            final(self).chunk is Some == old(self).chunk is Some,
            old(self).chunk is Some ==> final(self).rest().len() <= old(self).rest().len()
                && chain(*final(old(self).chunk->0)) == old(self).rest().take(
                old(self).rest().len() - final(self).rest().len(),
            ) + chain(*final(final(self).chunk->0)),
            final(self).ahead() == old(self).ahead().skip(
                match r {
                    Ok((n, _)) => n as int,
                    Err((n, _)) => n as int,
                },
            ),
            lawful::<T>() ==> match r {
                Ok((n, pos)) => {
                    &&& lands(old(self).ahead(), *needle, n - 1)
                    &&& forall|c: int| 0 <= c < n - 1 ==> !lands(old(self).ahead(), *needle, c)
                    &&& pos < old(self).ahead()[n - 1].len()
                    &&& same(*needle, old(self).ahead()[n - 1][pos as int])
                },
                Err((n, pos)) => {
                    &&& n <= old(self).ahead().len()
                    &&& forall|c: int| 0 <= c < n - 1 ==> !lands(old(self).ahead(), *needle, c)
                    &&& if n > 0 && lands(old(self).ahead(), *needle, n - 1) {
                        &&& pos <= old(self).ahead()[n - 1].len()
                        &&& sorted(old(self).ahead()[n - 1]) ==> is_place(
                            old(self).ahead()[n - 1],
                            *needle,
                            pos as int,
                        )
                    } else {
                        &&& n == old(self).ahead().len()
                        &&& n == 0 ==> pos == 0
                        &&& n > 0 ==> pos == old(self).ahead()[n - 1].len()
                    }
                },
            },
    {
        let ghost chunks = self.ahead();
        let ghost all = self.rest();
        let mut past_min = false;
        let mut count: usize = 0;
        let mut last_len: usize = 0;
        loop
            invariant
                chunks == old(self).ahead(),
                all == old(self).rest(),
                chunks.len() < usize::MAX,
                count <= chunks.len(),
                self.ahead() == chunks.skip(count as int),
                count > 0 ==> !self.at_start(),
                count == 0 ==> last_len == 0 && self.at_start() == old(self).at_start(),
                count > 0 ==> last_len == chunks[count - 1].len(),
                self.chunk is Some == old(self).chunk is Some,
                old(self).chunk is Some ==> self.rest().len() <= all.len() && chain(
                    *final(old(self).chunk->0),
                ) == all.take(all.len() - self.rest().len()) + chain(*final(self.chunk->0)),
                old(self).chunk is Some ==> self.rest() == all.skip(all.len() - self.rest().len()),
                lawful::<T>() ==> (past_min <==> count > 0 && reached(chunks, *needle, count - 1)),
                lawful::<T>() ==> forall|c: int| 0 <= c < count ==> !lands(chunks, *needle, c),
            decreases chunks.len() - count,
        {
            if !self.first {
                // the chunk that the cursor stands on has been looked at:
                // stay on it where it is the last
                let more = match self.get() {
                    Some(chunk) => chunk.has_next(),
                    None => false,
                };
                if !more {
                    assert(self.ahead() =~= Seq::<Seq<T>>::empty());
                    return Err((count, last_len));
                }
            }
            let ghost mid_rest = self.rest();
            let ghost mid_first = self.first;
            let ghost mid_final = chain(*final(self.chunk->0));
            let ghost mid_some = self.chunk is Some;
            let chunk = match self.next() {
                Some(chunk) => chunk,
                None => {
                    assert(self.ahead() =~= chunks.skip(0));
                    return Err((0, 0));
                },
            };
            assert(chunk@ == chunks.skip(count as int));
            proof {
                lemma_chain_first(*chunk.chunk);
                lemma_reached_step(chunks, *needle, count as int);
            }
            count += 1;
            let items = chunk.chunk.as_slice();
            assert(items@ == chunks[count - 1]);
            last_len = items.len();
            let (past, found) = look(items, needle, past_min);
            past_min = past;
            proof {
                if !mid_first {
                    assert(mid_rest.len() >= 2);
                    assert(all.take(all.len() - mid_rest.len()) + seq![mid_rest[0]] =~= all.take(
                        all.len() - mid_rest.len() + 1,
                    ));
                    assert(mid_rest.drop_first() =~= all.skip(all.len() - mid_rest.len() + 1));
                }
            }
            match found {
                Some(Ok(pos)) => {
                    return Ok((count, pos));
                },
                Some(Err(pos)) => {
                    return Err((count, pos));
                },
                None => {},
            }
        }
    }
}

/// A link that goes releases the chunks behind it one by one, however many
/// there are: each chunk is cut off its successor before it is released.
impl<T> Drop for Owned<T> {
    fn drop(&mut self)
        opens_invariants none
        no_unwind
    {
        let mut next: Option<Box<OwnedChunk<T>>> = None;
        core::mem::swap(&mut self.0, &mut next);
        loop
            invariant
                self.0 is None,
            decreases
                    (match next {
                        Some(b) => chain(*b).len(),
                        None => 0,
                    }),
        {
            match next {
                Some(mut b) => {
                    proof {
                        lemma_chain_first(*b);
                    }
                    next = b.unlink();
                },
                None => {
                    return ;
                },
            }
        }
    }
}

} // verus!
