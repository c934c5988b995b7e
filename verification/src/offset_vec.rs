//! A byte-buffer wrapper that fixes an offset at construction and exposes
//! only the elements from that offset on. Decoders hand one of these out
//! so that a caller's pre-existing bytes can never be read or removed by
//! back-references or pops, while appends still land in the caller's
//! buffer.

use vstd::pervasive::cloned;
use vstd::prelude::*;

verus! {

/// A vector with every index shifted up by a fixed offset, captured as the
/// vector's length at construction.
pub struct OffsetVec<T> {
    pub offset: usize,
    pub vec: Vec<T>,
}

impl<T> OffsetVec<T> {
    /// The visible elements: everything from the offset on.
    pub open spec fn items(&self) -> Seq<T> {
        self.vec@.skip(self.offset as int)
    }

    /// The offset never exceeds the underlying length.
    pub open spec fn wf(&self) -> bool {
        self.offset <= self.vec@.len()
    }

    /// Wraps `vec`, fixing the offset at its current length, so the
    /// wrapper starts out empty.
    pub fn new(vec: Vec<T>) -> (r: OffsetVec<T>)
        ensures
            r.wf(),
            r.offset == vec@.len(),
            r.vec@ == vec@,
            r.items() == Seq::<T>::empty(),
    {
        let offset = vec.len();
        let r = OffsetVec { offset, vec };
        proof {
            assert(r.items() =~= Seq::<T>::empty());
        }
        r
    }

    /// Gives the underlying vector back, offset bytes included.
    pub fn into_inner(self) -> (r: Vec<T>)
        ensures
            r@ == self.vec@,
    {
        self.vec
    }

    pub fn len(&self) -> (r: usize)
        requires
            self.wf(),
        ensures
            r == self.items().len(),
    {
        self.vec.len() - self.offset
    }

    pub fn is_empty(&self) -> (r: bool)
        requires
            self.wf(),
        ensures
            r == (self.items().len() == 0),
    {
        self.vec.len() == self.offset
    }

    pub fn push(&mut self, value: T)
        requires
            old(self).wf(),
        ensures
            final(self).wf(),
            final(self).offset == old(self).offset,
            final(self).items() == old(self).items().push(value),
    {
        self.vec.push(value);
        proof {
            assert(self.items() =~= old(self).items().push(value));
        }
    }

    /// Pops the last visible element; the offset region is never popped.
    pub fn pop(&mut self) -> (r: Option<T>)
        requires
            old(self).wf(),
        ensures
            final(self).wf(),
            final(self).offset == old(self).offset,
            if old(self).items().len() > 0 {
                r == Some(old(self).items().last()) && final(self).items() == old(
                    self,
                ).items().drop_last()
            } else {
                r is None && *final(self) == *old(self)
            },
    {
        if self.vec.len() == self.offset {
            None
        } else {
            let r = self.vec.pop();
            proof {
                assert(self.items() =~= old(self).items().drop_last());
                assert(old(self).vec@.last() == old(self).items().last());
            }
            r
        }
    }

    /// Shortens the visible region to `len` elements; longer requests are
    /// no-ops.
    pub fn truncate(&mut self, len: usize)
        requires
            old(self).wf(),
        ensures
            final(self).wf(),
            final(self).offset == old(self).offset,
            len <= old(self).items().len() ==> final(self).items() == old(self).items().subrange(
                0,
                len as int,
            ),
            len > old(self).items().len() ==> *final(self) == *old(self),
    {
        if len < self.vec.len() - self.offset {
            self.vec.truncate(self.offset + len);
            proof {
                assert(self.items() =~= old(self).items().subrange(0, len as int));
            }
        } else {
            proof {
                if len <= old(self).items().len() {
                    assert(self.items() =~= old(self).items().subrange(0, len as int));
                }
            }
        }
    }

    pub fn clear(&mut self)
        requires
            old(self).wf(),
        ensures
            final(self).wf(),
            final(self).offset == old(self).offset,
            final(self).items() == Seq::<T>::empty(),
    {
        self.truncate(0);
        proof {
            assert(self.items() =~= Seq::<T>::empty());
        }
    }

    /// The visible elements as a slice.
    pub fn as_slice(&self) -> (r: &[T])
        requires
            self.wf(),
        ensures
            r@ == self.items(),
    {
        let s = vstd::slice::slice_subrange(self.vec.as_slice(), self.offset, self.vec.len());
        proof {
            assert(s@ =~= self.items());
        }
        s
    }

    pub fn insert(&mut self, index: usize, element: T)
        requires
            old(self).wf(),
            index <= old(self).items().len(),
        ensures
            final(self).wf(),
            final(self).offset == old(self).offset,
            final(self).items() == old(self).items().insert(index as int, element),
    {
        let _ln = self.vec.len();
        self.vec.insert(self.offset + index, element);
        proof {
            assert(self.items() =~= old(self).items().insert(index as int, element));
        }
    }

    pub fn remove(&mut self, index: usize) -> (r: T)
        requires
            old(self).wf(),
            index < old(self).items().len(),
        ensures
            final(self).wf(),
            final(self).offset == old(self).offset,
            r == old(self).items()[index as int],
            final(self).items() == old(self).items().remove(index as int),
    {
        let _ln = self.vec.len();
        let r = self.vec.remove(self.offset + index);
        proof {
            assert(self.items() =~= old(self).items().remove(index as int));
        }
        r
    }

    /// Removes the element at `index` by swapping the last visible element
    /// into its place.
    pub fn swap_remove(&mut self, index: usize) -> (r: T)
        requires
            old(self).wf(),
            index < old(self).items().len(),
        ensures
            final(self).wf(),
            final(self).offset == old(self).offset,
            r == old(self).items()[index as int],
            final(self).items() == old(self).items().update(
                index as int,
                old(self).items().last(),
            ).drop_last(),
    {
        let _ln = self.vec.len();
        let r = self.vec.swap_remove(self.offset + index);
        proof {
            assert(old(self).vec@.last() == old(self).items().last());
            assert(self.items() =~= old(self).items().update(
                index as int,
                old(self).items().last(),
            ).drop_last());
        }
        r
    }

    /// Moves all elements of `other` onto the end, leaving `other` empty.
    pub fn append(&mut self, other: &mut Vec<T>)
        requires
            old(self).wf(),
        ensures
            final(self).wf(),
            final(self).offset == old(self).offset,
            final(self).items() == old(self).items() + old(other)@,
            final(other)@ == Seq::<T>::empty(),
    {
        self.vec.append(other);
        proof {
            assert(self.items() =~= old(self).items() + old(other)@);
        }
    }

    /// Splits off the visible elements from `at` on into a new vector.
    pub fn split_off(&mut self, at: usize) -> (r: Vec<T>)
        requires
            old(self).wf(),
            at <= old(self).items().len(),
        ensures
            final(self).wf(),
            final(self).offset == old(self).offset,
            final(self).items() == old(self).items().subrange(0, at as int),
            r@ == old(self).items().subrange(at as int, old(self).items().len() as int),
    {
        let _ln = self.vec.len();
        let r = self.vec.split_off(self.offset + at);
        proof {
            assert(self.items() =~= old(self).items().subrange(0, at as int));
            assert(r@ =~= old(self).items().subrange(at as int, old(self).items().len() as int));
        }
        r
    }

    /// Reserves room for at least `additional` more elements.
    pub fn reserve(&mut self, additional: usize)
        requires
            old(self).wf(),
        ensures
            final(self).wf(),
            final(self).offset == old(self).offset,
            final(self).vec@ == old(self).vec@,
    {
        self.vec.reserve(additional);
    }

    /// Reserves room, reporting failure instead of aborting.
    pub fn try_reserve(&mut self, additional: usize) -> (r: Result<
        (),
        std::collections::TryReserveError,
    >)
        requires
            old(self).wf(),
        ensures
            final(self).wf(),
            final(self).offset == old(self).offset,
            final(self).vec@ == old(self).vec@,
    {
        self.vec.try_reserve(additional)
    }
}

impl<T: Clone> OffsetVec<T> {
    /// Appends clones of the elements of `other`.
    pub fn extend_from_slice(&mut self, other: &[T])
        requires
            old(self).wf(),
        ensures
            final(self).wf(),
            final(self).offset == old(self).offset,
            final(self).items().len() == old(self).items().len() + other@.len(),
            forall|i: int|
                0 <= i < old(self).items().len()
                    ==> #[trigger] final(self).items()[i] == old(self).items()[i],
            forall|i: int|
                0 <= i < other@.len() ==> cloned::<T>(
                    other@[i],
                    #[trigger] final(self).items()[old(self).items().len() + i],
                ),
    {
        self.vec.extend_from_slice(other);
    }

    /// Resizes the visible region to `new_len`, filling with clones of
    /// `value`.
    pub fn resize(&mut self, new_len: usize, value: T)
        requires
            old(self).wf(),
            old(self).offset + new_len <= usize::MAX,
        ensures
            final(self).wf(),
            final(self).offset == old(self).offset,
            final(self).items().len() == new_len,
            forall|i: int|
                0 <= i < new_len && i < old(self).items().len()
                    ==> #[trigger] final(self).items()[i] == old(self).items()[i],
            forall|i: int|
                old(self).items().len() <= i < new_len ==> cloned::<T>(
                    value,
                    #[trigger] final(self).items()[i],
                ),
    {
        self.vec.resize(self.offset + new_len, value);
        proof {
            if new_len <= old(self).items().len() {
                assert(self.items() =~= old(self).items().subrange(0, new_len as int));
            }
        }
    }
}

} // verus!
