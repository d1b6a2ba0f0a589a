//! A bounded sequence with a capacity fixed in its type.

use vstd::prelude::*;

verus! {

/// Why an operation on a [`StackVec`] was refused.
#[derive(Clone, Copy, Debug, PartialEq, Eq, Structural)]
pub enum StackVecError {
    /// A push found the container already holding `N` elements.
    CapacityExceeded,
    /// An index was not below the current length.
    OutOfRange,
}

/// An ordered sequence of at most `N` elements.
///
/// The view is the sequence of the elements pushed so far, oldest first.
pub struct StackVec<T, const N: usize> {
    items: Vec<T>,
}

impl<T, const N: usize> View for StackVec<T, N> {
    type V = Seq<T>;

    closed spec fn view(&self) -> Seq<T> {
        self.items@
    }
}

impl<T, const N: usize> StackVec<T, N> {
    /// The container holds no more than its capacity. Every constructor
    /// establishes this and every method keeps it.
    pub closed spec fn wf(&self) -> bool {
        self.items@.len() <= N
    }

    /// An empty container. The flag is accepted for callers that ask for
    /// zeroed storage; no element is readable either way.
    pub fn empty(zero_mem: bool) -> (v: Self)
        ensures
            v.wf(),
            v@ == Seq::<T>::empty(),
    {
        let _ = zero_mem;
        StackVec { items: Vec::new() }
    }

    /// A container holding the first `len` elements of `items`.
    pub fn new(items: [T; N], len: usize) -> (v: Self)
        requires
            len <= N,
        ensures
            v.wf(),
            v@ == items@.take(len as int),
    {
        let mut held = array_into_vec(items);
        held.truncate(len);
        StackVec { items: held }
    }

    /// Appends `item`. The container must not be full.
    pub fn push(&mut self, item: T)
        requires
            old(self).wf(),
            old(self)@.len() < N,
        ensures
            final(self).wf(),
            final(self)@ == old(self)@.push(item),
    {
        self.items.push(item);
    }

    /// Appends `item` unless the container is full, in which case it is left
    /// as it was.
    pub fn try_push(&mut self, item: T) -> (r: Result<(), StackVecError>)
        requires
            old(self).wf(),
        ensures
            final(self).wf(),
            old(self)@.len() < N ==> r.is_ok() && final(self)@ == old(self)@.push(item),
            old(self)@.len() >= N ==> r == Err::<(), StackVecError>(
                StackVecError::CapacityExceeded,
            ) && final(self)@ == old(self)@,
    {
        if self.items.len() >= N {
            return Err(StackVecError::CapacityExceeded);
        }
        self.items.push(item);
        Ok(())
    }

    /// The number of elements held.
    pub fn len(&self) -> (n: usize)
        ensures
            n == self@.len(),
            self.wf() ==> n <= N,
    {
        self.items.len()
    }

    /// The element at `index`, which must be below the length.
    pub fn index(&self, index: usize) -> (item: &T)
        requires
            index < self@.len(),
        ensures
            *item == self@[index as int],
    {
        &self.items[index]
    }

    /// The element at `index`, or `OutOfRange` when there is none.
    pub fn get(&self, index: usize) -> (r: Result<&T, StackVecError>)
        ensures
            index < self@.len() ==> r == Ok::<&T, StackVecError>(&self@[index as int]),
            index >= self@.len() ==> r == Err::<&T, StackVecError>(StackVecError::OutOfRange),
    {
        if index >= self.items.len() {
            return Err(StackVecError::OutOfRange);
        }
        Ok(&self.items[index])
    }

    /// The element at `index`, which must be below the length, for writing.
    pub fn index_mut(&mut self, index: usize) -> (item: &mut T)
        requires
            index < old(self)@.len(),
        ensures
            *item == old(self)@[index as int],
            final(self)@ == old(self)@.update(index as int, *final(item)),
            final(self).wf() == old(self).wf(),
    {
        &mut self.items[index]
    }

    /// Replaces the element at `index`, which must be below the length.
    pub fn set(&mut self, index: usize, item: T)
        requires
            index < old(self)@.len(),
        ensures
            final(self).wf() == old(self).wf(),
            final(self)@ == old(self)@.update(index as int, item),
    {
        self.items[index] = item;
    }

    /// A cursor over the elements, positioned before the first.
    pub fn iter(&self) -> (it: StackVecIterator<'_, T, N>)
        ensures
            it.items() == self@,
            it.position() == 0,
    {
        StackVecIterator::new(self)
    }
}

/// Moves the elements of an array into a vector, in order.
///
/// Wraps `Vec::from` for arrays, whose documentation says that the vector
/// holds the array's elements in the same order.
#[verifier::external_body]
fn array_into_vec<T, const N: usize>(items: [T; N]) -> (v: Vec<T>)
    ensures
        v@ == items@,
{
    Vec::from(items)
}

/// A cursor over a [`StackVec`] that hands out its elements one at a time
/// from either end. Each call of `next` or `next_back` consumes one position.
pub struct StackVecIterator<'a, T, const N: usize> {
    stack_vec: &'a StackVec<T, N>,
    pos: usize,
}

impl<'a, T, const N: usize> StackVecIterator<'a, T, N> {
    /// The elements of the container that the cursor walks.
    pub closed spec fn items(&self) -> Seq<T> {
        self.stack_vec@
    }

    /// How many elements have been handed out.
    pub closed spec fn position(&self) -> int {
        self.pos as int
    }

    /// The index of the element that the next `next_back` hands out.
    pub open spec fn back_index(&self) -> int {
        self.items().len() - self.position() - 1
    }

    #[verifier::type_invariant]
    spec fn position_in_range(&self) -> bool {
        self.pos <= self.stack_vec@.len()
    }

    /// A cursor before the first element of `stack_vec`.
    pub fn new(stack_vec: &'a StackVec<T, N>) -> (it: Self)
        ensures
            it.items() == stack_vec@,
            it.position() == 0,
    {
        StackVecIterator { stack_vec, pos: 0 }
    }

    /// The next element counted from the front, or `None` once every
    /// position has been consumed.
    pub fn next(&mut self) -> (r: Option<&'a T>)
        ensures
            final(self).items() == old(self).items(),
            final(self).position() == old(self).position() + (if r.is_some() {
                1int
            } else {
                0int
            }),
            r.is_some() <==> old(self).position() < old(self).items().len(),
            r.is_some() ==> *r.unwrap() == old(self).items()[old(self).position()],
    {
        proof {
            use_type_invariant(&*self);
        }
        if self.pos >= self.stack_vec.len() {
            None
        } else {
            let item = self.stack_vec.index(self.pos);
            self.pos += 1;
            Some(item)
        }
    }

    /// The next element counted from the back, or `None` once every
    /// position has been consumed.
    pub fn next_back(&mut self) -> (r: Option<&'a T>)
        ensures
            final(self).items() == old(self).items(),
            final(self).position() == old(self).position() + (if r.is_some() {
                1int
            } else {
                0int
            }),
            r.is_some() <==> old(self).position() < old(self).items().len(),
            r.is_some() ==> *r.unwrap() == old(self).items()[old(self).back_index()],
    {
        proof {
            use_type_invariant(&*self);
        }
        let len = self.stack_vec.len();
        if self.pos >= len {
            None
        } else {
            let item = self.stack_vec.index(len - self.pos - 1);
            self.pos += 1;
            Some(item)
        }
    }
}

} // verus!
