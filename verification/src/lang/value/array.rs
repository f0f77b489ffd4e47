//! Ordered sequences of values.

use vstd::prelude::*;
use vstd::std_specs::cmp::PartialEqSpec;
use vstd::std_specs::cmp::PartialEqSpecImpl;

verus! {

/// An ordered sequence of items, held in a buffer that is filled before the
/// array is handed out. Its view is the sequence of its items.
#[derive(Debug)]
pub struct Array<T> {
    buffer: Vec<T>,
}

impl<T> View for Array<T> {
    type V = Seq<T>;

    closed spec fn view(&self) -> Seq<T> {
        self.buffer@
    }
}

impl<T> Array<T> {
    /// The empty array.
    pub fn new() -> (array: Array<T>)
        ensures
            array@ == Seq::<T>::empty(),
    {
        Array { buffer: Vec::new() }
    }

    /// The item at place `idx`, or `None` behind the end.
    pub fn get(&self, idx: usize) -> (item: Option<&T>)
        ensures
            idx < self@.len() ==> item == Some(&self@[idx as int]),
            idx >= self@.len() ==> item is None,
    {
        if idx < self.buffer.len() {
            Some(&self.buffer[idx])
        } else {
            None
        }
    }

    /// The number of items.
    pub fn len(&self) -> (count: usize)
        ensures
            count == self@.len(),
    {
        self.buffer.len()
    }

    /// An iterator over references to the items, from the first on.
    pub fn iter(&self) -> (iter: Iter<'_, T>)
        ensures
            iter.array() == self,
            iter.position() == 0,
    {
        Iter { array: self, index: 0 }
    }

    /// An iterator that hands the items out, from the first on.
    pub fn into_iter(self) -> (iter: IntoIter<T>)
        ensures
            iter@ == self@,
    {
        IntoIter { buffer: self.buffer }
    }

    /// Puts `item` behind the last item.
    pub fn push(&mut self, item: T)
        ensures
            final(self)@ == old(self)@.push(item),
    {
        self.buffer.push(item);
    }

    /// The item that a hash of the array takes in: the first, if there is one.
    /// The rest is left out, so that hashing never has to walk a long array.
    pub fn hash_prefix(&self) -> (first: Option<&T>)
        ensures
            self@.len() > 0 ==> first == Some(&self@[0]),
            self@.len() == 0 ==> first is None,
    {
        self.get(0)
    }
}

/// An item of an array is smaller than the array.
pub proof fn lemma_item_decreases<T>(array: Array<T>, place: int)
    requires
        0 <= place < array@.len(),
    ensures
        decreases_to!(array => array@[place]),
{
}

impl<T: Clone> Clone for Array<T> {
    /// An array of the same length that holds a clone of every item at its
    /// place.
    fn clone(&self) -> (copy: Array<T>)
        ensures
            copy@.len() == self@.len(),
            forall|i: int| 0 <= i < self@.len() ==> cloned::<T>(#[trigger] self@[i], copy@[i]),
    {
        Array { buffer: self.buffer.clone() }
    }
}

impl<T> Default for Array<T> {
    /// The empty array.
    fn default() -> (array: Array<T>)
        ensures
            array@ == Seq::<T>::empty(),
    {
        Array { buffer: Vec::new() }
    }
}

impl<T> From<Vec<T>> for Array<T> {
    /// The array of the items of `v`, in their order.
    fn from(v: Vec<T>) -> (array: Array<T>)
        ensures
            array@ == v@,
    {
        Array { buffer: v }
    }
}

impl<T> vstd::std_specs::convert::FromSpecImpl<Vec<T>> for Array<T> {
    open spec fn obeys_from_spec() -> bool {
        true
    }

    closed spec fn from_spec(v: Vec<T>) -> Array<T> {
        Array { buffer: v }
    }
}

/// Hands out the items of an array one by one. Its view is what is still to
/// come.
pub struct IntoIter<T> {
    buffer: Vec<T>,
}

impl<T> View for IntoIter<T> {
    type V = Seq<T>;

    closed spec fn view(&self) -> Seq<T> {
        self.buffer@
    }
}

impl<T> IntoIter<T> {
    /// The next item, or `None` when all have been handed out.
    pub fn next(&mut self) -> (item: Option<T>)
        ensures
            old(self)@.len() > 0 ==> item == Some(old(self)@[0]) && final(self)@ == old(self)@.drop_first(),
            old(self)@.len() == 0 ==> item is None && final(self)@ == old(self)@,
    {
        if self.buffer.len() > 0 {
            let item = self.buffer.remove(0);
            Some(item)
        } else {
            None
        }
    }
}

/// Walks over references to the items of an array.
pub struct Iter<'a, T: 'a> {
    array: &'a Array<T>,
    index: usize,
}

impl<'a, T> Iter<'a, T> {
    /// The array that is walked over.
    pub closed spec fn array(&self) -> &'a Array<T> {
        self.array
    }

    /// The place of the item that comes next.
    pub closed spec fn position(&self) -> nat {
        self.index as nat
    }

    /// The next item, or `None` behind the last one.
    pub fn next(&mut self) -> (item: Option<&'a T>)
        ensures
            final(self).array() == old(self).array(),
            old(self).position() < old(self).array()@.len() ==> {
                &&& item == Some(&old(self).array()@[old(self).position() as int])
                &&& final(self).position() == old(self).position() + 1
            },
            old(self).position() >= old(self).array()@.len() ==> {
                &&& item is None
                &&& final(self).position() == old(self).position()
            },
    {
        if self.index < self.array.len() {
            let item = self.array.get(self.index);
            self.index += 1;
            item
        } else {
            None
        }
    }
}

impl<T: PartialEq> PartialEq for Array<T> {
    /// Two arrays are equal when they have the same length and equal items at
    /// every place.
    fn eq(&self, other: &Array<T>) -> (same: bool) {
        if self.buffer.len() != other.buffer.len() {
            return false;
        }
        let mut i: usize = 0;
        while i < self.buffer.len()
            invariant
                i <= self.buffer@.len(),
                self.buffer@.len() == other.buffer@.len(),
                T::obeys_eq_spec() ==> forall|j: int|
                    0 <= j < i ==> (#[trigger] self.buffer@[j]).eq_spec(&other.buffer@[j]),
            decreases self.buffer@.len() - i,
        {
            if !(self.buffer[i] == other.buffer[i]) {
                return false;
            }
            i += 1;
        }
        true
    }
}

impl<T: PartialEq> PartialEqSpecImpl for Array<T> {
    open spec fn obeys_eq_spec() -> bool {
        T::obeys_eq_spec()
    }

    open spec fn eq_spec(&self, other: &Array<T>) -> bool {
        &&& self@.len() == other@.len()
        &&& forall|i: int| 0 <= i < self@.len() ==> (#[trigger] self@[i]).eq_spec(&other@[i])
    }
}

impl<T: Eq> Eq for Array<T> {

}

/// `std::hash::Hash::hash`: feeds `item` to the hasher. What the hasher makes
/// of it is not known here, so nothing is said of the hasher afterwards.
#[verifier::external_body]
pub(crate) fn feed_item<T: std::hash::Hash, H: std::hash::Hasher>(item: &T, state: &mut H) {
    std::hash::Hash::hash(item, state)
}

impl<T: std::hash::Hash> std::hash::Hash for Array<T> {
    /// Feeds the first item to the hasher and nothing behind it, so that a
    /// hash never walks a long array. An empty array feeds nothing.
    fn hash<H: std::hash::Hasher>(&self, state: &mut H)
        ensures
            self@.len() == 0 ==> *final(state) == *old(state),
    {
        match self.hash_prefix() {
            Some(first) => {
                feed_item(first, state);
            },
            None => {},
        }
    }
}

} // verus!
