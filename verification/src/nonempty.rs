//! A vector that always holds at least one element.
use vstd::prelude::*;

verus! {

/// A list with at least one element: the `head` followed by the `tail`.
#[derive(Debug, Clone, PartialEq, Eq, PartialOrd, Ord, Hash)]
pub struct NonEmpty<T> {
    pub head: T,
    pub tail: Vec<T>,
}

impl<T> View for NonEmpty<T> {
    type V = Seq<T>;

    open spec fn view(&self) -> Seq<T> {
        seq![self.head] + self.tail@
    }
}

impl<T> From<(T, Vec<T>)> for NonEmpty<T> {
    /// The list made of a head and a tail.
    fn from(parts: (T, Vec<T>)) -> (r: Self) {
        NonEmpty { head: parts.0, tail: parts.1 }
    }
}

impl<T> vstd::std_specs::convert::FromSpecImpl<(T, Vec<T>)> for NonEmpty<T> {
    open spec fn obeys_from_spec() -> bool {
        true
    }

    open spec fn from_spec(v: (T, Vec<T>)) -> Self {
        NonEmpty { head: v.0, tail: v.1 }
    }
}

impl<T> NonEmpty<T> {
    /// A list holding the single element `head`.
    pub fn new(head: T) -> (r: Self)
        ensures
            r@ == seq![head],
            r.head == head,
            r.tail@.len() == 0,
    {
        let r = NonEmpty { head, tail: Vec::new() };
        assert(r@ =~= seq![head]);
        r
    }

    /// A list made of `head` followed by `tail`.
    pub fn from_parts(head: T, tail: Vec<T>) -> (r: Self)
        ensures
            r@ == seq![head] + tail@,
    {
        NonEmpty { head, tail }
    }

    /// The list holding the elements of `items`, or `None` when it is empty.
    pub fn from_vec(items: Vec<T>) -> (r: Option<Self>)
        ensures
            r is None <==> items@.len() == 0,
            r matches Some(ne) ==> ne@ == items@,
    {
        if items.len() == 0 {
            None
        } else {
            let mut tail = items;
            let head = tail.remove(0);
            let r = NonEmpty { head, tail };
            assert(r@ =~= items@);
            Some(r)
        }
    }

    /// The number of elements.
    pub fn len(&self) -> (n: usize)
        requires
            self.tail@.len() < usize::MAX,
        ensures
            n == self@.len(),
    {
        self.tail.len() + 1
    }

    /// The first element.
    pub fn first(&self) -> (r: &T)
        ensures
            *r == self@[0],
    {
        &self.head
    }

    /// The last element.
    pub fn last(&self) -> (r: &T)
        ensures
            *r == self@.last(),
    {
        if self.tail.len() == 0 {
            &self.head
        } else {
            &self.tail[self.tail.len() - 1]
        }
    }

    /// The element at index `i`.
    pub fn get(&self, i: usize) -> (r: &T)
        requires
            i < self@.len(),
        ensures
            *r == self@[i as int],
    {
        if i == 0 {
            &self.head
        } else {
            &self.tail[i - 1]
        }
    }

    /// The first element and the slice of the remaining ones.
    pub fn split_first(&self) -> (r: (&T, &[T]))
        ensures
            *r.0 == self@[0],
            r.1@ == self@.drop_first(),
    {
        assert(self@.drop_first() =~= self.tail@);
        (&self.head, self.tail.as_slice())
    }

    /// Add `item` at the end.
    pub fn push(&mut self, item: T)
        ensures
            final(self)@ == old(self)@.push(item),
    {
        self.tail.push(item);
        assert(self@ =~= old(self)@.push(item));
    }

    /// Remove the last element, unless it is the only one.
    pub fn pop(&mut self) -> (r: Option<T>)
        ensures
            old(self)@.len() == 1 ==> r is None && final(self)@ == old(self)@,
            old(self)@.len() > 1 ==> r == Some(old(self)@.last()) && final(self)@
                == old(self)@.drop_last(),
    {
        let r = self.tail.pop();
        assert(old(self)@.len() > 1 ==> self@ =~= old(self)@.drop_last());
        r
    }

    /// Append all of `other`'s elements, leaving `other` empty.
    pub fn append(&mut self, other: &mut Vec<T>)
        ensures
            final(self)@ == old(self)@ + old(other)@,
            final(other)@.len() == 0,
    {
        self.tail.append(other);
        assert(self@ =~= old(self)@ + old(other)@);
    }

    /// Insert `item` at `index`, shifting later elements up.
    pub fn insert(&mut self, index: usize, item: T)
        requires
            index <= old(self)@.len(),
        ensures
            final(self)@ == old(self)@.insert(index as int, item),
    {
        if index == 0 {
            let mut item = item;
            std::mem::swap(&mut self.head, &mut item);
            self.tail.insert(0, item);
        } else {
            self.tail.insert(index - 1, item);
        }
        assert(self@ =~= old(self)@.insert(index as int, item));
    }

    /// A mutable reference to the element at `index`.
    pub fn get_mut(&mut self, index: usize) -> (r: &mut T)
        requires
            index < old(self)@.len(),
        ensures
            *r == old(self)@[index as int],
            final(self)@ == old(self)@.update(index as int, *final(r)),
    {
        if index == 0 {
            &mut self.head
        } else {
            &mut self.tail[index - 1]
        }
    }

    /// Replace the element at `index` by `item`, giving back the old one.
    pub fn replace(&mut self, index: usize, item: T) -> (r: T)
        requires
            index < old(self)@.len(),
        ensures
            final(self)@ == old(self)@.update(index as int, item),
            r == old(self)@[index as int],
    {
        let ghost new_item = item;
        let mut item = item;
        if index == 0 {
            std::mem::swap(&mut self.head, &mut item);
        } else {
            let old_item = self.tail.remove(index - 1);
            self.tail.insert(index - 1, item);
            item = old_item;
        }
        assert(self@ =~= old(self)@.update(index as int, new_item));
        item
    }

    /// The elements, in order, as a vector.
    pub fn into_vec(self) -> (r: Vec<T>)
        ensures
            r@ == self@,
    {
        let mut r = Vec::new();
        r.push(self.head);
        let mut tail = self.tail;
        r.append(&mut tail);
        assert(r@ =~= self@);
        r
    }
}

/// Split the last element out of a `NonEmpty` list: the elements before it,
/// in order, and the last one.
pub fn split_last<T: Clone>(non_empty: &NonEmpty<T>) -> (r: (Vec<T>, T))
    ensures
        r.0@.len() == non_empty@.len() - 1,
        forall|i: int| 0 <= i < r.0@.len() ==> cloned(non_empty@[i], #[trigger] r.0@[i]),
        cloned(non_empty@.last(), r.1),
{
    let n = non_empty.tail.len();
    if n == 0 {
        return (Vec::new(), non_empty.head.clone());
    }
    let mut prefix: Vec<T> = Vec::new();
    prefix.push(non_empty.head.clone());
    let mut i: usize = 0;
    while i + 1 < n
        invariant
            n == non_empty.tail@.len(),
            n >= 1,
            i + 1 <= n,
            prefix@.len() == i + 1,
            forall|j: int| 0 <= j <= i ==> cloned(non_empty@[j], #[trigger] prefix@[j]),
        decreases n - i,
    {
        prefix.push(non_empty.tail[i].clone());
        i = i + 1;
    }
    (prefix, non_empty.tail[n - 1].clone())
}

} // verus!
