//! A growable array that manages its capacity by hand.

use vstd::prelude::*;
use vstd::std_specs::iter::IteratorSpec;

verus! {

/// Capacity given by the first growth of an array that holds no slots.
pub const MIN_NON_ZERO_CAPACITY: usize = 4;

/// The capacity after one growth from `capacity` slots when at least `minimum` are asked for:
/// twice the old capacity (4 for the first slots), or `minimum` if that is more.
pub open spec fn grown_capacity(capacity: nat, minimum: nat) -> nat {
    let doubled = if capacity == 0 {
        4
    } else {
        2 * capacity
    };
    if doubled >= minimum {
        doubled
    } else {
        minimum
    }
}

/// The capacity of an array of `len` elements in `capacity` slots after `count` pushes.
pub open spec fn capacity_after_pushes(capacity: nat, len: nat, count: nat) -> nat
    decreases count,
{
    if count == 0 {
        capacity
    } else {
        capacity_after_pushes(
            if len < capacity {
                capacity
            } else {
                grown_capacity(capacity, 0)
            },
            len + 1,
            (count - 1) as nat,
        )
    }
}

/// The capacity after room for `additional` more elements was made ahead, which is done
/// where `additional` is not 0, the sum fits in `usize`, and the array can grow if it
/// has to.
pub open spec fn capacity_with_room(capacity: nat, len: nat, additional: nat) -> nat {
    if additional > 0 && len + additional <= usize::MAX && len + additional > capacity && 2
        * capacity <= usize::MAX {
        grown_capacity(capacity, len + additional)
    } else {
        capacity
    }
}

/// `Vec::as_mut_slice` of std: the slice holds the vector's elements, the vector ends with
/// what the slice ends with, which is as long as before, and the call never unwinds.
#[verifier::external_body]
fn whole_slice_mut<T>(items: &mut std::vec::Vec<T>) -> (s: &mut [T])
    ensures
        s@ == old(items)@,
        final(s)@ == final(items)@,
        final(items)@.len() == old(items)@.len(),
    no_unwind
{
    items.as_mut_slice()
}

/// `Iterator::size_hint` of std: an estimate of how many items are left, a lower bound and
/// perhaps an upper one. Nothing is claimed of it.
#[verifier::external_body]
fn size_hint<I: Iterator>(iter: &I) -> (hint: (usize, Option<usize>)) {
    iter.size_hint()
}

/// What is pushed last is popped first, and the pop leaves the elements as they were
/// before the push.
pub proof fn lemma_push_then_pop<T>(s: Seq<T>, value: T)
    ensures
        s.push(value).len() == s.len() + 1,
        s.push(value).last() == value,
        s.push(value).drop_last() == s,
{
    assert(s.push(value).drop_last() =~= s);
}

/// Pushing `values` one after the other and then popping as many times hands them back
/// last first and leaves the elements as they were.
pub proof fn lemma_pushes_then_pops<T>(s: Seq<T>, values: Seq<T>, k: int)
    requires
        0 <= k < values.len(),
    ensures
        (s + values).len() == s.len() + values.len(),
        (s + values).take(s.len() + k + 1).last() == values[k],
        (s + values).take(s.len() + k + 1).drop_last() == (s + values).take(s.len() + k),
        (s + values).take(s.len() as int) == s,
{
    assert((s + values).take(s.len() + k + 1).drop_last() =~= (s + values).take(s.len() + k));
    assert((s + values).take(s.len() as int) =~= s);
}

/// Removing at `index` what was just inserted there hands it back and leaves the
/// elements, and their number, as they were.
pub proof fn lemma_insert_then_remove<T>(s: Seq<T>, index: int, value: T)
    requires
        0 <= index <= s.len(),
    ensures
        s.insert(index, value).len() == s.len() + 1,
        s.insert(index, value)[index] == value,
        s.insert(index, value).remove(index) == s,
{
    assert(s.insert(index, value).remove(index) =~= s);
}

/// A growth makes room: the new capacity is more than the old one and at least what was
/// asked for, and the first slots of an array are at least 4.
pub proof fn lemma_grown_capacity(capacity: nat, minimum: nat)
    ensures
        grown_capacity(capacity, minimum) > capacity,
        grown_capacity(capacity, minimum) >= minimum,
        capacity == 0 ==> grown_capacity(capacity, minimum) >= MIN_NON_ZERO_CAPACITY,
{
}

/// Pushes and room made ahead never take slots away.
pub proof fn lemma_capacity_never_shrinks(capacity: nat, len: nat, count: nat, additional: nat)
    ensures
        capacity_with_room(capacity, len, additional) >= capacity,
        capacity_after_pushes(capacity, len, count) >= capacity,
    decreases count,
{
    if count > 0 {
        let next = if len < capacity {
            capacity
        } else {
            grown_capacity(capacity, 0)
        };
        lemma_capacity_never_shrinks(next, len + 1, (count - 1) as nat, additional);
    }
}

/// A growable array of `T`.
///
/// Its view is the sequence of its elements. Its capacity is the number of slots it
/// has room for: it changes only when a slot is needed and none is free, or on request.
pub struct Vec<T> {
    items: std::vec::Vec<T>,
    capacity: usize,
}

impl<T> View for Vec<T> {
    type V = Seq<T>;

    closed spec fn view(&self) -> Seq<T> {
        self.items@
    }
}

impl<T> Vec<T> {
    #[verifier::type_invariant]
    spec fn inv(self) -> bool {
        self.items@.len() <= self.capacity
    }

    /// The number of slots, filled or free.
    pub closed spec fn spec_capacity(&self) -> nat {
        self.capacity as nat
    }

    /// An empty array without slots.
    pub fn new() -> (v: Self)
        ensures
            v@ == Seq::<T>::empty(),
            v.spec_capacity() == 0,
    {
        Vec { items: std::vec::Vec::new(), capacity: 0 }
    }

    /// An empty array with exactly `capacity` slots.
    pub fn with_capacity(capacity: usize) -> (v: Self)
        ensures
            v@ == Seq::<T>::empty(),
            v.spec_capacity() == capacity,
    {
        Vec { items: std::vec::Vec::with_capacity(capacity), capacity }
    }

    /// The number of elements.
    pub fn len(&self) -> (n: usize)
        ensures
            n == self@.len(),
            n <= self.spec_capacity(),
    {
        proof {
            use_type_invariant(self);
        }
        self.items.len()
    }

    /// The number of slots.
    pub fn capacity(&self) -> (n: usize)
        ensures
            n == self.spec_capacity(),
    {
        self.capacity
    }

    /// Whether the array holds no element.
    pub fn is_empty(&self) -> (b: bool)
        ensures
            b == (self@.len() == 0),
    {
        self.items.len() == 0
    }

    /// The element at `index`, or `None` past the end.
    pub fn get(&self, index: usize) -> (r: Option<&T>)
        ensures
            r == (if index < self@.len() {
                Some(&self@[index as int])
            } else {
                None
            }),
    {
        if index < self.items.len() {
            Some(&self.items[index])
        } else {
            None
        }
    }

    /// The element at `index` for writing, or `None` past the end.
    pub fn get_mut(&mut self, index: usize) -> (r: Option<&mut T>)
        ensures
            index >= old(self)@.len() ==> r is None && *final(self) == *old(self),
            index < old(self)@.len() ==> r is Some && *r->0 == old(self)@[index as int]
                && final(self)@ == old(self)@.update(index as int, *final(r->0))
                && final(self).spec_capacity() == old(self).spec_capacity(),
    {
        proof {
            use_type_invariant(&*self);
        }
        if index < self.items.len() {
            Some(&mut self.items[index])
        } else {
            None
        }
    }

    /// Hands out the elements and leaves the array empty, with its slots.
    fn take_items(&mut self) -> (items: std::vec::Vec<T>)
        ensures
            items@ == old(self)@,
            items@.len() <= old(self).spec_capacity(),
            final(self)@ == Seq::<T>::empty(),
            final(self).spec_capacity() == old(self).spec_capacity(),
    {
        proof {
            use_type_invariant(&*self);
        }
        let mut items: std::vec::Vec<T> = std::vec::Vec::new();
        core::mem::swap(&mut items, &mut self.items);
        items
    }

    /// Whether one more growth is possible: doubling the capacity stays within `usize`.
    pub open spec fn can_grow(&self) -> bool {
        2 * self.spec_capacity() <= usize::MAX
    }

    /// Moves the elements into a new allocation of `grown_capacity` slots.
    fn grow(&mut self, minimum_capacity: usize)
        requires
            old(self).can_grow(),
        ensures
            final(self)@ == old(self)@,
            final(self).spec_capacity() == grown_capacity(
                old(self).spec_capacity(),
                minimum_capacity as nat,
            ),
    {
        proof {
            use_type_invariant(&*self);
        }
        let doubled: usize = if self.capacity == 0 {
            MIN_NON_ZERO_CAPACITY
        } else {
            self.capacity * 2
        };
        let new_capacity: usize = if doubled >= minimum_capacity {
            doubled
        } else {
            minimum_capacity
        };
        let mut old_items = self.take_items();
        let mut new_items: std::vec::Vec<T> = std::vec::Vec::with_capacity(new_capacity);
        new_items.append(&mut old_items);
        self.capacity = new_capacity;
        self.items = new_items;
        assert(self@ =~= old(self)@);
    }

    /// Appends `value`, growing first if every slot is filled.
    pub fn push(&mut self, value: T)
        requires
            old(self)@.len() < old(self).spec_capacity() || old(self).can_grow(),
        ensures
            final(self)@ == old(self)@.push(value),
            final(self).spec_capacity() == (if old(self)@.len() < old(self).spec_capacity() {
                old(self).spec_capacity()
            } else {
                grown_capacity(old(self).spec_capacity(), 0)
            }),
    {
        proof {
            use_type_invariant(&*self);
        }
        if self.items.len() == self.capacity {
            self.grow(0);
        }
        let mut items = self.take_items();
        items.push(value);
        self.items = items;
    }

    /// Removes the last element and returns it, or `None` if there is none.
    pub fn pop(&mut self) -> (r: Option<T>)
        ensures
            final(self).spec_capacity() == old(self).spec_capacity(),
            old(self)@.len() == 0 ==> r is None && final(self)@ == old(self)@,
            old(self)@.len() > 0 ==> r == Some(old(self)@.last()) && final(self)@ == old(self)@.drop_last(),
    {
        proof {
            use_type_invariant(&*self);
        }
        let mut items = self.take_items();
        let last = items.pop();
        self.items = items;
        last
    }

    /// Keeps the first `new_len` elements and destroys the rest; no effect if there are
    /// no more than `new_len`.
    pub fn truncate(&mut self, new_len: usize)
        ensures
            final(self).spec_capacity() == old(self).spec_capacity(),
            final(self)@ == (if new_len < old(self)@.len() {
                old(self)@.take(new_len as int)
            } else {
                old(self)@
            }),
    {
        proof {
            use_type_invariant(&*self);
        }
        if new_len < self.items.len() {
            let mut items = self.take_items();
            items.truncate(new_len);
            self.items = items;
        }
    }

    /// Destroys every element; the slots stay.
    pub fn clear(&mut self)
        ensures
            final(self).spec_capacity() == old(self).spec_capacity(),
            final(self)@ == Seq::<T>::empty(),
    {
        self.truncate(0);
        assert(self@ =~= Seq::<T>::empty());
    }

    /// Makes room for `additional` more elements: grows once, and only if the free slots
    /// do not suffice.
    pub fn reserve(&mut self, additional: usize)
        requires
            old(self)@.len() + additional <= usize::MAX,
            old(self)@.len() + additional <= old(self).spec_capacity() || old(self).can_grow(),
        ensures
            final(self)@ == old(self)@,
            final(self).spec_capacity() == (if old(self)@.len() + additional <= old(self).spec_capacity() {
                old(self).spec_capacity()
            } else {
                grown_capacity(
                    old(self).spec_capacity(),
                    (old(self)@.len() + additional) as nat,
                )
            }),
            final(self).spec_capacity() >= old(self)@.len() + additional,
    {
        let new_capacity: usize = self.items.len() + additional;
        if new_capacity > self.capacity {
            self.grow(new_capacity);
        }
    }

    /// Sets the length to `new_len`. The first `new_len` slots must be filled, so the
    /// array cannot get longer this way; what lies beyond `new_len` is given up.
    pub fn set_len(&mut self, new_len: usize)
        requires
            new_len <= old(self)@.len(),
        ensures
            final(self).spec_capacity() == old(self).spec_capacity(),
            final(self)@ == old(self)@.take(new_len as int),
    {
        let mut items = self.take_items();
        items.truncate(new_len);
        self.items = items;
    }

    /// Puts `element` at `index` and shifts what stood there, and all after it, one
    /// place to the right; grows first if every slot is filled.
    pub fn insert(&mut self, index: usize, element: T)
        requires
            index <= old(self)@.len(),
            old(self)@.len() < old(self).spec_capacity() || old(self).can_grow(),
        ensures
            final(self)@ == old(self)@.insert(index as int, element),
            final(self).spec_capacity() == (if old(self)@.len() < old(self).spec_capacity() {
                old(self).spec_capacity()
            } else {
                grown_capacity(old(self).spec_capacity(), 0)
            }),
    {
        proof {
            use_type_invariant(&*self);
        }
        if self.items.len() == self.capacity {
            self.grow(0);
        }
        let mut items = self.take_items();
        let ghost before = items@;
        let ghost after = before.insert(index as int, element);
        let n: usize = items.len();
        let mut carry = element;
        let mut i: usize = index;
        while i < n
            invariant
                index <= i <= n,
                n == before.len(),
                items@.len() == n,
                after == before.insert(index as int, element),
                forall|j: int| 0 <= j < i ==> #[trigger] items@[j] == after[j],
                forall|j: int| i <= j < n ==> #[trigger] items@[j] == before[j],
                carry == after[i as int],
            decreases n - i,
        {
            core::mem::swap(&mut carry, &mut items[i]);
            i = i + 1;
        }
        items.push(carry);
        assert(items@ =~= after);
        self.items = items;
    }

    /// Takes the element at `index` out and shifts all after it one place to the left.
    pub fn remove(&mut self, index: usize) -> (r: T)
        requires
            index < old(self)@.len(),
        ensures
            r == old(self)@[index as int],
            final(self)@ == old(self)@.remove(index as int),
            final(self).spec_capacity() == old(self).spec_capacity(),
    {
        let mut items = self.take_items();
        let ghost before = items@;
        let n: usize = items.len();
        let mut carry = items.pop().unwrap();
        let mut i: usize = n - 1;
        while i > index
            invariant
                index <= i <= n - 1,
                n == before.len(),
                items@.len() == n - 1,
                forall|j: int| 0 <= j < i ==> #[trigger] items@[j] == before[j],
                forall|j: int| i <= j < n - 1 ==> #[trigger] items@[j] == before[j + 1],
                carry == before[i as int],
            decreases i,
        {
            i = i - 1;
            core::mem::swap(&mut carry, &mut items[i]);
        }
        assert(items@ =~= before.remove(index as int));
        self.items = items;
        carry
    }

    /// Overwrites every element with a clone of `value`.
    pub fn fill(&mut self, value: T) where T: Clone
        ensures
            final(self)@.len() == old(self)@.len(),
            final(self).spec_capacity() == old(self).spec_capacity(),
            forall|i: int| 0 <= i < final(self)@.len() ==> cloned(value, #[trigger] final(self)@[i]),
    {
        let n: usize = self.items.len();
        let mut i: usize = 0;
        while i < n
            invariant
                i <= n,
                self@.len() == n,
                n == old(self)@.len(),
                self.spec_capacity() == old(self).spec_capacity(),
                forall|j: int| 0 <= j < i ==> cloned(value, #[trigger] self@[j]),
            decreases n - i,
        {
            proof {
                use_type_invariant(&*self);
            }
            let copy = value.clone();
            self.items[i] = copy;
            i = i + 1;
        }
    }

    /// The elements as a slice.
    pub fn as_slice(&self) -> (s: &[T])
        ensures
            s@ == self@,
    {
        self.items.as_slice()
    }

    /// The element at `index`, which must be within the array.
    pub fn index(&self, index: usize) -> (r: &T)
        requires
            index < self@.len(),
        ensures
            *r == self@[index as int],
    {
        &self.items[index]
    }

    /// The element at `index` for writing; `index` must be within the array.
    pub fn index_mut(&mut self, index: usize) -> (r: &mut T)
        requires
            index < old(self)@.len(),
        ensures
            *r == old(self)@[index as int],
            final(self)@ == old(self)@.update(index as int, *final(r)),
            final(self).spec_capacity() == old(self).spec_capacity(),
    {
        proof {
            use_type_invariant(&*self);
        }
        &mut self.items[index]
    }

    /// The elements as a slice for writing.
    pub fn as_slice_mut(&mut self) -> (s: &mut [T])
        ensures
            s@ == old(self)@,
            final(self)@ == final(s)@,
            final(self)@.len() == old(self)@.len(),
            final(self).spec_capacity() == old(self).spec_capacity(),
    {
        proof {
            use_type_invariant(&*self);
        }
        whole_slice_mut(&mut self.items)
    }

    /// An iterator over the elements, first to last.
    pub fn iter(&self) -> (it: Iter<'_, T>)
        ensures
            it.remaining() == self@,
    {
        Iter::new(self)
    }

    /// An iterator that hands out each element for writing, first to last.
    pub fn iter_mut(&mut self) -> (it: IterMut<'_, T>)
        ensures
            it.items@ == old(self)@,
            it.next == 0,
            final(self)@ == final(it.items)@,
            final(self).spec_capacity() == old(self).spec_capacity(),
    {
        IterMut::new(self)
    }

    /// Appends `value` to an array that has a free slot.
    fn push_within_capacity(&mut self, value: T)
        requires
            old(self)@.len() < old(self).spec_capacity(),
        ensures
            final(self)@ == old(self)@.push(value),
            final(self).spec_capacity() == old(self).spec_capacity(),
    {
        let mut items = self.take_items();
        items.push(value);
        self.items = items;
    }

    /// Appends every item of `iter`, in order. Room for `additional` items is made before
    /// the first one is taken, where that is possible; items beyond those are appended
    /// one by one.
    pub fn extend_with_estimate<I: Iterator<Item = T>>(&mut self, iter: I, additional: usize)
        requires
            iter.obeys_prophetic_iter_laws(),
            iter.decrease() is Some,
            old(self)@.len() + iter.remaining().len() <= usize::MAX / 2,
        ensures
            final(self)@ == old(self)@ + iter.remaining(),
            final(self).spec_capacity() == capacity_after_pushes(
                capacity_with_room(
                    old(self).spec_capacity(),
                    old(self)@.len(),
                    additional as nat,
                ),
                old(self)@.len(),
                iter.remaining().len(),
            ),
    {
        proof {
            use_type_invariant(&*self);
        }
        let mut iter = iter;
        let ghost all = iter.remaining();
        let mut room: usize = 0;
        if additional > 0 && additional <= usize::MAX - self.items.len() && (self.items.len()
            + additional <= self.capacity || self.capacity <= usize::MAX / 2) {
            self.reserve(additional);
            room = additional;
        }
        let ghost target = capacity_after_pushes(self.spec_capacity(), self@.len(), all.len());
        let mut count: usize = 0;
        loop
            invariant_except_break
                iter.obeys_prophetic_iter_laws(),
                iter.decrease() is Some,
                self@ + iter.remaining() == old(self)@ + all,
                self@.len() + iter.remaining().len() <= usize::MAX / 2,
                capacity_after_pushes(self.spec_capacity(), self@.len(), iter.remaining().len())
                    == target,
                count <= room,
                count < room ==> self@.len() + (room - count) <= self.spec_capacity(),
            ensures
                self@ == old(self)@ + all,
                self.spec_capacity() == target,
            decreases iter.decrease()->0,
        {
            let ghost before = self@;
            let ghost left = iter.remaining();
            match iter.next() {
                Some(item) => {
                    proof {
                        use_type_invariant(&*self);
                    }
                    if count < room {
                        self.push_within_capacity(item);
                        count = count + 1;
                    } else {
                        self.push(item);
                    }
                    assert(self@ + iter.remaining() =~= before + left);
                },
                None => {
                    assert(self@ + iter.remaining() =~= self@);
                    break ;
                },
            }
        }
    }

    /// Appends every item of `iter`, in order, after making room for as many as the
    /// iterator estimates.
    pub fn extend<I: Iterator<Item = T>>(&mut self, iter: I)
        requires
            iter.obeys_prophetic_iter_laws(),
            iter.decrease() is Some,
            old(self)@.len() + iter.remaining().len() <= usize::MAX / 2,
        ensures
            final(self)@ == old(self)@ + iter.remaining(),
            final(self).spec_capacity() >= old(self).spec_capacity(),
            exists|additional: nat|
                final(self).spec_capacity() == capacity_after_pushes(
                    #[trigger] capacity_with_room(
                        old(self).spec_capacity(),
                        old(self)@.len(),
                        additional,
                    ),
                    old(self)@.len(),
                    iter.remaining().len(),
                ),
    {
        let (lower, upper) = size_hint(&iter);
        let additional: usize = match upper {
            Some(n) => n,
            None => lower,
        };
        proof {
            let room = capacity_with_room(self.spec_capacity(), self@.len(), additional as nat);
            lemma_capacity_never_shrinks(self.spec_capacity(), self@.len(), 0, additional as nat);
            lemma_capacity_never_shrinks(room, self@.len(), iter.remaining().len(), 0);
        }
        self.extend_with_estimate(iter, additional);
    }

    /// Turns the array into an iterator that hands out its elements, first to last.
    pub fn into_iter(self) -> (it: IntoIter<T>)
        ensures
            it.remaining() == self@,
    {
        let mut items = self.items;
        let ghost all = items@;
        let mut rest: std::vec::Vec<T> = std::vec::Vec::with_capacity(items.len());
        while items.len() > 0
            invariant
                items@.len() <= all.len(),
                items@ == all.take(items@.len() as int),
                rest@.len() + items@.len() == all.len(),
                last_first(rest@) == all.skip(items@.len() as int),
            decreases items@.len(),
        {
            let ghost k = items@.len() - 1;
            let ghost earlier = rest@;
            let last = items.pop().unwrap();
            rest.push(last);
            assert(items@ =~= all.take(k));
            assert forall|i: int| 0 <= i < rest@.len() implies last_first(rest@)[i] == all.skip(
                k,
            )[i] by {
                if i > 0 {
                    assert(last_first(earlier)[i - 1] == all.skip(k + 1)[i - 1]);
                }
            }
            assert(last_first(rest@) =~= all.skip(k));
        }
        assert(last_first(rest@) =~= all);
        IntoIter { rest }
    }
}

impl<T> Default for Vec<T> {
    /// An empty array without slots.
    fn default() -> (v: Self)
        ensures
            v@ == Seq::<T>::empty(),
            v.spec_capacity() == 0,
    {
        Vec::new()
    }
}

impl<T: Copy> Clone for Vec<T> {
    /// A copy with the same elements and as many slots.
    fn clone(&self) -> (v: Self)
        ensures
            v@ == self@,
            v.spec_capacity() == self.spec_capacity(),
    {
        proof {
            use_type_invariant(self);
        }
        let n: usize = self.items.len();
        let mut items: std::vec::Vec<T> = std::vec::Vec::with_capacity(self.capacity);
        let mut i: usize = 0;
        while i < n
            invariant
                i <= n,
                n == self.items@.len(),
                items@ == self.items@.take(i as int),
            decreases n - i,
        {
            items.push(self.items[i]);
            assert(items@ =~= self.items@.take(i + 1));
            i = i + 1;
        }
        assert(items@ =~= self.items@);
        Vec { items, capacity: self.capacity }
    }
}

/// An iterator over the elements of an array.
pub struct Iter<'a, T> {
    items: &'a [T],
    next: usize,
}

impl<'a, T> Iter<'a, T> {
    #[verifier::type_invariant]
    spec fn inv(self) -> bool {
        self.next <= self.items@.len()
    }

    /// The elements still to come, in order.
    pub closed spec fn remaining(&self) -> Seq<T> {
        self.items@.skip(self.next as int)
    }

    /// An iterator that starts at the first element of `vec`.
    pub fn new(vec: &'a Vec<T>) -> (it: Self)
        ensures
            it.remaining() == vec@,
    {
        let items = vec.as_slice();
        assert(items@.skip(0) =~= items@);
        Iter { items, next: 0 }
    }

    /// The next element, or `None` after the last.
    pub fn next(&mut self) -> (r: Option<&'a T>)
        ensures
            old(self).remaining().len() == 0 ==> r is None && final(self).remaining() == old(self).remaining(),
            old(self).remaining().len() > 0 ==> r == Some(&old(self).remaining()[0]) && final(self).remaining() == old(self).remaining().drop_first(),
    {
        proof {
            use_type_invariant(&*self);
        }
        if self.next == self.items.len() {
            return None;
        }
        let item = &self.items[self.next];
        self.next = self.next + 1;
        assert(self.remaining() =~= old(self).remaining().drop_first());
        Some(item)
    }

    /// How many elements are still to come, as a lower and an upper bound.
    pub fn size_hint(&self) -> (r: (usize, Option<usize>))
        ensures
            r.0 == self.remaining().len(),
            r.1 == Some(r.0),
    {
        proof {
            use_type_invariant(self);
        }
        let left: usize = self.items.len() - self.next;
        (left, Some(left))
    }
}

/// An iterator over the elements of an array that hands each out for writing.
///
/// The fields are open: what is written through `items` is written to the array.
pub struct IterMut<'a, T> {
    /// The elements of the array.
    pub items: &'a mut [T],
    /// The index of the element that comes next.
    pub next: usize,
}

impl<'a, T> IterMut<'a, T> {
    /// An iterator that starts at the first element of `vec`.
    pub fn new(vec: &'a mut Vec<T>) -> (it: Self)
        ensures
            it.items@ == old(vec)@,
            it.next == 0,
            final(vec)@ == final(it.items)@,
            final(vec).spec_capacity() == old(vec).spec_capacity(),
    {
        IterMut { items: vec.as_slice_mut(), next: 0 }
    }

    /// The next element, or `None` after the last.
    pub fn next(&mut self) -> (r: Option<&mut T>)
        ensures
            final(final(self).items)@ == final(old(self).items)@,
            old(self).next >= old(self).items@.len() ==> r is None && *final(self) == *old(self),
            old(self).next < old(self).items@.len() ==> r is Some && *r->0 == old(self).items@[old(self).next as int] && final(self).items@ == old(self).items@.update(
                old(self).next as int,
                *final(r->0),
            ) && final(self).next == old(self).next + 1,
    {
        if self.next >= self.items.len() {
            return None;
        }
        let i = self.next;
        self.next = i + 1;
        Some(&mut self.items[i])
    }
}

/// The sequence read from its end to its start.
pub open spec fn last_first<T>(s: Seq<T>) -> Seq<T> {
    Seq::new(s.len(), |i: int| s[s.len() - 1 - i])
}

/// An iterator that owns the elements of an array and hands them out.
///
/// It keeps those still to come last first, so that the next one leaves from the end.
pub struct IntoIter<T> {
    rest: std::vec::Vec<T>,
}

impl<T> IntoIter<T> {
    /// The elements still to come, in order.
    pub closed spec fn remaining(&self) -> Seq<T> {
        last_first(self.rest@)
    }

    /// The next element, or `None` after the last.
    pub fn next(&mut self) -> (r: Option<T>)
        ensures
            old(self).remaining().len() == 0 ==> r is None && final(self).remaining() == old(self).remaining(),
            old(self).remaining().len() > 0 ==> r == Some(old(self).remaining()[0]) && final(self).remaining() == old(self).remaining().drop_first(),
    {
        let r = self.rest.pop();
        assert(old(self).remaining().len() > 0 ==> self.remaining() =~= old(self).remaining().drop_first());
        r
    }
}

} // verus!
