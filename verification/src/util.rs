//! Typed, append-only arenas and the marker types of the builder's states.

use std::marker::PhantomData;
use vstd::prelude::*;

verus! {

/// A type-level boolean: a state of a handle that only its type records.
pub trait TypeBool {

}

/// The state has been reached.
pub struct True;

impl TypeBool for True {

}

/// The state has not been reached.
pub struct False;

impl TypeBool for False {

}

/// A dense index into one arena. Each kind of entity has a key type of its
/// own, so that a key of one arena cannot address another.
pub trait Key: Sized {
    /// The position that the key addresses.
    spec fn index(self) -> nat;

    /// The key of a position, where the position fits the key's 32 bits.
    fn from(index: usize) -> (key: Option<Self>)
        ensures
            key is Some <==> index <= u32::MAX,
            key matches Some(k) ==> k.index() == index,
    ;

    /// The position of a key.
    fn into(self) -> (index: usize)
        ensures
            index == self.index(),
    ;
}

/// An arena: a vector that only grows and is addressed by keys of one type.
pub struct KeyVec<K, T>(Vec<T>, PhantomData<K>);

impl<K, T> View for KeyVec<K, T> {
    type V = Seq<T>;

    closed spec fn view(&self) -> Seq<T> {
        self.0@
    }
}

impl<K, T> KeyVec<K, T> {
    /// The empty arena.
    pub fn new() -> (arena: Self)
        ensures
            arena@ == Seq::<T>::empty(),
    {
        KeyVec(Vec::new(), PhantomData)
    }

    /// The number of values stored.
    pub fn len(&self) -> (n: usize)
        ensures
            n == self@.len(),
    {
        self.0.len()
    }

    /// The values in key order.
    pub fn iter(&self) -> (values: &[T])
        ensures
            values@ == self@,
    {
        self.0.as_slice()
    }

    /// The value stored last, if any.
    pub fn last(&self) -> (value: Option<&T>)
        ensures
            self@.len() == 0 ==> value is None,
            self@.len() > 0 ==> value == Some(&self@[self@.len() - 1]),
    {
        let n = self.0.len();
        if n == 0 {
            None
        } else {
            Some(&self.0[n - 1])
        }
    }
}

impl<K, T> KeyVec<K, T> {
    /// Write access to the value stored last, if any.
    pub fn last_mut(&mut self) -> (value: Option<&mut T>)
        ensures
            old(self)@.len() == 0 ==> value is None && final(self)@ == old(self)@,
            old(self)@.len() > 0 ==> value is Some && *value.unwrap() == old(self)@[old(self)@.len()
                - 1] && final(self)@ == old(self)@.update(
                old(self)@.len() - 1,
                *final(value.unwrap()),
            ),
    {
        let n = self.0.len();
        if n == 0 {
            None
        } else {
            Some(&mut self.0[n - 1])
        }
    }
}

impl<K: Key, T> KeyVec<K, T> {
    /// The key that the next value pushed will get.
    pub fn next_idx(&self) -> (key: K)
        requires
            self@.len() <= u32::MAX,
        ensures
            key.index() == self@.len(),
    {
        match K::from(self.0.len()) {
            Some(key) => key,
            None => vstd::pervasive::unreached(),
        }
    }

    /// The key that the next value pushed will get.
    pub fn new_key(&self) -> (key: K)
        requires
            self@.len() <= u32::MAX,
        ensures
            key.index() == self@.len(),
    {
        self.next_idx()
    }

    /// The key of the value stored last.
    pub fn last_key(&self) -> (key: K)
        requires
            0 < self@.len() <= u32::MAX,
        ensures
            key.index() == self@.len() - 1,
    {
        match K::from(self.0.len() - 1) {
            Some(key) => key,
            None => vstd::pervasive::unreached(),
        }
    }

    /// Appends the values of a slice as one run and returns the key of its
    /// first value and its length.
    pub fn append(&mut self, value: &[T]) -> (run: (K, usize)) where T: Copy
        requires
            old(self)@.len() + value@.len() <= u32::MAX,
        ensures
            final(self)@ == old(self)@ + value@,
            run.0.index() == old(self)@.len(),
            run.1 == value@.len(),
    {
        let start = self.next_idx();
        let _ = self.push_slice(value);
        (start, value.len())
    }

    /// Appends the values of a vector as one run and returns the key of its
    /// first value and its length.
    pub fn append_from_iter(&mut self, value: Vec<T>) -> (run: (K, usize))
        requires
            old(self)@.len() + value@.len() <= u32::MAX,
        ensures
            final(self)@ == old(self)@ + value@,
            run.0.index() == old(self)@.len(),
            run.1 == value@.len(),
    {
        let start = self.next_idx();
        let mut value = value;
        let len = value.len();
        self.0.append(&mut value);
        (start, len)
    }

    /// Appends a value and returns its key: the number of values stored before.
    pub fn push(&mut self, elem: T) -> (key: K)
        requires
            old(self)@.len() <= u32::MAX,
        ensures
            final(self)@ == old(self)@.push(elem),
            key.index() == old(self)@.len(),
    {
        let key = self.next_idx();
        self.0.push(elem);
        key
    }

    /// Appends the values of a slice in their order and returns the key of the
    /// first and the key behind the last.
    pub fn push_slice(&mut self, elem: &[T]) -> (run: [K; 2]) where T: Copy
        requires
            old(self)@.len() + elem@.len() <= u32::MAX,
        ensures
            final(self)@ == old(self)@ + elem@,
            run[0].index() == old(self)@.len(),
            run[1].index() == old(self)@.len() + elem@.len(),
    {
        let start = self.next_idx();
        let mut i: usize = 0;
        while i < elem.len()
            invariant
                i <= elem@.len(),
                old(self)@.len() + elem@.len() <= u32::MAX,
                self@ == old(self)@ + elem@.subrange(0, i as int),
            decreases elem@.len() - i,
        {
            self.0.push(elem[i]);
            i += 1;
        }
        assert(elem@.subrange(0, elem@.len() as int) == elem@);
        let end = self.next_idx();
        [start, end]
    }

    /// The value at a key, if the key addresses one.
    pub fn get(&self, index: K) -> (value: Option<&T>)
        ensures
            index.index() < self@.len() ==> value == Some(&self@[index.index() as int]),
            index.index() >= self@.len() ==> value is None,
    {
        let i = index.into();
        if i < self.0.len() {
            Some(&self.0[i])
        } else {
            None
        }
    }

    /// The value at a key that addresses one.
    pub fn index(&self, index: K) -> (value: &T)
        requires
            index.index() < self@.len(),
        ensures
            *value == self@[index.index() as int],
    {
        &self.0[index.into()]
    }

    /// The values of a run: those from the key `start` up to the key `end`,
    /// which is not among them.
    pub fn run(&self, start: K, end: K) -> (values: &[T])
        requires
            start.index() <= end.index() <= self@.len(),
        ensures
            values@ == self@.subrange(start.index() as int, end.index() as int),
    {
        vstd::slice::slice_subrange(self.0.as_slice(), start.into(), end.into())
    }

    /// Replaces the value at a key that addresses one.
    pub fn set(&mut self, index: K, value: T)
        requires
            index.index() < old(self)@.len(),
        ensures
            final(self)@ == old(self)@.update(index.index() as int, value),
    {
        let i = index.into();
        self.0.set(i, value);
    }
}

} // verus!
