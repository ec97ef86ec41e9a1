use vstd::prelude::*;

verus! {

/// A growable array with an explicit doubling capacity policy: capacity 0 on
/// creation, 1 after the first push, and doubled whenever a push finds the
/// buffer full.
pub struct Vector<T> {
    buf: Vec<T>,
    cap: usize,
}

impl<T> View for Vector<T> {
    type V = Seq<T>;

    closed spec fn view(&self) -> Seq<T> {
        self.buf@
    }
}

impl<T> Vector<T> {
    /// The tracked capacity: how many elements fit before the next growth.
    pub closed spec fn spec_capacity(&self) -> nat {
        self.cap as nat
    }

    /// The stored elements never exceed the tracked capacity.
    pub closed spec fn wf(&self) -> bool {
        self@.len() <= self.cap
    }

    pub fn capacity(&self) -> (c: usize)
        ensures
            c == self.spec_capacity(),
    {
        self.cap
    }

    pub fn len(&self) -> (l: usize)
        ensures
            l == self@.len(),
    {
        self.buf.len()
    }

    pub fn new() -> (v: Self)
        ensures
            v@ == Seq::<T>::empty(),
            v.spec_capacity() == 0,
            v.wf(),
    {
        Self { buf: Vec::new(), cap: 0 }
    }

    /// Doubles the capacity (or sets it to 1 when it is still 0).
    fn grow(&mut self)
        requires
            old(self).wf(),
            old(self).spec_capacity() <= usize::MAX as nat / 2,
        ensures
            final(self).wf(),
            final(self)@ == old(self)@,
            final(self).spec_capacity() == if old(self).spec_capacity() == 0 {
                1nat
            } else {
                old(self).spec_capacity() * 2
            },
    {
        let new_cap: usize = if self.cap == 0 {
            1
        } else {
            self.cap * 2
        };
        self.cap = new_cap;
    }

    /// Appends an element, growing the capacity first when the buffer is full.
    pub fn push(&mut self, elem: T)
        requires
            old(self).wf(),
            old(self).spec_capacity() <= usize::MAX as nat / 2,
        ensures
            final(self).wf(),
            final(self)@ == old(self)@.push(elem),
            final(self).spec_capacity() == if old(self)@.len() < old(self).spec_capacity() {
                old(self).spec_capacity()
            } else if old(self).spec_capacity() == 0 {
                1nat
            } else {
                old(self).spec_capacity() * 2
            },
    {
        if self.buf.len() == self.cap {
            self.grow();
        }
        self.buf.push(elem);
    }

    /// Removes and returns the last element, or nothing when empty.
    pub fn pop(&mut self) -> (r: Option<T>)
        ensures
            final(self).spec_capacity() == old(self).spec_capacity(),
            old(self).wf() ==> final(self).wf(),
            match r {
                Some(elem) => old(self)@.len() > 0 && elem == old(self)@.last() && final(self)@
                    == old(self)@.drop_last(),
                None => old(self)@.len() == 0 && final(self)@ == old(self)@,
            },
    {
        self.buf.pop()
    }

    /// Returns a reference to the last element, or nothing when empty.
    pub fn peek(&self) -> (r: Option<&T>)
        ensures
            match r {
                Some(elem) => self@.len() > 0 && *elem == self@.last(),
                None => self@.len() == 0,
            },
    {
        if self.buf.len() == 0 {
            None
        } else {
            Some(&self.buf[self.buf.len() - 1])
        }
    }
}

} // verus!
