//! Sequential views over a container: forward, mutable (one guard per index) and
//! consuming.
use core::marker::PhantomData;
use vstd::prelude::*;
use crate::element::Element;
use crate::raw::RawVechonk;
use crate::Vechonk;

verus! {

/// A forward view over the elements of a [`Vechonk`], yielding copies in order.
pub struct Iter<'a, T: Element> {
    chonk: &'a Vechonk<T>,
    current_index: usize,
}

impl<'a, T: Element> Iter<'a, T> {
    #[verifier::type_invariant]
    spec fn inv(&self) -> bool {
        &&& self.chonk.wf()
        &&& self.current_index <= self.chonk@.len()
    }

    /// Index of the next element to yield.
    pub closed spec fn spec_index(&self) -> nat {
        self.current_index as nat
    }

    /// The payloads of the whole container.
    pub closed spec fn spec_items(&self) -> Seq<Seq<u8>> {
        self.chonk@
    }

    pub fn new(chonk: &'a Vechonk<T>) -> (r: Iter<'a, T>)
        requires
            chonk.wf(),
        ensures
            r.spec_index() == 0,
            r.spec_items() == chonk@,
    {
        Iter { chonk, current_index: 0 }
    }

    /// The next element, or `None` once all have been yielded.
    pub fn next(&mut self) -> (r: Option<T>)
        ensures
            final(self).spec_items() == old(self).spec_items(),
            old(self).spec_index() < old(self).spec_items().len() ==> r is Some
                && r->0.payload() == old(self).spec_items()[old(self).spec_index() as int]
                && final(self).spec_index() == old(self).spec_index() + 1,
            old(self).spec_index() >= old(self).spec_items().len() ==> r is None
                && final(self).spec_index() == old(self).spec_index(),
    {
        proof {
            use_type_invariant(&*self);
        }
        if self.current_index < self.chonk.len() {
            let e = self.chonk.index(self.current_index);
            self.current_index = self.current_index + 1;
            Some(e)
        } else {
            None
        }
    }

    /// Number of elements left to yield.
    pub fn len(&self) -> (r: usize)
        ensures
            r == self.spec_items().len() - self.spec_index(),
    {
        proof {
            use_type_invariant(self);
        }
        self.chonk.len() - self.current_index
    }

    /// Exact bounds on the number of elements left.
    pub fn size_hint(&self) -> (r: (usize, Option<usize>))
        ensures
            r.0 == self.spec_items().len() - self.spec_index(),
            r.1 == Some(r.0),
    {
        let count = self.len();
        (count, Some(count))
    }
}

/// Exclusive access to one element of a [`Vechonk`], addressed by its index.
pub struct MutGuard<T: Element> {
    index: usize,
    _marker: PhantomData<T>,
}

impl<T: Element> MutGuard<T> {
    pub closed spec fn spec_index(&self) -> nat {
        self.index as nat
    }

    pub fn new(index: usize) -> (r: Self)
        ensures
            r.spec_index() == index,
    {
        MutGuard { index, _marker: PhantomData }
    }

    pub fn index(&self) -> (r: usize)
        ensures
            r == self.spec_index(),
    {
        self.index
    }

    /// A copy of the guarded element.
    pub fn read(&self, chonk: &Vechonk<T>) -> (r: T)
        requires
            chonk.wf(),
            self.spec_index() < chonk@.len(),
        ensures
            r.payload() == chonk@[self.spec_index() as int],
    {
        chonk.index(self.index)
    }

    /// Overwrites the guarded element in place with `value`, of the same size.
    pub fn write(&self, chonk: &mut Vechonk<T>, value: T)
        requires
            old(chonk).wf(),
            self.spec_index() < old(chonk)@.len(),
            value.payload().len() == old(chonk)@[self.spec_index() as int].len(),
        ensures
            final(chonk).wf(),
            final(chonk)@ == old(chonk)@.update(self.spec_index() as int, value.payload()),
    {
        chonk.set(self.index, value)
    }
}

/// A mutable view over the elements of a [`Vechonk`], yielding one guard per index
/// in order.
pub struct IterMut<T: Element> {
    len: usize,
    current_index: usize,
    _marker: PhantomData<T>,
}

impl<T: Element> IterMut<T> {
    #[verifier::type_invariant]
    spec fn inv(&self) -> bool {
        self.current_index <= self.len
    }

    pub closed spec fn spec_index(&self) -> nat {
        self.current_index as nat
    }

    /// Number of elements of the container when the view was made.
    pub closed spec fn spec_len(&self) -> nat {
        self.len as nat
    }

    pub fn new(chonk: &mut Vechonk<T>) -> (r: Self)
        requires
            old(chonk).wf(),
        ensures
            final(chonk).wf(),
            final(chonk)@ == old(chonk)@,
            r.spec_index() == 0,
            r.spec_len() == old(chonk)@.len(),
    {
        IterMut { len: chonk.len(), current_index: 0, _marker: PhantomData }
    }

    /// The guard of the next index, or `None` once all have been yielded.
    pub fn next(&mut self) -> (r: Option<MutGuard<T>>)
        ensures
            final(self).spec_len() == old(self).spec_len(),
            old(self).spec_index() < old(self).spec_len() ==> r is Some && r->0.spec_index()
                == old(self).spec_index() && final(self).spec_index() == old(self).spec_index() + 1,
            old(self).spec_index() >= old(self).spec_len() ==> r is None && final(self).spec_index()
                == old(self).spec_index(),
    {
        proof {
            use_type_invariant(&*self);
        }
        if self.current_index >= self.len {
            return None;
        }
        let old_index = self.current_index;
        self.current_index = self.current_index + 1;
        Some(MutGuard::new(old_index))
    }

    /// Number of guards left to yield.
    pub fn len(&self) -> (r: usize)
        ensures
            r == self.spec_len() - self.spec_index(),
    {
        proof {
            use_type_invariant(self);
        }
        self.len - self.current_index
    }

    /// Exact bounds on the number of guards left.
    pub fn size_hint(&self) -> (r: (usize, Option<usize>))
        ensures
            r.0 == self.spec_len() - self.spec_index(),
            r.1 == Some(r.0),
    {
        let count = self.len();
        (count, Some(count))
    }
}

/// A consuming view over the elements of a [`Vechonk`]: it owns the buffer and
/// yields the elements front to back.
pub struct IntoIter<T: Element> {
    raw: RawVechonk<T>,
    current_index: usize,
}

impl<T: Element> IntoIter<T> {
    #[verifier::type_invariant]
    spec fn inv(&self) -> bool {
        &&& self.raw.wf()
        &&& self.current_index <= self.raw@.len()
    }

    /// The payloads of the elements not yet yielded, in order.
    pub closed spec fn spec_remaining(&self) -> Seq<Seq<u8>> {
        self.raw@.subrange(self.current_index as int, self.raw@.len() as int)
    }

    pub fn new(chonk: Vechonk<T>) -> (r: Self)
        requires
            chonk.wf(),
        ensures
            r.spec_remaining() == chonk@,
    {
        let raw = chonk.into_raw();
        let r = IntoIter { raw, current_index: 0 };
        assert(r.spec_remaining() =~= raw@);
        r
    }

    /// The next element, or `None` once all have been yielded.
    pub fn next(&mut self) -> (r: Option<T>)
        ensures
            old(self).spec_remaining().len() > 0 ==> r is Some && r->0.payload()
                == old(self).spec_remaining()[0] && final(self).spec_remaining()
                == old(self).spec_remaining().drop_first(),
            old(self).spec_remaining().len() == 0 ==> r is None && final(self).spec_remaining()
                == old(self).spec_remaining(),
    {
        proof {
            use_type_invariant(&*self);
        }
        if self.current_index == self.raw.len() {
            return None;
        }
        let e = self.raw.get_unchecked(self.current_index);
        self.current_index = self.current_index + 1;
        assert(self.spec_remaining() =~= old(self).spec_remaining().drop_first());
        Some(e)
    }

    /// Number of elements left to yield.
    pub fn len(&self) -> (r: usize)
        ensures
            r == self.spec_remaining().len(),
    {
        proof {
            use_type_invariant(self);
        }
        self.raw.len() - self.current_index
    }

    /// Exact bounds on the number of elements left.
    pub fn size_hint(&self) -> (r: (usize, Option<usize>))
        ensures
            r.0 == self.spec_remaining().len(),
            r.1 == Some(r.0),
    {
        let count = self.len();
        (count, Some(count))
    }
}

} // verus!
