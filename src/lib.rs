//! A growable sequence of variable-sized elements kept in one byte buffer.
//!
//! Element payloads are laid out from the front of the buffer, and one fixed-size
//! metadata record per element (its payload offset, and its byte length for
//! variable-sized kinds) from the back. When the two regions would meet, the buffer
//! is regrown and both regions are copied verbatim; records hold offsets relative to
//! the start of the buffer, so no record is rewritten.
//!
//! Elements are handed in by value and handed out as copies rebuilt from their
//! payload bytes; an element is overwritten in place only by one of the same size.
use vstd::prelude::*;

pub mod buffer;
pub mod element;
pub mod iter;
pub mod raw;

pub use crate::element::Element;
pub use crate::iter::{IntoIter, Iter, IterMut, MutGuard};
pub use crate::raw::{PtrData, RawVechonk};

verus! {

use crate::buffer::spec_force_align;
use crate::raw::record_size;

/// Sum of the lengths of the payloads in `s`.
pub open spec fn total_len(s: Seq<Seq<u8>>) -> nat
    decreases s.len(),
{
    if s.len() == 0 {
        0
    } else {
        total_len(s.drop_last()) + s.last().len()
    }
}

/// The owning container: a buffer description that nothing else frees or grows.
pub struct Vechonk<T: Element> {
    raw: RawVechonk<T>,
}

impl<T: Element> View for Vechonk<T> {
    type V = Seq<Seq<u8>>;

    /// The payload of each element, in append order.
    closed spec fn view(&self) -> Seq<Seq<u8>> {
        self.raw@
    }
}

impl<T: Element> Vechonk<T> {
    /// The buffer description is well formed, and the used payload bytes are
    /// exactly the payloads' total length: each payload is a multiple of the
    /// alignment in length, so no element needs padding.
    pub closed spec fn wf(&self) -> bool {
        &&& self.raw.wf()
        &&& self.raw.spec_elem_size() == total_len(self.raw@)
        &&& self.raw.spec_elem_size() % T::spec_align() == 0
    }

    /// Bytes of the backing buffer; zero when nothing is allocated.
    pub closed spec fn spec_cap(&self) -> nat {
        self.raw.spec_cap()
    }

    /// Bytes of the payload region used so far.
    pub closed spec fn spec_elem_size(&self) -> nat {
        self.raw.spec_elem_size()
    }

    /// The used payload bytes are the sum of the payloads' lengths, and the record
    /// region, one record per element, lies after them within the buffer.
    pub proof fn lemma_used_payload_bytes(&self)
        requires
            self.wf(),
        ensures
            self.spec_elem_size() == total_len(self@),
            self.spec_elem_size() + self@.len() * record_size::<T>() <= self.spec_cap(),
    {
        self.raw.lemma_regions_disjoint();
    }

    pub fn len(&self) -> (r: usize)
        requires
            self.wf(),
        ensures
            r == self@.len(),
    {
        self.raw.len()
    }

    pub fn is_empty(&self) -> (r: bool)
        requires
            self.wf(),
        ensures
            r == (self@.len() == 0),
    {
        self.len() == 0
    }

    /// An empty container that allocates nothing.
    pub fn new() -> (r: Self)
        ensures
            r.wf(),
            r@ == Seq::<Seq<u8>>::empty(),
            r.spec_cap() == 0,
            r.spec_elem_size() == 0,
    {
        proof {
            T::lemma_layout();
            vstd::arithmetic::div_mod::lemma_small_mod(0, T::spec_align());
        }
        Vechonk { raw: RawVechonk::new() }
    }

    /// An empty container over `capacity` bytes, rounded down to a multiple of the
    /// record alignment (8); nothing is allocated when that is zero.
    pub fn with_capacity(capacity: usize) -> (r: Self)
        ensures
            r.wf(),
            r@ == Seq::<Seq<u8>>::empty(),
            r.spec_cap() == spec_force_align(capacity as nat, 8),
            r.spec_elem_size() == 0,
    {
        proof {
            T::lemma_layout();
            vstd::arithmetic::div_mod::lemma_small_mod(0, T::spec_align());
        }
        Vechonk { raw: RawVechonk::with_capacity(capacity) }
    }

    /// Bytes of the backing buffer.
    pub fn cap(&self) -> (r: usize)
        requires
            self.wf(),
        ensures
            r == self.spec_cap(),
    {
        self.raw.cap()
    }

    /// Bytes of the payload region used so far, alignment padding included.
    pub fn elem_size(&self) -> (r: usize)
        requires
            self.wf(),
        ensures
            r == self.spec_elem_size(),
    {
        self.raw.elem_size()
    }

    /// Bytes taken by the metadata records.
    pub fn data_section_size(&self) -> (r: usize)
        requires
            self.wf(),
        ensures
            r == self@.len() * record_size::<T>(),
    {
        self.raw.data_section_size()
    }

    /// Appends `element` after the last one. Elements already stored keep their
    /// payloads, whether or not the buffer had to grow.
    pub fn push(&mut self, element: T)
        requires
            old(self).wf(),
            2 * (old(self).spec_cap() + element.payload().len() + record_size::<T>())
                <= usize::MAX,
        ensures
            final(self).wf(),
            final(self)@ == old(self)@.push(element.payload()),
            final(self)@.len() == old(self)@.len() + 1,
            forall|i: int| 0 <= i < old(self)@.len() ==> #[trigger] final(self)@[i] == old(self)@[i],
            final(self).spec_elem_size() == old(self).spec_elem_size() + element.payload().len(),
            final(self).spec_cap() == if old(self).spec_elem_size() + element.payload().len() + (
            old(self)@.len() + 1) * record_size::<T>() > old(self).spec_cap() {
                spec_force_align(
                    2 * (old(self).spec_cap() + element.payload().len() + record_size::<T>()),
                    8,
                )
            } else {
                old(self).spec_cap()
            },
    {
        let ghost before = self.raw@;
        let ghost used = self.raw.spec_elem_size() as int;
        proof {
            element.lemma_payload();
            T::lemma_layout();
            vstd::arithmetic::div_mod::lemma_small_mod(0, T::spec_align());
        }
        self.raw.push(element);
        proof {
            assert(self.raw@.drop_last() =~= before);
            let a = T::spec_align() as int;
            let n = element.payload().len() as int;
            vstd::arithmetic::div_mod::lemma_add_mod_noop(used, n, a);
        }
    }

    /// A copy of the element at `index`, or `None` when `index` is out of range.
    pub fn get(&self, index: usize) -> (r: Option<T>)
        requires
            self.wf(),
        ensures
            index < self@.len() ==> r is Some && r->0.payload() == self@[index as int],
            index >= self@.len() ==> r is None,
    {
        if index < self.raw.len() {
            Some(self.raw.get_unchecked(index))
        } else {
            None
        }
    }

    /// Exclusive access to the element at `index`, or `None` when `index` is out
    /// of range.
    pub fn get_mut(&mut self, index: usize) -> (r: Option<MutGuard<T>>)
        requires
            old(self).wf(),
        ensures
            final(self).wf(),
            final(self)@ == old(self)@,
            index < old(self)@.len() ==> r is Some && r->0.spec_index() == index,
            index >= old(self)@.len() ==> r is None,
    {
        if index < self.len() {
            Some(MutGuard::new(index))
        } else {
            None
        }
    }

    /// A copy of the element at `index`, which must be in range.
    pub fn get_unchecked(&self, index: usize) -> (r: T)
        requires
            self.wf(),
            index < self@.len(),
        ensures
            r.payload() == self@[index as int],
    {
        self.raw.get_unchecked(index)
    }

    /// Exclusive access to the element at `index`, which must be in range.
    pub fn get_unchecked_mut(&mut self, index: usize) -> (r: MutGuard<T>)
        requires
            old(self).wf(),
            index < old(self)@.len(),
        ensures
            final(self).wf(),
            final(self)@ == old(self)@,
            r.spec_index() == index,
    {
        MutGuard::new(index)
    }

    /// A copy of the element at `index`; `index` must be in range.
    pub fn index(&self, index: usize) -> (r: T)
        requires
            self.wf(),
            index < self@.len(),
        ensures
            r.payload() == self@[index as int],
    {
        self.get(index).unwrap()
    }

    /// Overwrites the element at `index` in place with `value`, which has the same
    /// payload length.
    pub fn set(&mut self, index: usize, value: T)
        requires
            old(self).wf(),
            index < old(self)@.len(),
            value.payload().len() == old(self)@[index as int].len(),
        ensures
            final(self).wf(),
            final(self)@ == old(self)@.update(index as int, value.payload()),
            final(self).spec_cap() == old(self).spec_cap(),
            final(self).spec_elem_size() == old(self).spec_elem_size(),
    {
        let ghost before = self.raw@;
        self.raw.set_unchecked(index, value);
        proof {
            lemma_total_len_update(before, index as int, value.payload());
        }
    }

    /// A forward view over the elements.
    pub fn iter(&self) -> (r: Iter<'_, T>)
        requires
            self.wf(),
        ensures
            r.spec_index() == 0,
            r.spec_items() == self@,
    {
        Iter::new(self)
    }

    /// A mutable view over the elements, one guard per index.
    pub fn iter_mut(&mut self) -> (r: IterMut<T>)
        requires
            old(self).wf(),
        ensures
            final(self).wf(),
            final(self)@ == old(self)@,
            r.spec_index() == 0,
            r.spec_len() == old(self)@.len(),
    {
        IterMut::new(self)
    }

    /// Hands the buffer over to a consuming view.
    pub fn into_iter(self) -> (r: IntoIter<T>)
        requires
            self.wf(),
        ensures
            r.spec_remaining() == self@,
    {
        IntoIter::new(self)
    }

    /// Gives up the buffer description.
    pub fn into_raw(self) -> (r: RawVechonk<T>)
        requires
            self.wf(),
        ensures
            r.wf(),
            r@ == self@,
    {
        self.raw
    }
}

impl<T: Element> Default for Vechonk<T> {
    fn default() -> (r: Self)
        ensures
            r.wf(),
            r@ == Seq::<Seq<u8>>::empty(),
            r.spec_cap() == 0,
    {
        Self::new()
    }
}

/// The payloads of a container that held `s`, after appending `es` one at a time,
/// as `push` states it one step at a time.
pub open spec fn appended(s: Seq<Seq<u8>>, es: Seq<Seq<u8>>) -> Seq<Seq<u8>>
    decreases es.len(),
{
    if es.len() == 0 {
        s
    } else {
        appended(s, es.drop_last()).push(es.last())
    }
}

/// Appending keeps what was there and adds the new payloads after it, in order:
/// after `k` appends the length has grown by `k`, each earlier element is unchanged
/// (however often the buffer grew meanwhile), and element `s.len() + i` is the
/// `i`-th appended. From an empty container, element `i` is the `i`-th appended.
pub proof fn lemma_appends_in_order(s: Seq<Seq<u8>>, es: Seq<Seq<u8>>)
    ensures
        appended(s, es) == s + es,
        appended(s, es).len() == s.len() + es.len(),
        forall|i: int| 0 <= i < s.len() ==> #[trigger] appended(s, es)[i] == s[i],
        forall|i: int| 0 <= i < es.len() ==> #[trigger] appended(s, es)[s.len() + i] == es[i],
        appended(Seq::empty(), es) == es,
    decreases es.len(),
{
    if es.len() > 0 {
        lemma_appends_in_order(s, es.drop_last());
        assert(s + es =~= (s + es.drop_last()).push(es.last()));
        lemma_appends_in_order(Seq::empty(), es.drop_last());
        assert(Seq::<Seq<u8>>::empty() + es =~= es);
        assert(Seq::<Seq<u8>>::empty() + es.drop_last() =~= es.drop_last());
        assert(es.drop_last().push(es.last()) =~= es);
    } else {
        assert(s + es =~= s);
    }
}

/// Replacing one payload by another of the same length keeps the total length.
pub proof fn lemma_total_len_update(s: Seq<Seq<u8>>, i: int, b: Seq<u8>)
    requires
        0 <= i < s.len(),
        b.len() == s[i].len(),
    ensures
        total_len(s.update(i, b)) == total_len(s),
    decreases s.len(),
{
    if i < s.len() - 1 {
        lemma_total_len_update(s.drop_last(), i, b);
        assert(s.update(i, b).drop_last() =~= s.drop_last().update(i, b));
    } else {
        assert(s.update(i, b).drop_last() =~= s.drop_last());
    }
}

} // verus!
