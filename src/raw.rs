//! The buffer engine: one byte buffer holding element payloads from the front and
//! metadata records from the back.
use core::marker::PhantomData;
use vstd::prelude::*;
use crate::buffer::{
    align_pad, copy_bytes, force_align, lemma_word_unchanged, read_bytes, read_word,
    spec_align_pad, spec_force_align, word_at, write_word, zeroed,
};
use crate::element::Element;

verus! {

/// Alignment of the records, and so of the buffer's capacity.
pub const DATA_ALIGN: usize = 8;

/// Size in bytes of one metadata record of kind `T`: the payload offset, then the
/// shape descriptor.
pub open spec fn record_size<T: Element>() -> nat {
    8 + T::spec_meta_size()
}

/// A decoded metadata record: where an element's payload starts in the buffer, and
/// how many bytes it has.
#[derive(Clone, Copy, Debug, PartialEq, Eq)]
pub struct PtrData {
    pub offset: usize,
    pub meta: usize,
}

/// The buffer description: the bytes, the number of elements, the capacity and the
/// bytes used by payloads so far.
pub struct RawVechonk<T: Element> {
    buf: Vec<u8>,
    len: usize,
    cap: usize,
    elem_size: usize,
    offsets: Ghost<Seq<nat>>,
    elems: Ghost<Seq<Seq<u8>>>,
    _marker: PhantomData<T>,
}

impl<T: Element> View for RawVechonk<T> {
    type V = Seq<Seq<u8>>;

    /// The payload of each element, in append order.
    closed spec fn view(&self) -> Seq<Seq<u8>> {
        self.elems@
    }
}

proof fn lemma_record_bounds(rs: int, i: int, len: int)
    requires
        rs > 0,
        0 <= i < len,
    ensures
        rs <= rs * (i + 1) <= rs * len,
        rs * (i + 1) == rs * i + rs,
{
    assert(rs <= rs * (i + 1) <= rs * len) by (nonlinear_arith)
        requires
            rs > 0,
            0 <= i < len,
    ;
    assert(rs * (i + 1) == rs * i + rs) by (nonlinear_arith);
}

impl<T: Element> RawVechonk<T> {
    pub closed spec fn spec_cap(&self) -> nat {
        self.cap as nat
    }

    pub closed spec fn spec_elem_size(&self) -> nat {
        self.elem_size as nat
    }

    /// Offset of the payload of element `i`.
    pub closed spec fn spec_offset(&self, i: int) -> nat {
        self.offsets@[i]
    }

    /// Start of the record of element `i`.
    pub open spec fn record_pos(&self, i: int) -> int {
        self.spec_cap() - record_size::<T>() * (i + 1)
    }

    pub closed spec fn wf(&self) -> bool {
        let rs = record_size::<T>();
        &&& self.buf@.len() == self.cap
        &&& self.cap % 8 == 0
        &&& self.len == self.elems@.len()
        &&& self.offsets@.len() == self.len
        &&& self.elem_size + self.len * rs <= self.cap
        &&& forall|i: int|
            0 <= i < self.len ==> #[trigger] self.offsets@[i] + self.elems@[i].len()
                <= self.elem_size
        &&& forall|i: int, j: int|
            0 <= i < j < self.len ==> self.offsets@[i] + self.elems@[i].len()
                <= #[trigger] self.offsets@[j] && #[trigger] self.offsets@[i] <= self.offsets@[j]
        &&& forall|i: int, k: int|
            0 <= i < self.len && 0 <= k < self.elems@[i].len() ==> self.buf@[self.offsets@[i] + k]
                == #[trigger] self.elems@[i][k]
        &&& forall|i: int|
            0 <= i < self.len ==> word_at(self.buf@, self.record_pos(i)) as int
                == #[trigger] self.offsets@[i]
        &&& forall|i: int|
            0 <= i < self.len && T::spec_meta_size() == 8 ==> word_at(
                self.buf@,
                self.record_pos(i) + 8,
            ) as int == (#[trigger] self.elems@[i]).len()
        &&& forall|i: int| 0 <= i < self.len ==> T::is_payload(#[trigger] self.elems@[i])
    }

    /// The payload region and the record region do not overlap.
    pub proof fn lemma_regions_disjoint(&self)
        requires
            self.wf(),
        ensures
            self.spec_elem_size() + self@.len() * record_size::<T>() <= self.spec_cap(),
            forall|i: int|
                0 <= i < self@.len() ==> #[trigger] self.spec_offset(i) + self@[i].len()
                    <= self.spec_elem_size(),
            self.spec_cap() % 8 == 0,
    {
    }

    pub fn new() -> (r: Self)
        ensures
            r.wf(),
            r@ == Seq::<Seq<u8>>::empty(),
            r.spec_cap() == 0,
            r.spec_elem_size() == 0,
    {
        RawVechonk {
            buf: Vec::new(),
            len: 0,
            cap: 0,
            elem_size: 0,
            offsets: Ghost(Seq::empty()),
            elems: Ghost(Seq::empty()),
            _marker: PhantomData,
        }
    }

    /// A copy of the description, over a buffer of its own with the same bytes.
    pub fn copy(&self) -> (r: Self)
        requires
            self.wf(),
        ensures
            r.wf(),
            r@ == self@,
            r.spec_cap() == self.spec_cap(),
            r.spec_elem_size() == self.spec_elem_size(),
    {
        let buf = read_bytes(&self.buf, 0, self.cap);
        assert(buf@ =~= self.buf@);
        RawVechonk {
            buf,
            len: self.len,
            cap: self.cap,
            elem_size: self.elem_size,
            offsets: Ghost(self.offsets@),
            elems: Ghost(self.elems@),
            _marker: PhantomData,
        }
    }

    pub fn len(&self) -> (r: usize)
        requires
            self.wf(),
        ensures
            r == self@.len(),
    {
        self.len
    }

    pub fn cap(&self) -> (r: usize)
        ensures
            r == self.spec_cap(),
    {
        self.cap
    }

    pub fn elem_size(&self) -> (r: usize)
        ensures
            r == self.spec_elem_size(),
    {
        self.elem_size
    }

    pub fn data_align() -> (r: usize)
        ensures
            r == 8,
    {
        DATA_ALIGN
    }

    fn record_size() -> (r: usize)
        ensures
            r == record_size::<T>(),
    {
        proof {
            T::lemma_layout();
        }
        8 + T::meta_size()
    }

    /// An empty description over `capacity` bytes, rounded down to a multiple of
    /// the record alignment; nothing is allocated when that is zero.
    pub fn with_capacity(capacity: usize) -> (r: Self)
        ensures
            r.wf(),
            r@ == Seq::<Seq<u8>>::empty(),
            r.spec_cap() == spec_force_align(capacity as nat, 8),
            r.spec_elem_size() == 0,
    {
        let capacity = force_align(capacity, Self::data_align());
        let mut vechonk = Self::new();
        if capacity == 0 {
            return vechonk;
        }
        vechonk.realloc(capacity);
        vechonk
    }

    /// Replaces the buffer with a fresh one of `size` bytes, keeping no content.
    fn realloc(&mut self, size: usize)
        requires
            old(self)@.len() == 0,
            old(self).spec_elem_size() == 0,
            size % 8 == 0,
        ensures
            final(self).wf(),
            final(self)@ == Seq::<Seq<u8>>::empty(),
            final(self).spec_cap() == size,
            final(self).spec_elem_size() == 0,
    {
        self.buf = zeroed(size);
        self.cap = size;
        self.len = 0;
        self.offsets = Ghost(Seq::empty());
        self.elems = Ghost(Seq::empty());
    }

    /// Moves both regions into a fresh buffer of twice `min_size` bytes, rounded
    /// down to the record alignment: the payload region to the front, the record
    /// region to the back. Offsets are relative to the buffer, so no record changes.
    fn regrow(&mut self, min_size: usize)
        requires
            old(self).wf(),
            min_size * 2 <= usize::MAX,
            min_size >= old(self).spec_cap() + 8,
        ensures
            final(self).wf(),
            final(self)@ == old(self)@,
            final(self).spec_elem_size() == old(self).spec_elem_size(),
            final(self).spec_cap() == spec_force_align(min_size as nat * 2, 8),
            forall|i: int|
                0 <= i < old(self)@.len() ==> #[trigger] final(self).spec_offset(i)
                    == old(self).spec_offset(i),
    {
        let new_cap = force_align(min_size * 2, Self::data_align());
        let ds = self.data_section_size();
        let mut new_buf = zeroed(new_cap);
        copy_bytes(&mut new_buf, 0, &self.buf, 0, self.elem_size);
        let ghost mid = new_buf@;
        copy_bytes(&mut new_buf, new_cap - ds, &self.buf, self.cap - ds, ds);
        proof {
            let rs = record_size::<T>() as int;
            let old_buf = self.buf@;
            assert(new_cap >= self.cap);
            assert(ds == rs * self.len) by (nonlinear_arith)
                requires
                    ds == self.len * rs,
            ;
            T::lemma_layout();
            let nb = new_buf@;
            assert forall|i: int, k: int|
                0 <= i < self.len && 0 <= k < self.elems@[i].len() implies nb[self.offsets@[i]
                + k] == #[trigger] self.elems@[i][k] by {
                assert(self.offsets@[i] + self.elems@[i].len() <= self.elem_size);
            }
            assert forall|i: int| 0 <= i < self.len implies word_at(nb, new_cap - rs * (i + 1))
                as int == #[trigger] self.offsets@[i] by {
                lemma_record_bounds(rs, i, self.len as int);
                T::lemma_layout();
                let p = self.record_pos(i);
                let q = new_cap - rs * (i + 1);
                assert(new_cap - ds <= q && q + 8 <= new_cap);
                assert forall|m: int| 0 <= m < 8 implies #[trigger] nb[q + m] == old_buf[p + m] by {
                    assert(nb[q + m] == old_buf[q + m - (new_cap - ds) + (self.cap - ds)]);
                }
                lemma_word_unchanged(old_buf, p, nb, q);
            }
            assert forall|i: int|
                0 <= i < self.len && T::spec_meta_size() == 8 implies word_at(
                nb,
                new_cap - rs * (i + 1) + 8,
            ) as int == (#[trigger] self.elems@[i]).len() by {
                lemma_record_bounds(rs, i, self.len as int);
                let p = self.record_pos(i) + 8;
                let q = new_cap - rs * (i + 1) + 8;
                assert(new_cap - ds <= q && q + 8 <= new_cap);
                assert forall|m: int| 0 <= m < 8 implies #[trigger] nb[q + m] == old_buf[p + m] by {
                    assert(nb[q + m] == old_buf[q + m - (new_cap - ds) + (self.cap - ds)]);
                }
                lemma_word_unchanged(old_buf, p, nb, q);
            }
        }
        self.buf = new_buf;
        self.cap = new_cap;
    }

    /// Appends `element`: its payload goes to the front region, after the padding
    /// that aligns it, and its record to the next free slot from the back. The
    /// buffer is regrown first when the two would meet. The padding counts as used,
    /// so no later payload is placed inside it.
    #[verifier::rlimit(60)]
    #[verifier::spinoff_prover]
    pub fn push(&mut self, element: T)
        requires
            old(self).wf(),
            2 * (old(self).spec_cap() + element.payload().len() + record_size::<T>())
                <= usize::MAX,
        ensures
            final(self).wf(),
            final(self)@ == old(self)@.push(element.payload()),
            final(self).spec_elem_size() == old(self).spec_elem_size() + spec_align_pad(
                old(self).spec_elem_size(),
                T::spec_align(),
            ) + element.payload().len(),
            final(self).spec_cap() == if old(self).spec_elem_size() + spec_align_pad(
                old(self).spec_elem_size(),
                T::spec_align(),
            ) + element.payload().len() + (old(self)@.len() + 1) * record_size::<T>()
                > old(self).spec_cap() {
                spec_force_align(
                    2 * (old(self).spec_cap() + element.payload().len() + record_size::<T>()),
                    8,
                )
            } else {
                old(self).spec_cap()
            },
            forall|i: int|
                0 <= i < old(self)@.len() ==> #[trigger] final(self).spec_offset(i)
                    == old(self).spec_offset(i),
            final(self).spec_offset(old(self)@.len() as int) == old(self).spec_elem_size()
                + spec_align_pad(old(self).spec_elem_size(), T::spec_align()),
    {
        proof {
            T::lemma_layout();
            element.lemma_payload();
        }
        let bytes = element.to_payload();
        let size = bytes.len();
        let rs = Self::record_size();
        let elem_offset = self.elem_size;
        let pad = align_pad(elem_offset, T::align());
        proof {
            assert((size + rs + pad) + self.elem_size + self.len * rs == self.elem_size + pad + size
                + (self.len + 1) * rs) by (nonlinear_arith);
        }
        if self.needs_grow(size + rs + pad) {
            proof {
                if self.cap == 0 {
                    assert(self.elem_size == 0);
                }
            }
            let ghost cap0 = self.cap;
            self.regrow(self.cap + size + rs);
            proof {
                assert(self.cap + 7 >= 2 * (cap0 + size + rs));
                assert(self.elem_size == elem_offset);
                if cap0 == 0 {
                    vstd::arithmetic::div_mod::lemma_small_mod(0, T::spec_align());
                    assert(pad == 0);
                } else {
                    assert(cap0 >= 8);
                }
                assert(pad + 7 <= cap0 + size + rs);
            }
        }
        let dest = elem_offset + pad;
        let ghost b0 = self.buf@;
        let ghost b_offsets = self.offsets@;
        assert forall|i: int| 0 <= i < old(self)@.len() implies #[trigger] b_offsets[i]
            == old(self).offsets@[i] by {
            assert(self.spec_offset(i) == old(self).spec_offset(i));
        }
        proof {
            let l = self.len as int;
            let r = rs as int;
            assert(l * r + r == (l + 1) * r && r * (l + 1) == (l + 1) * r && r * l == l * r)
                by (nonlinear_arith);
            assert(dest + size + (l + 1) * r <= self.cap);
        }
        copy_bytes(&mut self.buf, dest, &bytes, 0, size);
        let ghost b1 = self.buf@;
        let pos = self.offset_for_data(self.len);
        write_word(&mut self.buf, pos, dest as u64);
        let ghost b2 = self.buf@;
        if T::meta_size() == 8 {
            write_word(&mut self.buf, pos + 8, size as u64);
        }
        let ghost b3 = self.buf@;
        proof {
            let len = self.len as int;
            let rsi = rs as int;
            assert forall|i: int, k: int|
                0 <= i < len && 0 <= k < self.elems@[i].len() implies b3[self.offsets@[i] + k]
                == #[trigger] self.elems@[i][k] by {
                assert(self.offsets@[i] + self.elems@[i].len() <= self.elem_size);
            }
            assert(dest + size <= pos);
            assert(pos + rs <= self.cap - self.len * rs);
            assert forall|k: int| 0 <= k < size implies b3[dest + k] == #[trigger] bytes@[k] by {
                assert(b1[dest + k] == bytes@[dest + k - dest + 0]);
            }
            assert forall|i: int| 0 <= i < len implies word_at(b3, self.record_pos(i)) as int
                == #[trigger] self.offsets@[i] by {
                lemma_record_bounds(rsi, i, len);
                let p = self.record_pos(i);
                lemma_word_unchanged(b0, p, b3, p);
            }
            assert forall|i: int|
                0 <= i < len && T::spec_meta_size() == 8 implies word_at(b3, self.record_pos(i) + 8)
                as int == (#[trigger] self.elems@[i]).len() by {
                lemma_record_bounds(rsi, i, len);
                let p = self.record_pos(i) + 8;
                lemma_word_unchanged(b0, p, b3, p);
            }
            lemma_word_unchanged(b2, pos as int, b3, pos as int);
        }
        self.elem_size = dest + size;
        self.len = self.len + 1;
        self.offsets = Ghost(self.offsets@.push(dest as nat));
        self.elems = Ghost(self.elems@.push(bytes@));
        proof {
            let e = self.elems@;
            assert forall|i: int, k: int|
                0 <= i < self.len && 0 <= k < e[i].len() implies self.buf@[self.offsets@[i] + k]
                == #[trigger] e[i][k] by {
                if i == self.len - 1 {
                    assert(e[i] == bytes@);
                    assert(bytes@[k] == e[i][k]);
                } else {
                    assert(e[i] == old(self).elems@[i]);
                }
            }
            assert(self.offsets@[self.len - 1] == dest);
            assert(self.record_pos(self.len - 1) == pos);
            assert forall|i: int| 0 <= i < old(self)@.len() implies #[trigger] self.spec_offset(i)
                == old(self).spec_offset(i) by {
                assert(self.offsets@[i] == b_offsets[i]);
            }
        }
    }

    /// Removes the last element and hands back a copy of it. Its bytes stay in the
    /// buffer, unused: neither region shrinks but for the record count.
    pub fn pop(&mut self) -> (r: Option<T>)
        requires
            old(self).wf(),
        ensures
            final(self).wf(),
            final(self).spec_cap() == old(self).spec_cap(),
            final(self).spec_elem_size() == old(self).spec_elem_size(),
            old(self)@.len() == 0 ==> r is None && final(self)@ == old(self)@,
            old(self)@.len() > 0 ==> r is Some && r->0.payload() == old(self)@.last()
                && final(self)@ == old(self)@.drop_last(),
            forall|i: int|
                0 <= i < final(self)@.len() ==> #[trigger] final(self).spec_offset(i)
                    == old(self).spec_offset(i),
    {
        if self.len == 0 {
            return None;
        }
        let e = self.get_unchecked(self.len - 1);
        self.len = self.len - 1;
        self.offsets = Ghost(self.offsets@.drop_last());
        self.elems = Ghost(self.elems@.drop_last());
        proof {
            let rs = record_size::<T>() as int;
            let l = self.len as int;
            assert(l * rs <= (l + 1) * rs) by (nonlinear_arith)
                requires
                    l >= 0,
                    rs >= 0,
            ;
        }
        Some(e)
    }

    /// Overwrites element `index` in place with `value`, whose payload has the same
    /// length.
    pub fn set_unchecked(&mut self, index: usize, value: T)
        requires
            old(self).wf(),
            index < old(self)@.len(),
            value.payload().len() == old(self)@[index as int].len(),
        ensures
            final(self).wf(),
            final(self)@ == old(self)@.update(index as int, value.payload()),
            final(self).spec_cap() == old(self).spec_cap(),
            final(self).spec_elem_size() == old(self).spec_elem_size(),
            forall|i: int|
                0 <= i < old(self)@.len() ==> #[trigger] final(self).spec_offset(i)
                    == old(self).spec_offset(i),
    {
        proof {
            value.lemma_payload();
        }
        let data = self.get_unchecked_ptr(index);
        let bytes = value.to_payload();
        let ghost b0 = self.buf@;
        copy_bytes(&mut self.buf, data.offset, &bytes, 0, data.meta);
        proof {
            let rs = record_size::<T>() as int;
            let len = self.len as int;
            assert(rs * len == len * rs) by (nonlinear_arith);
            assert(self.offsets@[index as int] + self.elems@[index as int].len() <= self.elem_size);
            assert forall|i: int, k: int|
                0 <= i < len && i != index && 0 <= k < self.elems@[i].len() implies self.buf@[
                self.offsets@[i] + k] == #[trigger] self.elems@[i][k] by {
                if i < index {
                    assert(self.offsets@[i] + self.elems@[i].len() <= self.offsets@[index as int]);
                } else {
                    assert(self.offsets@[index as int] + self.elems@[index as int].len()
                        <= self.offsets@[i]);
                }
            }
            assert forall|i: int| 0 <= i < len implies word_at(self.buf@, self.record_pos(i)) as int
                == #[trigger] self.offsets@[i] by {
                lemma_record_bounds(rs, i, len);
                lemma_word_unchanged(b0, self.record_pos(i), self.buf@, self.record_pos(i));
            }
            assert forall|i: int|
                0 <= i < len && T::spec_meta_size() == 8 implies word_at(
                self.buf@,
                self.record_pos(i) + 8,
            ) as int == (#[trigger] self.elems@[i]).len() by {
                lemma_record_bounds(rs, i, len);
                lemma_word_unchanged(b0, self.record_pos(i) + 8, self.buf@, self.record_pos(i) + 8);
            }
        }
        self.elems = Ghost(self.elems@.update(index as int, bytes@));
        proof {
            let e = self.elems@;
            assert forall|i: int, k: int|
                0 <= i < self.len && 0 <= k < e[i].len() implies self.buf@[self.offsets@[i] + k]
                == #[trigger] e[i][k] by {
                if i == index {
                    assert(self.buf@[self.offsets@[i] + k] == bytes@[self.offsets@[i] + k
                        - self.offsets@[i] + 0]);
                }
            }
        }
    }

    /// Start of the record of element `index`.
    fn offset_for_data(&self, index: usize) -> (r: usize)
        requires
            record_size::<T>() * (index + 1) <= self.spec_cap(),
        ensures
            r == self.record_pos(index as int),
    {
        let rs = Self::record_size();
        proof {
            assert(rs * index + rs == rs * (index + 1)) by (nonlinear_arith);
            assert(rs * index <= rs * (index + 1)) by (nonlinear_arith);
            assert(index + 1 <= rs * (index + 1)) by (nonlinear_arith)
                requires
                    rs >= 1,
            ;
        }
        self.cap - rs * (index + 1)
    }

    /// Whether `additional_size` more bytes would make the payload region cross into
    /// the record region.
    fn needs_grow(&self, additional_size: usize) -> (r: bool)
        requires
            self.wf(),
        ensures
            r == (additional_size + self.spec_elem_size() + self@.len() * record_size::<T>()
                > self.spec_cap()),
    {
        additional_size > self.cap - (self.elem_size + self.data_section_size())
    }

    /// The record of element `index`: where its payload starts and its length.
    pub fn get_unchecked_ptr(&self, index: usize) -> (r: PtrData)
        requires
            self.wf(),
            index < self@.len(),
        ensures
            r.offset == self.spec_offset(index as int),
            r.meta == self@[index as int].len(),
    {
        proof {
            lemma_record_bounds(record_size::<T>() as int, index as int, self.len as int);
            T::lemma_layout();
        }
        let pos = self.offset_for_data(index);
        let offset = read_word(&self.buf, pos) as usize;
        let meta = if T::meta_size() == 8 {
            read_word(&self.buf, pos + 8) as usize
        } else {
            proof {
                T::lemma_is_payload_len(self.elems@[index as int]);
            }
            T::fixed_size()
        };
        PtrData { offset, meta }
    }

    /// A copy of element `index`, rebuilt from its payload.
    pub fn get_unchecked(&self, index: usize) -> (r: T)
        requires
            self.wf(),
            index < self@.len(),
        ensures
            r.payload() == self@[index as int],
    {
        let data = self.get_unchecked_ptr(index);
        let bytes = read_bytes(&self.buf, data.offset, data.meta);
        assert(bytes@ =~= self.elems@[index as int]);
        T::from_payload(bytes)
    }

    /// Bytes taken by the records of all elements.
    pub fn data_section_size(&self) -> (r: usize)
        requires
            self.wf(),
        ensures
            r == self@.len() * record_size::<T>(),
    {
        self.len * Self::record_size()
    }
}

} // verus!
