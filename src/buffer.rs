//! Bounds-checked byte operations on the backing buffer.
use vstd::prelude::*;

verus! {

/// The little-endian 64-bit word stored at `s[p..p + 8]`.
pub open spec fn word_at(s: Seq<u8>, p: int) -> u64 {
    (s[p] as u64) | ((s[p + 1] as u64) << 8u64) | ((s[p + 2] as u64) << 16u64) | ((s[p + 3] as u64)
        << 24u64) | ((s[p + 4] as u64) << 32u64) | ((s[p + 5] as u64) << 40u64) | ((s[p + 6] as u64)
        << 48u64) | ((s[p + 7] as u64) << 56u64)
}

/// `t` equals `s` everywhere outside `[lo, hi)`.
pub open spec fn same_outside(s: Seq<u8>, t: Seq<u8>, lo: int, hi: int) -> bool {
    &&& t.len() == s.len()
    &&& forall|j: int| 0 <= j < s.len() && !(lo <= j < hi) ==> #[trigger] t[j] == s[j]
}

/// `size` rounded down to a multiple of `align`.
pub open spec fn spec_force_align(size: nat, align: nat) -> nat
    recommends
        align > 0,
{
    (size - size % align) as nat
}

/// Padding needed after `offset` to reach a multiple of `align`.
pub open spec fn spec_align_pad(offset: nat, align: nat) -> nat
    recommends
        align > 0,
{
    if offset % align == 0 {
        0
    } else {
        (align - offset % align) as nat
    }
}

pub fn force_align(size: usize, align: usize) -> (r: usize)
    requires
        align > 0,
    ensures
        r == spec_force_align(size as nat, align as nat),
        r <= size,
        r % align == 0,
        size - r < align,
{
    proof {
        let q = size as int / align as int;
        vstd::arithmetic::div_mod::lemma_fundamental_div_mod(size as int, align as int);
        vstd::arithmetic::div_mod::lemma_mod_multiples_basic(q, align as int);
        assert(size as int - size as int % align as int == q * align) by (nonlinear_arith)
            requires
                size as int == align * q + size as int % align as int,
        ;
    }
    size - (size % align)
}

pub fn align_pad(offset: usize, align: usize) -> (r: usize)
    requires
        align > 0,
    ensures
        r == spec_align_pad(offset as nat, align as nat),
        r < align,
        (offset + r) % (align as int) == 0,
{
    let m = offset % align;
    if m == 0 {
        0
    } else {
        proof {
            vstd::arithmetic::div_mod::lemma_fundamental_div_mod(offset as int, align as int);
            assert((offset + (align - m)) as int == align * (offset as int / align as int + 1)) by (nonlinear_arith)
                requires offset as int == align * (offset as int / align as int) + m;
            vstd::arithmetic::div_mod::lemma_mod_multiples_basic(offset as int / align as int + 1, align as int);
            assert(align * (offset as int / align as int + 1) == (offset as int / align as int + 1) * align) by (nonlinear_arith);
        }
        align - m
    }
}

proof fn lemma_byte_of_word(v: u64, s: u64)
    requires
        s < 64,
    ensures
        (((v >> s) & 0xff) as u8) as u64 == (v >> s) & 0xff,
{
    assert((v >> s) & 0xff <= 0xff) by (bit_vector);
}

proof fn lemma_word_from_bytes(v: u64)
    ensures
        v == ((v & 0xff) | (((v >> 8u64) & 0xff) << 8u64) | (((v >> 16u64) & 0xff) << 16u64) | (((v
            >> 24u64) & 0xff) << 24u64) | (((v >> 32u64) & 0xff) << 32u64) | (((v >> 40u64) & 0xff)
            << 40u64) | (((v >> 48u64) & 0xff) << 48u64) | (((v >> 56u64) & 0xff) << 56u64)),
{
    assert(v == ((v & 0xff) | (((v >> 8u64) & 0xff) << 8u64) | (((v >> 16u64) & 0xff) << 16u64) | (((v
        >> 24u64) & 0xff) << 24u64) | (((v >> 32u64) & 0xff) << 32u64) | (((v >> 40u64) & 0xff)
        << 40u64) | (((v >> 48u64) & 0xff) << 48u64) | (((v >> 56u64) & 0xff) << 56u64)))
        by (bit_vector);
}

/// A word depends only on its own eight bytes.
pub proof fn lemma_word_unchanged(s: Seq<u8>, p: int, t: Seq<u8>, q: int)
    requires
        forall|m: int| 0 <= m < 8 ==> #[trigger] t[q + m] == s[p + m],
    ensures
        word_at(t, q) == word_at(s, p),
{
    assert(t[q + 0] == s[p + 0]);
    assert(t[q + 1] == s[p + 1]);
    assert(t[q + 2] == s[p + 2]);
    assert(t[q + 3] == s[p + 3]);
    assert(t[q + 4] == s[p + 4]);
    assert(t[q + 5] == s[p + 5]);
    assert(t[q + 6] == s[p + 6]);
    assert(t[q + 7] == s[p + 7]);
}

/// Reads the word stored at `buf[at..at + 8]`.
pub fn read_word(buf: &Vec<u8>, at: usize) -> (r: u64)
    requires
        at + 8 <= buf.len(),
    ensures
        r == word_at(buf@, at as int),
{
    (buf[at] as u64) | ((buf[at + 1] as u64) << 8u64) | ((buf[at + 2] as u64) << 16u64) | ((buf[at
        + 3] as u64) << 24u64) | ((buf[at + 4] as u64) << 32u64) | ((buf[at + 5] as u64) << 40u64)
        | ((buf[at + 6] as u64) << 48u64) | ((buf[at + 7] as u64) << 56u64)
}

/// Stores `v` little-endian at `buf[at..at + 8]`.
pub fn write_word(buf: &mut Vec<u8>, at: usize, v: u64)
    requires
        at + 8 <= old(buf).len(),
    ensures
        same_outside(old(buf)@, final(buf)@, at as int, at + 8),
        word_at(final(buf)@, at as int) == v,
{
    buf[at] = (v & 0xff) as u8;
    buf[at + 1] = ((v >> 8u64) & 0xff) as u8;
    buf[at + 2] = ((v >> 16u64) & 0xff) as u8;
    buf[at + 3] = ((v >> 24u64) & 0xff) as u8;
    buf[at + 4] = ((v >> 32u64) & 0xff) as u8;
    buf[at + 5] = ((v >> 40u64) & 0xff) as u8;
    buf[at + 6] = ((v >> 48u64) & 0xff) as u8;
    buf[at + 7] = ((v >> 56u64) & 0xff) as u8;
    proof {
        lemma_byte_of_word(v, 0);
        assert(v >> 0u64 == v) by (bit_vector);
        lemma_byte_of_word(v, 8);
        lemma_byte_of_word(v, 16);
        lemma_byte_of_word(v, 24);
        lemma_byte_of_word(v, 32);
        lemma_byte_of_word(v, 40);
        lemma_byte_of_word(v, 48);
        lemma_byte_of_word(v, 56);
        lemma_word_from_bytes(v);
    }
}

/// Copies `n` bytes from `src[src_at..]` into `dst[dst_at..]`.
pub fn copy_bytes(dst: &mut Vec<u8>, dst_at: usize, src: &Vec<u8>, src_at: usize, n: usize)
    requires
        dst_at + n <= old(dst).len(),
        src_at + n <= src.len(),
    ensures
        same_outside(old(dst)@, final(dst)@, dst_at as int, dst_at + n),
        forall|j: int|
            dst_at <= j < dst_at + n ==> #[trigger] final(dst)@[j] == src@[j - dst_at + src_at],
{
    let mut i: usize = 0;
    while i < n
        invariant
            i <= n,
            dst_at + n <= dst.len(),
            src_at + n <= src.len(),
            same_outside(old(dst)@, dst@, dst_at as int, dst_at + n),
            forall|j: int| dst_at <= j < dst_at + i ==> #[trigger] dst@[j] == src@[j - dst_at + src_at],
        decreases n - i,
    {
        dst[dst_at + i] = src[src_at + i];
        i = i + 1;
    }
}

/// The bytes `buf[at..at + n]`, as a vector of their own.
pub fn read_bytes(buf: &Vec<u8>, at: usize, n: usize) -> (r: Vec<u8>)
    requires
        at + n <= buf.len(),
    ensures
        r@ == buf@.subrange(at as int, at + n),
{
    let mut r: Vec<u8> = Vec::new();
    let mut i: usize = 0;
    while i < n
        invariant
            i <= n,
            at + n <= buf.len(),
            r@ == buf@.subrange(at as int, at + i),
        decreases n - i,
    {
        r.push(buf[at + i]);
        i = i + 1;
        assert(r@ =~= buf@.subrange(at as int, at + i));
    }
    r
}

/// A buffer of `n` zero bytes.
pub fn zeroed(n: usize) -> (r: Vec<u8>)
    ensures
        r@.len() == n,
{
    let mut r: Vec<u8> = Vec::with_capacity(n);
    let mut i: usize = 0;
    while i < n
        invariant
            i <= n,
            r@.len() == i,
        decreases n - i,
    {
        r.push(0);
        i = i + 1;
    }
    r
}

} // verus!
