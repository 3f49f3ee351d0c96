use vstd::prelude::*;
use vstd::slice::slice_to_vec;
use vstd::utf8::{decode_utf8, encode_utf8, valid_utf8};

verus! {

broadcast use vstd::utf8::encode_utf8_valid_utf8;

/// A kind of value that the container can store as raw payload bytes and rebuild
/// from them.
///
/// The shape descriptor of a kind is `meta_size` bytes wide: 0 for a kind whose
/// payload always has `fixed_size` bytes, 8 for a kind whose record also stores the
/// payload's byte length.
pub trait Element: Sized {
    /// The bytes that represent the value in the buffer.
    spec fn payload(&self) -> Seq<u8>;

    /// Whether `b` is the payload of some value of this kind.
    spec fn is_payload(b: Seq<u8>) -> bool;

    spec fn spec_meta_size() -> nat;

    spec fn spec_fixed_size() -> nat;

    spec fn spec_align() -> nat;

    proof fn lemma_layout()
        ensures
            Self::spec_meta_size() == 0 || Self::spec_meta_size() == 8,
            1 <= Self::spec_align() <= 8,
            8nat % Self::spec_align() == 0,
            Self::spec_fixed_size() <= 8,
    ;

    /// A payload is valid, and like the size of any value its length is a multiple
    /// of the kind's alignment.
    proof fn lemma_payload(&self)
        ensures
            Self::is_payload(self.payload()),
            self.payload().len() % Self::spec_align() == 0,
    ;

    proof fn lemma_is_payload_len(b: Seq<u8>)
        requires
            Self::is_payload(b),
            Self::spec_meta_size() == 0,
        ensures
            b.len() == Self::spec_fixed_size(),
    ;

    fn meta_size() -> (r: usize)
        ensures
            r == Self::spec_meta_size(),
    ;

    fn fixed_size() -> (r: usize)
        ensures
            r == Self::spec_fixed_size(),
    ;

    fn align() -> (r: usize)
        ensures
            r == Self::spec_align(),
    ;

    fn to_payload(&self) -> (r: Vec<u8>)
        ensures
            r@ == self.payload(),
    ;

    fn from_payload(b: Vec<u8>) -> (r: Self)
        requires
            Self::is_payload(b@),
        ensures
            r.payload() == b@,
    ;
}

impl Element for u8 {
    open spec fn payload(&self) -> Seq<u8> {
        seq![*self]
    }

    open spec fn is_payload(b: Seq<u8>) -> bool {
        b.len() == 1
    }

    open spec fn spec_meta_size() -> nat {
        0
    }

    open spec fn spec_fixed_size() -> nat {
        1
    }

    open spec fn spec_align() -> nat {
        1
    }

    proof fn lemma_layout() {
    }

    proof fn lemma_payload(&self) {
        let n = self.payload().len() as int;
        assert(n % 1 == 0) by (nonlinear_arith);
    }

    proof fn lemma_is_payload_len(b: Seq<u8>) {
    }

    fn meta_size() -> (r: usize) {
        0
    }

    fn fixed_size() -> (r: usize) {
        1
    }

    fn align() -> (r: usize) {
        1
    }

    fn to_payload(&self) -> (r: Vec<u8>) {
        let mut v: Vec<u8> = Vec::new();
        v.push(*self);
        v
    }

    fn from_payload(b: Vec<u8>) -> (r: Self) {
        let r = b[0];
        assert(seq![r] =~= b@);
        r
    }
}

impl Element for () {
    open spec fn payload(&self) -> Seq<u8> {
        Seq::empty()
    }

    open spec fn is_payload(b: Seq<u8>) -> bool {
        b.len() == 0
    }

    open spec fn spec_meta_size() -> nat {
        0
    }

    open spec fn spec_fixed_size() -> nat {
        0
    }

    open spec fn spec_align() -> nat {
        1
    }

    proof fn lemma_layout() {
    }

    proof fn lemma_payload(&self) {
        let n = self.payload().len() as int;
        assert(n % 1 == 0) by (nonlinear_arith);
    }

    proof fn lemma_is_payload_len(b: Seq<u8>) {
    }

    fn meta_size() -> (r: usize) {
        0
    }

    fn fixed_size() -> (r: usize) {
        0
    }

    fn align() -> (r: usize) {
        1
    }

    fn to_payload(&self) -> (r: Vec<u8>) {
        Vec::new()
    }

    fn from_payload(b: Vec<u8>) -> (r: Self) {
        assert(b@ =~= Seq::<u8>::empty());
    }
}

/// Relies on `String::from_utf8`: it succeeds exactly on valid UTF-8, and the
/// string it returns is encoded by those very bytes.
#[verifier::external_body]
fn string_from_utf8(b: Vec<u8>) -> (r: Option<String>)
    ensures
        r is Some <==> valid_utf8(b@),
        r is Some ==> encode_utf8(r->0@) == b@,
{
    String::from_utf8(b).ok()
}

/// Text, stored as its UTF-8 bytes with the byte length in the record.
impl Element for String {
    open spec fn payload(&self) -> Seq<u8> {
        encode_utf8(self@)
    }

    open spec fn is_payload(b: Seq<u8>) -> bool {
        valid_utf8(b)
    }

    open spec fn spec_meta_size() -> nat {
        8
    }

    open spec fn spec_fixed_size() -> nat {
        0
    }

    open spec fn spec_align() -> nat {
        1
    }

    proof fn lemma_layout() {
    }

    proof fn lemma_payload(&self) {
        let n = self.payload().len() as int;
        assert(n % 1 == 0) by (nonlinear_arith);
    }

    proof fn lemma_is_payload_len(b: Seq<u8>) {
    }

    fn meta_size() -> (r: usize) {
        8
    }

    fn fixed_size() -> (r: usize) {
        0
    }

    fn align() -> (r: usize) {
        1
    }

    fn to_payload(&self) -> (r: Vec<u8>) {
        slice_to_vec(self.as_str().as_bytes())
    }

    fn from_payload(b: Vec<u8>) -> (r: Self) {
        match string_from_utf8(b) {
            Some(s) => s,
            None => String::new(),
        }
    }
}

} // verus!
