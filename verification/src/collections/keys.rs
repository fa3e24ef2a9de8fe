//! Keys of the library's collections: values compared by their model.
use vstd::prelude::*;
use crate::primitives::types;

verus! {

/// A key that can be compared with another by its model (its view).
pub trait KeyModel: View + Sized {
    fn same_key(&self, other: &Self) -> (b: bool)
        ensures
            b == (self@ == other@),
    ;
}

impl View for types::Hash {
    type V = types::Hash;

    open spec fn view(&self) -> types::Hash {
        *self
    }
}

impl KeyModel for types::Hash {
    fn same_key(&self, other: &Self) -> (b: bool) {
        *self == *other
    }
}

impl KeyModel for String {
    fn same_key(&self, other: &Self) -> (b: bool) {
        *self == *other
    }
}

/// Byte-wise equality of two byte strings.
pub fn bytes_equal(a: &[u8], b: &[u8]) -> (r: bool)
    ensures
        r == (a@ == b@),
{
    if a.len() != b.len() {
        return false;
    }
    let mut i: usize = 0;
    while i < a.len()
        invariant
            a@.len() == b@.len(),
            0 <= i <= a@.len(),
            forall|j: int| 0 <= j < i ==> a@[j] == b@[j],
        decreases a@.len() - i,
    {
        if a[i] != b[i] {
            return false;
        }
        i = i + 1;
    }
    assert(a@ =~= b@);
    true
}

/// Equality of two texts, decided on their UTF-8 bytes.
pub fn str_equal(a: &str, b: &str) -> (r: bool)
    ensures
        r == (a@ == b@),
{
    broadcast use vstd::utf8::encode_utf8_decode_utf8;

    let eq = bytes_equal(a.as_bytes(), b.as_bytes());
    proof {
        if eq {
            assert(vstd::utf8::decode_utf8(vstd::utf8::encode_utf8(a@)) == a@);
            assert(vstd::utf8::decode_utf8(vstd::utf8::encode_utf8(b@)) == b@);
        }
    }
    eq
}

} // verus!
