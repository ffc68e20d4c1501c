//! What the trie asks of a key.
use vstd::prelude::*;
use vstd::string::*;

verus! {

/// A key of the map.
///
/// A key is known to the trie only through its identifying bytes: two values
/// are the same key exactly when their bytes agree, and the bytes alone decide
/// where in the trie the key lives.
pub trait Key: Sized {
    /// The bytes that identify this key.
    spec fn ident(&self) -> Seq<u8>;

    /// Writes the identifying bytes out.
    fn to_bytes(&self) -> (bytes: Vec<u8>)
        ensures
            bytes@ == self.ident(),
    ;

    /// Whether two values are the same key.
    fn same(&self, other: &Self) -> (r: bool)
        ensures
            r == (self.ident() == other.ident()),
    ;
}

impl Key for u64 {
    open spec fn ident(&self) -> Seq<u8> {
        vstd::bytes::spec_u64_to_le_bytes(*self)
    }

    fn to_bytes(&self) -> (bytes: Vec<u8>) {
        vstd::bytes::u64_to_le_bytes(*self)
    }

    fn same(&self, other: &Self) -> (r: bool) {
        proof {
            vstd::bytes::lemma_auto_spec_u64_to_from_le_bytes();
        }
        *self == *other
    }
}

impl Key for u32 {
    open spec fn ident(&self) -> Seq<u8> {
        vstd::bytes::spec_u32_to_le_bytes(*self)
    }

    fn to_bytes(&self) -> (bytes: Vec<u8>) {
        vstd::bytes::u32_to_le_bytes(*self)
    }

    fn same(&self, other: &Self) -> (r: bool) {
        proof {
            vstd::bytes::lemma_auto_spec_u32_to_from_le_bytes();
            assert(vstd::bytes::spec_u32_to_le_bytes(*self).len() == 4);
            assert(vstd::bytes::spec_u32_to_le_bytes(*other).len() == 4);
        }
        *self == *other
    }
}

impl Key for i32 {
    open spec fn ident(&self) -> Seq<u8> {
        vstd::bytes::spec_u32_to_le_bytes(*self as u32)
    }

    fn to_bytes(&self) -> (bytes: Vec<u8>) {
        vstd::bytes::u32_to_le_bytes(*self as u32)
    }

    fn same(&self, other: &Self) -> (r: bool) {
        let a: i32 = *self;
        let b: i32 = *other;
        proof {
            vstd::bytes::lemma_auto_spec_u32_to_from_le_bytes();
            assert(vstd::bytes::spec_u32_to_le_bytes(a as u32).len() == 4);
            assert(vstd::bytes::spec_u32_to_le_bytes(b as u32).len() == 4);
            assert(a as u32 == b as u32 ==> a == b) by (bit_vector);
        }
        a == b
    }
}

impl Key for i64 {
    open spec fn ident(&self) -> Seq<u8> {
        vstd::bytes::spec_u64_to_le_bytes(*self as u64)
    }

    fn to_bytes(&self) -> (bytes: Vec<u8>) {
        vstd::bytes::u64_to_le_bytes(*self as u64)
    }

    fn same(&self, other: &Self) -> (r: bool) {
        let a: i64 = *self;
        let b: i64 = *other;
        proof {
            vstd::bytes::lemma_auto_spec_u64_to_from_le_bytes();
            assert(a as u64 == b as u64 ==> a == b) by (bit_vector);
        }
        a == b
    }
}

impl Key for usize {
    open spec fn ident(&self) -> Seq<u8> {
        vstd::bytes::spec_u64_to_le_bytes(*self as u64)
    }

    fn to_bytes(&self) -> (bytes: Vec<u8>) {
        vstd::bytes::u64_to_le_bytes(*self as u64)
    }

    fn same(&self, other: &Self) -> (r: bool) {
        proof {
            vstd::bytes::lemma_auto_spec_u64_to_from_le_bytes();
        }
        *self == *other
    }
}

impl Key for u16 {
    open spec fn ident(&self) -> Seq<u8> {
        vstd::bytes::spec_u16_to_le_bytes(*self)
    }

    fn to_bytes(&self) -> (bytes: Vec<u8>) {
        vstd::bytes::u16_to_le_bytes(*self)
    }

    fn same(&self, other: &Self) -> (r: bool) {
        proof {
            vstd::bytes::lemma_auto_spec_u16_to_from_le_bytes();
            assert(vstd::bytes::spec_u16_to_le_bytes(*self).len() == 2);
            assert(vstd::bytes::spec_u16_to_le_bytes(*other).len() == 2);
        }
        *self == *other
    }
}

impl Key for u8 {
    open spec fn ident(&self) -> Seq<u8> {
        seq![*self]
    }

    fn to_bytes(&self) -> (bytes: Vec<u8>) {
        let mut bytes: Vec<u8> = Vec::new();
        bytes.push(*self);
        assert(bytes@ =~= seq![*self]);
        bytes
    }

    fn same(&self, other: &Self) -> (r: bool) {
        assert(seq![*self][0] == *self);
        assert(seq![*other][0] == *other);
        *self == *other
    }
}

impl Key for Vec<u8> {
    open spec fn ident(&self) -> Seq<u8> {
        self@
    }

    fn to_bytes(&self) -> (bytes: Vec<u8>) {
        vstd::slice::slice_to_vec(self.as_slice())
    }

    fn same(&self, other: &Self) -> (r: bool) {
        bytes_agree(self.as_slice(), other.as_slice())
    }
}

/// Whether two runs of bytes are the same run.
pub fn bytes_agree(a: &[u8], b: &[u8]) -> (r: bool)
    ensures
        r == (a@ == b@),
{
    if a.len() != b.len() {
        return false;
    }
    let mut i: usize = 0;
    while i < a.len()
        invariant
            a@.len() == b@.len(),
            i <= a@.len(),
            forall|j: int| 0 <= j < i ==> a@[j] == b@[j],
        decreases a@.len() - i,
    {
        if a[i] != b[i] {
            return false;
        }
        i = i + 1;
    }
    assert(a@ =~= b@);
    true
}

impl<'a> Key for &'a str {
    open spec fn ident(&self) -> Seq<u8> {
        vstd::utf8::encode_utf8(self@)
    }

    fn to_bytes(&self) -> (bytes: Vec<u8>) {
        vstd::slice::slice_to_vec(self.as_bytes())
    }

    fn same(&self, other: &Self) -> (r: bool) {
        bytes_agree(self.as_bytes(), other.as_bytes())
    }
}

impl Key for String {
    open spec fn ident(&self) -> Seq<u8> {
        vstd::utf8::encode_utf8(self@)
    }

    fn to_bytes(&self) -> (bytes: Vec<u8>) {
        vstd::slice::slice_to_vec(self.as_str().as_bytes())
    }

    fn same(&self, other: &Self) -> (r: bool) {
        bytes_agree(self.as_str().as_bytes(), other.as_str().as_bytes())
    }
}

} // verus!
