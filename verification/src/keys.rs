//! Entity key encoding.
//!
//! Every key type maps to a byte sequence whose lexicographic order is
//! meaningful: unsigned integers use fixed-width big-endian bytes, strings
//! their UTF-8 bytes, and tuples the concatenation of their parts.  The
//! concatenation rule is load-bearing: a child entity keyed by
//! `(parent_key, local_id)` lives under a key that begins with its
//! parent's encoding, so one prefix scan finds exactly the children.

use vstd::prelude::*;
use vstd::utf8::encode_utf8;
use crate::codec::{is_prefix_of, u32_be, write_u32};

verus! {

/// A type usable as an entity key: it has a fixed byte encoding.
pub trait AsBytes: Sized {
    /// The byte encoding of this key.
    spec fn key_enc(&self) -> Seq<u8>;

    /// Produces the byte encoding of this key.
    fn key_bytes(&self) -> (b: Vec<u8>)
        ensures
            b@ == self.key_enc(),
    ;

    /// An owned copy of this key.
    fn dup(&self) -> (r: Self)
        ensures
            r == *self,
    ;
}

impl AsBytes for u32 {
    open spec fn key_enc(&self) -> Seq<u8> {
        u32_be(*self)
    }

    fn key_bytes(&self) -> (b: Vec<u8>)
        ensures
            b@ == self.key_enc(),
    {
        let mut b: Vec<u8> = Vec::new();
        write_u32(&mut b, *self);
        b
    }

    fn dup(&self) -> (r: Self)
        ensures
            r == *self,
    {
        *self
    }
}

impl AsBytes for String {
    open spec fn key_enc(&self) -> Seq<u8> {
        encode_utf8(self@)
    }

    fn key_bytes(&self) -> (b: Vec<u8>)
        ensures
            b@ == self.key_enc(),
    {
        vstd::string::StrSliceExecFns::as_bytes_vec(self.as_str())
    }

    fn dup(&self) -> (r: Self)
        ensures
            r == *self,
    {
        self.clone()
    }
}

impl<A: AsBytes, B: AsBytes> AsBytes for (A, B) {
    open spec fn key_enc(&self) -> Seq<u8> {
        self.0.key_enc() + self.1.key_enc()
    }

    fn key_bytes(&self) -> (b: Vec<u8>)
        ensures
            b@ == self.key_enc(),
    {
        let mut b = self.0.key_bytes();
        let second = self.1.key_bytes();
        crate::codec::write_bytes(&mut b, &second);
        b
    }

    fn dup(&self) -> (r: Self)
        ensures
            r == *self,
    {
        let r = (self.0.dup(), self.1.dup());
        assert(r == *self);
        r
    }
}

/// A compound child key starts with the byte encoding of its parent key,
/// whatever the local id: the declared-child invariant of the data model.
pub proof fn lemma_child_key_prefix<K: AsBytes>(key: (K, u32))
    ensures
        is_prefix_of(key.0.key_enc(), key.key_enc()),
{
    assert((key.0.key_enc() + key.1.key_enc()).take(key.0.key_enc().len() as int)
        =~= key.0.key_enc());
}

} // verus!
