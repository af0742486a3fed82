//! Shards: the byte strings that carry the symbols of a codeword.

use vstd::prelude::*;

verus! {

/// A shard: a byte string of even length, so that it holds whole field
/// elements of two bytes each.
#[derive(Debug, PartialEq, Eq)]
pub struct WrappedShard {
    inner: Vec<u8>,
}

impl View for WrappedShard {
    type V = Seq<u8>;

    closed spec fn view(&self) -> Seq<u8> {
        self.inner@
    }
}

impl Clone for WrappedShard {
    fn clone(&self) -> (r: Self)
        ensures
            r@ == self@,
    {
        proof {
            use_type_invariant(self);
        }
        let bytes: Vec<u8> = self.inner.clone();
        assert(bytes@ =~= self.inner@);
        WrappedShard { inner: bytes }
    }
}

impl WrappedShard {
    #[verifier::type_invariant]
    spec fn even(self) -> bool {
        self.inner@.len() % 2 == 0
    }

    /// Wraps `data`; a byte string of odd length gets one zero byte more.
    pub fn new(data: Vec<u8>) -> (s: Self)
        ensures
            s@ == (if data@.len() % 2 == 0 {
                data@
            } else {
                data@.push(0u8)
            }),
    {
        let mut data = data;
        if data.len() % 2 != 0 {
            data.push(0u8);
        }
        WrappedShard { inner: data }
    }

    /// The bytes.
    pub fn into_inner(self) -> (v: Vec<u8>)
        ensures
            v@ == self@,
            v@.len() % 2 == 0,
    {
        proof {
            use_type_invariant(&self);
        }
        self.inner
    }

    /// The bytes, borrowed.
    pub fn as_slice(&self) -> (v: &[u8])
        ensures
            v@ == self@,
            v@.len() % 2 == 0,
    {
        proof {
            use_type_invariant(self);
        }
        self.inner.as_slice()
    }

    /// The number of bytes.
    pub fn len(&self) -> (n: usize)
        ensures
            n == self@.len(),
            n % 2 == 0,
    {
        proof {
            use_type_invariant(self);
        }
        self.inner.len()
    }
}

} // verus!
