//! A simple growable packet buffer.

use vstd::prelude::*;

verus! {

/// A packet buffer backed by a byte vector.
pub struct PacketBuf {
    data: Vec<u8>,
}

impl PacketBuf {
    /// The bytes held so far.
    pub closed spec fn view(&self) -> Seq<u8> {
        self.data@
    }

    /// An empty buffer with room for `cap` bytes.
    pub fn with_capacity(cap: usize) -> (p: PacketBuf)
        ensures
            p@ == Seq::<u8>::empty(),
    {
        PacketBuf { data: Vec::with_capacity(cap) }
    }

    pub fn len(&self) -> (n: usize)
        ensures
            n == self@.len(),
    {
        self.data.len()
    }

    pub fn as_slice(&self) -> (s: &[u8])
        ensures
            s@ == self@,
    {
        self.data.as_slice()
    }

    /// Append the bytes of `b`.
    pub fn push_bytes(&mut self, b: &[u8])
        ensures
            final(self)@ == old(self)@ + b@,
    {
        let mut k: usize = 0;
        while k < b.len()
            invariant
                k <= b@.len(),
                self.data@ == old(self).data@ + b@.subrange(0, k as int),
            decreases b@.len() - k,
        {
            self.data.push(b[k]);
            proof {
                assert(old(self).data@ + b@.subrange(0, k + 1) =~= (old(self).data@
                    + b@.subrange(0, k as int)).push(b@[k as int]));
            }
            k = k + 1;
        }
        proof {
            assert(b@.subrange(0, b@.len() as int) =~= b@);
        }
    }
}

} // verus!
