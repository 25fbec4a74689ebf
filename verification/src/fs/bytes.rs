//! Small byte-vector helpers shared by the FAT modules.

use vstd::prelude::*;

verus! {

/// A fresh all-zero 512-byte sector buffer.
pub fn zero_sector() -> (v: Vec<u8>)
    ensures
        v@.len() == 512,
        forall|i: int| 0 <= i < 512 ==> v@[i] == 0u8,
{
    let mut v: Vec<u8> = Vec::new();
    let mut k: usize = 0;
    while k < 512
        invariant
            k <= 512,
            v@.len() == k,
            forall|i: int| 0 <= i < k ==> v@[i] == 0u8,
        decreases 512 - k,
    {
        v.push(0u8);
        k = k + 1;
    }
    v
}

/// An exact copy of a byte vector.
pub fn clone_bytes(src: &Vec<u8>) -> (v: Vec<u8>)
    ensures
        v@ == src@,
{
    let mut v: Vec<u8> = Vec::new();
    let mut k: usize = 0;
    while k < src.len()
        invariant
            k <= src@.len(),
            v@.len() == k,
            forall|i: int| 0 <= i < k ==> v@[i] == src@[i],
        decreases src@.len() - k,
    {
        v.push(src[k]);
        k = k + 1;
    }
    proof {
        assert(v@ =~= src@);
    }
    v
}

/// The `len` bytes of `src` starting at `start`, as a fresh vector.
pub fn take_bytes(src: &Vec<u8>, start: usize, len: usize) -> (v: Vec<u8>)
    requires
        start + len <= src@.len(),
    ensures
        v@ == src@.subrange(start as int, start + len),
{
    let src_len = src.len();
    let mut v: Vec<u8> = Vec::new();
    let mut k: usize = 0;
    while k < len
        invariant
            k <= len,
            start + len <= src_len,
            src_len == src@.len(),
            v@.len() == k,
            forall|i: int| 0 <= i < k ==> v@[i] == src@[start + i],
        decreases len - k,
    {
        v.push(src[start + k]);
        k = k + 1;
    }
    proof {
        assert(v@ =~= src@.subrange(start as int, start + len));
    }
    v
}

} // verus!
