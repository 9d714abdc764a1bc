//! Byte buffers read back to front.
//!
//! The parser keeps each buffer reversed, so that popping yields the next
//! byte of the file. `pop_order` is the file order of such a buffer.
use vstd::prelude::*;

verus! {

/// The bytes of a reversed buffer in the order they are read.
pub open spec fn pop_order(v: Seq<u8>) -> Seq<u8> {
    Seq::new(v.len(), |i: int| v[v.len() - 1 - i])
}

/// The `p`-th byte to be read from a reversed buffer.
pub fn byte_at(data: &Vec<u8>, p: usize) -> (b: u8)
    requires
        p < data@.len(),
    ensures
        b == pop_order(data@)[p as int],
{
    data[data.len() - 1 - p]
}

/// A buffer of the bytes in reverse, so that popping yields them in order.
pub fn reversed_bytes(data: &Vec<u8>) -> (res: Vec<u8>)
    ensures
        pop_order(res@) == data@,
{
    let n = data.len();
    let mut reversed: Vec<u8> = Vec::new();
    let mut i: usize = 0;
    while i < n
        invariant
            n == data@.len(),
            i <= n,
            reversed@.len() == i,
            forall|j: int| 0 <= j < i ==> reversed@[j] == data@[n - 1 - j],
        decreases n - i,
    {
        reversed.push(data[n - 1 - i]);
        i = i + 1;
    }
    assert(pop_order(reversed@) =~= data@);
    reversed
}

} // verus!
