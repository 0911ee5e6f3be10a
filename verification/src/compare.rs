//! Constant-time comparison of two 32-byte digests: the bytes are XORed
//! pairwise and folded with bitwise OR into one accumulator, which is tested
//! only after the whole length has been walked, so the number of operations
//! does not depend on where the inputs first differ.

use vstd::prelude::*;

verus! {

/// Compares two 32-byte digests without short-circuiting on the first
/// mismatch.
pub fn secure_equal(a: &Vec<u8>, b: &Vec<u8>) -> (r: bool)
    requires
        a@.len() == 32,
        b@.len() == 32,
    ensures
        r == (a@ == b@),
{
    let mut acc: u8 = 0;
    let mut i: usize = 0;
    while i < 32
        invariant
            i <= 32,
            a@.len() == 32,
            b@.len() == 32,
            (acc == 0) <==> (forall|j: int| 0 <= j < i ==> a@[j] == b@[j]),
        decreases 32 - i,
    {
        let x = a[i];
        let y = b[i];
        let d = x ^ y;
        proof {
            assert((x ^ y == 0) == (x == y)) by (bit_vector);
        }
        let next = acc | d;
        proof {
            assert((acc | d == 0) == (acc == 0 && d == 0)) by (bit_vector);
        }
        acc = next;
        i = i + 1;
    }
    if acc == 0 {
        proof {
            assert(a@ =~= b@);
        }
        true
    } else {
        false
    }
}

} // verus!
