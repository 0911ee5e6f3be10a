//! Keyed-hash engine: the standard HMAC construction over SHA-256, with a
//! 64-byte block and a 32-byte key padded with zero bytes up to the block size.

use vstd::prelude::*;
use sha2::Digest;

verus! {

/// Byte XORed into the padded key for the inner hash pass.
pub const IPAD: u8 = 0x36;

/// Byte XORed into the padded key for the outer hash pass.
pub const OPAD: u8 = 0x5c;

/// The digest that SHA-256 assigns to a byte sequence.
pub uninterp spec fn sha256_of(m: Seq<u8>) -> Seq<u8>;

/// Relies on sha2::Sha256 (through the Digest trait): the digest is a function
/// of the input bytes alone, and is always exactly 32 bytes long.
#[verifier::external_body]
fn sha256(m: &Vec<u8>) -> (r: Vec<u8>)
    ensures
        r@ == sha256_of(m@),
        r@.len() == 32,
{
    sha2::Sha256::digest(m.as_slice()).to_vec()
}

/// A sequence of `n` zero bytes.
pub open spec fn zero_bytes(n: nat) -> Seq<u8> {
    Seq::new(n, |i: int| 0u8)
}

/// Each byte of `s` XORed with `p`.
pub open spec fn xor_bytes(s: Seq<u8>, p: u8) -> Seq<u8> {
    Seq::new(s.len(), |i: int| s[i] ^ p)
}

/// A 32-byte key padded with zero bytes to the 64-byte block size.
pub open spec fn padded_key(key: Seq<u8>) -> Seq<u8> {
    key + zero_bytes(32)
}

/// The keyed hash of `m` under `key`: the outer SHA-256 pass over the
/// OPAD-masked key and the inner digest, the inner pass over the IPAD-masked
/// key and the message.
pub open spec fn hmac_of(m: Seq<u8>, key: Seq<u8>) -> Seq<u8> {
    sha256_of(xor_bytes(padded_key(key), OPAD) + sha256_of(xor_bytes(padded_key(key), IPAD) + m))
}

/// Appends every byte of `src` to `dst`.
pub fn push_bytes(dst: &mut Vec<u8>, src: &Vec<u8>)
    ensures
        final(dst)@ == old(dst)@ + src@,
{
    let mut i: usize = 0;
    while i < src.len()
        invariant
            i <= src@.len(),
            dst@ == old(dst)@ + src@.subrange(0, i as int),
        decreases src@.len() - i,
    {
        dst.push(src[i]);
        proof {
            assert(old(dst)@ + src@.subrange(0, i as int) + seq![src@[i as int]]
                =~= old(dst)@ + src@.subrange(0, i + 1));
        }
        i = i + 1;
    }
    proof {
        assert(src@.subrange(0, src@.len() as int) =~= src@);
    }
}

/// Stateless keyed-hash engine.
pub struct KeyedHashEngine;

impl KeyedHashEngine {
    /// Computes the 32-byte keyed hash of `message` under the 32-byte `key`.
    pub fn compute(message: &Vec<u8>, key: &Vec<u8>) -> (digest: Vec<u8>)
        requires
            key@.len() == 32,
        ensures
            digest@ == hmac_of(message@, key@),
            digest@.len() == 32,
    {
        let mut key_padded: Vec<u8> = Vec::new();
        push_bytes(&mut key_padded, key);
        while key_padded.len() < 64
            invariant
                32 <= key_padded@.len() <= 64,
                key_padded@ == key@ + zero_bytes((key_padded@.len() - 32) as nat),
            decreases 64 - key_padded@.len(),
        {
            key_padded.push(0u8);
            proof {
                assert(key_padded@ =~= key@ + zero_bytes((key_padded@.len() - 32) as nat));
            }
        }
        proof {
            assert(key_padded@ =~= padded_key(key@));
        }

        let mut inner: Vec<u8> = Vec::new();
        let mut i: usize = 0;
        while i < 64
            invariant
                i <= 64,
                key_padded@ == padded_key(key@),
                key_padded@.len() == 64,
                inner@ == xor_bytes(key_padded@, IPAD).subrange(0, i as int),
            decreases 64 - i,
        {
            inner.push(key_padded[i] ^ IPAD);
            proof {
                assert(inner@ =~= xor_bytes(key_padded@, IPAD).subrange(0, i + 1));
            }
            i = i + 1;
        }
        proof {
            assert(inner@ =~= xor_bytes(padded_key(key@), IPAD));
        }
        push_bytes(&mut inner, message);
        let inner_digest = sha256(&inner);

        let mut outer: Vec<u8> = Vec::new();
        i = 0;
        while i < 64
            invariant
                i <= 64,
                key_padded@ == padded_key(key@),
                key_padded@.len() == 64,
                outer@ == xor_bytes(key_padded@, OPAD).subrange(0, i as int),
            decreases 64 - i,
        {
            outer.push(key_padded[i] ^ OPAD);
            proof {
                assert(outer@ =~= xor_bytes(key_padded@, OPAD).subrange(0, i + 1));
            }
            i = i + 1;
        }
        proof {
            assert(outer@ =~= xor_bytes(padded_key(key@), OPAD));
        }
        push_bytes(&mut outer, &inner_digest);
        sha256(&outer)
    }
}

} // verus!
