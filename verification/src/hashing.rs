//! The slot-placement hash: a byte-folding digest computed with the SDBM
//! mixing recurrence `acc = byte + (acc << 6) + (acc << 16) - acc`, where all
//! arithmetic wraps on overflow.

use vstd::prelude::*;

use crate::hash_key::HashKey;

verus! {

/// One step of the SDBM recurrence: fold `byte` into the accumulator `acc`.
pub open spec fn sdbm_step(acc: usize, byte: u8) -> usize {
    (byte as usize).wrapping_add(acc << 6).wrapping_add(acc << 16).wrapping_sub(acc)
}

/// The SDBM digest of a byte sequence: the recurrence folded over the bytes
/// in order, starting from 0.
pub open spec fn sdbm_hash(bytes: Seq<u8>) -> usize
    decreases bytes.len(),
{
    if bytes.len() == 0 {
        0
    } else {
        sdbm_step(sdbm_hash(bytes.drop_last()), bytes.last())
    }
}

/// Computes the SDBM digest of `bytes`.
pub fn sdbm_of(bytes: &Vec<u8>) -> (r: usize)
    ensures
        r == sdbm_hash(bytes@),
{
    let mut h: usize = 0;
    let mut i: usize = 0;
    while i < bytes.len()
        invariant
            i <= bytes.len(),
            h == sdbm_hash(bytes@.take(i as int)),
        decreases bytes.len() - i,
    {
        proof {
            assert(bytes@.take(i + 1).drop_last() =~= bytes@.take(i as int));
            assert(bytes@.take(i + 1).last() == bytes@[i as int]);
        }
        h = (bytes[i] as usize).wrapping_add(h << 6).wrapping_add(h << 16).wrapping_sub(h);
        i = i + 1;
    }
    proof {
        assert(bytes@.take(bytes@.len() as int) =~= bytes@);
    }
    h
}

/// Computes the digest of a key: the SDBM hash of its canonical byte
/// serialization.
pub fn hash<K: HashKey>(key: &K) -> (r: usize)
    ensures
        r == sdbm_hash(key.bytes_spec()),
{
    let bytes = key.to_bytes();
    sdbm_of(&bytes)
}

} // verus!
