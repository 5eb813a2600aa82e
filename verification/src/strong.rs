//! The strong hash that confirms a match of weak checksums.

use vstd::prelude::*;

verus! {

/// The BLAKE3 digest of `data`.
pub uninterp spec fn blake3_digest(data: Seq<u8>) -> Seq<u8>;

/// Calls `blake3::hash` and takes the 32 raw bytes of its result with
/// `Hash::as_bytes`. The contract names that result and claims only that it
/// depends on the hashed bytes alone. Nothing is claimed about collisions.
#[verifier::external_body]
pub(crate) fn strong_hash(data: &[u8]) -> (r: [u8; 32])
    ensures
        r@ == blake3_digest(data@),
{
    *blake3::hash(data).as_bytes()
}

/// Tells whether two digests hold the same bytes.
pub fn digests_equal(x: &[u8; 32], y: &[u8; 32]) -> (r: bool)
    ensures
        r <==> x@ == y@,
{
    let mut i: usize = 0;
    while i < 32
        invariant
            i <= 32,
            forall|j: int| 0 <= j < i ==> x@[j] == y@[j],
        decreases 32 - i,
    {
        if x[i] != y[i] {
            assert(x@[i as int] != y@[i as int]);
            return false;
        }
        i = i + 1;
    }
    assert(x@ =~= y@);
    true
}

/// Compares the strong hash of a destination block with the bytes of `src_buf`:
/// true when the digest of `src_buf` is `dst_strong`.
pub fn check_hash(dst_strong: &[u8; 32], src_buf: &[u8]) -> (r: bool)
    ensures
        r <==> dst_strong@ == blake3_digest(src_buf@),
{
    let src_strong = strong_hash(src_buf);
    digests_equal(dst_strong, &src_strong)
}

} // verus!
