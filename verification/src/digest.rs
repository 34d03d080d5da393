//! The content checksum of an entry.
use vstd::prelude::*;

verus! {

/// The MD5 digest of `data`: the 16 bytes that `md5::compute` returns for it.
pub uninterp spec fn md5_digest(data: Seq<u8>) -> Seq<u8>;

/// `md5::compute`: the digest of `data`. It is a function of the bytes alone;
/// nothing else is claimed of it here.
#[verifier::external_body]
fn compute_md5(data: &[u8]) -> (digest: [u8; 16])
    ensures
        digest@ == md5_digest(data@),
{
    md5::compute(data).0
}

/// The checksum of an entry's data: the 16 bytes of its MD5 digest.
pub open spec fn checksum(data: Seq<u8>) -> Seq<u8> {
    Seq::new(16, |i: int| md5_digest(data)[i])
}

/// Computes the checksum of `data`.
pub fn checksum_of(data: &[u8]) -> (sum: [u8; 16])
    ensures
        sum@ == checksum(data@),
{
    let sum: [u8; 16] = compute_md5(data);
    assert(sum@ =~= checksum(data@));
    sum
}

} // verus!
