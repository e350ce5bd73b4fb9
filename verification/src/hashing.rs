//! SHA-256 and the byte-level helpers that hashing builds on.
use vstd::prelude::*;

use sha2::Digest;

verus! {

/// The SHA-256 digest of a byte string.
pub uninterp spec fn sha256_digest(data: Seq<u8>) -> Seq<u8>;

/// The digest of two 32-byte values written one after the other.
pub open spec fn hash_pair(left: Seq<u8>, right: Seq<u8>) -> Seq<u8> {
    sha256_digest(left + right)
}

/// Thirty-two zero bytes.
pub open spec fn zero_hash() -> Seq<u8> {
    Seq::new(32, |i: int| 0u8)
}

/// The array of thirty-two zero bytes.
pub open spec fn zero_bytes32() -> [u8; 32] {
    vstd::array::spec_array_fill_for_copy_type::<u8, 32>(0u8)
}

/// The SHA-256 digest of `data` as an array of thirty-two bytes.
pub open spec fn sha256_array(data: Seq<u8>) -> [u8; 32] {
    choose|a: [u8; 32]| a@ == sha256_digest(data)
}

/// An array that holds the digest of `data` is `sha256_array(data)`.
pub proof fn lemma_sha256_array(data: Seq<u8>, out: [u8; 32])
    requires
        out@ == sha256_digest(data),
    ensures
        out == sha256_array(data),
{
    let a = sha256_array(data);
    assert(a@ == sha256_digest(data));
    assert(a =~= out);
}

/// Calls `sha2::Sha256::digest` (the provided method `Digest::digest` of
/// the `sha2` crate) on `data`. Trusted: the 32 bytes returned are the
/// SHA-256 digest of `data`, that is `sha256_digest` of the input bytes.
#[verifier::external_body]
pub(crate) fn sha256(data: &[u8]) -> (out: [u8; 32])
    ensures
        out@ == sha256_digest(data@),
{
    sha2::Sha256::digest(data).into()
}

/// Whether two 32-byte values are equal.
pub fn bytes32_eq(a: &[u8; 32], b: &[u8; 32]) -> (r: bool)
    ensures
        r == (a@ == b@),
        r == (*a == *b),
{
    let mut i: usize = 0;
    while i < 32
        invariant
            i <= 32,
            a@.len() == 32,
            b@.len() == 32,
            forall|k: int| 0 <= k < i ==> a@[k] == b@[k],
        decreases 32 - i,
    {
        if a[i] != b[i] {
            return false;
        }
        i = i + 1;
    }
    assert(a@ =~= b@);
    assert(*a =~= *b);
    true
}

/// Appends `data` to `buf`.
pub fn append_bytes(buf: &mut Vec<u8>, data: &[u8])
    ensures
        final(buf)@ == old(buf)@ + data@,
{
    let ghost start = buf@;
    let mut i: usize = 0;
    while i < data.len()
        invariant
            i <= data@.len(),
            buf@ == start + data@.take(i as int),
        decreases data@.len() - i,
    {
        buf.push(data[i]);
        assert(data@.take(i + 1) == data@.take(i as int).push(data@[i as int]));
        i = i + 1;
    }
    assert(data@.take(i as int) == data@);
}

/// Whether `data` is thirty-two zero bytes.
pub fn is_zero_hash(data: &[u8; 32]) -> (r: bool)
    ensures
        r == (data@ == zero_hash()),
{
    let zero = [0u8; 32];
    assert(zero@ =~= zero_hash());
    bytes32_eq(data, &zero)
}

/// Combining two hashes is SHA-256 of the left one followed by the right
/// one.
pub proof fn lemma_hash_pair_left_then_right(left: Seq<u8>, right: Seq<u8>)
    ensures
        hash_pair(left, right) == sha256_digest(left + right),
        zero_hash().len() == 32,
        forall|i: int| 0 <= i < 32 ==> #[trigger] zero_hash()[i] == 0u8,
{
}

} // verus!
