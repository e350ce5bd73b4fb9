//! Hashing and account-set helpers of the bundle program.
use vstd::prelude::*;

use crate::hashing::{append_bytes, hash_pair, sha256, sha256_digest, zero_hash};

verus! {

/// The hash chain of a list of hashes: thirty-two zero bytes for an empty
/// list, else the first hash combined in turn with each following one.
pub open spec fn hash_chain(hashes: Seq<Seq<u8>>) -> Seq<u8>
    decreases hashes.len(),
{
    if hashes.len() == 0 {
        zero_hash()
    } else if hashes.len() == 1 {
        hashes[0]
    } else {
        hash_pair(hash_chain(hashes.drop_last()), hashes.last())
    }
}

/// The views of a list of 32-byte values.
pub open spec fn views32(s: Seq<[u8; 32]>) -> Seq<Seq<u8>> {
    s.map_values(|h: [u8; 32]| h@)
}

/// The bytes of a list of 32-byte hashes written one after the other.
pub open spec fn concat_hashes(hashes: Seq<[u8; 32]>) -> Seq<u8>
    decreases hashes.len(),
{
    if hashes.len() == 0 {
        Seq::empty()
    } else {
        concat_hashes(hashes.drop_last()) + hashes.last()@
    }
}

/// Whether some account of `a` also occurs in `b`.
pub open spec fn accounts_overlap(a: Seq<[u8; 32]>, b: Seq<[u8; 32]>) -> bool {
    exists|i: int, j: int| 0 <= i < a.len() && 0 <= j < b.len() && #[trigger] a[i] == #[trigger] b[j]
}

/// SHA-256 of `data`.
pub fn compute_hash(data: &[u8]) -> (out: [u8; 32])
    ensures
        out@ == sha256_digest(data@),
{
    sha256(data)
}

/// SHA-256 of `left` followed by `right`.
pub fn combine_hashes(left: &[u8; 32], right: &[u8; 32]) -> (out: [u8; 32])
    ensures
        out@ == hash_pair(left@, right@),
{
    let mut buf: Vec<u8> = Vec::new();
    append_bytes(&mut buf, left);
    append_bytes(&mut buf, right);
    sha256(buf.as_slice())
}

/// Folds a list of hashes into one: zero bytes for an empty list, else the
/// first hash combined in turn with each following one.
pub fn verify_hash_chain(hashes: &[[u8; 32]]) -> (out: [u8; 32])
    ensures
        out@ == hash_chain(views32(hashes@)),
{
    if hashes.len() == 0 {
        return [0u8; 32];
    }
    let mut current = hashes[0];
    let mut i: usize = 1;
    while i < hashes.len()
        invariant
            1 <= i <= hashes@.len(),
            current@ == hash_chain(views32(hashes@.take(i as int))),
        decreases hashes@.len() - i,
    {
        let next = combine_hashes(&current, &hashes[i]);
        proof {
            let t = views32(hashes@.take(i + 1));
            assert(t.drop_last() == views32(hashes@.take(i as int)));
            assert(t.last() == hashes@[i as int]@);
        }
        current = next;
        i = i + 1;
    }
    assert(hashes@.take(i as int) == hashes@);
    current
}

/// SHA-256 of a Merkle root followed by the little-endian bytes of an epoch
/// and of a slot.
pub fn compute_bundle_hash(merkle_root: &[u8; 32], epoch: u64, slot: u64) -> (out: [u8; 32])
    ensures
        out@ == sha256_digest(
            merkle_root@ + vstd::bytes::spec_u64_to_le_bytes(epoch)
                + vstd::bytes::spec_u64_to_le_bytes(slot),
        ),
{
    let mut buf: Vec<u8> = Vec::new();
    append_bytes(&mut buf, merkle_root);
    let e = vstd::bytes::u64_to_le_bytes(epoch);
    append_bytes(&mut buf, e.as_slice());
    let s = vstd::bytes::u64_to_le_bytes(slot);
    append_bytes(&mut buf, s.as_slice());
    sha256(buf.as_slice())
}

/// Whether the two account sets share an account.
pub fn check_account_overlap(set_a: &[[u8; 32]], set_b: &[[u8; 32]]) -> (r: bool)
    ensures
        r == accounts_overlap(set_a@, set_b@),
{
    let mut i: usize = 0;
    while i < set_a.len()
        invariant
            i <= set_a@.len(),
            forall|x: int, y: int| 0 <= x < i && 0 <= y < set_b@.len() ==> set_a@[x] != set_b@[y],
        decreases set_a@.len() - i,
    {
        let mut j: usize = 0;
        while j < set_b.len()
            invariant
                i < set_a@.len(),
                j <= set_b@.len(),
                forall|x: int, y: int| 0 <= x < i && 0 <= y < set_b@.len() ==> set_a@[x] != set_b@[y],
                forall|y: int| 0 <= y < j ==> set_a@[i as int] != set_b@[y],
            decreases set_b@.len() - j,
        {
            if crate::hashing::bytes32_eq(&set_a[i], &set_b[j]) {
                return true;
            }
            j = j + 1;
        }
        i = i + 1;
    }
    false
}

/// Two account sets overlap exactly when they overlap the other way round.
pub proof fn lemma_overlap_symmetric(a: Seq<[u8; 32]>, b: Seq<[u8; 32]>)
    ensures
        accounts_overlap(a, b) == accounts_overlap(b, a),
{
    if accounts_overlap(a, b) {
        let (i, j) = choose|i: int, j: int| 0 <= i < a.len() && 0 <= j < b.len() && a[i] == b[j];
        assert(b[j] == a[i]);
    }
    if accounts_overlap(b, a) {
        let (i, j) = choose|i: int, j: int| 0 <= i < b.len() && 0 <= j < a.len() && b[i] == a[j];
        assert(a[j] == b[i]);
    }
}

/// The hashes written one after the other take 32 bytes each: byte `j` of
/// hash `i` is at position `32 * i + j`.
pub proof fn lemma_concat_hashes_layout(hashes: Seq<[u8; 32]>)
    ensures
        concat_hashes(hashes).len() == 32 * hashes.len(),
        forall|i: int, j: int|
            0 <= i < hashes.len() && 0 <= j < 32 ==> #[trigger] concat_hashes(hashes)[32 * i + j]
                == hashes[i]@[j],
    decreases hashes.len(),
{
    if hashes.len() > 0 {
        let init = hashes.drop_last();
        lemma_concat_hashes_layout(init);
        assert forall|i: int, j: int|
            0 <= i < hashes.len() && 0 <= j < 32 implies #[trigger] concat_hashes(hashes)[32 * i + j]
                == hashes[i]@[j] by {
            if i < hashes.len() - 1 {
                assert(concat_hashes(init)[32 * i + j] == init[i]@[j]);
            }
        }
    }
}

/// The chain of no hash is thirty-two zero bytes and of one hash that
/// hash; a longer chain is SHA-256 of the chain without its last hash
/// followed by that last hash.
pub proof fn lemma_hash_chain_steps(hashes: Seq<Seq<u8>>, x: Seq<u8>)
    ensures
        hash_chain(Seq::<Seq<u8>>::empty()) == Seq::new(32, |i: int| 0u8),
        hash_chain(seq![x]) == x,
        hashes.len() >= 1 ==> hash_chain(hashes.push(x)) == sha256_digest(hash_chain(hashes) + x),
{
    if hashes.len() >= 1 {
        assert(hashes.push(x).drop_last() =~= hashes);
    }
}

/// Two account sets overlap exactly when some account is in both.
pub proof fn lemma_overlap_is_common_account(a: Seq<[u8; 32]>, b: Seq<[u8; 32]>)
    ensures
        accounts_overlap(a, b) <==> exists|x: [u8; 32]| #[trigger] a.contains(x) && b.contains(x),
{
    if accounts_overlap(a, b) {
        let (i, j) = choose|i: int, j: int| 0 <= i < a.len() && 0 <= j < b.len() && a[i] == b[j];
        assert(a.contains(a[i]) && b.contains(a[i]));
    }
    if exists|x: [u8; 32]| #[trigger] a.contains(x) && b.contains(x) {
        let x = choose|x: [u8; 32]| #[trigger] a.contains(x) && b.contains(x);
        let i = choose|i: int| 0 <= i < a.len() && a[i] == x;
        let j = choose|j: int| 0 <= j < b.len() && b[j] == x;
        assert(a[i] == b[j]);
    }
}

} // verus!
