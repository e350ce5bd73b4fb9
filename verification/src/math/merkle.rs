//! Merkle trees over 32-byte transaction hashes.
use vstd::prelude::*;

use crate::hashing::{bytes32_eq, hash_pair, sha256_digest, zero_hash};
use crate::program::utils::{combine_hashes, views32};

verus! {

/// The level above `level`: each pair of neighbours hashed together, a last
/// unpaired element hashed with itself.
pub open spec fn next_level(level: Seq<Seq<u8>>) -> Seq<Seq<u8>> {
    Seq::new(
        ((level.len() + 1) / 2) as nat,
        |i: int|
            hash_pair(
                level[2 * i],
                if 2 * i + 1 < level.len() {
                    level[2 * i + 1]
                } else {
                    level[2 * i]
                },
            ),
    )
}

/// The Merkle root: zero bytes for no leaves, the leaf itself for one leaf,
/// else the root of the next level.
pub open spec fn merkle_root(level: Seq<Seq<u8>>) -> Seq<u8>
    decreases level.len(),
{
    if level.len() == 0 {
        zero_hash()
    } else if level.len() == 1 {
        level[0]
    } else {
        merkle_root(next_level(level))
    }
}

/// The neighbour of position `idx` on a level: the other element of its
/// pair, or the element itself when it has no partner.
pub open spec fn sibling(level: Seq<Seq<u8>>, idx: int) -> Seq<u8> {
    let s = if idx % 2 == 0 {
        idx + 1
    } else {
        idx - 1
    };
    if s < level.len() {
        level[s]
    } else {
        level[idx]
    }
}

/// The siblings met on the way from leaf `idx` up to the root.
pub open spec fn merkle_path(level: Seq<Seq<u8>>, idx: int) -> Seq<Seq<u8>>
    decreases level.len(),
{
    if level.len() <= 1 {
        Seq::empty()
    } else {
        seq![sibling(level, idx)] + merkle_path(next_level(level), idx / 2)
    }
}

/// The value reached by hashing `computed` with each sibling of `proof` in
/// turn, on the left or the right as the position `idx` says.
pub open spec fn fold_path(computed: Seq<u8>, proof: Seq<Seq<u8>>, idx: int) -> Seq<u8>
    decreases proof.len(),
{
    if proof.len() == 0 {
        computed
    } else {
        fold_path(
            if idx % 2 == 0 {
                hash_pair(computed, proof[0])
            } else {
                hash_pair(proof[0], computed)
            },
            proof.drop_first(),
            idx / 2,
        )
    }
}

/// A Merkle tree over 32-byte leaves.
#[derive(Debug, Clone)]
pub struct MerkleTree {
    leaves: Vec<[u8; 32]>,
}

/// The level above `level`, computed.
fn hash_level(level: &Vec<[u8; 32]>) -> (next: Vec<[u8; 32]>)
    ensures
        views32(next@) == next_level(views32(level@)),
{
    let ghost lv = views32(level@);
    let n = level.len();
    let half = n / 2 + n % 2;
    let mut next: Vec<[u8; 32]> = Vec::new();
    let mut i: usize = 0;
    while i < half
        invariant
            n == level@.len(),
            lv == views32(level@),
            half == (n + 1) / 2,
            i <= half,
            next@.len() == i,
            forall|k: int| 0 <= k < i ==> (#[trigger] next@[k])@ == next_level(lv)[k],
        decreases half - i,
    {
        let left = level[2 * i];
        let right = if 2 * i + 1 < n {
            level[2 * i + 1]
        } else {
            level[2 * i]
        };
        let h = combine_hashes(&left, &right);
        assert(h@ == next_level(lv)[i as int]);
        next.push(h);
        i = i + 1;
    }
    assert(views32(next@) =~= next_level(lv));
    next
}

/// A copy of a list of 32-byte values.
fn copy_level(level: &Vec<[u8; 32]>) -> (out: Vec<[u8; 32]>)
    ensures
        out@ == level@,
{
    let mut out: Vec<[u8; 32]> = Vec::new();
    let mut i: usize = 0;
    while i < level.len()
        invariant
            i <= level@.len(),
            out@ == level@.take(i as int),
        decreases level@.len() - i,
    {
        out.push(level[i]);
        assert(level@.take(i + 1) == level@.take(i as int).push(level@[i as int]));
        i = i + 1;
    }
    assert(level@.take(i as int) == level@);
    out
}

impl MerkleTree {
    pub closed spec fn leaf_seq(&self) -> Seq<[u8; 32]> {
        self.leaves@
    }

    pub fn new(data: Vec<[u8; 32]>) -> (t: Self)
        ensures
            t.leaf_seq() == data@,
    {
        MerkleTree { leaves: data }
    }

    /// The Merkle root of the leaves.
    pub fn root(&self) -> (r: [u8; 32])
        ensures
            r@ == merkle_root(views32(self.leaf_seq())),
    {
        if self.leaves.len() == 0 {
            let z = [0u8; 32];
            assert(z@ =~= zero_hash());
            return z;
        }
        let mut current = copy_level(&self.leaves);
        while current.len() > 1
            invariant
                current@.len() >= 1,
                merkle_root(views32(current@)) == merkle_root(views32(self.leaves@)),
            decreases current@.len(),
        {
            let ghost before = current@;
            current = hash_level(&current);
            assert(views32(current@).len() == current@.len());
            assert(next_level(views32(before)).len() >= 1);
        }
        current[0]
    }

    /// The siblings on the path from leaf `index` to the root, or `None`
    /// when there is no such leaf.
    pub fn inclusion_proof(&self, index: usize) -> (p: Option<Vec<[u8; 32]>>)
        ensures
            index >= self.leaf_seq().len() ==> p is None,
            index < self.leaf_seq().len() ==> (p matches Some(v) && views32(v@) == merkle_path(
                views32(self.leaf_seq()),
                index as int,
            )),
    {
        if index >= self.leaves.len() {
            return None;
        }
        let mut proof_nodes: Vec<[u8; 32]> = Vec::new();
        let mut current = copy_level(&self.leaves);
        let mut idx = index;
        while current.len() > 1
            invariant
                idx < current@.len(),
                views32(proof_nodes@) + merkle_path(views32(current@), idx as int) == merkle_path(
                    views32(self.leaves@),
                    index as int,
                ),
            decreases current@.len(),
        {
            let ghost lv = views32(current@);
            let sibling_idx = if idx % 2 == 0 {
                idx + 1
            } else {
                idx - 1
            };
            if sibling_idx < current.len() {
                proof_nodes.push(current[sibling_idx]);
            } else {
                proof_nodes.push(current[idx]);
            }
            current = hash_level(&current);
            proof {
                assert(views32(proof_nodes@) == views32(proof_nodes@.drop_last()).push(sibling(lv, idx as int)));
                assert(merkle_path(lv, idx as int) == seq![sibling(lv, idx as int)] + merkle_path(next_level(lv), (idx / 2) as int));
                assert(views32(proof_nodes@) + merkle_path(views32(current@), (idx / 2) as int)
                    =~= views32(proof_nodes@.drop_last()) + merkle_path(lv, idx as int));
            }
            idx = idx / 2;
        }
        proof {
            assert(merkle_path(views32(current@), idx as int) == Seq::<Seq<u8>>::empty());
            assert(views32(proof_nodes@) =~= views32(proof_nodes@) + Seq::<Seq<u8>>::empty());
        }
        Some(proof_nodes)
    }

    /// Whether hashing `leaf` along `proof` from position `index` reaches
    /// `root`.
    pub fn verify(root: [u8; 32], leaf: [u8; 32], proof: &[[u8; 32]], index: usize) -> (b: bool)
        ensures
            b == (fold_path(leaf@, views32(proof@), index as int) == root@),
    {
        let mut computed = leaf;
        let mut idx = index;
        let mut k: usize = 0;
        assert(views32(proof@).skip(0) =~= views32(proof@));
        while k < proof.len()
            invariant
                k <= proof@.len(),
                fold_path(computed@, views32(proof@).skip(k as int), idx as int) == fold_path(
                    leaf@,
                    views32(proof@),
                    index as int,
                ),
            decreases proof@.len() - k,
        {
            let ghost rest = views32(proof@).skip(k as int);
            let sibling = proof[k];
            let next = if idx % 2 == 0 {
                combine_hashes(&computed, &sibling)
            } else {
                combine_hashes(&sibling, &computed)
            };
            proof {
                assert(rest[0] == sibling@);
                assert(rest.drop_first() =~= views32(proof@).skip(k + 1));
            }
            computed = next;
            idx = idx / 2;
            k = k + 1;
        }
        proof {
            assert(views32(proof@).skip(k as int) =~= Seq::<Seq<u8>>::empty());
        }
        bytes32_eq(&computed, &root)
    }

    pub fn leaf_count(&self) -> (n: usize)
        ensures
            n == self.leaf_seq().len(),
    {
        self.leaves.len()
    }
}

proof fn lemma_fold_reaches_root(level: Seq<Seq<u8>>, i: int)
    requires
        0 <= i < level.len(),
    ensures
        fold_path(level[i], merkle_path(level, i), i) == merkle_root(level),
    decreases level.len(),
{
    if level.len() > 1 {
        let next = next_level(level);
        let path = merkle_path(level, i);
        let sib = sibling(level, i);
        assert(path[0] == sib);
        assert(path.drop_first() =~= merkle_path(next, i / 2));
        let c = if i % 2 == 0 {
            hash_pair(level[i], sib)
        } else {
            hash_pair(sib, level[i])
        };
        assert(c == next[i / 2]);
        lemma_fold_reaches_root(next, i / 2);
    }
}

/// Every leaf verifies against the tree's root with the tree's proof for
/// its position.
pub proof fn lemma_proof_verifies(t: &MerkleTree, i: int)
    requires
        0 <= i < t.leaf_seq().len(),
    ensures
        fold_path(
            t.leaf_seq()[i]@,
            merkle_path(views32(t.leaf_seq()), i),
            i,
        ) == merkle_root(views32(t.leaf_seq())),
{
    lemma_fold_reaches_root(views32(t.leaf_seq()), i);
}

/// The level above pairs neighbours left then right: element `i` is the
/// SHA-256 digest of element `2i` followed by element `2i + 1`, or of a
/// lone last element followed by itself.
pub proof fn lemma_next_level_pairs(level: Seq<Seq<u8>>)
    ensures
        next_level(level).len() == (level.len() + 1) / 2,
        forall|i: int|
            0 <= i && 2 * i + 1 < level.len() ==> #[trigger] next_level(level)[i] == sha256_digest(
                level[2 * i] + level[2 * i + 1],
            ),
        level.len() % 2 == 1 ==> next_level(level)[(level.len() / 2) as int] == sha256_digest(
            level[level.len() - 1] + level[level.len() - 1],
        ),
{
}

/// The root of no leaf is thirty-two zero bytes, of one leaf the leaf;
/// the root of more leaves is the root of the level above them, which is
/// shorter.
pub proof fn lemma_root_of_small_trees(a: Seq<u8>, level: Seq<Seq<u8>>)
    ensures
        merkle_root(Seq::<Seq<u8>>::empty()) == Seq::new(32, |i: int| 0u8),
        merkle_root(seq![a]) == a,
        level.len() > 1 ==> merkle_root(level) == merkle_root(next_level(level)),
        level.len() > 1 ==> next_level(level).len() < level.len(),
{
    assert(merkle_root(Seq::<Seq<u8>>::empty()) =~= Seq::new(32, |i: int| 0u8));
}

/// The root of two leaves is the digest of the first followed by the
/// second; of three, the third leaf is paired with itself; of four, the
/// digest of the two pair digests, left pair first.
pub proof fn lemma_root_of_up_to_four_leaves(a: Seq<u8>, b: Seq<u8>, c: Seq<u8>, d: Seq<u8>)
    ensures
        merkle_root(seq![a, b]) == sha256_digest(a + b),
        merkle_root(seq![a, b, c]) == sha256_digest(
            sha256_digest(a + b) + sha256_digest(c + c),
        ),
        merkle_root(seq![a, b, c, d]) == sha256_digest(
            sha256_digest(a + b) + sha256_digest(c + d),
        ),
{
    let l2 = next_level(seq![a, b]);
    assert(l2 =~= seq![sha256_digest(a + b)]);
    let l3 = next_level(seq![a, b, c]);
    assert(l3 =~= seq![sha256_digest(a + b), sha256_digest(c + c)]);
    let l3b = next_level(l3);
    assert(l3b =~= seq![sha256_digest(sha256_digest(a + b) + sha256_digest(c + c))]);
    let l4 = next_level(seq![a, b, c, d]);
    assert(l4 =~= seq![sha256_digest(a + b), sha256_digest(c + d)]);
    let l4b = next_level(l4);
    assert(l4b =~= seq![sha256_digest(sha256_digest(a + b) + sha256_digest(c + d))]);
    reveal_with_fuel(merkle_root, 3);
}

/// Checking a proof climbs one level per sibling: at an even position the
/// running value is hashed before the sibling, at an odd one after it,
/// and the position halves.
pub proof fn lemma_fold_path_step(computed: Seq<u8>, proof: Seq<Seq<u8>>, idx: int)
    requires
        proof.len() > 0,
        idx >= 0,
    ensures
        idx % 2 == 0 ==> fold_path(computed, proof, idx) == fold_path(
            sha256_digest(computed + proof[0]),
            proof.drop_first(),
            idx / 2,
        ),
        idx % 2 == 1 ==> fold_path(computed, proof, idx) == fold_path(
            sha256_digest(proof[0] + computed),
            proof.drop_first(),
            idx / 2,
        ),
        fold_path(computed, Seq::<Seq<u8>>::empty(), idx) == computed,
{
}

/// In a tree of four leaves, each leaf with its proof checks against the
/// root: the sibling leaf, then the digest of the other pair.
pub proof fn lemma_four_leaf_proofs(a: Seq<u8>, b: Seq<u8>, c: Seq<u8>, d: Seq<u8>)
    ensures
        ({
            let root = sha256_digest(sha256_digest(a + b) + sha256_digest(c + d));
            &&& merkle_path(seq![a, b, c, d], 0) == seq![b, sha256_digest(c + d)]
            &&& merkle_path(seq![a, b, c, d], 1) == seq![a, sha256_digest(c + d)]
            &&& merkle_path(seq![a, b, c, d], 2) == seq![d, sha256_digest(a + b)]
            &&& merkle_path(seq![a, b, c, d], 3) == seq![c, sha256_digest(a + b)]
            &&& fold_path(a, seq![b, sha256_digest(c + d)], 0) == root
            &&& fold_path(b, seq![a, sha256_digest(c + d)], 1) == root
            &&& fold_path(c, seq![d, sha256_digest(a + b)], 2) == root
            &&& fold_path(d, seq![c, sha256_digest(a + b)], 3) == root
        }),
{
    let l = seq![a, b, c, d];
    let l1 = next_level(l);
    assert(l1 =~= seq![sha256_digest(a + b), sha256_digest(c + d)]);
    let l2 = next_level(l1);
    assert(l2.len() == 1);
    reveal_with_fuel(merkle_path, 3);
    reveal_with_fuel(fold_path, 3);
    assert(merkle_path(l2, 0) =~= Seq::<Seq<u8>>::empty());
    assert(merkle_path(l1, 0) =~= seq![sibling(l1, 0)] + merkle_path(l2, 0));
    assert(merkle_path(l1, 1) =~= seq![sibling(l1, 1)] + merkle_path(l2, 0));
    assert(merkle_path(l, 0) =~= seq![b, sha256_digest(c + d)]);
    assert(merkle_path(l, 1) =~= seq![a, sha256_digest(c + d)]);
    assert(merkle_path(l, 2) =~= seq![d, sha256_digest(a + b)]);
    assert(merkle_path(l, 3) =~= seq![c, sha256_digest(a + b)]);
    assert(seq![b, sha256_digest(c + d)].drop_first() =~= seq![sha256_digest(c + d)]);
    assert(seq![a, sha256_digest(c + d)].drop_first() =~= seq![sha256_digest(c + d)]);
    assert(seq![d, sha256_digest(a + b)].drop_first() =~= seq![sha256_digest(a + b)]);
    assert(seq![c, sha256_digest(a + b)].drop_first() =~= seq![sha256_digest(a + b)]);
    assert(seq![sha256_digest(c + d)].drop_first() =~= Seq::<Seq<u8>>::empty());
    assert(seq![sha256_digest(a + b)].drop_first() =~= Seq::<Seq<u8>>::empty());
}

/// The first sibling on the path of a leaf is its pair partner: the next
/// element at an even position, the previous one at an odd position, the
/// element itself when it is last and unpaired; the rest of the path is
/// the path of the pair's digest on the level above.
pub proof fn lemma_merkle_path_first(level: Seq<Seq<u8>>, idx: int)
    requires
        level.len() > 1,
        0 <= idx < level.len(),
    ensures
        merkle_path(level, idx).len() >= 1,
        idx % 2 == 0 && idx + 1 < level.len() ==> merkle_path(level, idx)[0] == level[idx + 1],
        idx % 2 == 0 && idx + 1 == level.len() ==> merkle_path(level, idx)[0] == level[idx],
        idx % 2 == 1 ==> merkle_path(level, idx)[0] == level[idx - 1],
        merkle_path(level, idx).drop_first() == merkle_path(next_level(level), idx / 2),
        merkle_path(seq![level[0]], 0).len() == 0,
{
    let path = merkle_path(level, idx);
    assert(path.drop_first() =~= merkle_path(next_level(level), idx / 2));
}

} // verus!
