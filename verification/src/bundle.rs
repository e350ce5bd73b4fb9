//! Bundle tooling: transaction ids to hashes, the dependency chain of a
//! bundle, the summary of a bundle, and the hexadecimal text of its root.
use vstd::prelude::*;

use crate::hashing::{sha256, sha256_digest};
use crate::math::dag::{groups_by_level, DagNode, DagScheduler};
use crate::math::merkle::{merkle_root, MerkleTree};
use crate::program::utils::views32;

verus! {

// ---------------------------------------------------------------------------
// Hexadecimal text
// ---------------------------------------------------------------------------

/// The error type of `hex::decode`, carried through unopened.
#[verifier::external_type_specification]
#[verifier::external_body]
pub struct ExFromHexError(hex::FromHexError);

/// The lowercase hexadecimal digit for a value below sixteen.
pub open spec fn hex_digit(v: u8) -> char {
    if v < 10 {
        (v + 48) as char
    } else {
        (v + 87) as char
    }
}

/// Lowercase hexadecimal text of `bytes`: two digits per byte, the high
/// half first.
pub open spec fn hex_encoding(bytes: Seq<u8>) -> Seq<char> {
    Seq::new(
        2 * bytes.len(),
        |i: int|
            hex_digit(
                if i % 2 == 0 {
                    bytes[i / 2] / 16
                } else {
                    bytes[i / 2] % 16
                },
            ),
    )
}

/// The value of a hexadecimal digit, in either case.
pub open spec fn hex_value(c: u8) -> Option<u8> {
    if 48 <= c <= 57 {
        Some((c - 48) as u8)
    } else if 65 <= c <= 70 {
        Some((c - 55) as u8)
    } else if 97 <= c <= 102 {
        Some((c - 87) as u8)
    } else {
        None
    }
}

/// Text that decodes: an even number of hexadecimal digits.
pub open spec fn is_hex_text(text: Seq<u8>) -> bool {
    &&& text.len() % 2 == 0
    &&& forall|i: int| 0 <= i < text.len() ==> #[trigger] hex_value(text[i]) is Some
}

/// The bytes that hexadecimal text stands for, two digits per byte.
pub open spec fn hex_decoding(text: Seq<u8>) -> Seq<u8> {
    Seq::new(
        text.len() / 2,
        |i: int| (hex_value(text[2 * i])->0 * 16 + hex_value(text[2 * i + 1])->0) as u8,
    )
}

proof fn lemma_hex_digit(v: u8)
    requires
        v < 16,
    ensures
        '\0' <= hex_digit(v) <= '\u{7f}',
        hex_digit(v) as u8 == hex_ascii(v),
        hex_value(hex_ascii(v)) == Some(v),
{
}

/// Hexadecimal text reads back as the bytes it was written from: the UTF-8
/// bytes of `hex_encoding(bytes)` are hexadecimal text, two per byte, that
/// decodes to `bytes`.
pub proof fn lemma_hex_round_trip(bytes: Seq<u8>)
    ensures
        ({
            let text = vstd::utf8::encode_utf8(hex_encoding(bytes));
            &&& is_hex_text(text)
            &&& text.len() == 2 * bytes.len()
            &&& hex_decoding(text) == bytes
        }),
{
    let chars = hex_encoding(bytes);
    assert forall|i: int| 0 <= i < chars.len() implies '\0' <= #[trigger] chars[i] <= '\u{7f}' by {
        if i % 2 == 0 {
            lemma_hex_digit(bytes[i / 2] / 16);
        } else {
            lemma_hex_digit(bytes[i / 2] % 16);
        }
    }
    vstd::utf8::is_ascii_chars_encode_utf8(chars);
    let text = vstd::utf8::encode_utf8(chars);
    assert forall|i: int| 0 <= i < text.len() implies #[trigger] hex_value(text[i]) is Some by {
        assert(text[i] == chars[i] as u8);
        if i % 2 == 0 {
            lemma_hex_digit(bytes[i / 2] / 16);
        } else {
            lemma_hex_digit(bytes[i / 2] % 16);
        }
    }
    assert forall|k: int| 0 <= k < bytes.len() implies #[trigger] hex_decoding(text)[k] == bytes[k] by {
        assert(text[2 * k] == chars[2 * k] as u8);
        assert(text[2 * k + 1] == chars[2 * k + 1] as u8);
        assert((2 * k) / 2 == k);
        assert((2 * k + 1) / 2 == k);
        assert((2 * k) % 2 == 0);
        assert((2 * k + 1) % 2 == 1);
        lemma_hex_digit(bytes[k] / 16);
        lemma_hex_digit(bytes[k] % 16);
        let b = bytes[k];
        assert((b / 16) * 16 + b % 16 == b) by (nonlinear_arith);
    }
    assert(hex_decoding(text) =~= bytes);
}

/// Calls `hex::encode`. Trusted: the text is the lowercase hexadecimal
/// text of `data`, two digits per byte, high half first, as its table
/// `0123456789abcdef` and its byte-to-chars iterator show.
#[verifier::external_body]
fn hex_encode(data: &[u8]) -> (text: String)
    ensures
        text@ == hex_encoding(data@),
{
    hex::encode(data)
}

/// Calls `hex::decode`. Trusted: it fails exactly on text of odd length or
/// with a byte that is not a hexadecimal digit of either case, and else
/// returns one byte per pair of digits, the first digit the high half.
#[verifier::external_body]
fn hex_decode(text: &[u8]) -> (r: Result<Vec<u8>, hex::FromHexError>)
    ensures
        r is Ok <==> is_hex_text(text@),
        r matches Ok(bytes) ==> bytes@ == hex_decoding(text@),
{
    hex::decode(text)
}

/// Why the root of a proof file is not usable.
#[derive(Debug, Clone, Copy, PartialEq, Eq)]
pub enum RootTextError {
    /// The text is not hexadecimal (odd length, or a byte that is no digit).
    InvalidHex,
    /// The text decodes to this many bytes, not thirty-two.
    WrongLength(usize),
}

/// Reads a Merkle root written as hexadecimal text.
pub fn parse_merkle_root(root_hex: &str) -> (r: Result<[u8; 32], RootTextError>)
    ensures
        ({
            let text = vstd::utf8::encode_utf8(root_hex@);
            match r {
                Ok(root) => is_hex_text(text) && root@ == hex_decoding(text),
                Err(RootTextError::InvalidHex) => !is_hex_text(text),
                Err(RootTextError::WrongLength(n)) => is_hex_text(text) && n == text.len() / 2
                    && n != 32,
            }
        }),
        r is Ok <==> (is_hex_text(vstd::utf8::encode_utf8(root_hex@)) && vstd::utf8::encode_utf8(root_hex@).len() == 64),
{
    let bytes = match hex_decode(root_hex.as_bytes()) {
        Ok(v) => v,
        Err(_) => return Err(RootTextError::InvalidHex),
    };
    if bytes.len() != 32 {
        return Err(RootTextError::WrongLength(bytes.len()));
    }
    let mut root = [0u8; 32];
    let mut i: usize = 0;
    while i < 32
        invariant
            i <= 32,
            bytes@.len() == 32,
            forall|k: int| 0 <= k < i ==> root@[k] == bytes@[k],
        decreases 32 - i,
    {
        root[i] = bytes[i];
        i = i + 1;
    }
    assert(root@ =~= bytes@);
    Ok(root)
}

/// The lowercase hexadecimal text of a 32-byte value.
pub fn hex_text(bytes: &[u8; 32]) -> (text: String)
    ensures
        text@ == hex_encoding(bytes@),
{
    hex_encode(bytes.as_slice())
}

// ---------------------------------------------------------------------------
// Transaction ids
// ---------------------------------------------------------------------------

/// The UTF-8 bytes of a string.
pub open spec fn utf8_bytes(s: String) -> Seq<u8> {
    vstd::utf8::encode_utf8(s@)
}

/// The SHA-256 digest of the UTF-8 bytes of each transaction id, in order.
pub fn hash_transaction_ids(ids: &Vec<String>) -> (hashes: Vec<[u8; 32]>)
    ensures
        hashes@.len() == ids@.len(),
        forall|i: int| 0 <= i < ids@.len() ==> #[trigger] hashes@[i]@ == sha256_digest(utf8_bytes(ids@[i])),
{
    let mut hashes: Vec<[u8; 32]> = Vec::new();
    let mut i: usize = 0;
    while i < ids.len()
        invariant
            i <= ids@.len(),
            hashes@.len() == i,
            forall|k: int| 0 <= k < i ==> #[trigger] hashes@[k]@ == sha256_digest(utf8_bytes(ids@[k])),
        decreases ids@.len() - i,
    {
        let h = sha256(ids[i].as_str().as_bytes());
        hashes.push(h);
        i = i + 1;
    }
    hashes
}

// ---------------------------------------------------------------------------
// The dependency chain of a bundle
// ---------------------------------------------------------------------------

/// The ids of a chain of `n` transactions: `0` to `n - 1`.
pub open spec fn chain_ids(n: nat) -> Seq<u64> {
    Seq::new(n, |i: int| i as u64)
}

/// The edges of a chain of `n` transactions: each one from its predecessor.
pub open spec fn chain_edges(n: nat) -> Seq<(u64, u64)> {
    Seq::new(
        if n == 0 {
            0
        } else {
            (n - 1) as nat
        },
        |e: int| (e as u64, (e + 1) as u64),
    )
}

/// Transaction `i` of a chain: id `i`, the given hash, a dependency on
/// transaction `i - 1` (none for the first), no accounts, weight one.
pub open spec fn is_chain_node(node: DagNode, hash: [u8; 32], i: int) -> bool {
    &&& node.id == i
    &&& node.tx_hash == hash
    &&& node.dependencies@ == if i == 0 {
        Seq::<u64>::empty()
    } else {
        seq![(i - 1) as u64]
    }
    &&& node.account_keys@ == Seq::<[u8; 32]>::empty()
    &&& node.weight == 1
}

/// The graph of a bundle whose transactions run one after the other.
pub open spec fn is_chain_of(dag: DagScheduler, hashes: Seq<[u8; 32]>) -> bool {
    &&& hashes.len() <= u64::MAX
    &&& dag.node_ids() == chain_ids(hashes.len())
    &&& dag.edges() == chain_edges(hashes.len())
    &&& forall|i: int| 0 <= i < hashes.len() ==> #[trigger] is_chain_node(dag.node_seq()[i], hashes[i], i)
}

/// The dependency graph of a bundle: transaction `i` has id `i` and depends
/// on transaction `i - 1`.
pub fn build_dag(hashes: &[[u8; 32]]) -> (dag: DagScheduler)
    ensures
        dag.wf(),
        is_chain_of(dag, hashes@),
{
    let mut scheduler = DagScheduler::new();
    let mut i: usize = 0;
    while i < hashes.len()
        invariant
            i <= hashes@.len(),
            scheduler.wf(),
            scheduler.node_seq().len() == i,
            scheduler.node_ids() == chain_ids(i as nat),
            scheduler.edges() == chain_edges(i as nat),
            forall|k: int| 0 <= k < i ==> #[trigger] is_chain_node(scheduler.node_seq()[k], hashes@[k], k),
        decreases hashes@.len() - i,
    {
        let deps = if i > 0 {
            vec![(i - 1) as u64]
        } else {
            Vec::new()
        };
        let node = DagNode {
            id: i as u64,
            tx_hash: hashes[i],
            dependencies: deps,
            account_keys: Vec::new(),
            weight: 1,
        };
        let ghost before = scheduler;
        proof {
            assert(!before.has_node(i as u64)) by {
                if before.node_ids().contains(i as u64) {
                    let j = choose|j: int| 0 <= j < before.node_ids().len() && before.node_ids()[j] == i as u64;
                    assert(chain_ids(i as nat)[j] == j as u64);
                }
            }
        }
        scheduler.add_node(node);
        proof {
            assert(scheduler.node_seq() == before.node_seq().push(node));
            assert(node.dependencies@ == if i == 0 {
                Seq::<u64>::empty()
            } else {
                seq![(i - 1) as u64]
            });
            assert forall|k: int| 0 <= k < i + 1 implies #[trigger] scheduler.node_ids()[k] == k as u64 by {
                if k < i {
                    assert(scheduler.node_seq()[k] == before.node_seq()[k]);
                    assert(before.node_ids()[k] == chain_ids(i as nat)[k]);
                } else {
                    assert(scheduler.node_seq()[k] == node);
                }
            }
            assert(scheduler.node_ids() =~= chain_ids((i + 1) as nat));
            assert(scheduler.edges() =~= chain_edges((i + 1) as nat));
            assert forall|k: int| 0 <= k < i + 1 implies #[trigger] is_chain_node(scheduler.node_seq()[k], hashes@[k], k) by {
                if k < i {
                    assert(scheduler.node_seq()[k] == before.node_seq()[k]);
                }
            }
        }
        i = i + 1;
    }
    scheduler
}

/// The ids of a chain, in order, are an execution order of it.
pub proof fn lemma_chain_is_ordered(dag: DagScheduler, hashes: Seq<[u8; 32]>)
    requires
        is_chain_of(dag, hashes),
    ensures
        dag.is_topological_order(chain_ids(hashes.len())),
        dag.has_topological_order(),
{
    let n = hashes.len();
    let order = chain_ids(n);
    let edges = dag.edges();
    assert forall|e: int, j: int|
        0 <= e < edges.len() && 0 <= j < order.len() && #[trigger] order[j] == #[trigger] edges[e].1
        implies exists|i: int| 0 <= i < j && #[trigger] order[i] == edges[e].0 by {
        assert(order[e] == edges[e].0);
    }
    assert(dag.is_topological_order(order));
}

/// In a chain, transaction `i` sits at level `i` of any consistent levels.
pub proof fn lemma_chain_levels(dag: DagScheduler, hashes: Seq<[u8; 32]>, lvl: Map<u64, nat>)
    requires
        is_chain_of(dag, hashes),
        dag.levels_consistent(lvl),
    ensures
        forall|i: int| 0 <= i < hashes.len() ==> #[trigger] lvl[i as u64] == i,
        forall|x: u64| #[trigger] lvl.contains_key(x) <==> x < hashes.len(),
{
    let n = hashes.len();
    let ids = chain_ids(n);
    assert forall|x: u64| #[trigger] lvl.contains_key(x) <==> x < n by {
        if x < n {
            assert(ids[x as int] == x);
        }
        if dag.has_node(x) {
            let j = choose|j: int| 0 <= j < ids.len() && ids[j] == x;
        }
    }
    assert forall|i: int| 0 <= i < n implies #[trigger] lvl[i as u64] == i by {
        lemma_chain_level(dag, hashes, lvl, i);
    }
}

proof fn lemma_chain_level(dag: DagScheduler, hashes: Seq<[u8; 32]>, lvl: Map<u64, nat>, i: int)
    requires
        is_chain_of(dag, hashes),
        dag.levels_consistent(lvl),
        0 <= i < hashes.len(),
    ensures
        lvl[i as u64] == i,
    decreases i,
{
    let ids = chain_ids(hashes.len());
    assert(ids.no_duplicates());
    assert(ids[i] == i as u64);
    crate::math::dag::lemma_index_of_unique(ids, i);
    assert(dag.has_node(i as u64));
    let node = dag.node_seq()[i];
    assert(is_chain_node(node, hashes[i], i));
    assert(dag.node_map()[i as u64] == node);
    if i > 0 {
        lemma_chain_level(dag, hashes, lvl, i - 1);
        let d = (i - 1) as u64;
        assert(ids[i - 1] == d);
        assert(dag.has_node(d));
        assert(seq![d].drop_last() =~= Seq::<u64>::empty());
        assert(lvl.contains_key(d));
        reveal_with_fuel(crate::math::dag::max_known_level, 2);
        assert(crate::math::dag::max_known_level(seq![d], lvl) == lvl[d]);
    }
}

/// The groups of a chain of `n` transactions: one group per transaction,
/// holding it alone, or a single empty group when there is none.
proof fn lemma_chain_groups(hashes: Seq<[u8; 32]>, lvl: Map<u64, nat>, groups: Seq<Seq<u64>>)
    requires
        forall|i: int| 0 <= i < hashes.len() ==> #[trigger] lvl[i as u64] == i,
        forall|x: u64| #[trigger] lvl.contains_key(x) <==> x < hashes.len(),
        crate::math::dag::groups_by_level(groups, lvl),
    ensures
        groups.len() == chain_group_count(hashes.len()),
        forall|g: int| 0 <= g < groups.len() ==> #[trigger] groups[g].len() == if hashes.len() == 0 {
            0nat
        } else {
            1nat
        },
{
    let n = hashes.len();
    if n > 0 {
        assert(lvl.contains_key((n - 1) as u64));
        assert(lvl[((n - 1) as int) as u64] == n - 1);
    }
    if groups.len() > 1 {
        let x = choose|x: u64| lvl.contains_key(x) && lvl[x] == groups.len() - 1;
        assert(lvl[(x as int) as u64] == x);
    }
    assert forall|g: int| 0 <= g < groups.len() implies #[trigger] groups[g].len() == if n == 0 {
        0nat
    } else {
        1nat
    } by {
        let s = groups[g];
        if n == 0 {
            if s.len() > 0 {
                assert(s.contains(s[0]));
            }
        } else {
            let a = g as u64;
            assert(lvl[(g as int) as u64] == g);
            assert(s.contains(a));
            if s.len() >= 2 {
                assert(s.contains(s[0]));
                assert(s.contains(s[1]));
                assert(lvl[(s[0] as int) as u64] == s[0]);
                assert(lvl[(s[1] as int) as u64] == s[1]);
            }
        }
    }
}

// ---------------------------------------------------------------------------
// Bundle summary and graph inspection
// ---------------------------------------------------------------------------

/// What a bundle of transaction hashes amounts to.
#[derive(Debug, Clone)]
pub struct BundleSummary {
    pub epoch: u64,
    pub max_depth: u8,
    /// The Merkle root of the hashes, as lowercase hexadecimal text.
    pub merkle_root: String,
    pub leaf_count: usize,
    pub parallel_groups: usize,
    pub node_count: usize,
}

/// The number of parallel groups of a chain of `n` transactions.
pub open spec fn chain_group_count(n: nat) -> nat {
    if n == 0 {
        1
    } else {
        n
    }
}

/// A vector with the same hashes.
fn copy_hashes(hashes: &[[u8; 32]]) -> (out: Vec<[u8; 32]>)
    ensures
        out@ == hashes@,
{
    let mut out: Vec<[u8; 32]> = Vec::new();
    let mut i: usize = 0;
    while i < hashes.len()
        invariant
            i <= hashes@.len(),
            out@ == hashes@.take(i as int),
        decreases hashes@.len() - i,
    {
        out.push(hashes[i]);
        assert(hashes@.take(i + 1) == hashes@.take(i as int).push(hashes@[i as int]));
        i = i + 1;
    }
    assert(hashes@.take(i as int) == hashes@);
    out
}

/// Summarizes a bundle: the Merkle root of its hashes, and the graph in
/// which each transaction depends on the one before it.
pub fn generate_bundle(hashes: &[[u8; 32]], epoch: u64, max_depth: u8) -> (s: BundleSummary)
    ensures
        s.epoch == epoch,
        s.max_depth == max_depth,
        s.merkle_root@ == hex_encoding(merkle_root(views32(hashes@))),
        s.leaf_count == hashes@.len(),
        s.parallel_groups == chain_group_count(hashes@.len()),
        s.node_count == hashes@.len(),
{
    let tree = MerkleTree::new(copy_hashes(hashes));
    let root = tree.root();
    let dag = build_dag(hashes);
    proof {
        lemma_chain_is_ordered(dag, hashes@);
    }
    let parallel_groups = match dag.find_parallel_groups() {
        Ok(groups) => {
            proof {
                let lvl = choose|lvl: Map<u64, nat>|
                    dag.levels_consistent(lvl) && groups_by_level(
                        groups@.map_values(|g: Vec<u64>| g@),
                        lvl,
                    );
                lemma_chain_levels(dag, hashes@, lvl);
                lemma_chain_groups(hashes@, lvl, groups@.map_values(|g: Vec<u64>| g@));
            }
            groups.len()
        },
        Err(_) => {
            proof {
                assert(false);
            }
            0
        },
    };
    assert(dag.node_ids().len() == dag.node_seq().len());
    let node_count = dag.node_count();
    BundleSummary {
        epoch,
        max_depth,
        merkle_root: hex_text(&root),
        leaf_count: tree.leaf_count(),
        parallel_groups,
        node_count,
    }
}

/// What the dependency graph of a bundle looks like.
#[derive(Debug, Clone)]
pub struct DagInspection {
    pub node_count: usize,
    /// The number of transactions in each parallel group, by level.
    pub group_sizes: Vec<usize>,
}

/// Inspects the graph in which each transaction of a bundle depends on the
/// one before it.
pub fn inspect_dag(hashes: &[[u8; 32]]) -> (r: DagInspection)
    ensures
        r.node_count == hashes@.len(),
        r.group_sizes@.len() == chain_group_count(hashes@.len()),
        forall|g: int| 0 <= g < r.group_sizes@.len() ==> #[trigger] r.group_sizes@[g] == if hashes@.len() == 0 {
            0usize
        } else {
            1usize
        },
{
    let dag = build_dag(hashes);
    proof {
        lemma_chain_is_ordered(dag, hashes@);
    }
    let groups = match dag.find_parallel_groups() {
        Ok(groups) => groups,
        Err(_) => {
            proof {
                assert(false);
            }
            Vec::new()
        },
    };
    let ghost gv = groups@.map_values(|g: Vec<u64>| g@);
    proof {
        let lvl = choose|lvl: Map<u64, nat>| dag.levels_consistent(lvl) && groups_by_level(gv, lvl);
        lemma_chain_levels(dag, hashes@, lvl);
        lemma_chain_groups(hashes@, lvl, gv);
    }
    let mut group_sizes: Vec<usize> = Vec::new();
    let mut g: usize = 0;
    while g < groups.len()
        invariant
            g <= groups@.len(),
            group_sizes@.len() == g,
            gv == groups@.map_values(|v: Vec<u64>| v@),
            forall|k: int| 0 <= k < g ==> #[trigger] group_sizes@[k] == gv[k].len(),
        decreases groups@.len() - g,
    {
        group_sizes.push(groups[g].len());
        g = g + 1;
    }
    assert(dag.node_ids().len() == dag.node_seq().len());
    DagInspection { node_count: dag.node_count(), group_sizes }
}

// ---------------------------------------------------------------------------
// Graphviz text of a bundle's chain
// ---------------------------------------------------------------------------

/// The ASCII code of a lowercase hexadecimal digit.
pub open spec fn hex_ascii(v: u8) -> u8 {
    if v < 10 {
        (v + 48) as u8
    } else {
        (v + 87) as u8
    }
}

/// The decimal digits of `n`, most significant first.
pub open spec fn decimal_text(n: nat) -> Seq<u8>
    decreases n,
{
    if n < 10 {
        seq![(n + 48) as u8]
    } else {
        decimal_text(n / 10).push((n % 10 + 48) as u8)
    }
}

/// A byte in lowercase hexadecimal without leading zero.
pub open spec fn hex_byte_text(b: u8) -> Seq<u8> {
    if b < 16 {
        seq![hex_ascii(b)]
    } else {
        seq![hex_ascii(b / 16), hex_ascii(b % 16)]
    }
}

/// `  n<i> [label="tx_<first hash byte>"];` and a line break.
pub open spec fn dot_node_line(i: nat, first_byte: u8) -> Seq<u8> {
    seq![32u8, 32u8, 110u8] + decimal_text(i) + seq![
        32u8,
        91u8,
        108u8,
        97u8,
        98u8,
        101u8,
        108u8,
        61u8,
        34u8,
        116u8,
        120u8,
        95u8,
    ] + hex_byte_text(first_byte) + seq![34u8, 93u8, 59u8, 10u8]
}

/// `  n<from> -> n<to>;` and a line break.
pub open spec fn dot_edge_line(from: nat, to: nat) -> Seq<u8> {
    seq![32u8, 32u8, 110u8] + decimal_text(from) + seq![32u8, 45u8, 62u8, 32u8, 110u8]
        + decimal_text(to) + seq![59u8, 10u8]
}

/// The node and edge lines of a chain of hashes: for each transaction its
/// node, then the edge from the one before it.
pub open spec fn dot_lines(hashes: Seq<[u8; 32]>) -> Seq<u8>
    decreases hashes.len(),
{
    if hashes.len() == 0 {
        Seq::empty()
    } else {
        let i = (hashes.len() - 1) as nat;
        dot_lines(hashes.drop_last()) + dot_node_line(i, hashes.last()[0]) + if i > 0 {
            dot_edge_line((i - 1) as nat, i)
        } else {
            Seq::<u8>::empty()
        }
    }
}

/// `digraph dag {`, the lines of the chain, and `}`, each line ended by a
/// line break.
pub open spec fn dot_text(hashes: Seq<[u8; 32]>) -> Seq<u8> {
    seq![100u8, 105u8, 103u8, 114u8, 97u8, 112u8, 104u8, 32u8, 100u8, 97u8, 103u8, 32u8, 123u8, 10u8]
        + dot_lines(hashes) + seq![125u8, 10u8]
}

fn push_bytes(buf: &mut Vec<u8>, bytes: &[u8])
    ensures
        final(buf)@ == old(buf)@ + bytes@,
{
    crate::hashing::append_bytes(buf, bytes);
}

fn push_decimal(buf: &mut Vec<u8>, n: u64)
    ensures
        final(buf)@ == old(buf)@ + decimal_text(n as nat),
    decreases n,
{
    if n >= 10 {
        push_decimal(buf, n / 10);
    }
    let ghost mid = buf@;
    buf.push((n % 10) as u8 + 48);
    proof {
        if n >= 10 {
            assert(buf@ =~= old(buf)@ + decimal_text(n as nat));
        } else {
            assert(buf@ =~= old(buf)@ + decimal_text(n as nat));
        }
    }
}

fn hex_ascii_exec(v: u8) -> (c: u8)
    requires
        v < 16,
    ensures
        c == hex_ascii(v),
{
    if v < 10 {
        v + 48
    } else {
        v + 87
    }
}

/// The Graphviz text of the chain in which each transaction depends on the
/// one before it; each node is labelled by the first byte of its hash.
pub fn dag_dot(hashes: &[[u8; 32]]) -> (text: Vec<u8>)
    ensures
        text@ == dot_text(hashes@),
{
    let mut buf: Vec<u8> = Vec::new();
    push_bytes(
        &mut buf,
        &[100u8, 105u8, 103u8, 114u8, 97u8, 112u8, 104u8, 32u8, 100u8, 97u8, 103u8, 32u8, 123u8, 10u8],
    );
    let ghost head = buf@;
    let mut i: usize = 0;
    while i < hashes.len()
        invariant
            i <= hashes@.len(),
            buf@ == head + dot_lines(hashes@.take(i as int)),
        decreases hashes@.len() - i,
    {
        let ghost before = buf@;
        push_bytes(&mut buf, &[32u8, 32u8, 110u8]);
        push_decimal(&mut buf, i as u64);
        push_bytes(&mut buf, &[32u8, 91u8, 108u8, 97u8, 98u8, 101u8, 108u8, 61u8, 34u8, 116u8, 120u8, 95u8]);
        let b = hashes[i][0];
        if b >= 16 {
            buf.push(hex_ascii_exec(b / 16));
        }
        buf.push(hex_ascii_exec(b % 16));
        push_bytes(&mut buf, &[34u8, 93u8, 59u8, 10u8]);
        let ghost with_node = buf@;
        if i > 0 {
            push_bytes(&mut buf, &[32u8, 32u8, 110u8]);
            push_decimal(&mut buf, (i - 1) as u64);
            push_bytes(&mut buf, &[32u8, 45u8, 62u8, 32u8, 110u8]);
            push_decimal(&mut buf, i as u64);
            push_bytes(&mut buf, &[59u8, 10u8]);
        }
        proof {
            let t = hashes@.take(i + 1);
            assert(t.drop_last() == hashes@.take(i as int));
            assert(t.last() == hashes@[i as int]);
            if b >= 16 {
                assert(hex_byte_text(b) == seq![hex_ascii(b / 16), hex_ascii(b % 16)]);
            }
            assert(with_node =~= before + dot_node_line(i as nat, b));
            if i > 0 {
                assert(buf@ =~= with_node + dot_edge_line((i - 1) as nat, i as nat));
            } else {
                assert(buf@ =~= with_node + Seq::<u8>::empty());
            }
            assert(buf@ =~= head + dot_lines(t));
        }
        i = i + 1;
    }
    push_bytes(&mut buf, &[125u8, 10u8]);
    proof {
        assert(hashes@.take(i as int) == hashes@);
        assert(buf@ =~= dot_text(hashes@));
    }
    buf
}

/// The number written by decimal digits, most significant first.
pub open spec fn decimal_value(digits: Seq<u8>) -> int
    decreases digits.len(),
{
    if digits.len() == 0 {
        0
    } else {
        decimal_value(digits.drop_last()) * 10 + (digits.last() - 48)
    }
}

/// The number written by hexadecimal digits, most significant first.
pub open spec fn hex_number(digits: Seq<u8>) -> int
    decreases digits.len(),
{
    if digits.len() == 0 {
        0
    } else {
        hex_number(digits.drop_last()) * 16 + hex_value(digits.last())->0
    }
}

/// The decimal text of `n` is made of the digits `0` to `9`, has no
/// leading zero, and reads back as `n`.
pub proof fn lemma_decimal_text(n: nat)
    ensures
        decimal_value(decimal_text(n)) == n,
        decimal_text(n).len() >= 1,
        forall|k: int| 0 <= k < decimal_text(n).len() ==> 48 <= #[trigger] decimal_text(n)[k] <= 57,
        n > 0 ==> decimal_text(n)[0] != 48,
    decreases n,
{
    if n >= 10 {
        lemma_decimal_text(n / 10);
        let t = decimal_text(n);
        assert(t.drop_last() =~= decimal_text(n / 10));
        assert(t.last() - 48 == n % 10);
        assert(decimal_value(t) == decimal_value(decimal_text(n / 10)) * 10 + n % 10);
        assert((n / 10) * 10 + n % 10 == n);
        assert(t[0] == decimal_text(n / 10)[0]);
    } else {
        let t = decimal_text(n);
        assert(t.drop_last() =~= Seq::<u8>::empty());
        assert(decimal_value(Seq::<u8>::empty()) == 0);
        assert(t.last() - 48 == n);
    }
}

/// The label of a byte is made of lowercase hexadecimal digits, has no
/// leading zero, and reads back as the byte.
pub proof fn lemma_hex_byte_text(b: u8)
    ensures
        hex_number(hex_byte_text(b)) == b,
        1 <= hex_byte_text(b).len() <= 2,
        forall|k: int|
            0 <= k < hex_byte_text(b).len() ==> {
                let c = #[trigger] hex_byte_text(b)[k];
                (48 <= c <= 57) || (97 <= c <= 102)
            },
        b > 0 ==> hex_byte_text(b)[0] != 48,
{
    let t = hex_byte_text(b);
    assert(hex_number(Seq::<u8>::empty()) == 0);
    if b < 16 {
        lemma_hex_digit(b);
        assert(t.drop_last() =~= Seq::<u8>::empty());
    } else {
        lemma_hex_digit(b / 16);
        lemma_hex_digit(b % 16);
        let hi = seq![hex_ascii(b / 16)];
        assert(t.drop_last() =~= hi);
        assert(hi.drop_last() =~= Seq::<u8>::empty());
        assert(hex_number(hi) == b / 16);
        assert((b / 16) * 16 + b % 16 == b);
    }
}

/// A node line is `  n`, the node's number, ` [label="tx_`, the label of
/// the byte, and `"];` with a line break; an edge line is `  n`, the
/// source, ` -> n`, the target, `;` and a line break.
pub proof fn lemma_dot_line_layout(i: nat, b: u8, from: nat, to: nat)
    ensures
        ({
            let line = dot_node_line(i, b);
            let d = decimal_text(i).len() as int;
            let h = hex_byte_text(b).len() as int;
            &&& line.len() == 3 + d + 12 + h + 4
            &&& line.take(3) == seq![32u8, 32u8, 110u8]
            &&& line.subrange(3, 3 + d) == decimal_text(i)
            &&& line.subrange(3 + d, 3 + d + 12) == seq![
                32u8,
                91u8,
                108u8,
                97u8,
                98u8,
                101u8,
                108u8,
                61u8,
                34u8,
                116u8,
                120u8,
                95u8,
            ]
            &&& line.subrange(3 + d + 12, 3 + d + 12 + h) == hex_byte_text(b)
            &&& line.skip(3 + d + 12 + h) == seq![34u8, 93u8, 59u8, 10u8]
        }),
        ({
            let line = dot_edge_line(from, to);
            let f = decimal_text(from).len() as int;
            let t = decimal_text(to).len() as int;
            &&& line.len() == 3 + f + 5 + t + 2
            &&& line.take(3) == seq![32u8, 32u8, 110u8]
            &&& line.subrange(3, 3 + f) == decimal_text(from)
            &&& line.subrange(3 + f, 3 + f + 5) == seq![32u8, 45u8, 62u8, 32u8, 110u8]
            &&& line.subrange(3 + f + 5, 3 + f + 5 + t) == decimal_text(to)
            &&& line.skip(3 + f + 5 + t) == seq![59u8, 10u8]
        }),
{
    let line = dot_node_line(i, b);
    let d = decimal_text(i).len() as int;
    let h = hex_byte_text(b).len() as int;
    assert(line.take(3) =~= seq![32u8, 32u8, 110u8]);
    assert(line.subrange(3, 3 + d) =~= decimal_text(i));
    assert(line.subrange(3 + d, 3 + d + 12) =~= seq![
        32u8,
        91u8,
        108u8,
        97u8,
        98u8,
        101u8,
        108u8,
        61u8,
        34u8,
        116u8,
        120u8,
        95u8,
    ]);
    assert(line.subrange(3 + d + 12, 3 + d + 12 + h) =~= hex_byte_text(b));
    assert(line.skip(3 + d + 12 + h) =~= seq![34u8, 93u8, 59u8, 10u8]);
    let e = dot_edge_line(from, to);
    let f = decimal_text(from).len() as int;
    let t = decimal_text(to).len() as int;
    assert(e.take(3) =~= seq![32u8, 32u8, 110u8]);
    assert(e.subrange(3, 3 + f) =~= decimal_text(from));
    assert(e.subrange(3 + f, 3 + f + 5) =~= seq![32u8, 45u8, 62u8, 32u8, 110u8]);
    assert(e.subrange(3 + f + 5, 3 + f + 5 + t) =~= decimal_text(to));
    assert(e.skip(3 + f + 5 + t) =~= seq![59u8, 10u8]);
}

proof fn lemma_dot_lines_prefix(hashes: Seq<[u8; 32]>, k: int)
    requires
        0 <= k <= hashes.len(),
    ensures
        dot_lines(hashes.take(k)).len() <= dot_lines(hashes).len(),
        dot_lines(hashes).take(dot_lines(hashes.take(k)).len() as int) == dot_lines(hashes.take(k)),
    decreases hashes.len() - k,
{
    if k == hashes.len() {
        assert(hashes.take(k) =~= hashes);
        assert(dot_lines(hashes).take(dot_lines(hashes).len() as int) =~= dot_lines(hashes));
    } else {
        lemma_dot_lines_prefix(hashes, k + 1);
        let a = dot_lines(hashes.take(k));
        let b = dot_lines(hashes.take(k + 1));
        assert(hashes.take(k + 1).drop_last() =~= hashes.take(k));
        assert(b.take(a.len() as int) =~= a);
        assert(dot_lines(hashes).take(a.len() as int) =~= b.take(a.len() as int));
    }
}

/// `piece` stands in `text` from position `p` on.
pub open spec fn occurs_at(text: Seq<u8>, p: int, piece: Seq<u8>) -> bool {
    &&& 0 <= p
    &&& p + piece.len() <= text.len()
    &&& text.subrange(p, p + piece.len()) == piece
}

/// The Graphviz text of a bundle opens with `digraph dag {` and closes
/// with `}`; for every transaction it holds the node line labelled by the
/// FIRST byte of that transaction's hash, followed, for every transaction
/// after the first, by the edge from the transaction before it.
pub proof fn lemma_dot_text_lines(hashes: Seq<[u8; 32]>, i: int)
    requires
        0 <= i < hashes.len(),
    ensures
        dot_text(hashes).take(14) == seq![
            100u8,
            105u8,
            103u8,
            114u8,
            97u8,
            112u8,
            104u8,
            32u8,
            100u8,
            97u8,
            103u8,
            32u8,
            123u8,
            10u8,
        ],
        dot_text(hashes).skip(dot_text(hashes).len() - 2) == seq![125u8, 10u8],
        exists|p: int|
            #[trigger] occurs_at(dot_text(hashes), p, dot_node_line(i as nat, hashes[i][0])) && (i > 0
                ==> occurs_at(
                dot_text(hashes),
                p + dot_node_line(i as nat, hashes[i][0]).len(),
                dot_edge_line((i - 1) as nat, i as nat),
            )),
{
    let head = seq![
        100u8,
        105u8,
        103u8,
        114u8,
        97u8,
        112u8,
        104u8,
        32u8,
        100u8,
        97u8,
        103u8,
        32u8,
        123u8,
        10u8,
    ];
    let text = dot_text(hashes);
    let lines = dot_lines(hashes);
    assert(text.take(14) =~= head);
    assert(text.skip(text.len() - 2) =~= seq![125u8, 10u8]);
    lemma_dot_lines_prefix(hashes, i + 1);
    let t = hashes.take(i + 1);
    assert(t.drop_last() =~= hashes.take(i));
    assert(t.last() == hashes[i]);
    let before = dot_lines(hashes.take(i));
    let node = dot_node_line(i as nat, hashes[i][0]);
    let edge = dot_edge_line((i - 1) as nat, i as nat);
    let upto = dot_lines(t);
    let bl = before.len() as int;
    let nl = node.len() as int;
    let el = edge.len() as int;
    let p: int = 14 + bl;
    assert(text.len() == 16 + lines.len());
    if i > 0 {
        assert(upto =~= before + node + edge);
        assert(upto.len() == bl + nl + el);
        assert(lines.take(upto.len() as int) == upto);
        assert(text.subrange(p, p + nl) =~= upto.subrange(bl, bl + nl));
        assert(text.subrange(p + nl, p + nl + el) =~= upto.subrange(bl + nl, bl + nl + el));
        assert(upto.subrange(bl, bl + nl) =~= node);
        assert(upto.subrange(bl + nl, bl + nl + el) =~= edge);
        assert(occurs_at(text, p, node)) by {
            assert(text.subrange(p, p + node.len()) =~= node);
        }
        assert(occurs_at(text, p + nl, edge));
    } else {
        assert(upto =~= before + node + Seq::<u8>::empty());
        assert(upto.len() == bl + nl);
        assert(lines.take(upto.len() as int) == upto);
        assert(text.subrange(p, p + nl) =~= upto.subrange(bl, bl + nl));
        assert(upto.subrange(bl, bl + nl) =~= node);
        assert(occurs_at(text, p, node)) by {
            assert(text.subrange(p, p + node.len()) =~= node);
        }
    }
}

/// The sixteen lowercase hexadecimal digits, in order.
pub open spec fn hex_table() -> Seq<char> {
    seq!['0', '1', '2', '3', '4', '5', '6', '7', '8', '9', 'a', 'b', 'c', 'd', 'e', 'f']
}

proof fn lemma_hex_digit_in_table(v: u8)
    requires
        v < 16,
    ensures
        hex_digit(v) == hex_table()[v as int],
{
    if v == 0 {
        assert(hex_digit(v) == '0');
    } else if v == 1 {
        assert(hex_digit(v) == '1');
    } else if v == 2 {
        assert(hex_digit(v) == '2');
    } else if v == 3 {
        assert(hex_digit(v) == '3');
    } else if v == 4 {
        assert(hex_digit(v) == '4');
    } else if v == 5 {
        assert(hex_digit(v) == '5');
    } else if v == 6 {
        assert(hex_digit(v) == '6');
    } else if v == 7 {
        assert(hex_digit(v) == '7');
    } else if v == 8 {
        assert(hex_digit(v) == '8');
    } else if v == 9 {
        assert(hex_digit(v) == '9');
    } else if v == 10 {
        assert(hex_digit(v) == 'a');
    } else if v == 11 {
        assert(hex_digit(v) == 'b');
    } else if v == 12 {
        assert(hex_digit(v) == 'c');
    } else if v == 13 {
        assert(hex_digit(v) == 'd');
    } else if v == 14 {
        assert(hex_digit(v) == 'e');
    } else if v == 15 {
        assert(hex_digit(v) == 'f');
    }
}

/// The text of `bytes` has two characters per byte: at `2k` the digit of
/// the high half of byte `k`, at `2k + 1` the digit of its low half, both
/// from the table `0123456789abcdef`.
pub proof fn lemma_hex_encoding_digits(bytes: Seq<u8>)
    ensures
        hex_encoding(bytes).len() == 2 * bytes.len(),
        forall|k: int|
            0 <= k < bytes.len() ==> {
                &&& #[trigger] hex_encoding(bytes)[2 * k] == hex_table()[(bytes[k] / 16) as int]
                &&& hex_encoding(bytes)[2 * k + 1] == hex_table()[(bytes[k] % 16) as int]
            },
{
    assert forall|k: int| 0 <= k < bytes.len() implies {
        &&& #[trigger] hex_encoding(bytes)[2 * k] == hex_table()[(bytes[k] / 16) as int]
        &&& hex_encoding(bytes)[2 * k + 1] == hex_table()[(bytes[k] % 16) as int]
    } by {
        assert((2 * k) / 2 == k && (2 * k) % 2 == 0);
        assert((2 * k + 1) / 2 == k && (2 * k + 1) % 2 == 1);
        lemma_hex_digit_in_table(bytes[k] / 16);
        lemma_hex_digit_in_table(bytes[k] % 16);
    }
}

/// Each digit of the table, and its uppercase form, reads as its place in
/// the table; no other byte is a digit.
pub proof fn lemma_hex_value_table(v: u8, c: u8)
    requires
        v < 16,
    ensures
        hex_value(hex_table()[v as int] as u8) == Some(v),
        v >= 10 ==> hex_value((hex_table()[v as int] as u8 - 32) as u8) == Some(v),
        hex_value(c) is Some ==> exists|w: int|
            0 <= w < 16 && (c == hex_table()[w] as u8 || (w >= 10 && c == hex_table()[w] as u8 - 32)),
{
    lemma_hex_digit_in_table(v);
    lemma_hex_digit(v);
    if hex_value(c) is Some {
        let w = hex_value(c)->0;
        lemma_hex_digit_in_table(w);
        lemma_hex_digit(w);
        assert(c == hex_table()[w as int] as u8 || (w >= 10 && c == hex_table()[w as int] as u8 - 32));
    }
}

/// In the graph of a bundle the transactions are exactly the ids below the
/// bundle's length; transaction `i` carries hash `i`, weight one and no
/// accounts, and depends on transaction `i - 1` alone (the first on none);
/// the edges lead from each transaction to the next, in order.
pub proof fn lemma_chain_nodes(dag: DagScheduler, hashes: Seq<[u8; 32]>)
    requires
        is_chain_of(dag, hashes),
    ensures
        forall|x: u64| #[trigger] dag.has_node(x) <==> x < hashes.len(),
        forall|i: int|
            0 <= i < hashes.len() ==> {
                let node = #[trigger] dag.node_map()[i as u64];
                &&& node.id == i
                &&& node.tx_hash == hashes[i]
                &&& node.weight == 1
                &&& node.account_keys@.len() == 0
                &&& i == 0 ==> node.dependencies@.len() == 0
                &&& i > 0 ==> node.dependencies@ == seq![(i - 1) as u64]
            },
        dag.edges().len() == if hashes.len() == 0 {
            0
        } else {
            hashes.len() - 1
        },
        forall|e: int| 0 <= e < dag.edges().len() ==> #[trigger] dag.edges()[e] == (e as u64, (e + 1) as u64),
{
    let n = hashes.len();
    let ids = chain_ids(n);
    assert forall|x: u64| #[trigger] dag.has_node(x) <==> x < n by {
        if x < n {
            assert(ids[x as int] == x);
        }
    }
    assert forall|i: int| 0 <= i < n implies {
        let node = #[trigger] dag.node_map()[i as u64];
        &&& node.id == i
        &&& node.tx_hash == hashes[i]
        &&& node.weight == 1
        &&& node.account_keys@.len() == 0
        &&& i == 0 ==> node.dependencies@.len() == 0
        &&& i > 0 ==> node.dependencies@ == seq![(i - 1) as u64]
    } by {
        assert(ids[i] == i as u64);
        crate::math::dag::lemma_index_of_unique(ids, i);
        assert(is_chain_node(dag.node_seq()[i], hashes[i], i));
    }
}

} // verus!
