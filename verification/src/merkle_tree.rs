//! Binary Merkle trees over SHA-256, with batched multi-leaf openings.
//!
//! A tree is stored as its layers, leaves first: layer `k` is the
//! concatenation of its 32-byte node hashes.
use crate::binary_fft::{is_pow2, lemma_is_pow2_log2, lemma_log2_fits, log2};
use sha2::{Digest, Sha256};
use vstd::arithmetic::power2::*;
use vstd::prelude::*;
use vstd::slice::{slice_subrange, slice_to_vec};

verus! {

/// SHA-256 of `data`.
pub uninterp spec fn sha256(data: Seq<u8>) -> Seq<u8>;

/// Calls `sha2::Sha256::digest`; the contract claims that the result is the
/// 32-byte digest `sha256(data)`.
#[verifier::external_body]
pub(crate) fn sha256_digest(data: &[u8]) -> (r: Vec<u8>)
    ensures
        r@ == sha256(data@),
        r@.len() == 32,
{
    Sha256::digest(data).to_vec()
}

/// The byte strings held by a vector of byte vectors.
pub open spec fn views(v: Seq<Vec<u8>>) -> Seq<Seq<u8>> {
    Seq::new(v.len(), |i: int| v[i]@)
}

/// Node `i` of a layer: its bytes `32 i .. 32 i + 32`.
pub open spec fn node(layer: Seq<u8>, i: int) -> Seq<u8> {
    layer.subrange(32 * i, 32 * i + 32)
}

/// The parent hash of two nodes.
pub open spec fn hash_pair(left: Seq<u8>, right: Seq<u8>) -> Seq<u8> {
    sha256(left + right)
}

/// `tree` is the Merkle tree of `leaves`: `log2(n) + 1` layers, layer `k`
/// holding `n / 2^k` nodes; the nodes of layer 0 are the hashes of the
/// leaves and each other node hashes its two children.
pub open spec fn is_merkle_tree(tree: Seq<Seq<u8>>, leaves: Seq<Seq<u8>>) -> bool {
    let d = log2(leaves.len());
    &&& is_pow2(leaves.len())
    &&& tree.len() == d + 1
    &&& forall|k: int| 0 <= k < tree.len() ==> #[trigger] tree[k].len() == 32 * pow2((d - k) as nat)
    &&& forall|i: int| 0 <= i < leaves.len() ==> #[trigger] node(tree[0], i) == sha256(leaves[i])
    &&& forall|k: int, i: int|
        1 <= k <= d && 0 <= i < pow2((d - k) as nat) ==> #[trigger] node(tree[k], i) == hash_pair(
            node(tree[k - 1], 2 * i),
            node(tree[k - 1], 2 * i + 1),
        )
}

/// Appending 32 bytes to a layer of `m` nodes keeps its nodes and adds one.
proof fn lemma_node_append(a: Seq<u8>, h: Seq<u8>, m: int)
    requires
        a.len() == 32 * m,
        h.len() == 32,
        m >= 0,
    ensures
        forall|j: int| 0 <= j < m ==> #[trigger] node(a + h, j) == node(a, j),
        node(a + h, m) == h,
{
    assert forall|j: int| 0 <= j < m implies #[trigger] node(a + h, j) == node(a, j) by {
        assert(node(a + h, j) =~= node(a, j));
    }
    assert(node(a + h, m) =~= h);
}

/// The leaf hashes, concatenated.
fn hash_array(leaves: &Vec<Vec<u8>>) -> (r: Vec<u8>)
    requires
        leaves@.len() <= usize::MAX / 64,
    ensures
        r@.len() == 32 * leaves@.len(),
        forall|i: int| 0 <= i < leaves@.len() ==> #[trigger] node(r@, i) == sha256(leaves@[i]@),
{
    let n = leaves.len();
    let mut xh: Vec<u8> = Vec::with_capacity(32 * n);
    let mut i: usize = 0;
    while i < n
        invariant
            i <= n,
            n == leaves@.len(),
            n <= usize::MAX / 64,
            xh@.len() == 32 * i,
            forall|j: int| 0 <= j < i ==> #[trigger] node(xh@, j) == sha256(leaves@[j]@),
        decreases n - i,
    {
        let mut hash = sha256_digest(leaves[i].as_slice());
        proof {
            lemma_node_append(xh@, hash@, i as int);
        }
        xh.append(&mut hash);
        i = i + 1;
    }
    xh
}

/// The parents of the nodes of `layer`, concatenated.
fn hash_layer(layer: &Vec<u8>, next_n: usize) -> (r: Vec<u8>)
    requires
        layer@.len() == 64 * next_n,
    ensures
        r@.len() == 32 * next_n,
        forall|i: int|
            0 <= i < next_n ==> #[trigger] node(r@, i) == hash_pair(
                node(layer@, 2 * i),
                node(layer@, 2 * i + 1),
            ),
{
    assert(layer@.len() == layer.len());
    let mut next_layer: Vec<u8> = Vec::with_capacity(32 * next_n);
    let mut i: usize = 0;
    while i < next_n
        invariant
            i <= next_n,
            layer@.len() == 64 * next_n,
            64 * next_n <= usize::MAX,
            next_layer@.len() == 32 * i,
            forall|j: int|
                0 <= j < i ==> #[trigger] node(next_layer@, j) == hash_pair(
                    node(layer@, 2 * j),
                    node(layer@, 2 * j + 1),
                ),
        decreases next_n - i,
    {
        let combined = slice_subrange(layer.as_slice(), i * 64, i * 64 + 64);
        assert(combined@ =~= node(layer@, 2 * i) + node(layer@, 2 * i + 1));
        let mut hash = sha256_digest(combined);
        proof {
            lemma_node_append(next_layer@, hash@, i as int);
        }
        next_layer.append(&mut hash);
        i = i + 1;
    }
    next_layer
}

/// The Merkle tree of `leaves` (a power-of-two number of them).
pub fn build_merkle_tree(leaves: Vec<Vec<u8>>) -> (r: Vec<Vec<u8>>)
    requires
        is_pow2(leaves@.len()),
        leaves@.len() <= usize::MAX / 64,
    ensures
        is_merkle_tree(views(r@), views(leaves@)),
{
    let n = leaves.len();
    let ghost lv = views(leaves@);
    let ghost d = log2(n as nat);
    proof {
        lemma_is_pow2_log2(n as nat);
        lemma_log2_fits(n as nat);
    }
    if n == 0 {
        return Vec::new();
    }
    let lh = hash_array(&leaves);
    let mut layers: Vec<Vec<u8>> = Vec::new();
    layers.push(slice_to_vec(lh.as_slice()));
    let mut current_layer = lh;
    let mut current_n = n;
    let ghost mut k: nat = 0;
    proof {
        assert(d - 0 == d);
    }
    while current_n > 1
        invariant
            n == leaves@.len(),
            lv == views(leaves@),
            n == pow2(d),
            d < 64,
            n <= usize::MAX / 64,
            k <= d,
            current_n == pow2((d - k) as nat),
            layers@.len() == k + 1,
            current_layer@ == layers@[k as int]@,
            current_layer@.len() == 32 * current_n,
            forall|j: int| 0 <= j <= k ==> #[trigger] layers@[j]@.len() == 32 * pow2((d - j) as nat),
            forall|i: int| 0 <= i < n ==> #[trigger] node(layers@[0]@, i) == sha256(lv[i]),
            forall|kk: int, i: int|
                1 <= kk <= k && 0 <= i < pow2((d - kk) as nat) ==> #[trigger] node(layers@[kk]@, i)
                    == hash_pair(node(layers@[kk - 1]@, 2 * i), node(layers@[kk - 1]@, 2 * i + 1)),
        decreases current_n,
    {
        proof {
            if k == d {
                lemma2_to64();
                assert(false);
            }
            lemma_pow2_unfold((d - k) as nat);
            assert(((d - k) as nat - 1) as nat == (d - (k + 1)) as nat);
            lemma_pow2_pos((d - (k + 1)) as nat);
        }
        let next_n = (current_n + 1) / 2;
        let next_layer = hash_layer(&current_layer, next_n);
        let ghost old_layers = layers@;
        layers.push(slice_to_vec(next_layer.as_slice()));
        proof {
            assert(forall|j: int| 0 <= j <= k ==> layers@[j] == old_layers[j]);
            assert forall|kk: int, i: int|
                1 <= kk <= k + 1 && 0 <= i < pow2((d - kk) as nat) implies #[trigger] node(
                layers@[kk]@,
                i,
            ) == hash_pair(node(layers@[kk - 1]@, 2 * i), node(layers@[kk - 1]@, 2 * i + 1)) by {
                if kk <= k {
                    assert(layers@[kk] == old_layers[kk]);
                    assert(layers@[kk - 1] == old_layers[kk - 1]);
                } else {
                    assert(layers@[kk - 1] == old_layers[k as int]);
                }
            }
            k = k + 1;
        }
        current_layer = next_layer;
        current_n = next_n;
    }
    proof {
        if k < d {
            lemma_pow2_unfold((d - k) as nat);
            lemma_pow2_pos(((d - k) as nat - 1) as nat);
        }
        let t = views(layers@);
        assert(t.len() == d + 1);
        assert forall|kk: int| 0 <= kk < t.len() implies #[trigger] t[kk].len() == 32 * pow2(
            (d - kk) as nat,
        ) by {
            assert(t[kk] == layers@[kk]@);
        }
        assert forall|i: int| 0 <= i < lv.len() implies #[trigger] node(t[0], i) == sha256(lv[i]) by {
            assert(t[0] == layers@[0]@);
        }
        assert forall|kk: int, i: int|
            1 <= kk <= d && 0 <= i < pow2((d - kk) as nat) implies #[trigger] node(t[kk], i)
                == hash_pair(node(t[kk - 1], 2 * i), node(t[kk - 1], 2 * i + 1)) by {
            assert(t[kk] == layers@[kk]@);
            assert(t[kk - 1] == layers@[kk - 1]@);
        }
    }
    layers
}

// ---------------------------------------------------------------------------
// Batched openings
// ---------------------------------------------------------------------------

/// The other child of the parent of node `q`.
pub open spec fn sibling(q: int) -> int {
    if q % 2 == 0 {
        q + 1
    } else {
        q - 1
    }
}

/// Every query is below `n`.
pub open spec fn all_below(qs: Seq<usize>, n: int) -> bool {
    forall|j: int| 0 <= j < qs.len() ==> #[trigger] qs[j] < n
}

/// The queries are strictly increasing.
pub open spec fn strictly_increasing(qs: Seq<usize>) -> bool {
    forall|a: int, b: int| 0 <= a < b < qs.len() ==> #[trigger] qs[a] < #[trigger] qs[b]
}

/// The layers have the sizes of a tree of depth `tree.len() - 1`: layer `k`
/// holds `2^(depth - k)` nodes.
pub open spec fn tree_shape(tree: Seq<Seq<u8>>) -> bool {
    &&& tree.len() >= 1
    &&& forall|k: int|
        0 <= k < tree.len() ==> #[trigger] tree[k].len() == 32 * pow2((tree.len() - 1 - k) as nat)
}

/// One layer of a batched opening, from query `i` on: the sibling hashes
/// the layer contributes, and the queries of the next layer. A query whose
/// sibling is the next query contributes no hash; the pair moves up as one.
pub open spec fn prove_layer(layer: Seq<u8>, qs: Seq<usize>, i: int) -> (Seq<Seq<u8>>, Seq<usize>)
    decreases qs.len() - i,
{
    if i < 0 || i >= qs.len() {
        (seq![], seq![])
    } else {
        let q = qs[i] as int;
        let up = (qs[i] / 2) as usize;
        if i == qs.len() - 1 {
            (seq![node(layer, sibling(q))], seq![up])
        } else if q % 2 != 0 || qs[i + 1] != sibling(q) {
            let rest = prove_layer(layer, qs, i + 1);
            (seq![node(layer, sibling(q))] + rest.0, seq![up] + rest.1)
        } else {
            let rest = prove_layer(layer, qs, i + 2);
            (rest.0, seq![up] + rest.1)
        }
    }
}

/// The sibling hashes of layers `k .. depth`, lowest layer first.
pub open spec fn prove_layers(tree: Seq<Seq<u8>>, qs: Seq<usize>, k: int, depth: int) -> Seq<Seq<u8>>
    decreases depth - k,
{
    if k < 0 || k >= depth {
        seq![]
    } else {
        let p = prove_layer(tree[k], qs, 0);
        p.0 + prove_layers(tree, p.1, k + 1, depth)
    }
}

/// The batched opening of `qs` in `tree`.
pub open spec fn spec_prove(tree: Seq<Seq<u8>>, qs: Seq<usize>) -> Seq<Seq<u8>> {
    prove_layers(tree, qs, 0, tree.len() - 1)
}

proof fn lemma_sibling_bits(q: usize)
    by (bit_vector)
    ensures
        q % 2 == 0 ==> q ^ 1usize == q + 1,
        q % 2 == 1 ==> q ^ 1usize == q - 1,
        q >> 1usize == q / 2,
{
}

proof fn lemma_bits(q: usize)
    ensures
        (q ^ 1usize) as int == sibling(q as int),
        q >> 1usize == q / 2,
{
    lemma_sibling_bits(q);
}

/// The next queries of a layer stay below half its size.
proof fn lemma_prove_layer_below(layer: Seq<u8>, qs: Seq<usize>, i: int, n: int)
    requires
        all_below(qs, n),
        n % 2 == 0,
    ensures
        all_below(prove_layer(layer, qs, i).1, n / 2),
    decreases qs.len() - i,
{
    if 0 <= i < qs.len() {
        assert(qs[i] < n);
        let up = (qs[i] / 2) as usize;
        if i == qs.len() - 1 {
        } else if qs[i] % 2 != 0 || qs[i + 1] != sibling(qs[i] as int) {
            lemma_prove_layer_below(layer, qs, i + 1, n);
            let rest = prove_layer(layer, qs, i + 1);
            assert(prove_layer(layer, qs, i).1 == seq![up] + rest.1);
        } else {
            lemma_prove_layer_below(layer, qs, i + 2, n);
            let rest = prove_layer(layer, qs, i + 2);
            assert(prove_layer(layer, qs, i).1 == seq![up] + rest.1);
        }
    }
}

/// One layer of a batched opening: pushes the layer's sibling hashes to
/// `proof` and returns the next layer's queries.
fn ith_layer(current_layer: &Vec<u8>, queries: &Vec<usize>, proof: &mut Vec<Vec<u8>>) -> (next: Vec<usize>)
    requires
        current_layer@.len() % 64 == 0,
        all_below(queries@, (current_layer@.len() / 32) as int),
    ensures
        views(final(proof)@) == views(old(proof)@) + prove_layer(current_layer@, queries@, 0).0,
        next@ == prove_layer(current_layer@, queries@, 0).1,
{
    let ghost layer = current_layer@;
    let ghost qs = queries@;
    let ghost whole = prove_layer(layer, qs, 0);
    let ghost p0 = views(proof@);
    let ql = queries.len();
    let mut next: Vec<usize> = Vec::new();
    let mut i: usize = 0;
    assert(current_layer@.len() == current_layer.len());
    while i < ql
        invariant
            i <= ql,
            ql == qs.len(),
            qs == queries@,
            layer == current_layer@,
            layer.len() % 64 == 0,
            layer.len() <= usize::MAX,
            all_below(qs, (layer.len() / 32) as int),
            whole == prove_layer(layer, qs, 0),
            views(proof@) + prove_layer(layer, qs, i as int).0 == p0 + whole.0,
            next@ + prove_layer(layer, qs, i as int).1 == whole.1,
        decreases ql - i,
    {
        let query = queries[i];
        proof {
            lemma_bits(query);
            assert(query < layer.len() / 32);
        }
        let sibling = query ^ 1;
        let ghost rest_here = prove_layer(layer, qs, i as int);
        let ghost old_proof = views(proof@);
        let ghost old_next = next@;
        next.push(query >> 1);
        let sibling_hash = slice_to_vec(slice_subrange(current_layer.as_slice(), sibling * 32, sibling * 32 + 32));
        assert(sibling_hash@ =~= node(layer, sibling as int));
        if i == ql - 1 {
            proof.push(sibling_hash);
            proof {
                assert(views(proof@) =~= old_proof.push(sibling_hash@));
                assert(prove_layer(layer, qs, ql as int).0 =~= Seq::<Seq<u8>>::empty());
                assert(prove_layer(layer, qs, ql as int).1 =~= Seq::<usize>::empty());
                assert(views(proof@) =~= old_proof + rest_here.0);
                assert(next@ =~= old_next + rest_here.1);
            }
            i = ql;
        } else if query % 2 != 0 || queries[i + 1] != sibling {
            proof.push(sibling_hash);
            proof {
                let rest = prove_layer(layer, qs, i + 1);
                assert(views(proof@) =~= old_proof.push(sibling_hash@));
                assert(views(proof@) + rest.0 =~= old_proof + rest_here.0);
                assert(next@ + rest.1 =~= old_next + rest_here.1);
            }
            i = i + 1;
        } else {
            proof {
                let rest = prove_layer(layer, qs, i + 2);
                assert(next@ + rest.1 =~= old_next + rest_here.1);
            }
            i = i + 2;
        }
    }
    proof {
        assert(prove_layer(layer, qs, i as int).0 =~= Seq::<Seq<u8>>::empty());
        assert(prove_layer(layer, qs, i as int).1 =~= Seq::<usize>::empty());
        assert(views(proof@) =~= p0 + whole.0);
        assert(next@ =~= whole.1);
    }
    next
}

/// The batched opening of `queries` in `tree`: the sibling hashes that a
/// verifier needs to recompute the root from the queried leaves, lowest
/// layer first.
pub fn prove(tree: &Vec<Vec<u8>>, queries: &Vec<usize>) -> (r: Vec<Vec<u8>>)
    requires
        tree_shape(views(tree@)),
        all_below(queries@, pow2((tree@.len() - 1) as nat) as int),
    ensures
        views(r@) == spec_prove(views(tree@), queries@),
{
    let ghost t = views(tree@);
    let ghost d = (tree@.len() - 1) as int;
    let mut proof: Vec<Vec<u8>> = Vec::new();
    let depth = tree.len() - 1;
    let mut queries_buff = slice_to_vec(queries.as_slice());
    let mut i: usize = 0;
    proof {
        assert(views(proof@) =~= Seq::<Seq<u8>>::empty());
    }
    while i < depth
        invariant
            i <= depth,
            depth == d,
            d == tree@.len() - 1,
            t == views(tree@),
            tree_shape(t),
            all_below(queries_buff@, pow2((d - i) as nat) as int),
            views(proof@) + prove_layers(t, queries_buff@, i as int, d) == spec_prove(t, queries@),
        decreases depth - i,
    {
        let ghost before = views(proof@);
        let ghost qb = queries_buff@;
        let current_layer = &tree[i];
        proof {
            assert(t[i as int] == current_layer@);
            assert(current_layer@.len() == 32 * pow2((d - i) as nat));
            lemma_pow2_unfold((d - i) as nat);
            assert(((d - i) as nat - 1) as nat == (d - (i + 1)) as nat);
            lemma_prove_layer_below(current_layer@, qb, 0, pow2((d - i) as nat) as int);
        }
        queries_buff = ith_layer(current_layer, &queries_buff, &mut proof);
        proof {
            let p = prove_layer(t[i as int], qb, 0);
            assert(prove_layers(t, qb, i as int, d) == p.0 + prove_layers(t, p.1, i + 1, d));
            assert(views(proof@) + prove_layers(t, queries_buff@, i + 1, d) =~= before + prove_layers(t, qb, i as int, d));
        }
        i = i + 1;
    }
    proof {
        assert(prove_layers(t, queries_buff@, i as int, d) =~= Seq::<Seq<u8>>::empty());
        assert(views(proof@) =~= spec_prove(t, queries@));
    }
    proof
}

// ---------------------------------------------------------------------------
// Verifying batched openings
// ---------------------------------------------------------------------------

/// One layer of opening verification, from query `i` on, with `vals` the
/// hashes of the queried nodes and `pc` the next unread proof hash: the
/// next layer's hashes and queries, the next unread proof hash, and whether
/// the proof had enough hashes. A query whose sibling is the next query is
/// hashed with it; any other takes its sibling from the proof.
pub open spec fn verify_layer(vals: Seq<Seq<u8>>, qs: Seq<usize>, proof: Seq<Seq<u8>>, pc: int, i: int) -> (
    Seq<Seq<u8>>,
    Seq<usize>,
    int,
    bool,
)
    decreases qs.len() - i,
{
    if i < 0 || i >= qs.len() {
        (seq![], seq![], pc, true)
    } else {
        let q = qs[i] as int;
        let up = (qs[i] / 2) as usize;
        if i == qs.len() - 1 || q % 2 != 0 || qs[i + 1] != sibling(q) {
            if pc < 0 || pc >= proof.len() {
                (seq![], seq![], pc, false)
            } else {
                let h = if q % 2 != 0 {
                    hash_pair(proof[pc], vals[i])
                } else {
                    hash_pair(vals[i], proof[pc])
                };
                if i == qs.len() - 1 {
                    (seq![h], seq![up], pc + 1, true)
                } else {
                    let rest = verify_layer(vals, qs, proof, pc + 1, i + 1);
                    (seq![h] + rest.0, seq![up] + rest.1, rest.2, rest.3)
                }
            }
        } else {
            let rest = verify_layer(vals, qs, proof, pc, i + 2);
            (seq![hash_pair(vals[i], vals[i + 1])] + rest.0, seq![up] + rest.1, rest.2, rest.3)
        }
    }
}

/// `layers` rounds of `verify_layer`, stopping at the first that runs out of
/// proof hashes.
pub open spec fn verify_layers(vals: Seq<Seq<u8>>, qs: Seq<usize>, proof: Seq<Seq<u8>>, pc: int, layers: nat) -> (
    Seq<Seq<u8>>,
    Seq<usize>,
    int,
    bool,
)
    decreases layers,
{
    if layers == 0 {
        (vals, qs, pc, true)
    } else {
        let s = verify_layer(vals, qs, proof, pc, 0);
        if !s.3 {
            s
        } else {
            verify_layers(s.0, s.1, proof, s.2, (layers - 1) as nat)
        }
    }
}

/// Whether `proof` opens `leaves` at `indices` against `root` in a tree of
/// the given depth: there is a leaf for each index, the proof has the hashes
/// that the recomputation reads, it ends with one node, and that node is
/// `root`.
pub open spec fn spec_verify(
    root: Seq<u8>,
    proof: Seq<Seq<u8>>,
    depth: nat,
    leaves: Seq<Seq<u8>>,
    indices: Seq<usize>,
) -> bool {
    &&& leaves.len() >= indices.len()
    &&& ({
        let vals = Seq::new(indices.len(), |j: int| sha256(leaves[j]));
        let s = verify_layers(vals, indices, proof, 0, depth);
        &&& s.3
        &&& s.1.len() == 1
        &&& s.0[0] == root
    })
}

proof fn lemma_verify_layer_lens(vals: Seq<Seq<u8>>, qs: Seq<usize>, proof: Seq<Seq<u8>>, pc: int, i: int)
    requires
        0 <= pc <= proof.len(),
        0 <= i,
    ensures
        ({
            let s = verify_layer(vals, qs, proof, pc, i);
            s.3 ==> s.0.len() == s.1.len() && pc <= s.2 <= proof.len()
        }),
    decreases qs.len() - i,
{
    if i < qs.len() {
        let q = qs[i] as int;
        if i == qs.len() - 1 || q % 2 != 0 || qs[i + 1] != sibling(q) {
            if pc < proof.len() && i != qs.len() - 1 {
                lemma_verify_layer_lens(vals, qs, proof, pc + 1, i + 1);
            }
        } else {
            lemma_verify_layer_lens(vals, qs, proof, pc, i + 2);
        }
    }
}

/// The parent of two sibling nodes, given as byte slices.
fn hash_siblings(left: &[u8], right: &[u8]) -> (r: Vec<u8>)
    ensures
        r@ == hash_pair(left@, right@),
        r@.len() == 32,
{
    let mut combined = slice_to_vec(left);
    let mut tail = slice_to_vec(right);
    combined.append(&mut tail);
    sha256_digest(combined.as_slice())
}

/// One layer of opening verification (see `verify_layer`).
fn verify_ith_layer(layer: &Vec<Vec<u8>>, queries: &Vec<usize>, proof: &Vec<Vec<u8>>, proof_cnt: usize) -> (r: (
    Vec<Vec<u8>>,
    Vec<usize>,
    usize,
    bool,
))
    requires
        layer@.len() == queries@.len(),
        proof_cnt <= proof@.len(),
    ensures
        ({
            let s = verify_layer(views(layer@), queries@, views(proof@), proof_cnt as int, 0);
            &&& r.3 == s.3
            &&& r.3 ==> views(r.0@) == s.0 && r.1@ == s.1 && r.2 == s.2
        }),
{
    let ghost vals = views(layer@);
    let ghost qs = queries@;
    let ghost pf = views(proof@);
    let ghost whole = verify_layer(vals, qs, pf, proof_cnt as int, 0);
    let curr_cnt = queries.len();
    let mut next_layer: Vec<Vec<u8>> = Vec::new();
    let mut next_queries: Vec<usize> = Vec::new();
    let mut pc = proof_cnt;
    let mut i: usize = 0;
    proof {
        assert(views(next_layer@) =~= Seq::<Seq<u8>>::empty());
    }
    while i < curr_cnt
        invariant
            i <= curr_cnt,
            curr_cnt == qs.len(),
            qs == queries@,
            vals == views(layer@),
            pf == views(proof@),
            layer@.len() == curr_cnt,
            pc <= proof@.len(),
            whole == verify_layer(vals, qs, pf, proof_cnt as int, 0),
            whole.3 == verify_layer(vals, qs, pf, pc as int, i as int).3,
            verify_layer(vals, qs, pf, pc as int, i as int).3 ==> {
                let s = verify_layer(vals, qs, pf, pc as int, i as int);
                &&& whole.0 == views(next_layer@) + s.0
                &&& whole.1 == next_queries@ + s.1
                &&& whole.2 == s.2
            },
        decreases curr_cnt - i,
    {
        let ghost here = verify_layer(vals, qs, pf, pc as int, i as int);
        let ghost nl = views(next_layer@);
        let ghost nq = next_queries@;
        let query = queries[i];
        proof {
            lemma_bits(query);
        }
        let sibling = query ^ 1;
        let up = query >> 1;
        if i == curr_cnt - 1 || query % 2 != 0 || queries[i + 1] != sibling {
            if pc >= proof.len() {
                return (next_layer, next_queries, pc, false);
            }
            let h = if query % 2 != 0 {
                hash_siblings(proof[pc].as_slice(), layer[i].as_slice())
            } else {
                hash_siblings(layer[i].as_slice(), proof[pc].as_slice())
            };
            next_layer.push(h);
            next_queries.push(up);
            proof {
                assert(views(next_layer@) =~= nl.push(h@));
            }
            if i == curr_cnt - 1 {
                proof {
                    assert(verify_layer(vals, qs, pf, pc + 1, curr_cnt as int) == (
                        Seq::<Seq<u8>>::empty(),
                        Seq::<usize>::empty(),
                        pc + 1,
                        true,
                    ));
                    assert(views(next_layer@) + Seq::<Seq<u8>>::empty() =~= nl + here.0);
                    assert(next_queries@ + Seq::<usize>::empty() =~= nq + here.1);
                }
                pc = pc + 1;
                i = curr_cnt;
            } else {
                proof {
                    let rest = verify_layer(vals, qs, pf, pc + 1, i + 1);
                    if rest.3 {
                        assert(views(next_layer@) + rest.0 =~= nl + here.0);
                        assert(next_queries@ + rest.1 =~= nq + here.1);
                    }
                }
                pc = pc + 1;
                i = i + 1;
            }
        } else {
            let h = hash_siblings(layer[i].as_slice(), layer[i + 1].as_slice());
            next_layer.push(h);
            next_queries.push(up);
            proof {
                assert(views(next_layer@) =~= nl.push(h@));
                let rest = verify_layer(vals, qs, pf, pc as int, i + 2);
                if rest.3 {
                    assert(views(next_layer@) + rest.0 =~= nl + here.0);
                    assert(next_queries@ + rest.1 =~= nq + here.1);
                }
            }
            i = i + 2;
        }
    }
    proof {
        let s = verify_layer(vals, qs, pf, pc as int, i as int);
        assert(s == (Seq::<Seq<u8>>::empty(), Seq::<usize>::empty(), pc as int, true));
        assert(views(next_layer@) + s.0 =~= views(next_layer@));
        assert(next_queries@ + s.1 =~= next_queries@);
    }
    (next_layer, next_queries, pc, true)
}

fn bytes_equal(a: &Vec<u8>, b: &Vec<u8>) -> (r: bool)
    ensures
        r == (a@ == b@),
{
    if a.len() != b.len() {
        return false;
    }
    let mut i: usize = 0;
    while i < a.len()
        invariant
            i <= a.len(),
            a.len() == b.len(),
            a@.subrange(0, i as int) == b@.subrange(0, i as int),
        decreases a.len() - i,
    {
        if a[i] != b[i] {
            return false;
        }
        proof {
            assert(a@.subrange(0, i + 1) =~= a@.subrange(0, i as int).push(a@[i as int]));
            assert(b@.subrange(0, i + 1) =~= b@.subrange(0, i as int).push(b@[i as int]));
        }
        i = i + 1;
    }
    assert(a@ =~= a@.subrange(0, i as int));
    assert(b@ =~= b@.subrange(0, i as int));
    true
}

/// Whether `batched_proof` opens `leaves` at `leaf_indices` against `root`
/// in a tree of the given depth (see `spec_verify`).
pub fn verify(
    root: &Vec<u8>,
    batched_proof: &Vec<Vec<u8>>,
    depth: usize,
    leaves: &Vec<Vec<u8>>,
    leaf_indices: &Vec<usize>,
) -> (r: bool)
    ensures
        r == spec_verify(root@, views(batched_proof@), depth as nat, views(leaves@), leaf_indices@),
{
    let ghost pf = views(batched_proof@);
    let ghost lv = views(leaves@);
    let cnt = leaf_indices.len();
    if leaves.len() < cnt {
        return false;
    }
    let ghost vals0 = Seq::new(cnt as nat, |j: int| sha256(lv[j]));
    assert(vals0 =~= Seq::new(leaf_indices@.len(), |j: int| sha256(views(leaves@)[j])));
    let mut layer: Vec<Vec<u8>> = Vec::new();
    let mut j: usize = 0;
    while j < cnt
        invariant
            j <= cnt,
            cnt <= leaves@.len(),
            lv == views(leaves@),
            vals0 == Seq::new(cnt as nat, |j: int| sha256(lv[j])),
            views(layer@) == vals0.subrange(0, j as int),
        decreases cnt - j,
    {
        let h = sha256_digest(leaves[j].as_slice());
        let ghost before = views(layer@);
        layer.push(h);
        proof {
            assert(views(layer@) =~= before.push(h@));
            assert(vals0.subrange(0, j + 1) =~= vals0.subrange(0, j as int).push(vals0[j as int]));
        }
        j = j + 1;
    }
    assert(views(layer@) =~= vals0);
    let mut queries = slice_to_vec(leaf_indices.as_slice());
    let mut proof_cnt: usize = 0;
    let mut k: usize = 0;
    while k < depth
        invariant
            k <= depth,
            pf == views(batched_proof@),
            cnt == leaf_indices@.len(),
            cnt <= leaves@.len(),
            vals0 == Seq::new(leaf_indices@.len(), |j: int| sha256(views(leaves@)[j])),
            layer@.len() == queries@.len(),
            proof_cnt <= batched_proof@.len(),
            verify_layers(vals0, leaf_indices@, pf, 0, depth as nat) == verify_layers(
                views(layer@),
                queries@,
                pf,
                proof_cnt as int,
                (depth - k) as nat,
            ),
        decreases depth - k,
    {
        let ghost before = (views(layer@), queries@, proof_cnt as int);
        let (next_layer, next_queries, next_cnt, ok) = verify_ith_layer(&layer, &queries, batched_proof, proof_cnt);
        proof {
            lemma_verify_layer_lens(before.0, before.1, pf, before.2, 0);
            assert(verify_layers(before.0, before.1, pf, before.2, (depth - k) as nat) == {
                let s = verify_layer(before.0, before.1, pf, before.2, 0);
                if !s.3 {
                    s
                } else {
                    verify_layers(s.0, s.1, pf, s.2, (depth - k - 1) as nat)
                }
            });
        }
        if !ok {
            proof {
                let s = verify_layer(before.0, before.1, pf, before.2, 0);
                assert(!s.3);
                assert(!verify_layers(vals0, leaf_indices@, pf, 0, depth as nat).3);
            }
            return false;
        }
        layer = next_layer;
        queries = next_queries;
        proof_cnt = next_cnt;
        k = k + 1;
    }
    if queries.len() != 1 {
        return false;
    }
    bytes_equal(&layer[0], root)
}

// ---------------------------------------------------------------------------
// Openings made by `prove` are accepted by `verify`
// ---------------------------------------------------------------------------

/// The leaves at the queried positions, in query order.
pub open spec fn opened_leaves(leaves: Seq<Seq<u8>>, qs: Seq<usize>) -> Seq<Seq<u8>> {
    Seq::new(qs.len(), |j: int| leaves[qs[j] as int])
}

/// One layer: verifying the hashes that `prove_layer` gives recomputes the
/// parents of the queried nodes, reading exactly those hashes, and the next
/// queries are again sorted, distinct and in range.
proof fn lemma_layer_roundtrip(
    layer: Seq<u8>,
    upper: Seq<u8>,
    n: int,
    qs: Seq<usize>,
    vals: Seq<Seq<u8>>,
    proof: Seq<Seq<u8>>,
    pc: int,
    i: int,
)
    requires
        n >= 2,
        n % 2 == 0,
        layer.len() == 32 * n,
        forall|j: int|
            0 <= j < n / 2 ==> #[trigger] node(upper, j) == hash_pair(
                node(layer, 2 * j),
                node(layer, 2 * j + 1),
            ),
        0 <= i < qs.len(),
        vals.len() == qs.len(),
        strictly_increasing(qs),
        all_below(qs, n),
        forall|j: int| i <= j < qs.len() ==> #[trigger] vals[j] == node(layer, qs[j] as int),
        0 <= pc,
        pc + prove_layer(layer, qs, i).0.len() <= proof.len(),
        proof.subrange(pc, pc + prove_layer(layer, qs, i).0.len()) == prove_layer(layer, qs, i).0,
    ensures
        ({
            let p = prove_layer(layer, qs, i);
            let v = verify_layer(vals, qs, proof, pc, i);
            &&& v.3
            &&& v.1 == p.1
            &&& v.2 == pc + p.0.len()
            &&& v.0.len() == p.1.len()
            &&& forall|j: int| 0 <= j < v.0.len() ==> #[trigger] v.0[j] == node(upper, p.1[j] as int)
            &&& p.1.len() >= 1
            &&& p.1[0] == qs[i] / 2
            &&& forall|j: int| 0 <= j < p.1.len() ==> qs[i] / 2 <= #[trigger] p.1[j]
            &&& strictly_increasing(p.1)
            &&& all_below(p.1, n / 2)
        }),
    decreases qs.len() - i,
{
    let q = qs[i] as int;
    let up = (qs[i] / 2) as usize;
    let p = prove_layer(layer, qs, i);
    let v = verify_layer(vals, qs, proof, pc, i);
    assert(qs[i] < n);
    assert(0 <= q / 2 < n / 2);
    let parent = node(upper, q / 2);
    assert(parent == hash_pair(node(layer, 2 * (q / 2)), node(layer, 2 * (q / 2) + 1)));
    assert(vals[i] == node(layer, q));
    if q % 2 != 0 {
        assert(2 * (q / 2) == q - 1);
    } else {
        assert(2 * (q / 2) == q);
    }
    if i == qs.len() - 1 {
        assert(p.0 == seq![node(layer, sibling(q))]);
        assert(proof.subrange(pc, pc + 1)[0] == proof[pc]);
        assert(proof[pc] == node(layer, sibling(q)));
        assert(v.0 == seq![parent]);
        assert(p.1 == seq![up]);
    } else if q % 2 != 0 || qs[i + 1] != sibling(q) {
        let rest = prove_layer(layer, qs, i + 1);
        assert(p.0 == seq![node(layer, sibling(q))] + rest.0);
        assert(p.1 == seq![up] + rest.1);
        assert(proof.subrange(pc, pc + p.0.len())[0] == proof[pc]);
        assert(proof[pc] == node(layer, sibling(q)));
        assert(proof.subrange(pc + 1, pc + 1 + rest.0.len()) =~= rest.0) by {
            assert forall|t: int| 0 <= t < rest.0.len() implies proof.subrange(
                pc + 1,
                pc + 1 + rest.0.len(),
            )[t] == rest.0[t] by {
                assert(proof.subrange(pc, pc + p.0.len())[t + 1] == p.0[t + 1]);
            }
        }
        lemma_layer_roundtrip(layer, upper, n, qs, vals, proof, pc + 1, i + 1);
        let rv = verify_layer(vals, qs, proof, pc + 1, i + 1);
        assert(qs[i] < qs[i + 1]);
        assert(qs[i] / 2 < qs[i + 1] / 2);
        assert(v.0 == seq![parent] + rv.0);
        assert(v.1 == seq![up] + rv.1);
        assert forall|j: int| 0 <= j < v.0.len() implies #[trigger] v.0[j] == node(
            upper,
            p.1[j] as int,
        ) by {
            if j > 0 {
                assert(v.0[j] == rv.0[j - 1]);
                assert(p.1[j] == rest.1[j - 1]);
            }
        }
        assert forall|j: int| 0 <= j < p.1.len() implies qs[i] / 2 <= #[trigger] p.1[j] by {
            if j > 0 {
                assert(p.1[j] == rest.1[j - 1]);
            }
        }
        assert forall|a: int, b: int| 0 <= a < b < p.1.len() implies #[trigger] p.1[a] < #[trigger] p.1[b] by {
            assert(p.1[b] == rest.1[b - 1]);
            if a > 0 {
                assert(p.1[a] == rest.1[a - 1]);
            }
        }
        assert forall|j: int| 0 <= j < p.1.len() implies #[trigger] p.1[j] < n / 2 by {
            if j > 0 {
                assert(p.1[j] == rest.1[j - 1]);
            }
        }
    } else {
        assert(qs[i + 1] == q + 1);
        assert(vals[i + 1] == node(layer, q + 1));
        assert(p.1 == seq![up] + prove_layer(layer, qs, i + 2).1);
        assert(p.0 == prove_layer(layer, qs, i + 2).0);
        if i + 2 < qs.len() {
            let rest = prove_layer(layer, qs, i + 2);
            lemma_layer_roundtrip(layer, upper, n, qs, vals, proof, pc, i + 2);
            let rv = verify_layer(vals, qs, proof, pc, i + 2);
            assert(qs[i + 1] < qs[i + 2]);
            assert(qs[i] / 2 < qs[i + 2] / 2);
            assert(v.0 == seq![parent] + rv.0);
            assert(v.1 == seq![up] + rv.1);
            assert forall|j: int| 0 <= j < v.0.len() implies #[trigger] v.0[j] == node(
                upper,
                p.1[j] as int,
            ) by {
                if j > 0 {
                    assert(v.0[j] == rv.0[j - 1]);
                    assert(p.1[j] == rest.1[j - 1]);
                }
            }
            assert forall|j: int| 0 <= j < p.1.len() implies qs[i] / 2 <= #[trigger] p.1[j] by {
                if j > 0 {
                    assert(p.1[j] == rest.1[j - 1]);
                }
            }
            assert forall|a: int, b: int| 0 <= a < b < p.1.len() implies #[trigger] p.1[a] < #[trigger] p.1[b] by {
                assert(p.1[b] == rest.1[b - 1]);
                if a > 0 {
                    assert(p.1[a] == rest.1[a - 1]);
                }
            }
            assert forall|j: int| 0 <= j < p.1.len() implies #[trigger] p.1[j] < n / 2 by {
                if j > 0 {
                    assert(p.1[j] == rest.1[j - 1]);
                }
            }
        } else {
            assert(prove_layer(layer, qs, i + 2).1 =~= Seq::<usize>::empty());
            assert(prove_layer(layer, qs, i + 2).0 =~= Seq::<Seq<u8>>::empty());
            assert(p.1 =~= seq![up]);
            let rv = verify_layer(vals, qs, proof, pc, i + 2);
            assert(rv == (Seq::<Seq<u8>>::empty(), Seq::<usize>::empty(), pc, true));
            assert(hash_pair(vals[i], vals[i + 1]) == parent);
            assert(v.0 == seq![parent] + rv.0);
            assert(v.1 == seq![up] + rv.1);
            assert(v.0 =~= seq![parent]);
            assert(v.1 =~= seq![up]);
        }
    }
}

/// Layers `k .. depth`: verifying the hashes that `prove_layers` gives ends
/// with the single root node.
proof fn lemma_layers_roundtrip(
    tree: Seq<Seq<u8>>,
    d: int,
    k: int,
    qs: Seq<usize>,
    vals: Seq<Seq<u8>>,
    proof: Seq<Seq<u8>>,
    pc: int,
)
    requires
        tree.len() == d + 1,
        0 <= k <= d,
        forall|kk: int| 0 <= kk < tree.len() ==> #[trigger] tree[kk].len() == 32 * pow2((d - kk) as nat),
        forall|kk: int, i: int|
            1 <= kk <= d && 0 <= i < pow2((d - kk) as nat) ==> #[trigger] node(tree[kk], i) == hash_pair(
                node(tree[kk - 1], 2 * i),
                node(tree[kk - 1], 2 * i + 1),
            ),
        qs.len() >= 1,
        strictly_increasing(qs),
        all_below(qs, pow2((d - k) as nat) as int),
        vals.len() == qs.len(),
        forall|j: int| 0 <= j < qs.len() ==> #[trigger] vals[j] == node(tree[k], qs[j] as int),
        0 <= pc,
        pc + prove_layers(tree, qs, k, d).len() <= proof.len(),
        proof.subrange(pc, pc + prove_layers(tree, qs, k, d).len()) == prove_layers(tree, qs, k, d),
    ensures
        ({
            let v = verify_layers(vals, qs, proof, pc, (d - k) as nat);
            &&& v.3
            &&& v.1.len() == 1
            &&& v.0[0] == tree[d]
        }),
    decreases d - k,
{
    if k == d {
        assert(pow2(0) == 1) by {
            lemma2_to64();
        }
        assert(qs[0] < 1);
        if qs.len() > 1 {
            assert(qs[0] < qs[1]);
            assert(qs[1] < 1);
        }
        assert(tree[d].len() == 32);
        assert(node(tree[d], 0) =~= tree[d]);
    } else {
        let m = (d - k) as nat;
        lemma_pow2_unfold(m);
        assert((m - 1) as nat == (d - (k + 1)) as nat);
        lemma_pow2_pos((m - 1) as nat);
        let n = pow2(m) as int;
        let p = prove_layer(tree[k], qs, 0);
        let l = prove_layers(tree, qs, k, d);
        let rest = prove_layers(tree, p.1, k + 1, d);
        assert(l == p.0 + rest);
        assert(proof.subrange(pc, pc + p.0.len()) =~= p.0) by {
            assert forall|t: int| 0 <= t < p.0.len() implies proof.subrange(pc, pc + p.0.len())[t]
                == p.0[t] by {
                assert(proof.subrange(pc, pc + l.len())[t] == l[t]);
            }
        }
        assert forall|j: int| 0 <= j < n / 2 implies #[trigger] node(tree[k + 1], j) == hash_pair(
            node(tree[k], 2 * j),
            node(tree[k], 2 * j + 1),
        ) by {
            assert(node(tree[k + 1], j) == hash_pair(
                node(tree[(k + 1) - 1], 2 * j),
                node(tree[(k + 1) - 1], 2 * j + 1),
            ));
        }
        assert(tree[k].len() == 32 * n);
        lemma_layer_roundtrip(tree[k], tree[k + 1], n, qs, vals, proof, pc, 0);
        let v1 = verify_layer(vals, qs, proof, pc, 0);
        assert(proof.subrange(pc + p.0.len(), pc + p.0.len() + rest.len()) =~= rest) by {
            assert forall|t: int| 0 <= t < rest.len() implies proof.subrange(
                pc + p.0.len(),
                pc + p.0.len() + rest.len(),
            )[t] == rest[t] by {
                assert(proof.subrange(pc, pc + l.len())[p.0.len() + t] == l[p.0.len() + t]);
            }
        }
        assert(n / 2 == pow2((d - (k + 1)) as nat));
        lemma_layers_roundtrip(tree, d, k + 1, p.1, v1.0, proof, pc + p.0.len());
        assert(verify_layers(vals, qs, proof, pc, m) == verify_layers(
            v1.0,
            v1.1,
            proof,
            v1.2,
            (m - 1) as nat,
        ));
    }
}

/// A tree has the layer sizes that `prove` needs.
pub proof fn lemma_merkle_tree_shape(tree: Seq<Seq<u8>>, leaves: Seq<Seq<u8>>)
    requires
        is_merkle_tree(tree, leaves),
    ensures
        tree_shape(tree),
        leaves.len() == pow2((tree.len() - 1) as nat),
{
    lemma_is_pow2_log2(leaves.len());
}

/// Opening a Merkle tree at sorted, distinct, in-range positions with
/// `prove`, then checking the opened leaves with `verify` against the root
/// at the tree's depth, succeeds.
pub proof fn lemma_prove_then_verify(leaves: Seq<Seq<u8>>, tree: Seq<Seq<u8>>, queries: Seq<usize>)
    requires
        is_merkle_tree(tree, leaves),
        queries.len() >= 1,
        strictly_increasing(queries),
        all_below(queries, leaves.len() as int),
    ensures
        spec_verify(
            tree.last(),
            spec_prove(tree, queries),
            (tree.len() - 1) as nat,
            opened_leaves(leaves, queries),
            queries,
        ),
{
    lemma_is_pow2_log2(leaves.len());
    let d = (tree.len() - 1) as int;
    let opened = opened_leaves(leaves, queries);
    let vals = Seq::new(queries.len(), |j: int| sha256(opened[j]));
    let proof = spec_prove(tree, queries);
    assert forall|j: int| 0 <= j < queries.len() implies #[trigger] vals[j] == node(
        tree[0],
        queries[j] as int,
    ) by {
        assert(queries[j] < leaves.len());
    }
    assert(proof.subrange(0, proof.len() as int) =~= proof);
    assert(d - 0 == d);
    lemma_layers_roundtrip(tree, d, 0, queries, vals, proof, 0);
}

// ---------------------------------------------------------------------------
// Sorting queries
// ---------------------------------------------------------------------------

/// The distinct queries in increasing order, as batched openings need them.
pub fn sort_queries(queries: &Vec<usize>) -> (r: Vec<usize>)
    requires
        forall|a: int, b: int| 0 <= a < b < queries@.len() ==> #[trigger] queries@[a] != #[trigger] queries@[b],
    ensures
        strictly_increasing(r@),
        r@.to_multiset() == queries@.to_multiset(),
        r@.len() == queries@.len(),
        forall|v: usize| r@.contains(v) <==> queries@.contains(v),
{

    let mut out: Vec<usize> = Vec::with_capacity(queries.len());
    let mut i: usize = 0;
    proof {
        assert(queries@.subrange(0, 0) =~= Seq::<usize>::empty());
        assert(out@ =~= Seq::<usize>::empty());
    }
    while i < queries.len()
        invariant
            i <= queries@.len(),
            forall|a: int, b: int| 0 <= a < b < queries@.len() ==> #[trigger] queries@[a] != #[trigger] queries@[b],
            strictly_increasing(out@),
            out@.to_multiset() == queries@.subrange(0, i as int).to_multiset(),
        decreases queries@.len() - i,
    {
        let x = queries[i];
        proof {
            assert(!queries@.subrange(0, i as int).contains(x)) by {
                if queries@.subrange(0, i as int).contains(x) {
                    let k = choose|k: int| 0 <= k < i && queries@.subrange(0, i as int)[k] == x;
                    assert(queries@[k] == x);
                }
            }
            vstd::seq_lib::to_multiset_contains(queries@.subrange(0, i as int), x);
            vstd::seq_lib::to_multiset_contains(out@, x);
            assert(out@.to_multiset().count(x) == 0);
            assert(!out@.contains(x));
        }
        let mut p: usize = 0;
        while p < out.len() && out[p] < x
            invariant
                p <= out@.len(),
                forall|t: int| 0 <= t < p ==> #[trigger] out@[t] < x,
            decreases out@.len() - p,
        {
            p = p + 1;
        }
        let ghost before = out@;
        proof {
            if p < out@.len() {
                assert(out@[p as int] != x);
                assert(out@[p as int] > x);
            }
        }
        out.insert(p, x);
        proof {
            assert(out@ == before.insert(p as int, x));
            assert forall|a: int, b: int| 0 <= a < b < out@.len() implies #[trigger] out@[a] < #[trigger] out@[b] by {
                if b < p {
                    assert(out@[a] == before[a] && out@[b] == before[b]);
                } else if b == p {
                    assert(out@[a] == before[a]);
                } else if a < p {
                    assert(out@[a] == before[a] && out@[b] == before[b - 1]);
                    assert(before[p as int] > x);
                    if b - 1 > p {
                        assert(before[p as int] < before[b - 1]);
                    }
                } else if a == p {
                    assert(out@[b] == before[b - 1]);
                    assert(before[p as int] > x);
                    if b - 1 > p {
                        assert(before[p as int] < before[b - 1]);
                    }
                } else {
                    assert(out@[a] == before[a - 1] && out@[b] == before[b - 1]);
                }
            }
            assert(queries@.subrange(0, i + 1) =~= queries@.subrange(0, i as int).push(x));
            vstd::seq_lib::to_multiset_build(queries@.subrange(0, i as int), x);
            vstd::seq_lib::to_multiset_insert(before, p as int, x);
        }
        i = i + 1;
    }
    proof {
        assert(queries@.subrange(0, queries@.len() as int) =~= queries@);
        vstd::seq_lib::to_multiset_len(out@);
        vstd::seq_lib::to_multiset_len(queries@);
        assert forall|v: usize| out@.contains(v) <==> queries@.contains(v) by {
            vstd::seq_lib::to_multiset_contains(out@, v);
            vstd::seq_lib::to_multiset_contains(queries@, v);
        }
    }
    out
}

} // verus!
