use crate::address::{get_leaf_hash, payload_of};
use crate::digest::{concat_hashes, digest_of, hash_element, lemma_digest_of, pair_digest};
use crate::error::MerkleError;
use crate::tree::{is_merkle_tree, layer_feeds_next, layers_of, merkle_root};
use vstd::arithmetic::div_mod::lemma_div_denominator;
use vstd::arithmetic::power2::{lemma_pow2_pos, lemma_pow2_unfold, pow2};
use vstd::prelude::*;

verus! {

/// The side of the path on which a sibling digest sits.
#[derive(Clone, Copy, Debug, Eq)]
pub enum NodeSide {
    Right,
    Left,
}

impl PartialEq for NodeSide {
    fn eq(&self, other: &Self) -> (same: bool) {
        match (self, other) {
            (NodeSide::Left, NodeSide::Left) => true,
            (NodeSide::Right, NodeSide::Right) => true,
            _ => false,
        }
    }
}

impl vstd::std_specs::cmp::PartialEqSpecImpl for NodeSide {
    open spec fn obeys_eq_spec() -> bool {
        true
    }

    open spec fn eq_spec(&self, other: &Self) -> bool {
        *self == *other
    }
}

/// One step of an inclusion proof: the digest of the sibling at one level,
/// and the side of the path on which it sits.
#[derive(Clone, Copy, Debug, PartialEq, Eq)]
pub struct Node {
    pub hash_value: [u8; 32],
    pub node_side: NodeSide,
}

/// The position of the sibling of position `index` in its layer.
pub open spec fn sibling_index(index: int) -> int {
    if index % 2 == 0 {
        index + 1
    } else {
        index - 1
    }
}

/// The proof step taken at position `index` of `layer`: the sibling's
/// digest, to the right of an even position and to the left of an odd one.
pub open spec fn sibling_node(layer: Seq<[u8; 32]>, index: int) -> Node {
    Node {
        hash_value: layer[sibling_index(index)],
        node_side: if index % 2 == 0 {
            NodeSide::Right
        } else {
            NodeSide::Left
        },
    }
}

/// The steps of `done` followed by the steps still `to_come`, where there
/// are any.
pub open spec fn extended(done: Seq<Node>, to_come: Option<Seq<Node>>) -> Option<Seq<Node>> {
    match to_come {
        Some(steps) => Some(done + steps),
        None => None,
    }
}

/// The proof steps from position `index` of layer `level` upwards. The walk
/// ends at the first layer that holds a single digest, or above the last
/// layer. `None` where a sibling's position lies outside its layer.
pub open spec fn proof_from(layers: Seq<Seq<[u8; 32]>>, level: int, index: int) -> Option<
    Seq<Node>,
>
    decreases layers.len() - level,
{
    if level < 0 || level >= layers.len() || layers[level].len() == 1 {
        Some(Seq::empty())
    } else if sibling_index(index) >= layers[level].len() {
        None
    } else {
        extended(
            seq![sibling_node(layers[level], index)],
            proof_from(layers, level + 1, index / 2),
        )
    }
}

/// The inclusion proof of the leaf at `leaf_index`: `None` where the leaf
/// layer does not hold that position, or a sibling is missing further up.
pub open spec fn inclusion_proof(layers: Seq<Seq<[u8; 32]>>, leaf_index: int) -> Option<
    Seq<Node>,
> {
    if layers.len() == 0 || leaf_index < 0 || leaf_index >= layers[0].len() {
        None
    } else {
        proof_from(layers, 0, leaf_index)
    }
}

/// The digest one level up from `current`, given the sibling of that level.
pub open spec fn climb(current: [u8; 32], step: Node) -> [u8; 32] {
    match step.node_side {
        NodeSide::Left => pair_digest(step.hash_value, current),
        NodeSide::Right => pair_digest(current, step.hash_value),
    }
}

/// The digest reached from `leaf` by climbing through `steps` in order.
pub open spec fn proof_root(steps: Seq<Node>, leaf: [u8; 32]) -> [u8; 32]
    decreases steps.len(),
{
    if steps.len() == 0 {
        leaf
    } else {
        proof_root(steps.drop_first(), climb(leaf, steps[0]))
    }
}

/// In a tree, the proof from any position of any layer exists, has one step
/// for each layer above, and climbs from the digest at that position to the
/// root.
pub proof fn lemma_proof_in_tree(layers: Seq<Seq<[u8; 32]>>, level: int, index: int)
    requires
        is_merkle_tree(layers),
        0 <= level < layers.len(),
        0 <= index < layers[level].len(),
    ensures
        proof_from(layers, level, index) is Some,
        proof_from(layers, level, index).unwrap().len() == layers.len() - 1 - level,
        proof_root(proof_from(layers, level, index).unwrap(), layers[level][index]) == merkle_root(
            layers,
        ),
    decreases layers.len() - level,
{
    if level < layers.len() - 1 {
        assert(layer_feeds_next(layers, level));
        let layer = layers[level];
        let step = sibling_node(layer, index);
        lemma_proof_in_tree(layers, level + 1, index / 2);
        let rest = proof_from(layers, level + 1, index / 2).unwrap();
        let steps = seq![step] + rest;
        assert(proof_from(layers, level, index) == Some(steps));
        assert(steps.drop_first() =~= rest);
        assert(climb(layer[index], step) == layers[level + 1][index / 2]);
    }
}

/// In a tree, step `k` of the proof from position `index` of layer `level`
/// is the sibling of position `index / 2^k` in layer `level + k`.
pub proof fn lemma_proof_step(layers: Seq<Seq<[u8; 32]>>, level: int, index: int, k: int)
    requires
        is_merkle_tree(layers),
        0 <= level < layers.len(),
        0 <= index < layers[level].len(),
        0 <= k < layers.len() - 1 - level,
    ensures
        proof_from(layers, level, index) is Some,
        proof_from(layers, level, index).unwrap().len() == layers.len() - 1 - level,
        proof_from(layers, level, index).unwrap()[k] == sibling_node(
            layers[level + k],
            index / pow2(k as nat) as int,
        ),
    decreases k,
{
    lemma_proof_in_tree(layers, level, index);
    assert(layer_feeds_next(layers, level));
    if k == 0 {
        assert(pow2(0) == 1) by {
            reveal_with_fuel(vstd::arithmetic::power::pow, 1);
            vstd::arithmetic::power2::lemma_pow2(0);
        }
    } else {
        lemma_proof_in_tree(layers, level + 1, index / 2);
        lemma_proof_step(layers, level + 1, index / 2, k - 1);
        lemma_pow2_unfold(k as nat);
        lemma_pow2_pos((k - 1) as nat);
        lemma_div_denominator(index, 2, pow2((k - 1) as nat) as int);
    }
}

/// Collects, from the leaf layer upwards, the sibling of each position on
/// the path from the leaf at `leaf_index` to the root.
pub fn generate_merkle_proof(leaf_index: usize, tree: Vec<Vec<[u8; 32]>>) -> (merkle_proof: Result<
    Vec<Node>,
    MerkleError,
>)
    ensures
        match merkle_proof {
            Ok(steps) => inclusion_proof(layers_of(tree@), leaf_index as int) == Some(steps@),
            Err(e) => e == MerkleError::IndexOutOfRange && inclusion_proof(
                layers_of(tree@),
                leaf_index as int,
            ) is None,
        },
        is_merkle_tree(layers_of(tree@)) ==> (merkle_proof is Ok <==> leaf_index
            < tree@[0].len()),
        is_merkle_tree(layers_of(tree@)) ==> (merkle_proof matches Ok(steps) ==> steps.len()
            == tree.len() - 1),
        is_merkle_tree(layers_of(tree@)) ==> (merkle_proof matches Ok(steps) ==> forall|k: int|
            0 <= k < steps.len() ==> #[trigger] steps@[k] == sibling_node(
                tree@[k]@,
                leaf_index as int / pow2(k as nat) as int,
            )),
{
    if tree.len() == 0 || leaf_index >= tree[0].len() {
        return Err(MerkleError::IndexOutOfRange);
    }
    let ghost layers = layers_of(tree@);
    proof {
        if is_merkle_tree(layers) {
            lemma_proof_in_tree(layers, 0, leaf_index as int);
        }
    }
    let mut merkle_proof: Vec<Node> = Vec::new();
    let mut current_index = leaf_index;
    let mut level: usize = 0;
    while level < tree.len() && tree[level].len() != 1
        invariant
            layers == layers_of(tree@),
            tree.len() > 0,
            leaf_index < tree@[0].len(),
            is_merkle_tree(layers) ==> proof_from(layers, 0, leaf_index as int) is Some,
            level <= tree.len(),
            current_index <= leaf_index < usize::MAX,
            proof_from(layers, 0, leaf_index as int) == extended(
                merkle_proof@,
                proof_from(layers, level as int, current_index as int),
            ),
        decreases tree.len() - level,
    {
        let layer = &tree[level];
        assert(layer@ == layers[level as int]);
        let ghost step = sibling_node(layer@, current_index as int);
        let ghost rest = proof_from(layers, level + 1, current_index as int / 2);
        if current_index % 2 == 0 {
            if current_index + 1 >= layer.len() {
                return Err(MerkleError::IndexOutOfRange);
            }
            merkle_proof.push(
                Node { hash_value: layer[current_index + 1], node_side: NodeSide::Right },
            );
        } else {
            if current_index - 1 >= layer.len() {
                return Err(MerkleError::IndexOutOfRange);
            }
            merkle_proof.push(
                Node { hash_value: layer[current_index - 1], node_side: NodeSide::Left },
            );
        }
        proof {
            if rest is Some {
                assert(merkle_proof@ + rest.unwrap() =~= merkle_proof@.drop_last() + (seq![step]
                    + rest.unwrap()));
            }
        }
        current_index = current_index / 2;
        level += 1;
    }
    proof {
        assert(merkle_proof@ + Seq::<Node>::empty() =~= merkle_proof@);
        if is_merkle_tree(layers) {
            assert forall|k: int| 0 <= k < merkle_proof.len() implies #[trigger] merkle_proof@[k]
                == sibling_node(tree@[k]@, leaf_index as int / pow2(k as nat) as int) by {
                lemma_proof_in_tree(layers, 0, leaf_index as int);
                lemma_proof_step(layers, 0, leaf_index as int, k);
            }
        }
    }
    Ok(merkle_proof)
}

/// Whether two digests hold the same bytes.
fn same_digest(left: &[u8; 32], right: &[u8; 32]) -> (same: bool)
    ensures
        same == (*left == *right),
{
    let mut i: usize = 0;
    while i < 32
        invariant
            i <= 32,
            forall|k: int| 0 <= k < i ==> left@[k] == right@[k],
        decreases 32 - i,
    {
        if left[i] != right[i] {
            return false;
        }
        i += 1;
    }
    assert(*left =~= *right);
    true
}

/// Replays an inclusion proof from the leaf digest of `address` and compares
/// what it reaches with `root`.
pub fn validate_merkle_proof(merkle_proof: Vec<Node>, address: &str, root: [u8; 32]) -> (valid:
    Result<bool, MerkleError>)
    ensures
        match valid {
            Ok(included) => payload_of(address) is Some && included == (proof_root(
                merkle_proof@,
                digest_of(payload_of(address).unwrap()),
            ) == root),
            Err(e) => e == MerkleError::InvalidEncoding && payload_of(address) is None,
        },
{
    let mut current_hash = match get_leaf_hash(address) {
        Ok(hash) => hash,
        Err(e) => {
            return Err(e);
        },
    };
    let ghost leaf = current_hash;
    assert(merkle_proof@.skip(0) =~= merkle_proof@);
    let mut i: usize = 0;
    while i < merkle_proof.len()
        invariant
            i <= merkle_proof.len(),
            proof_root(merkle_proof@, leaf) == proof_root(
                merkle_proof@.skip(i as int),
                current_hash,
            ),
        decreases merkle_proof.len() - i,
    {
        let node = merkle_proof[i];
        let concatenation = if node.node_side == NodeSide::Left {
            concat_hashes(node.hash_value, current_hash)
        } else {
            concat_hashes(current_hash, node.hash_value)
        };
        let hash = hash_element(concatenation.as_slice());
        proof {
            lemma_digest_of(concatenation@, hash);
            assert(hash == climb(current_hash, node));
            assert(merkle_proof@.skip(i as int).drop_first() =~= merkle_proof@.skip(i + 1));
        }
        current_hash = hash;
        i += 1;
    }
    Ok(same_digest(&current_hash, &root))
}

} // verus!
