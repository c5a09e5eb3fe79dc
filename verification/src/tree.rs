use crate::digest::{get_next_node, padded, pair_digest};
use crate::error::MerkleError;
use vstd::prelude::*;

verus! {

/// The layer above an even layer: the parent digest of each consecutive pair.
pub open spec fn next_layer(layer: Seq<[u8; 32]>) -> Seq<[u8; 32]> {
    Seq::new(layer.len() / 2, |k: int| pair_digest(layer[2 * k], layer[2 * k + 1]))
}

/// A layer as the tree keeps it: the root layer as it is, any longer layer
/// padded to an even length.
pub open spec fn stored_layer(layer: Seq<[u8; 32]>) -> Seq<[u8; 32]> {
    if layer.len() <= 1 {
        layer
    } else {
        padded(layer)
    }
}

/// The layers of the tree over `leaves`, from the leaf layer up to the root.
pub open spec fn merkle_layers(leaves: Seq<[u8; 32]>) -> Seq<Seq<[u8; 32]>>
    decreases leaves.len(),
{
    if leaves.len() <= 1 {
        seq![leaves]
    } else {
        seq![padded(leaves)] + merkle_layers(next_layer(padded(leaves)))
    }
}

/// Whether layer `i` has even length and layer `i + 1` holds its parent
/// digests, as the tree keeps them.
pub open spec fn layer_feeds_next(layers: Seq<Seq<[u8; 32]>>, i: int) -> bool {
    &&& layers[i].len() % 2 == 0
    &&& layers[i + 1] == stored_layer(next_layer(layers[i]))
}

/// What makes a sequence of layers a tree: the last layer is a single
/// digest, every layer below it has even length, and each layer but the
/// first holds the parent digests of the layer below, padded unless it is the
/// root.
pub open spec fn is_merkle_tree(layers: Seq<Seq<[u8; 32]>>) -> bool {
    &&& layers.len() >= 1
    &&& layers.last().len() == 1
    &&& forall|i: int| 0 <= i < layers.len() - 1 ==> #[trigger] layer_feeds_next(layers, i)
}

/// The root of a tree: the one digest of its last layer.
pub open spec fn merkle_root(layers: Seq<Seq<[u8; 32]>>) -> [u8; 32] {
    layers.last()[0]
}

/// The layers of a tree held in vectors, as sequences.
pub open spec fn layers_of(tree: Seq<Vec<[u8; 32]>>) -> Seq<Seq<[u8; 32]>> {
    Seq::new(tree.len(), |i: int| tree[i]@)
}

/// The tree over one or more leaves is a tree, and its first layer is the
/// leaves as the tree keeps them.
pub proof fn lemma_merkle_layers_is_tree(leaves: Seq<[u8; 32]>)
    requires
        leaves.len() >= 1,
    ensures
        is_merkle_tree(merkle_layers(leaves)),
        merkle_layers(leaves)[0] == stored_layer(leaves),
    decreases leaves.len(),
{
    if leaves.len() > 1 {
        let above = next_layer(padded(leaves));
        let rest = merkle_layers(above);
        lemma_merkle_layers_is_tree(above);
        let layers = merkle_layers(leaves);
        assert(layers == seq![padded(leaves)] + rest);
        assert(layers.last() == rest.last());
        assert forall|i: int| 0 <= i < layers.len() - 1 implies #[trigger] layer_feeds_next(
            layers,
            i,
        ) by {
            if i > 0 {
                assert(layer_feeds_next(rest, i - 1));
                assert(layers[i] == rest[i - 1]);
                assert(layers[i + 1] == rest[i - 1 + 1]);
            }
        }
    }
}

/// Hashes each consecutive pair of an even layer into the layer above.
///
/// In a layer of odd length the last digest has no partner: pad the layer
/// first.
pub fn hash_layer(layer: &Vec<[u8; 32]>) -> (next: Vec<[u8; 32]>)
    requires
        layer.len() % 2 == 0,
    ensures
        next@ == next_layer(layer@),
{
    let mut next: Vec<[u8; 32]> = Vec::new();
    let mut i: usize = 0;
    while i < layer.len()
        invariant
            layer.len() % 2 == 0,
            i % 2 == 0,
            i <= layer.len(),
            next.len() == i / 2,
            forall|k: int|
                0 <= k < next.len() ==> #[trigger] next@[k] == pair_digest(
                    layer@[2 * k],
                    layer@[2 * k + 1],
                ),
        decreases layer.len() - i,
    {
        let left: [u8; 32] = layer[i];
        let right: [u8; 32] = layer[i + 1];
        next.push(get_next_node(left, right));
        i += 2;
    }
    assert(next@ =~= next_layer(layer@));
    next
}

/// Builds the tree over `leaf_hashes`, layer by layer up to the root.
///
/// A layer of odd length, other than the root, is padded with one zero
/// digest, and the padding stays in the tree. No tree stands over no leaves.
pub fn generate_tree(leaf_hashes: Vec<[u8; 32]>) -> (tree: Result<Vec<Vec<[u8; 32]>>, MerkleError>)
    ensures
        match tree {
            Ok(layers) => leaf_hashes.len() > 0 && layers_of(layers@) == merkle_layers(
                leaf_hashes@,
            ),
            Err(e) => e == MerkleError::DegenerateInput && leaf_hashes.len() == 0,
        },
        tree matches Ok(layers) ==> is_merkle_tree(layers_of(layers@)),
        tree matches Ok(layers) ==> layers@[0]@ == stored_layer(leaf_hashes@),
{
    if leaf_hashes.len() == 0 {
        return Err(MerkleError::DegenerateInput);
    }
    proof {
        lemma_merkle_layers_is_tree(leaf_hashes@);
    }
    let ghost leaves = leaf_hashes@;
    let mut tree: Vec<Vec<[u8; 32]>> = Vec::new();
    let mut current = leaf_hashes;
    while current.len() != 1
        invariant
            current.len() >= 1,
            merkle_layers(leaves) == layers_of(tree@) + merkle_layers(current@),
        decreases current.len(),
    {
        if current.len() % 2 != 0 {
            current.push([0;32]);
        }
        let above = hash_layer(&current);
        proof {
            assert(layers_of(tree@.push(current)) + merkle_layers(above@) =~= layers_of(tree@) + (
            seq![current@] + merkle_layers(above@)));
        }
        tree.push(current);
        current = above;
    }
    proof {
        assert(layers_of(tree@.push(current)) =~= layers_of(tree@) + seq![current@]);
    }
    tree.push(current);
    Ok(tree)
}

} // verus!
