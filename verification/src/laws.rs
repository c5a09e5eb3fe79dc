use crate::address::{all_decodable, get_leaf_hashes, leaf_digests, payload_of, payloads};
use crate::digest::{digest_of, padded, zero_digest};
use crate::error::MerkleError;
use crate::inclusion::{
    climb, generate_merkle_proof, inclusion_proof, lemma_proof_in_tree, proof_root,
    validate_merkle_proof, Node, NodeSide,
};
use crate::tree::{
    generate_tree, is_merkle_tree, layer_feeds_next, layers_of, lemma_merkle_layers_is_tree,
    merkle_layers, merkle_root, next_layer, stored_layer,
};
use vstd::prelude::*;

verus! {

/// Two different byte strings with the same digest.
pub open spec fn is_collision(first: Seq<u8>, second: Seq<u8>) -> bool {
    first != second && digest_of(first) == digest_of(second)
}

/// The leaf digests of a non-empty list of items are an even number of
/// digests, one for each item in order, which the tree keeps unchanged as its
/// leaf layer.
pub proof fn lemma_leaf_layer(items: Seq<Seq<u8>>)
    requires
        items.len() > 0,
    ensures
        leaf_digests(items).len() % 2 == 0,
        leaf_digests(items).len() >= items.len(),
        forall|i: int|
            0 <= i < items.len() ==> (#[trigger] leaf_digests(items)[i]) == digest_of(items[i]),
        merkle_layers(leaf_digests(items))[0] == leaf_digests(items),
{
    lemma_merkle_layers_is_tree(leaf_digests(items));
}

/// For every non-empty list of items and every position in it, the
/// inclusion proof of that position exists in the tree over the items, and
/// replaying it from the digest of the item at that position reaches the root
/// of the tree.
pub proof fn lemma_round_trip(items: Seq<Seq<u8>>, index: int)
    requires
        items.len() > 0,
        0 <= index < items.len(),
    ensures
        inclusion_proof(merkle_layers(leaf_digests(items)), index) is Some,
        proof_root(
            inclusion_proof(merkle_layers(leaf_digests(items)), index).unwrap(),
            digest_of(items[index]),
        ) == merkle_root(merkle_layers(leaf_digests(items))),
{
    let layers = merkle_layers(leaf_digests(items));
    lemma_leaf_layer(items);
    lemma_merkle_layers_is_tree(leaf_digests(items));
    lemma_proof_in_tree(layers, 0, index);
    assert(layers[0][index] == digest_of(items[index]));
}

/// The same of the four operations themselves: where the addresses decode
/// and `index` is the position of one of them, the tree is built, the proof
/// of that position is made, and validating the proof for the address at
/// that position against the root of the tree gives `true`.
pub proof fn lemma_round_trip_of_calls(
    addresses: Vec<&str>,
    index: usize,
    leaves: Result<Vec<[u8; 32]>, MerkleError>,
    tree: Result<Vec<Vec<[u8; 32]>>, MerkleError>,
    steps: Result<Vec<Node>, MerkleError>,
    valid: Result<bool, MerkleError>,
)
    requires
        index < addresses.len(),
        all_decodable(addresses@),
        call_ensures(get_leaf_hashes, (addresses,), leaves),
        call_ensures(generate_tree, (leaves.unwrap(),), tree),
        call_ensures(generate_merkle_proof, (index, tree.unwrap()), steps),
        call_ensures(
            validate_merkle_proof,
            (steps.unwrap(), addresses@[index as int], merkle_root(layers_of(tree.unwrap()@))),
            valid,
        ),
    ensures
        leaves is Ok,
        tree is Ok,
        steps is Ok,
        valid == Ok::<bool, MerkleError>(true),
{
    let items = payloads(addresses@);
    lemma_leaf_layer(items);
    lemma_round_trip(items, index as int);
}

/// Two different digests that climb through the same steps to the same
/// digest show a collision of the hash: at the level where the two paths
/// meet, two different byte strings were hashed to the same digest.
pub proof fn lemma_same_root_needs_collision(steps: Seq<Node>, first: [u8; 32], second: [u8; 32])
    requires
        first != second,
        proof_root(steps, first) == proof_root(steps, second),
    ensures
        exists|x: Seq<u8>, y: Seq<u8>| is_collision(x, y),
    decreases steps.len(),
{
    if steps.len() > 0 {
        let step = steps[0];
        if climb(first, step) == climb(second, step) {
            assert(first@ != second@) by {
                if first@ == second@ {
                    assert(first =~= second);
                }
            }
            let sibling = step.hash_value@;
            match step.node_side {
                NodeSide::Left => {
                    assert((sibling + first@).subrange(32, 64) =~= first@);
                    assert((sibling + second@).subrange(32, 64) =~= second@);
                    assert(is_collision(sibling + first@, sibling + second@));
                },
                NodeSide::Right => {
                    assert((first@ + sibling).subrange(0, 32) =~= first@);
                    assert((second@ + sibling).subrange(0, 32) =~= second@);
                    assert(is_collision(first@ + sibling, second@ + sibling));
                },
            }
        } else {
            lemma_same_root_needs_collision(
                steps.drop_first(),
                climb(first, step),
                climb(second, step),
            );
        }
    }
}

/// Where the proof of the item at `index` also reaches the root when it is
/// replayed from another item, the hash has a collision. So against a hash
/// without known collisions, a proof is accepted for the item it was made for
/// and for no other.
pub proof fn lemma_wrong_item_needs_collision(items: Seq<Seq<u8>>, index: int, other: Seq<u8>)
    requires
        0 <= index < items.len(),
        other != items[index],
        proof_root(
            inclusion_proof(merkle_layers(leaf_digests(items)), index).unwrap(),
            digest_of(other),
        ) == merkle_root(merkle_layers(leaf_digests(items))),
    ensures
        exists|x: Seq<u8>, y: Seq<u8>| is_collision(x, y),
{
    lemma_round_trip(items, index);
    if digest_of(other) == digest_of(items[index]) {
        assert(is_collision(other, items[index]));
    } else {
        lemma_same_root_needs_collision(
            inclusion_proof(merkle_layers(leaf_digests(items)), index).unwrap(),
            digest_of(other),
            digest_of(items[index]),
        );
    }
}

/// The same of the four operations themselves: where the proof made for the
/// address at `index` is validated for an address with another payload and
/// the answer is `true`, the hash has a collision.
pub proof fn lemma_wrong_item_of_calls(
    addresses: Vec<&str>,
    index: usize,
    other: &str,
    leaves: Result<Vec<[u8; 32]>, MerkleError>,
    tree: Result<Vec<Vec<[u8; 32]>>, MerkleError>,
    steps: Result<Vec<Node>, MerkleError>,
)
    requires
        index < addresses.len(),
        all_decodable(addresses@),
        payload_of(other) != payload_of(addresses@[index as int]),
        call_ensures(get_leaf_hashes, (addresses,), leaves),
        call_ensures(generate_tree, (leaves.unwrap(),), tree),
        call_ensures(generate_merkle_proof, (index, tree.unwrap()), steps),
        call_ensures(
            validate_merkle_proof,
            (steps.unwrap(), other, merkle_root(layers_of(tree.unwrap()@))),
            Ok::<bool, MerkleError>(true),
        ),
    ensures
        exists|x: Seq<u8>, y: Seq<u8>| is_collision(x, y),
{
    let items = payloads(addresses@);
    lemma_leaf_layer(items);
    lemma_round_trip(items, index as int);
    lemma_wrong_item_needs_collision(items, index as int, payload_of(other).unwrap());
}

/// A tree is determined by its leaf layer: it holds the layers that are built
/// over that layer, and no others.
pub proof fn lemma_tree_is_built_over_its_leaves(layers: Seq<Seq<[u8; 32]>>)
    requires
        is_merkle_tree(layers),
    ensures
        layers[0].len() >= 1,
        layers == merkle_layers(layers[0]),
    decreases layers.len(),
{
    if layers.len() == 1 {
        assert(layers =~= seq![layers[0]]);
    } else {
        let leaves = layers[0];
        let above = next_layer(leaves);
        let rest = layers.skip(1);
        assert(layer_feeds_next(layers, 0));
        assert(rest[0] == stored_layer(above));
        assert forall|i: int| 0 <= i < rest.len() - 1 implies #[trigger] layer_feeds_next(
            rest,
            i,
        ) by {
            assert(layer_feeds_next(layers, i + 1));
            assert(rest[i + 1] == layers[i + 1 + 1]);
        }
        assert(rest.last() == layers.last());
        lemma_tree_is_built_over_its_leaves(rest);
        assert(padded(leaves) == leaves);
        assert(merkle_layers(stored_layer(above)) == merkle_layers(above)) by {
            if above.len() > 1 {
                assert(padded(padded(above)) == padded(above));
            }
        }
        assert(layers =~= seq![leaves] + rest);
    }
}

/// Two runs of `generate_tree` on the same leaf digests end the same way,
/// and where they build a tree, the two trees hold the same layers and so
/// the same root.
pub proof fn lemma_generate_tree_is_deterministic(
    first_leaves: Vec<[u8; 32]>,
    second_leaves: Vec<[u8; 32]>,
    first_tree: Result<Vec<Vec<[u8; 32]>>, MerkleError>,
    second_tree: Result<Vec<Vec<[u8; 32]>>, MerkleError>,
)
    requires
        first_leaves@ == second_leaves@,
        call_ensures(generate_tree, (first_leaves,), first_tree),
        call_ensures(generate_tree, (second_leaves,), second_tree),
    ensures
        match (first_tree, second_tree) {
            (Ok(first), Ok(second)) => layers_of(first@) == layers_of(second@) && merkle_root(
                layers_of(first@),
            ) == merkle_root(layers_of(second@)),
            (Err(first), Err(second)) => first == second,
            _ => false,
        },
{
}

/// An odd number of items gives one leaf digest more than there are items,
/// the last of them the zero digest, and the leaf layer of the tree over
/// them has even length.
pub proof fn lemma_odd_items_are_padded(items: Seq<Seq<u8>>)
    requires
        items.len() % 2 == 1,
    ensures
        leaf_digests(items).len() == items.len() + 1,
        leaf_digests(items).last() == zero_digest(),
        merkle_layers(leaf_digests(items))[0].len() % 2 == 0,
{
    lemma_leaf_layer(items);
}

/// The tree over one leaf digest is one layer that holds that digest, which
/// is the root, and the inclusion proof of its only position is empty.
pub proof fn lemma_single_leaf_tree(leaf: [u8; 32])
    ensures
        merkle_layers(seq![leaf]) == seq![seq![leaf]],
        merkle_root(merkle_layers(seq![leaf])) == leaf,
        inclusion_proof(merkle_layers(seq![leaf]), 0) == Some(Seq::<Node>::empty()),
{
}

} // verus!
