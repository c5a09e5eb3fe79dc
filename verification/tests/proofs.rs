use merkle_tree::address::{get_leaf_hash, get_leaf_hashes};
use merkle_tree::error::MerkleError;
use merkle_tree::inclusion::{generate_merkle_proof, validate_merkle_proof, Node, NodeSide};
use merkle_tree::tree::generate_tree;

fn sha3(data: &[u8]) -> [u8; 32] {
    let mut hasher = tiny_keccak::Sha3::v256();
    let mut out = [0u8; 32];
    tiny_keccak::Hasher::update(&mut hasher, data);
    tiny_keccak::Hasher::finalize(hasher, &mut out);
    out
}

fn parent(left: [u8; 32], right: [u8; 32]) -> [u8; 32] {
    let mut joined = left.to_vec();
    joined.extend_from_slice(&right);
    sha3(&joined)
}

fn leaf(tag: u8) -> [u8; 32] {
    sha3(&[tag])
}

fn address(i: usize) -> String {
    format!("0x{:040x}", (i as u128 + 1) * 0x0123_4567_89ab_cdef)
}

fn right(hash_value: [u8; 32]) -> Node {
    Node { hash_value, node_side: NodeSide::Right }
}

fn left(hash_value: [u8; 32]) -> Node {
    Node { hash_value, node_side: NodeSide::Left }
}

const ZERO: [u8; 32] = [0u8; 32];

const A: &str = "0x1234567890123456789012345678901234567890";
const B: &str = "0x2345678901234567890123456789012345678901";
const C: &str = "0x3456789012345678901234567890123456789012";
const D: &str = "0x4567890123456789012345678901234567890123";

#[test]
fn node_side_equality() {
    assert!(NodeSide::Left == NodeSide::Left);
    assert!(NodeSide::Right == NodeSide::Right);
    assert!(NodeSide::Left != NodeSide::Right);
    assert!(NodeSide::Right != NodeSide::Left);
}

#[test]
fn four_items_scenario() {
    let h_a = sha3(&hex::decode(&A[2..]).unwrap());
    let h_b = sha3(&hex::decode(&B[2..]).unwrap());
    let h_c = sha3(&hex::decode(&C[2..]).unwrap());
    let h_d = sha3(&hex::decode(&D[2..]).unwrap());

    let leaves = get_leaf_hashes(vec![A, B, C, D]).unwrap();
    assert_eq!(leaves, vec![h_a, h_b, h_c, h_d]);

    let tree = generate_tree(leaves).unwrap();
    let ab = parent(h_a, h_b);
    let cd = parent(h_c, h_d);
    let root = parent(ab, cd);
    assert_eq!(tree, vec![vec![h_a, h_b, h_c, h_d], vec![ab, cd], vec![root]]);

    let proof = generate_merkle_proof(1, tree).unwrap();
    assert_eq!(proof, vec![left(h_a), right(cd)]);

    assert_eq!(validate_merkle_proof(proof, B, root), Ok(true));
}

#[test]
fn six_addresses_with_one_repeated() {
    let addresses = vec![A, B, C, A, B, C];
    let tree = generate_tree(get_leaf_hashes(addresses).unwrap()).unwrap();
    assert_eq!(tree.iter().map(|layer| layer.len()).collect::<Vec<_>>(), vec![6, 4, 2, 1]);
    let root = tree.last().unwrap()[0];
    let proof = generate_merkle_proof(1, tree).unwrap();
    assert_eq!(proof.len(), 3);
    assert_eq!(validate_merkle_proof(proof, B, root), Ok(true));
}

#[test]
fn generate_merkle_proof_for_each_leaf_of_four() {
    let l = [leaf(1), leaf(2), leaf(3), leaf(4)];
    let tree = generate_tree(l.to_vec()).unwrap();
    let ab = parent(l[0], l[1]);
    let cd = parent(l[2], l[3]);
    assert_eq!(generate_merkle_proof(0, tree.clone()), Ok(vec![right(l[1]), right(cd)]));
    assert_eq!(generate_merkle_proof(1, tree.clone()), Ok(vec![left(l[0]), right(cd)]));
    assert_eq!(generate_merkle_proof(2, tree.clone()), Ok(vec![right(l[3]), left(ab)]));
    assert_eq!(generate_merkle_proof(3, tree), Ok(vec![left(l[2]), left(ab)]));
}

#[test]
fn generate_merkle_proof_reaches_padding_siblings() {
    let l = [leaf(1), leaf(2), leaf(3), leaf(4), leaf(5), leaf(6)];
    let tree = generate_tree(l.to_vec()).unwrap();
    let a = parent(l[0], l[1]);
    let b = parent(l[2], l[3]);
    let c = parent(l[4], l[5]);
    let ab = parent(a, b);
    let c0 = parent(c, ZERO);
    assert_eq!(
        generate_merkle_proof(4, tree.clone()),
        Ok(vec![right(l[5]), right(ZERO), left(ab)])
    );
    assert_eq!(
        generate_merkle_proof(3, tree),
        Ok(vec![left(l[2]), left(a), right(c0)])
    );
}

#[test]
fn generate_merkle_proof_for_a_padding_leaf() {
    let tree = generate_tree(vec![leaf(1), leaf(2), leaf(3)]).unwrap();
    let ab = parent(leaf(1), leaf(2));
    assert_eq!(generate_merkle_proof(3, tree.clone()), Ok(vec![left(leaf(3)), left(ab)]));
    assert_eq!(generate_merkle_proof(2, tree), Ok(vec![right(ZERO), left(ab)]));
}

#[test]
fn generate_merkle_proof_in_a_single_leaf_tree_is_empty() {
    let tree = generate_tree(vec![leaf(1)]).unwrap();
    assert_eq!(tree.len(), 1);
    assert_eq!(generate_merkle_proof(0, tree), Ok(vec![]));
}

#[test]
fn generate_merkle_proof_refuses_an_index_past_the_leaf_layer() {
    let tree = generate_tree(vec![leaf(1), leaf(2), leaf(3), leaf(4)]).unwrap();
    assert_eq!(generate_merkle_proof(4, tree.clone()), Err(MerkleError::IndexOutOfRange));
    assert_eq!(generate_merkle_proof(5, tree.clone()), Err(MerkleError::IndexOutOfRange));
    assert_eq!(generate_merkle_proof(usize::MAX, tree), Err(MerkleError::IndexOutOfRange));
}

#[test]
fn generate_merkle_proof_refuses_an_index_past_a_single_leaf() {
    let tree = generate_tree(vec![leaf(1)]).unwrap();
    assert_eq!(generate_merkle_proof(1, tree.clone()), Err(MerkleError::IndexOutOfRange));
    assert_eq!(generate_merkle_proof(7, tree), Err(MerkleError::IndexOutOfRange));
}

#[test]
fn generate_merkle_proof_refuses_a_tree_without_layers() {
    assert_eq!(generate_merkle_proof(0, vec![]), Err(MerkleError::IndexOutOfRange));
}

#[test]
fn generate_merkle_proof_refuses_a_missing_sibling() {
    // Not a tree: the leaf layer is odd, and the second layer is too short.
    let odd = vec![vec![leaf(1), leaf(2), leaf(3)], vec![leaf(4), leaf(5)], vec![leaf(6)]];
    assert_eq!(generate_merkle_proof(2, odd.clone()), Err(MerkleError::IndexOutOfRange));
    assert_eq!(generate_merkle_proof(0, odd), Ok(vec![right(leaf(2)), right(leaf(5))]));
    let short = vec![vec![leaf(1), leaf(2), leaf(3), leaf(4)], vec![], vec![leaf(6)]];
    assert_eq!(generate_merkle_proof(0, short), Err(MerkleError::IndexOutOfRange));
}

#[test]
fn generate_merkle_proof_has_one_step_for_each_layer_below_the_root() {
    for count in 1..20usize {
        let leaves: Vec<[u8; 32]> = (0..count).map(|i| leaf(i as u8)).collect();
        let tree = generate_tree(leaves).unwrap();
        for index in 0..tree[0].len() {
            let proof = generate_merkle_proof(index, tree.clone()).unwrap();
            assert_eq!(proof.len(), tree.len() - 1);
            for (k, step) in proof.iter().enumerate() {
                let position = index >> k;
                if position % 2 == 0 {
                    assert_eq!(*step, right(tree[k][position + 1]));
                } else {
                    assert_eq!(*step, left(tree[k][position - 1]));
                }
            }
        }
        let past = tree[0].len();
        assert_eq!(generate_merkle_proof(past, tree), Err(MerkleError::IndexOutOfRange));
    }
}

#[test]
fn validate_merkle_proof_round_trip() {
    for count in 1..18usize {
        let owned: Vec<String> = (0..count).map(address).collect();
        let addresses: Vec<&str> = owned.iter().map(|a| a.as_str()).collect();
        let tree = generate_tree(get_leaf_hashes(addresses.clone()).unwrap()).unwrap();
        let root = tree.last().unwrap()[0];
        for index in 0..count {
            let proof = generate_merkle_proof(index, tree.clone()).unwrap();
            assert_eq!(validate_merkle_proof(proof, addresses[index], root), Ok(true));
        }
    }
}

#[test]
fn validate_merkle_proof_rejects_another_item() {
    let owned: Vec<String> = (0..7).map(address).collect();
    let addresses: Vec<&str> = owned.iter().map(|a| a.as_str()).collect();
    let tree = generate_tree(get_leaf_hashes(addresses.clone()).unwrap()).unwrap();
    let root = tree.last().unwrap()[0];
    for index in 0..7 {
        let proof = generate_merkle_proof(index, tree.clone()).unwrap();
        for other in 0..7 {
            let expected = other == index;
            assert_eq!(
                validate_merkle_proof(proof.clone(), addresses[other], root),
                Ok(expected)
            );
        }
        assert_eq!(validate_merkle_proof(proof, "0xdeadbeef", root), Ok(false));
    }
}

#[test]
fn validate_merkle_proof_rejects_another_root() {
    let tree = generate_tree(get_leaf_hashes(vec![A, B, C, D]).unwrap()).unwrap();
    let root = tree.last().unwrap()[0];
    let proof = generate_merkle_proof(2, tree.clone()).unwrap();
    let mut other = root;
    other[31] ^= 1;
    assert_eq!(validate_merkle_proof(proof.clone(), C, other), Ok(false));
    assert_eq!(validate_merkle_proof(proof.clone(), C, ZERO), Ok(false));
    assert_eq!(validate_merkle_proof(proof.clone(), C, tree[1][0]), Ok(false));
    assert_eq!(validate_merkle_proof(proof, C, root), Ok(true));
}

#[test]
fn validate_merkle_proof_rejects_a_swapped_side() {
    let tree = generate_tree(get_leaf_hashes(vec![A, B, C, D]).unwrap()).unwrap();
    let root = tree.last().unwrap()[0];
    let proof = generate_merkle_proof(1, tree).unwrap();
    let mut swapped = proof.clone();
    swapped[0].node_side = NodeSide::Right;
    assert_eq!(validate_merkle_proof(swapped, B, root), Ok(false));
    let mut shortened = proof.clone();
    shortened.pop();
    assert_eq!(validate_merkle_proof(shortened, B, root), Ok(false));
    let mut reversed = proof;
    reversed.reverse();
    assert_eq!(validate_merkle_proof(reversed, B, root), Ok(false));
}

#[test]
fn validate_merkle_proof_puts_a_left_sibling_first() {
    let h_b = get_leaf_hash(B).unwrap();
    let sibling = leaf(42);
    assert_eq!(validate_merkle_proof(vec![left(sibling)], B, parent(sibling, h_b)), Ok(true));
    assert_eq!(validate_merkle_proof(vec![left(sibling)], B, parent(h_b, sibling)), Ok(false));
    assert_eq!(validate_merkle_proof(vec![right(sibling)], B, parent(h_b, sibling)), Ok(true));
    assert_eq!(validate_merkle_proof(vec![right(sibling)], B, parent(sibling, h_b)), Ok(false));
}

#[test]
fn validate_merkle_proof_replays_the_steps_in_order() {
    let h_a = get_leaf_hash(A).unwrap();
    let first = leaf(1);
    let second = leaf(2);
    let root = parent(second, parent(h_a, first));
    assert_eq!(validate_merkle_proof(vec![right(first), left(second)], A, root), Ok(true));
    assert_eq!(validate_merkle_proof(vec![left(second), right(first)], A, root), Ok(false));
}

#[test]
fn validate_merkle_proof_with_no_steps_compares_the_leaf_digest() {
    let h_a = get_leaf_hash(A).unwrap();
    assert_eq!(validate_merkle_proof(vec![], A, h_a), Ok(true));
    assert_eq!(validate_merkle_proof(vec![], B, h_a), Ok(false));
}

#[test]
fn validate_merkle_proof_refuses_a_bad_address() {
    let tree = generate_tree(get_leaf_hashes(vec![A, B]).unwrap()).unwrap();
    let root = tree.last().unwrap()[0];
    let proof = generate_merkle_proof(0, tree).unwrap();
    assert_eq!(
        validate_merkle_proof(proof.clone(), "0x123", root),
        Err(MerkleError::InvalidEncoding)
    );
    assert_eq!(validate_merkle_proof(proof, "", root), Err(MerkleError::InvalidEncoding));
}

#[test]
fn single_address_round_trip() {
    let tree = generate_tree(get_leaf_hashes(vec![A]).unwrap()).unwrap();
    let root = tree.last().unwrap()[0];
    let proof = generate_merkle_proof(0, tree).unwrap();
    assert_eq!(proof, vec![right(ZERO)]);
    assert_eq!(validate_merkle_proof(proof, A, root), Ok(true));
}
