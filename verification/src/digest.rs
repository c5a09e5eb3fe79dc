use vstd::prelude::*;

verus! {

/// The SHA3-256 digest of a byte string, as a sequence of bytes.
///
/// The function is not defined here: it stands for what the hasher of
/// `tiny_keccak` computes, which depends on the input bytes alone.
pub uninterp spec fn sha3_256(data: Seq<u8>) -> Seq<u8>;

/// The digest of `data` as a 32-byte array: the array whose bytes are
/// `sha3_256(data)`.
pub open spec fn digest_of(data: Seq<u8>) -> [u8; 32] {
    choose|d: [u8; 32]| d@ == sha3_256(data)
}

/// The padding digest: 32 zero bytes.
pub open spec fn zero_digest() -> [u8; 32] {
    vstd::array::spec_array_fill_for_copy_type::<u8, 32>(0u8)
}

/// A layer made even: one zero digest is appended where its length is odd.
pub open spec fn padded(layer: Seq<[u8; 32]>) -> Seq<[u8; 32]> {
    if layer.len() % 2 == 1 {
        layer.push(zero_digest())
    } else {
        layer
    }
}

/// The digest of a parent node: the hash of the left child's bytes followed
/// by the right child's bytes.
pub open spec fn pair_digest(left: [u8; 32], right: [u8; 32]) -> [u8; 32] {
    digest_of(left@ + right@)
}

/// Hashes `origin` with SHA3-256.
///
/// Trusted: the body feeds `origin` to `tiny_keccak::Sha3::v256()` in one
/// `update` and reads 32 bytes with `finalize`. The contract claims only that
/// the bytes that come out are a function of the bytes that went in, and
/// gives that function the name `sha3_256`.
#[verifier::external_body]
pub(crate) fn hash_element(origin: &[u8]) -> (digest: [u8; 32])
    ensures
        digest@ == sha3_256(origin@),
{
    let mut hasher = tiny_keccak::Sha3::v256();
    let mut hash_output: [u8; 32] = [0u8; 32];
    tiny_keccak::Hasher::update(&mut hasher, origin);
    tiny_keccak::Hasher::finalize(hasher, &mut hash_output);
    hash_output
}

/// Two arrays with the same bytes are the same array, so a digest that
/// `hash_element` returned for `data` is `digest_of(data)`.
pub proof fn lemma_digest_of(data: Seq<u8>, digest: [u8; 32])
    requires
        digest@ == sha3_256(data),
    ensures
        digest == digest_of(data),
{
    let d = digest_of(data);
    assert(d@ == sha3_256(data));
    assert(d =~= digest);
}

/// The bytes of `left` followed by the bytes of `right`.
pub fn concat_hashes(left: [u8; 32], right: [u8; 32]) -> (concatenated: Vec<u8>)
    ensures
        concatenated@ == left@ + right@,
{
    let mut concatenated = Vec::<u8>::new();
    let mut i: usize = 0;
    while i < 32
        invariant
            i <= 32,
            concatenated@ == left@.take(i as int),
        decreases 32 - i,
    {
        concatenated.push(left[i]);
        i += 1;
    }
    let mut j: usize = 0;
    while j < 32
        invariant
            j <= 32,
            concatenated@ == left@ + right@.take(j as int),
        decreases 32 - j,
    {
        concatenated.push(right[j]);
        j += 1;
    }
    concatenated
}

/// The digest of the parent of two sibling nodes.
pub fn get_next_node(left: [u8; 32], right: [u8; 32]) -> (hash: [u8; 32])
    ensures
        hash == pair_digest(left, right),
{
    let concatenation = concat_hashes(left, right);
    let hash = hash_element(concatenation.as_slice());
    proof {
        lemma_digest_of(left@ + right@, hash);
    }
    hash
}

} // verus!
