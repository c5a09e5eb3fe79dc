use crate::digest::{digest_of, hash_element, lemma_digest_of, padded, zero_digest};
use crate::error::MerkleError;
use vstd::prelude::*;
use vstd::slice::slice_subrange;
use vstd::string::StringSliceAdditionalSpecFns;

verus! {

/// The value of one hexadecimal digit given as an ASCII byte, in either
/// case; `None` for any other byte.
pub open spec fn hex_digit_value(c: u8) -> Option<int> {
    if '0' as u8 <= c <= '9' as u8 {
        Some(c - '0' as u8)
    } else if 'a' as u8 <= c <= 'f' as u8 {
        Some(c - 'a' as u8 + 10)
    } else if 'A' as u8 <= c <= 'F' as u8 {
        Some(c - 'A' as u8 + 10)
    } else {
        None
    }
}

/// Whether `text` is an even number of hexadecimal digits.
pub open spec fn is_hex_text(text: Seq<u8>) -> bool {
    &&& text.len() % 2 == 0
    &&& forall|i: int| 0 <= i < text.len() ==> hex_digit_value(#[trigger] text[i]) is Some
}

/// The bytes that hexadecimal `text` spells, two digits to a byte, the high
/// digit first.
pub open spec fn hex_bytes(text: Seq<u8>) -> Seq<u8> {
    Seq::new(
        text.len() / 2,
        |k: int|
            (16 * hex_digit_value(text[2 * k]).unwrap() + hex_digit_value(
                text[2 * k + 1],
            ).unwrap()) as u8,
    )
}

/// The bytes that an address stands for: its first two bytes are a prefix
/// and are dropped unread, the rest is hexadecimal text. `None` where the
/// address is shorter than the prefix or the rest is not hexadecimal text.
pub open spec fn address_payload(address: Seq<u8>) -> Option<Seq<u8>> {
    if address.len() >= 2 && is_hex_text(address.skip(2)) {
        Some(hex_bytes(address.skip(2)))
    } else {
        None
    }
}

/// `address_payload` of the UTF-8 bytes of a string.
pub open spec fn payload_of(address: &str) -> Option<Seq<u8>> {
    address_payload(address.spec_bytes())
}

/// Whether every address of the list has a payload.
pub open spec fn all_decodable(addresses: Seq<&str>) -> bool {
    forall|i: int| 0 <= i < addresses.len() ==> payload_of(#[trigger] addresses[i]) is Some
}

/// The payloads of a list of addresses, in order.
pub open spec fn payloads(addresses: Seq<&str>) -> Seq<Seq<u8>> {
    Seq::new(addresses.len(), |i: int| payload_of(addresses[i]).unwrap())
}

/// The leaf digests of a list of items: the digest of each item in order,
/// followed by one zero digest where the number of items is odd.
pub open spec fn leaf_digests(items: Seq<Seq<u8>>) -> Seq<[u8; 32]> {
    padded(Seq::new(items.len(), |i: int| digest_of(items[i])))
}

/// The error of `hex::decode`. Nothing is read from it: any of its values
/// means that the text was refused.
#[verifier::external_type_specification]
#[verifier::external_body]
pub struct ExFromHexError(hex::FromHexError);

/// Decodes hexadecimal text.
///
/// Trusted: the body is one call of `hex::decode`. The contract claims that
/// the call succeeds exactly on an even number of digits `0-9`, `a-f`,
/// `A-F`, and that each pair of digits then gives one byte, the first digit
/// being the high half.
#[verifier::external_body]
fn hex_decode(text: &[u8]) -> (decoded: Result<Vec<u8>, hex::FromHexError>)
    ensures
        decoded is Ok <==> is_hex_text(text@),
        decoded matches Ok(bytes) ==> bytes@ == hex_bytes(text@),
{
    hex::decode(text)
}

/// Decodes an address into the bytes it stands for.
///
/// The first two bytes of the address are taken for its prefix, whatever
/// they are; an address without them, or with anything but an even number of
/// hexadecimal digits after them, is refused.
pub fn decode_address(address: &str) -> (decoded: Result<Vec<u8>, MerkleError>)
    ensures
        match decoded {
            Ok(bytes) => payload_of(address) == Some(bytes@),
            Err(e) => e == MerkleError::InvalidEncoding && payload_of(address) is None,
        },
{
    let bytes = address.as_bytes();
    if bytes.len() < 2 {
        return Err(MerkleError::InvalidEncoding);
    }
    let digits = slice_subrange(bytes, 2, bytes.len());
    match hex_decode(digits) {
        Ok(decoded_address) => Ok(decoded_address),
        Err(_) => Err(MerkleError::InvalidEncoding),
    }
}

/// The leaf digest of an address: the digest of its payload.
pub fn get_leaf_hash(address: &str) -> (hash: Result<[u8; 32], MerkleError>)
    ensures
        match hash {
            Ok(digest) => payload_of(address) is Some && digest == digest_of(
                payload_of(address).unwrap(),
            ),
            Err(e) => e == MerkleError::InvalidEncoding && payload_of(address) is None,
        },
{
    match decode_address(address) {
        Ok(decoded) => {
            let hash = hash_element(decoded.as_slice());
            proof {
                lemma_digest_of(decoded@, hash);
            }
            Ok(hash)
        },
        Err(e) => Err(e),
    }
}

/// The leaf digests of a list of addresses: the leaf digest of each address
/// in order, and one zero digest more where their number is odd, so also
/// after a single address. The first address that does not decode has the
/// whole list refused.
pub fn get_leaf_hashes(addresses: Vec<&str>) -> (hashed_leafs: Result<Vec<[u8; 32]>, MerkleError>)
    ensures
        match hashed_leafs {
            Ok(hashes) => all_decodable(addresses@) && hashes@ == leaf_digests(
                payloads(addresses@),
            ),
            Err(e) => e == MerkleError::InvalidEncoding && !all_decodable(addresses@),
        },
        hashed_leafs matches Ok(hashes) ==> hashes.len() % 2 == 0,
        hashed_leafs matches Ok(hashes) ==> addresses.len() % 2 == 1 ==> hashes.len()
            == addresses.len() + 1 && hashes@.last() == zero_digest(),
{
    let mut hashed_leafs: Vec<[u8; 32]> = Vec::new();
    let mut i: usize = 0;
    while i < addresses.len()
        invariant
            i <= addresses.len(),
            hashed_leafs.len() == i,
            forall|k: int| 0 <= k < i ==> payload_of(#[trigger] addresses@[k]) is Some,
            forall|k: int|
                0 <= k < i ==> #[trigger] hashed_leafs@[k] == digest_of(
                    payload_of(addresses@[k]).unwrap(),
                ),
        decreases addresses.len() - i,
    {
        match get_leaf_hash(addresses[i]) {
            Ok(hash) => hashed_leafs.push(hash),
            Err(e) => {
                return Err(e);
            },
        }
        i += 1;
    }
    if addresses.len() % 2 != 0 {
        hashed_leafs.push([0;32]);
    }
    assert(hashed_leafs@ =~= leaf_digests(payloads(addresses@)));
    Ok(hashed_leafs)
}

} // verus!
