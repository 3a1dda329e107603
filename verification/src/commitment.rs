//! The commitment to an evaluation layer: a SHA-256 Merkle root over the
//! hashed decimal texts of the evaluations.
//!
//! The hash and the tree are the work of the `rs_merkle` crate. What this
//! module states of them is believed, not proved: that each is a function of
//! its input alone, and that a tree has a root exactly when it has a leaf.
//! The functions `sha256` and `merkle_root` name their results.

use crate::encoding::{decimal_text, encode_decimal};
use crate::error::FriError;
use crate::numeric::ints;
use rs_merkle::algorithms::Sha256;
use rs_merkle::{Hasher, MerkleTree};
use vstd::prelude::*;

verus! {

/// The SHA-256 digest of `data`, as `rs_merkle`'s `Sha256` hasher computes
/// it.
pub uninterp spec fn sha256(data: Seq<u8>) -> Seq<u8>;

/// The root of the Merkle tree that `rs_merkle` builds with its `Sha256`
/// hasher over `leaves`, in their order. It is meaningful for a non-empty
/// sequence of leaves only: an empty tree has no root.
pub uninterp spec fn merkle_root(leaves: Seq<Seq<u8>>) -> Seq<u8>;

/// The byte strings of a sequence of digests.
pub open spec fn digest_views(leaves: Seq<[u8; 32]>) -> Seq<Seq<u8>> {
    Seq::new(leaves.len(), |i: int| leaves[i]@)
}

/// The leaves of a layer: the digest of the decimal text of each evaluation.
pub open spec fn leaf_digests(layer: Seq<int>) -> Seq<Seq<u8>> {
    Seq::new(layer.len(), |i: int| sha256(decimal_text(layer[i])))
}

/// The commitment to a layer: the Merkle root over its leaves.
pub open spec fn commitment(layer: Seq<int>) -> Seq<u8> {
    merkle_root(leaf_digests(layer))
}

/// Calls `rs_merkle::algorithms::Sha256::hash`, which feeds `data` to a
/// fresh SHA-256 state of the `sha2` crate and returns the 32 bytes that it
/// finalizes to. The contract claims only that the digest is a function of
/// the bytes, and gives that function the name `sha256`.
#[verifier::external_body]
fn sha256_digest(data: &Vec<u8>) -> (digest: [u8; 32])
    ensures
        digest@ == sha256(data@),
{
    Sha256::hash(data.as_slice())
}

/// Calls `rs_merkle::MerkleTree::<Sha256>::from_leaves` on `leaves` and then
/// `root` on the tree that it returns. `from_leaves` appends the leaves to an
/// empty tree and commits them; `root` returns the single node of the top
/// layer, and `None` when the tree has no layer, which is the case exactly
/// when no leaf was given. The contract claims that, and that the root is a
/// function of the leaves in their order, named `merkle_root`.
#[verifier::external_body]
fn tree_root(leaves: &Vec<[u8; 32]>) -> (root: Option<[u8; 32]>)
    ensures
        root is Some <==> leaves@.len() > 0,
        root matches Some(r) ==> r@ == merkle_root(digest_views(leaves@)),
{
    MerkleTree::<Sha256>::from_leaves(leaves.as_slice()).root()
}

/// The Merkle root that binds an evaluation layer.
///
/// Each evaluation is written as decimal text and hashed with SHA-256; the
/// digests, in the order of the layer, are the leaves of the tree. A layer
/// without evaluations is refused with `EmptyCommitmentInput` before any
/// tree is built.
pub fn commit(layer: &Vec<i128>) -> (res: Result<[u8; 32], FriError>)
    ensures
        res is Ok <==> layer@.len() > 0,
        res matches Ok(root) ==> root@ == commitment(ints(layer@)),
        res matches Err(e) ==> e == FriError::EmptyCommitmentInput,
{
    let n = layer.len();
    if n == 0 {
        return Err(FriError::EmptyCommitmentInput);
    }
    let ghost target = leaf_digests(ints(layer@));
    let mut leaves: Vec<[u8; 32]> = Vec::new();
    let mut i: usize = 0;
    while i < n
        invariant
            i <= n,
            n == layer.len(),
            target == leaf_digests(ints(layer@)),
            leaves.len() == i,
            forall|j: int| 0 <= j < i ==> leaves[j]@ == #[trigger] target[j],
        decreases n - i,
    {
        let text = encode_decimal(layer[i]);
        let digest = sha256_digest(&text);
        assert(target[i as int] == sha256(decimal_text(layer[i as int] as int)));
        leaves.push(digest);
        i += 1;
    }
    assert(digest_views(leaves@) =~= target);
    match tree_root(&leaves) {
        Some(root) => Ok(root),
        None => Err(FriError::EmptyCommitmentInput),
    }
}

/// Layers with the same evaluations have the same commitment: two roots
/// that bind equal layers are equal, byte for byte.
pub proof fn equal_layers_have_equal_roots(
    a: Seq<i128>,
    b: Seq<i128>,
    root_a: [u8; 32],
    root_b: [u8; 32],
)
    requires
        a == b,
        root_a@ == commitment(ints(a)),
        root_b@ == commitment(ints(b)),
    ensures
        root_a == root_b,
{
    assert(root_a@ =~= root_b@);
    assert(root_a =~= root_b);
}

} // verus!
