//! Anchors: what a witness transaction commits to, in the full form kept in
//! the stash and in the form narrowed to one contract that travels in a
//! consignment.

use vstd::prelude::*;
use crate::ident::{BundleId, ContractId, Txid};
use crate::lookup::{first_index, is_first, lemma_first_absent, lemma_first_found};

verus! {

/// One commitment of an anchor: the bundle it binds under a contract.
#[derive(Clone, Copy, Debug, PartialEq, Eq)]
pub struct Leaf {
    pub contract_id: ContractId,
    pub bundle_id: BundleId,
}

/// An anchor narrowed to the commitment made under one contract.
#[derive(Clone, Copy, Debug, PartialEq, Eq)]
pub struct AnchorProof {
    pub txid: Txid,
    pub leaf: Leaf,
}

/// An anchor with every commitment known of its witness transaction. Of
/// two leaves under one contract the first counts.
#[derive(Debug, PartialEq, Eq)]
pub struct AnchorBlock {
    pub txid: Txid,
    pub leaves: Vec<Leaf>,
}

/// An anchor block as contracts speak of it.
pub struct AnchorBlockView {
    pub txid: Txid,
    pub leaves: Seq<Leaf>,
}

/// The anchor commits to nothing under the contract asked for.
#[derive(Clone, Copy, Debug, PartialEq, Eq)]
pub struct LeafNotKnown;

/// The proof does not cover the contract and bundle it is claimed for.
#[derive(Clone, Copy, Debug, PartialEq, Eq)]
pub struct UnrelatedProof;

impl View for AnchorBlock {
    type V = AnchorBlockView;

    open spec fn view(&self) -> AnchorBlockView {
        AnchorBlockView { txid: self.txid, leaves: self.leaves@ }
    }
}

/// The contracts of a list of leaves, in order.
pub open spec fn leaf_contracts(leaves: Seq<Leaf>) -> Seq<ContractId> {
    leaves.map_values(|l: Leaf| l.contract_id)
}

/// `leaves` with `leaf` added, unless its contract has a leaf already.
pub open spec fn with_leaf(leaves: Seq<Leaf>, leaf: Leaf) -> Seq<Leaf> {
    if first_index(leaf_contracts(leaves), leaf.contract_id) is Some {
        leaves
    } else {
        leaves.push(leaf)
    }
}

/// `leaves` with each of `more` added in turn.
pub open spec fn with_leaves(leaves: Seq<Leaf>, more: Seq<Leaf>) -> Seq<Leaf>
    decreases more.len(),
{
    if more.len() == 0 {
        leaves
    } else {
        with_leaf(with_leaves(leaves, more.drop_last()), more.last())
    }
}

impl AnchorBlockView {
    /// The proof of the commitment under `contract_id`, if there is one.
    pub open spec fn proof_for(self, contract_id: ContractId) -> Option<AnchorProof> {
        match first_index(leaf_contracts(self.leaves), contract_id) {
            Some(i) => Some(AnchorProof { txid: self.txid, leaf: self.leaves[i] }),
            None => None,
        }
    }

    /// The block that knows what either block knows.
    pub open spec fn merged(self, other: AnchorBlockView) -> AnchorBlockView {
        AnchorBlockView { txid: self.txid, leaves: with_leaves(self.leaves, other.leaves) }
    }
}

impl AnchorProof {
    /// Whether the proof is one of the commitment to `bundle_id` under
    /// `contract_id`.
    pub open spec fn covers(self, contract_id: ContractId, bundle_id: BundleId) -> bool {
        self.leaf == (Leaf { contract_id, bundle_id })
    }

    /// Widens the proof to a block that holds its one commitment.
    pub fn into_merkle_block(self, contract_id: ContractId, bundle_id: BundleId) -> (r: Result<
        AnchorBlock,
        UnrelatedProof,
    >)
        ensures
            self.covers(contract_id, bundle_id) ==> r is Ok && r->Ok_0@ == (AnchorBlockView {
                txid: self.txid,
                leaves: seq![self.leaf],
            }),
            !self.covers(contract_id, bundle_id) ==> r is Err,
    {
        if self.leaf.contract_id.same(&contract_id) && self.leaf.bundle_id.same(&bundle_id) {
            let mut leaves: Vec<Leaf> = Vec::new();
            leaves.push(self.leaf);
            Ok(AnchorBlock { txid: self.txid, leaves })
        } else {
            Err(UnrelatedProof)
        }
    }
}

fn find_leaf(leaves: &Vec<Leaf>, contract_id: ContractId) -> (r: Option<usize>)
    ensures
        match r {
            Some(i) => first_index(leaf_contracts(leaves@), contract_id) == Some(i as int),
            None => first_index(leaf_contracts(leaves@), contract_id) is None,
        },
{
    let ghost keys = leaf_contracts(leaves@);
    let mut i: usize = 0;
    while i < leaves.len()
        invariant
            i <= leaves.len(),
            keys == leaf_contracts(leaves@),
            forall|j: int| 0 <= j < i ==> keys[j] != contract_id,
        decreases leaves.len() - i,
    {
        if leaves[i].contract_id.same(&contract_id) {
            proof {
                assert(is_first(keys, contract_id, i as int));
                lemma_first_found(keys, contract_id, i as int);
            }
            return Some(i);
        }
        i += 1;
    }
    proof {
        lemma_first_absent(keys, contract_id);
    }
    None
}

impl AnchorBlock {
    /// Narrows the block to the commitment made under `contract_id`.
    pub fn to_merkle_proof(&self, contract_id: ContractId) -> (r: Result<AnchorProof, LeafNotKnown>)
        ensures
            match self@.proof_for(contract_id) {
                Some(proof) => r == Ok::<AnchorProof, LeafNotKnown>(proof),
                None => r is Err,
            },
    {
        match find_leaf(&self.leaves, contract_id) {
            Some(i) => Ok(AnchorProof { txid: self.txid, leaf: self.leaves[i] }),
            None => Err(LeafNotKnown),
        }
    }

    /// A copy with the same content.
    pub fn copy(&self) -> (r: AnchorBlock)
        ensures
            r@ == self@,
    {
        AnchorBlock { txid: self.txid, leaves: self.leaves.clone() }
    }

    /// Adds to the block every commitment of `other` under a contract of
    /// which the block knows none.
    pub fn merge_reveal(&mut self, other: &AnchorBlock)
        ensures
            final(self)@ == old(self)@.merged(other@),
    {
        let mut i: usize = 0;
        while i < other.leaves.len()
            invariant
                i <= other.leaves.len(),
                self.txid == old(self).txid,
                self.leaves@ == with_leaves(old(self).leaves@, other.leaves@.take(i as int)),
            decreases other.leaves.len() - i,
        {
            let leaf = other.leaves[i];
            proof {
                assert(other.leaves@.take(i + 1).drop_last() == other.leaves@.take(i as int));
            }
            if find_leaf(&self.leaves, leaf.contract_id).is_none() {
                self.leaves.push(leaf);
            }
            i += 1;
        }
        proof {
            assert(other.leaves@.take(other.leaves.len() as int) == other.leaves@);
        }
    }
}

} // verus!
