//! The nodes of a contract's graph: genesis, transitions and extensions,
//! each reduced to what the stash reads of it.

use vstd::prelude::*;
use crate::ident::{ContractId, NodeId, NodeOutpoint, SchemaId};
use crate::seal::RevealedSeal;

verus! {

/// One revealed seal of a node, with the type of the owned right it is
/// assigned under and its number within that type.
#[derive(Clone, Copy, Debug, PartialEq, Eq)]
pub struct Assignment {
    pub ty: u16,
    pub output_no: u16,
    pub seal: RevealedSeal,
}

impl Assignment {
    /// Whether the two are the same, field for field.
    pub fn same(&self, other: &Assignment) -> (r: bool)
        ensures
            r == (*self == *other),
    {
        self.ty == other.ty && self.output_no == other.output_no && self.seal.same(&other.seal)
    }
}

fn same_parents(a: &Vec<NodeOutpoint>, b: &Vec<NodeOutpoint>) -> (r: bool)
    ensures
        r == (a@ == b@),
{
    if a.len() != b.len() {
        return false;
    }
    let mut i: usize = 0;
    while i < a.len()
        invariant
            i <= a.len(),
            a.len() == b.len(),
            forall|j: int| 0 <= j < i ==> a@[j] == b@[j],
        decreases a.len() - i,
    {
        if !a[i].same(&b[i]) {
            return false;
        }
        i += 1;
    }
    assert(a@ =~= b@);
    true
}

fn same_assignments(a: &Vec<Assignment>, b: &Vec<Assignment>) -> (r: bool)
    ensures
        r == (a@ == b@),
{
    if a.len() != b.len() {
        return false;
    }
    let mut i: usize = 0;
    while i < a.len()
        invariant
            i <= a.len(),
            a.len() == b.len(),
            forall|j: int| 0 <= j < i ==> a@[j] == b@[j],
        decreases a.len() - i,
    {
        if !a[i].same(&b[i]) {
            return false;
        }
        i += 1;
    }
    assert(a@ =~= b@);
    true
}

/// The rules a contract follows, and the schema they extend, if any.
#[derive(Clone, Copy, Debug, PartialEq, Eq)]
pub struct Schema {
    pub schema_id: SchemaId,
    pub root_id: Option<SchemaId>,
}

/// The root node of a contract.
#[derive(Debug, PartialEq, Eq)]
pub struct Genesis {
    pub contract_id: ContractId,
    pub schema_id: SchemaId,
    pub assignments: Vec<Assignment>,
}

/// A node that spends outputs of earlier nodes and produces new ones.
#[derive(Debug, PartialEq, Eq)]
pub struct Transition {
    pub node_id: NodeId,
    pub transition_type: u16,
    pub parents: Vec<NodeOutpoint>,
    pub assignments: Vec<Assignment>,
}

/// A node that adds state without spending anything; it has no witness
/// transaction.
#[derive(Debug, PartialEq, Eq)]
pub struct Extension {
    pub node_id: NodeId,
    pub assignments: Vec<Assignment>,
}

/// A genesis as contracts speak of it.
pub struct GenesisView {
    pub contract_id: ContractId,
    pub schema_id: SchemaId,
    pub assignments: Seq<Assignment>,
}

/// A transition as contracts speak of it.
pub struct TransitionView {
    pub node_id: NodeId,
    pub transition_type: u16,
    pub parents: Seq<NodeOutpoint>,
    pub assignments: Seq<Assignment>,
}

/// An extension as contracts speak of it.
pub struct ExtensionView {
    pub node_id: NodeId,
    pub assignments: Seq<Assignment>,
}

impl View for Schema {
    type V = Schema;

    open spec fn view(&self) -> Schema {
        *self
    }
}

impl View for Genesis {
    type V = GenesisView;

    open spec fn view(&self) -> GenesisView {
        GenesisView {
            contract_id: self.contract_id,
            schema_id: self.schema_id,
            assignments: self.assignments@,
        }
    }
}

impl View for Transition {
    type V = TransitionView;

    open spec fn view(&self) -> TransitionView {
        TransitionView {
            node_id: self.node_id,
            transition_type: self.transition_type,
            parents: self.parents@,
            assignments: self.assignments@,
        }
    }
}

impl View for Extension {
    type V = ExtensionView;

    open spec fn view(&self) -> ExtensionView {
        ExtensionView { node_id: self.node_id, assignments: self.assignments@ }
    }
}

impl GenesisView {
    /// The genesis is the node whose id is the contract's.
    pub open spec fn node_id(self) -> NodeId {
        NodeId(self.contract_id.0)
    }
}

impl Genesis {
    /// The id of the node that the genesis is.
    pub fn node_id(&self) -> (id: NodeId)
        ensures
            id == self@.node_id(),
    {
        NodeId(self.contract_id.0)
    }

    /// A copy with the same content.
    pub fn copy(&self) -> (r: Genesis)
        ensures
            r@ == self@,
    {
        Genesis {
            contract_id: self.contract_id,
            schema_id: self.schema_id,
            assignments: self.assignments.clone(),
        }
    }
}

impl Transition {
    /// Whether the two have the same content.
    pub fn same(&self, other: &Transition) -> (r: bool)
        ensures
            r == (self@ == other@),
    {
        self.transition_type == other.transition_type && self.node_id.same(&other.node_id)
            && same_parents(&self.parents, &other.parents) && same_assignments(
            &self.assignments,
            &other.assignments,
        )
    }

    /// A copy with the same content.
    pub fn copy(&self) -> (r: Transition)
        ensures
            r@ == self@,
    {
        Transition {
            node_id: self.node_id,
            transition_type: self.transition_type,
            parents: self.parents.clone(),
            assignments: self.assignments.clone(),
        }
    }
}

impl Extension {
    /// A copy with the same content.
    pub fn copy(&self) -> (r: Extension)
        ensures
            r@ == self@,
    {
        Extension { node_id: self.node_id, assignments: self.assignments.clone() }
    }
}

} // verus!
