//! The folded state of a contract: which outputs of which nodes are owned,
//! and by which seal.

use vstd::prelude::*;
use crate::graph::{Assignment, Extension, Genesis, GenesisView, Transition};
use crate::ident::{ContractId, Digest, NodeId, NodeOutpoint, OutPoint, Txid};

verus! {

/// One owned output: the node output that assigned it and the transaction
/// output whose owner controls it.
#[derive(Clone, Copy, Debug, PartialEq, Eq, PartialOrd, Ord, Hash)]
pub struct OwnedState {
    pub outpoint: NodeOutpoint,
    pub seal: OutPoint,
}

impl OwnedState {
    /// Whether the two are the same, byte for byte.
    pub fn same(&self, other: &OwnedState) -> (r: bool)
        ensures
            r == (*self == *other),
    {
        self.outpoint.same(&other.outpoint) && self.seal.same(&other.seal)
    }
}

/// The projection of a contract's genesis and of every transition and
/// extension folded into it so far. What counts is the set of owned outputs,
/// not the order in which they are held.
#[derive(Debug, PartialEq, Eq)]
pub struct ContractState {
    pub contract_id: ContractId,
    pub owned: Vec<OwnedState>,
}

/// A contract state as contracts speak of it: the set of owned outputs.
pub struct ContractStateView {
    pub contract_id: ContractId,
    pub owned: Set<OwnedState>,
}

impl View for ContractState {
    type V = ContractStateView;

    open spec fn view(&self) -> ContractStateView {
        ContractStateView { contract_id: self.contract_id, owned: self.owned@.to_set() }
    }
}

/// The transaction id that stands in where a node has no witness
/// transaction.
pub open spec fn zero_txid() -> Txid {
    Txid(Digest(vstd::array::spec_array_fill_for_copy_type::<u8, 32>(0u8)))
}

/// The owned output that `assignment` of node `node_id` gives rise to when
/// the node is witnessed by `txid`.
pub open spec fn owned_by(node_id: NodeId, txid: Txid, assignment: Assignment) -> OwnedState {
    OwnedState {
        outpoint: NodeOutpoint { node_id, ty: assignment.ty, output_no: assignment.output_no },
        seal: assignment.seal.spec_outpoint_or(txid),
    }
}

/// Whether the node produces the owned output `x`.
pub open spec fn produces(
    node_id: NodeId,
    txid: Txid,
    assignments: Seq<Assignment>,
    x: OwnedState,
) -> bool {
    exists|i: int| 0 <= i < assignments.len() && x == owned_by(node_id, txid, #[trigger] assignments[i])
}

/// The owned outputs after a node is folded in: what it spends leaves, what
/// it produces enters.
pub open spec fn with_node(
    owned: Set<OwnedState>,
    node_id: NodeId,
    txid: Txid,
    parents: Seq<NodeOutpoint>,
    assignments: Seq<Assignment>,
) -> Set<OwnedState> {
    Set::new(
        |x: OwnedState|
            (owned.contains(x) && !parents.contains(x.outpoint)) || produces(
                node_id,
                txid,
                assignments,
                x,
            ),
    )
}

impl ContractStateView {
    /// The state of a contract of which only the genesis is known.
    pub open spec fn initial(contract_id: ContractId, genesis: GenesisView) -> ContractStateView {
        ContractStateView {
            contract_id,
            owned: with_node(
                Set::empty(),
                genesis.node_id(),
                zero_txid(),
                Seq::empty(),
                genesis.assignments,
            ),
        }
    }

    /// The state after a node is folded in.
    pub open spec fn with_node(
        self,
        node_id: NodeId,
        txid: Txid,
        parents: Seq<NodeOutpoint>,
        assignments: Seq<Assignment>,
    ) -> ContractStateView {
        ContractStateView {
            contract_id: self.contract_id,
            owned: with_node(self.owned, node_id, txid, parents, assignments),
        }
    }
}

fn holds(list: &Vec<OwnedState>, x: &OwnedState) -> (r: bool)
    ensures
        r == list@.contains(*x),
{
    let mut i: usize = 0;
    while i < list.len()
        invariant
            i <= list.len(),
            forall|j: int| 0 <= j < i ==> list@[j] != *x,
        decreases list.len() - i,
    {
        if list[i].same(x) {
            assert(list@[i as int] == *x);
            return true;
        }
        i += 1;
    }
    false
}

fn spends(parents: &Vec<NodeOutpoint>, outpoint: &NodeOutpoint) -> (r: bool)
    ensures
        r == parents@.contains(*outpoint),
{
    let mut i: usize = 0;
    while i < parents.len()
        invariant
            i <= parents.len(),
            forall|j: int| 0 <= j < i ==> parents@[j] != *outpoint,
        decreases parents.len() - i,
    {
        if parents[i].same(outpoint) {
            assert(parents@[i as int] == *outpoint);
            return true;
        }
        i += 1;
    }
    false
}

/// The entries of `owned` that `parents` does not spend.
fn unspent(owned: &Vec<OwnedState>, parents: &Vec<NodeOutpoint>) -> (kept: Vec<OwnedState>)
    ensures
        forall|x: OwnedState|
            kept@.contains(x) <==> owned@.contains(x) && !parents@.contains(x.outpoint),
{
    let mut kept: Vec<OwnedState> = Vec::new();
    let mut i: usize = 0;
    while i < owned.len()
        invariant
            i <= owned.len(),
            forall|x: OwnedState|
                kept@.contains(x) <==> owned@.take(i as int).contains(x) && !parents@.contains(
                    x.outpoint,
                ),
        decreases owned.len() - i,
    {
        let entry = owned[i];
        let ghost before = kept@;
        if !spends(parents, &entry.outpoint) {
            kept.push(entry);
        }
        proof {
            let next = owned@.take(i + 1);
            assert(next == owned@.take(i as int).push(entry));
            assert forall|x: OwnedState|
                kept@.contains(x) <==> next.contains(x) && !parents@.contains(x.outpoint) by {
                if kept@.contains(x) {
                    let k = choose|k: int| 0 <= k < kept@.len() && kept@[k] == x;
                    if k < before.len() {
                        assert(before[k] == x);
                        assert(before.contains(x));
                        let m = choose|m: int|
                            0 <= m < owned@.take(i as int).len() && owned@.take(i as int)[m] == x;
                        assert(next[m] == x);
                    } else {
                        assert(next[i as int] == x);
                    }
                }
                if next.contains(x) && !parents@.contains(x.outpoint) {
                    let m = choose|m: int| 0 <= m < next.len() && next[m] == x;
                    if m < i {
                        assert(owned@.take(i as int)[m] == x);
                        assert(before.contains(x));
                        let k = choose|k: int| 0 <= k < before.len() && before[k] == x;
                        assert(kept@[k] == x);
                    } else {
                        assert(kept@[kept@.len() - 1] == x);
                    }
                }
            }
        }
        i += 1;
    }
    proof {
        assert(owned@.take(i as int) == owned@);
    }
    kept
}

/// Adds to `kept` what the node produces and `kept` does not hold yet.
fn produce(
    kept: &mut Vec<OwnedState>,
    node_id: NodeId,
    txid: Txid,
    assignments: &Vec<Assignment>,
)
    ensures
        forall|x: OwnedState|
            final(kept)@.contains(x) <==> old(kept)@.contains(x) || produces(
                node_id,
                txid,
                assignments@,
                x,
            ),
{
    let mut i: usize = 0;
    while i < assignments.len()
        invariant
            i <= assignments.len(),
            forall|x: OwnedState|
                kept@.contains(x) <==> old(kept)@.contains(x) || produces(
                    node_id,
                    txid,
                    assignments@.take(i as int),
                    x,
                ),
        decreases assignments.len() - i,
    {
        let entry = OwnedState {
            outpoint: NodeOutpoint::new(node_id, assignments[i].ty, assignments[i].output_no),
            seal: assignments[i].seal.outpoint_or(txid),
        };
        let ghost before = kept@;
        if !holds(kept, &entry) {
            kept.push(entry);
        }
        proof {
            let prev = assignments@.take(i as int);
            let next = assignments@.take(i + 1);
            assert(entry == owned_by(node_id, txid, assignments@[i as int]));
            assert forall|x: OwnedState|
                kept@.contains(x) <==> old(kept)@.contains(x) || produces(
                    node_id,
                    txid,
                    next,
                    x,
                ) by {
                if kept@.contains(x) {
                    let k = choose|k: int| 0 <= k < kept@.len() && kept@[k] == x;
                    if k < before.len() {
                        assert(before[k] == x);
                        assert(before.contains(x));
                        if produces(node_id, txid, prev, x) {
                            let m = choose|m: int|
                                0 <= m < prev.len() && x == owned_by(node_id, txid, #[trigger] prev[m]);
                            assert(x == owned_by(node_id, txid, next[m]));
                        }
                    } else {
                        assert(x == owned_by(node_id, txid, next[i as int]));
                    }
                }
                if produces(node_id, txid, next, x) {
                    let m = choose|m: int|
                        0 <= m < next.len() && x == owned_by(node_id, txid, #[trigger] next[m]);
                    if m < i {
                        assert(x == owned_by(node_id, txid, prev[m]));
                        assert(before.contains(x));
                        let k = choose|k: int| 0 <= k < before.len() && before[k] == x;
                        assert(kept@[k] == x);
                    } else {
                        if before.contains(x) {
                            let k = choose|k: int| 0 <= k < before.len() && before[k] == x;
                            assert(kept@[k] == x);
                        } else {
                            assert(kept@[kept@.len() - 1] == x);
                        }
                    }
                }
                if old(kept)@.contains(x) {
                    assert(before.contains(x));
                    let k = choose|k: int| 0 <= k < before.len() && before[k] == x;
                    assert(kept@[k] == x);
                }
            }
        }
        i += 1;
    }
    proof {
        assert(assignments@.take(i as int) == assignments@);
    }
}

impl ContractState {
    /// The state of a contract seen for the first time: its genesis alone.
    pub fn with(contract_id: ContractId, genesis: &Genesis) -> (state: ContractState)
        ensures
            state@ == ContractStateView::initial(contract_id, genesis@),
    {
        let mut state = ContractState { contract_id, owned: Vec::new() };
        let parents: Vec<NodeOutpoint> = Vec::new();
        state.add_node(Txid(Digest([0u8; 32])), genesis.node_id(), &parents, &genesis.assignments);
        proof {
            assert(Seq::<OwnedState>::empty().to_set() =~= Set::<OwnedState>::empty());
            assert(parents@ =~= Seq::<NodeOutpoint>::empty());
        }
        state
    }

    /// Folds in a transition witnessed by `txid`.
    pub fn add_transition(&mut self, txid: Txid, transition: &Transition)
        ensures
            final(self)@ == old(self)@.with_node(
                transition.node_id,
                txid,
                transition.parents@,
                transition.assignments@,
            ),
    {
        self.add_node(txid, transition.node_id, &transition.parents, &transition.assignments);
    }

    /// Folds in an extension, which has no witness transaction.
    pub fn add_extension(&mut self, extension: &Extension)
        ensures
            final(self)@ == old(self)@.with_node(
                extension.node_id,
                zero_txid(),
                Seq::empty(),
                extension.assignments@,
            ),
    {
        let parents: Vec<NodeOutpoint> = Vec::new();
        self.add_node(Txid(Digest([0u8; 32])), extension.node_id, &parents, &extension.assignments);
        proof {
            assert(parents@ =~= Seq::<NodeOutpoint>::empty());
        }
    }

    /// A copy with the same content.
    pub fn copy(&self) -> (r: ContractState)
        ensures
            r@ == self@,
    {
        ContractState { contract_id: self.contract_id, owned: self.owned.clone() }
    }

    fn add_node(
        &mut self,
        txid: Txid,
        node_id: NodeId,
        parents: &Vec<NodeOutpoint>,
        assignments: &Vec<Assignment>,
    )
        ensures
            final(self)@ == old(self)@.with_node(node_id, txid, parents@, assignments@),
    {
        let mut kept = unspent(&self.owned, parents);
        produce(&mut kept, node_id, txid, assignments);
        proof {
            assert(kept@.to_set() =~= with_node(
                self.owned@.to_set(),
                node_id,
                txid,
                parents@,
                assignments@,
            ));
        }
        self.owned = kept;
    }
}

} // verus!
