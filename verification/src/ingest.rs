//! Merging a validated consignment into the stash and folding its nodes
//! into the state of its contract.

use vstd::prelude::*;
use crate::anchor::{AnchorBlock, AnchorBlockView};
use crate::bundle::{concealed, ItemView, TransitionBundle};
use crate::consignment::{AnchoredBundle, AnchoredBundleView, Consignment, ConsignmentView};
use crate::graph::{Extension, ExtensionView, Transition, TransitionView};
use crate::ident::{ContractId, Txid};
use crate::stash::{Stash, StashError, StashView};
use crate::state::{zero_txid, ContractState, ContractStateView};
use crate::table::{indexed, IndexEntry};

verus! {

/// The verdict of the validator on a consignment.
#[derive(Clone, Copy, Debug, PartialEq, Eq)]
pub enum Validity {
    /// Every node and every witness transaction was checked.
    Valid,
    /// Nothing is wrong, but some witness transactions are not mined yet.
    UnresolvedTransactions,
    /// The consignment breaks a rule.
    Invalid,
}

/// Whether a consignment with this verdict is merged: a valid one always,
/// one with unresolved transactions only where the caller forces it.
pub open spec fn admits(validity: Validity, force: bool) -> bool {
    validity is Valid || (validity is UnresolvedTransactions && force)
}

/// The stash and the state of the contract while a consignment is merged.
#[verifier::ext_equal]
pub struct Merge {
    pub stash: StashView,
    pub state: ContractStateView,
}

/// The id of the bundle of an anchored bundle.
pub open spec fn bundle_id_of(ab: AnchoredBundleView) -> crate::ident::BundleId {
    TransitionBundle::spec_bundle_id(ab.bundle)
}

/// Whether each anchor covers its bundle under the contract.
pub open spec fn anchors_related(c: ConsignmentView) -> bool {
    forall|i: int|
        0 <= i < c.anchored_bundles.len() ==> (#[trigger] c.anchored_bundles[i]).anchor.covers(
            c.genesis.contract_id,
            bundle_id_of(c.anchored_bundles[i]),
        )
}

/// A revealed transition merged: folded into the state, kept unless the
/// stash has it, its witness transaction recorded, and indexed by type.
pub open spec fn merge_transition(
    m: Merge,
    contract_id: ContractId,
    txid: Txid,
    t: TransitionView,
) -> Merge {
    Merge {
        state: m.state.with_node(t.node_id, txid, t.parents, t.assignments),
        stash: StashView {
            transitions: if m.stash.transitions.contains_key(t.node_id.0) {
                m.stash.transitions
            } else {
                m.stash.transitions.insert(t.node_id.0, t)
            },
            transition_txid: m.stash.transition_txid.insert(t.node_id.0, txid),
            contract_transitions: indexed(
                m.stash.contract_transitions,
                IndexEntry {
                    contract_id,
                    transition_type: t.transition_type,
                    node_id: t.node_id,
                },
            ),
            ..m.stash
        },
    }
}

/// The revealed transitions of a bundle merged in order.
pub open spec fn merge_items(
    m: Merge,
    contract_id: ContractId,
    txid: Txid,
    items: Seq<ItemView>,
) -> Merge
    decreases items.len(),
{
    if items.len() == 0 {
        m
    } else {
        let prev = merge_items(m, contract_id, txid, items.drop_last());
        match items.last().transition {
            Some(t) => merge_transition(prev, contract_id, txid, t),
            None => prev,
        }
    }
}

/// The anchor of a bundle widened to a block.
pub open spec fn block_of(ab: AnchoredBundleView) -> AnchorBlockView {
    AnchorBlockView { txid: ab.anchor.txid, leaves: seq![ab.anchor.leaf] }
}

/// An anchored bundle merged: its anchor joined to what the stash knows of
/// the witness transaction, its revealed transitions merged, and the bundle
/// kept in concealed form.
pub open spec fn merge_bundle(m: Merge, contract_id: ContractId, ab: AnchoredBundleView) -> Merge {
    let txid = ab.anchor.txid;
    let anchored = Merge {
        stash: StashView {
            anchors: m.stash.anchors.insert(
                txid.0,
                if m.stash.anchors.contains_key(txid.0) {
                    m.stash.anchors[txid.0].merged(block_of(ab))
                } else {
                    block_of(ab)
                },
            ),
            ..m.stash
        },
        state: m.state,
    };
    let merged = merge_items(anchored, contract_id, txid, ab.bundle);
    Merge {
        stash: StashView {
            bundles: merged.stash.bundles.insert(txid.0, concealed(ab.bundle)),
            ..merged.stash
        },
        state: merged.state,
    }
}

/// The anchored bundles merged in order.
pub open spec fn merge_bundles(
    m: Merge,
    contract_id: ContractId,
    bundles: Seq<AnchoredBundleView>,
) -> Merge
    decreases bundles.len(),
{
    if bundles.len() == 0 {
        m
    } else {
        merge_bundle(merge_bundles(m, contract_id, bundles.drop_last()), contract_id, bundles.last())
    }
}

/// An extension merged: folded into the state and kept unless the stash
/// has it.
pub open spec fn merge_extension(m: Merge, e: ExtensionView) -> Merge {
    Merge {
        state: m.state.with_node(e.node_id, zero_txid(), Seq::empty(), e.assignments),
        stash: StashView {
            extensions: if m.stash.extensions.contains_key(e.node_id.0) {
                m.stash.extensions
            } else {
                m.stash.extensions.insert(e.node_id.0, e)
            },
            ..m.stash
        },
    }
}

/// The extensions merged in order.
pub open spec fn merge_extensions(m: Merge, extensions: Seq<ExtensionView>) -> Merge
    decreases extensions.len(),
{
    if extensions.len() == 0 {
        m
    } else {
        merge_extension(merge_extensions(m, extensions.drop_last()), extensions.last())
    }
}

/// The state from which a consignment is folded: the one the stash keeps
/// for the contract, or the genesis alone where it keeps none.
pub open spec fn starting_state(stash: StashView, c: ConsignmentView) -> ContractStateView {
    let contract_id = c.genesis.contract_id;
    if stash.contracts.contains_key(contract_id.0) {
        stash.contracts[contract_id.0]
    } else {
        ContractStateView::initial(contract_id, c.genesis)
    }
}

/// The stash with the schemata and the genesis of a consignment kept.
pub open spec fn with_header(stash: StashView, c: ConsignmentView) -> StashView {
    let with_schema = stash.schemata.insert(c.schema.schema_id.0, c.schema);
    StashView {
        schemata: match c.root_schema {
            Some(root) => with_schema.insert(root.schema_id.0, root),
            None => with_schema,
        },
        genesis: if stash.genesis.contains_key(c.genesis.contract_id.0) {
            stash.genesis
        } else {
            stash.genesis.insert(c.genesis.contract_id.0, c.genesis)
        },
        ..stash
    }
}

/// The stash and the state of the contract once every node of the
/// consignment is merged.
pub open spec fn merged(stash: StashView, c: ConsignmentView) -> Merge {
    let start = Merge { stash: with_header(stash, c), state: starting_state(stash, c) };
    merge_extensions(
        merge_bundles(start, c.genesis.contract_id, c.anchored_bundles),
        c.state_extensions,
    )
}

/// The stash after a consignment is merged into it.
pub open spec fn ingested(stash: StashView, c: ConsignmentView) -> StashView {
    let m = merged(stash, c);
    StashView { contracts: m.stash.contracts.insert(c.genesis.contract_id.0, m.state), ..m.stash }
}

/// The node's store of contract data, with the operations on it.
pub struct Runtime {
    pub stash: Stash,
}

fn keep_transition(
    stash: &mut Stash,
    state: &mut ContractState,
    contract_id: ContractId,
    txid: Txid,
    transition: &Transition,
)
    ensures
        (Merge { stash: final(stash)@, state: final(state)@ }) == merge_transition(
            Merge { stash: old(stash)@, state: old(state)@ },
            contract_id,
            txid,
            transition@,
        ),
{
    state.add_transition(txid, transition);
    stash.transitions.put_new(transition.node_id.0, transition.copy());
    stash.transition_txid.put(transition.node_id.0, txid);
    stash.contract_transitions.insert(
        IndexEntry {
            contract_id,
            transition_type: transition.transition_type,
            node_id: transition.node_id,
        },
    );
}

fn keep_items(
    stash: &mut Stash,
    state: &mut ContractState,
    contract_id: ContractId,
    txid: Txid,
    bundle: &TransitionBundle,
)
    ensures
        (Merge { stash: final(stash)@, state: final(state)@ }) == merge_items(
            Merge { stash: old(stash)@, state: old(state)@ },
            contract_id,
            txid,
            bundle@,
        ),
{
    let ghost start = Merge { stash: stash@, state: state@ };
    let mut i: usize = 0;
    while i < bundle.items.len()
        invariant
            i <= bundle.items.len(),
            (Merge { stash: stash@, state: state@ }) == merge_items(
                start,
                contract_id,
                txid,
                bundle@.take(i as int),
            ),
        decreases bundle.items.len() - i,
    {
        proof {
            assert(bundle@.take(i + 1).drop_last() == bundle@.take(i as int));
            assert(bundle@.take(i + 1).last() == bundle.items@[i as int]@);
        }
        match &bundle.items[i].transition {
            Some(transition) => {
                keep_transition(stash, state, contract_id, txid, transition);
            },
            None => {},
        }
        i += 1;
    }
    proof {
        assert(bundle@.take(i as int) == bundle@);
    }
}

fn keep_bundle(
    stash: &mut Stash,
    state: &mut ContractState,
    contract_id: ContractId,
    ab: &AnchoredBundle,
    block: &AnchorBlock,
)
    requires
        block@ == block_of(ab@),
    ensures
        (Merge { stash: final(stash)@, state: final(state)@ }) == merge_bundle(
            Merge { stash: old(stash)@, state: old(state)@ },
            contract_id,
            ab@,
        ),
{
    let txid = ab.anchor.txid;
    let known = match stash.anchors.get(&txid.0) {
        Some(prior) => {
            let mut known = prior.copy();
            known.merge_reveal(&block);
            known
        },
        None => block.copy(),
    };
    stash.anchors.put(txid.0, known);
    keep_items(stash, state, contract_id, txid, &ab.bundle);
    stash.bundles.put(txid.0, ab.bundle.to_concealed());
}

fn keep_extension(stash: &mut Stash, state: &mut ContractState, extension: &Extension)
    ensures
        (Merge { stash: final(stash)@, state: final(state)@ }) == merge_extension(
            Merge { stash: old(stash)@, state: old(state)@ },
            extension@,
        ),
{
    state.add_extension(extension);
    stash.extensions.put_new(extension.node_id.0, extension.copy());
}

/// The anchors of a consignment widened to blocks, where each covers its
/// bundle under the contract.
fn anchor_blocks(consignment: &Consignment) -> (r: Option<Vec<AnchorBlock>>)
    ensures
        match r {
            Some(blocks) => {
                &&& anchors_related(consignment@)
                &&& blocks.len() == consignment.anchored_bundles.len()
                &&& forall|i: int|
                    0 <= i < blocks.len() ==> (#[trigger] blocks[i])@ == block_of(
                        consignment@.anchored_bundles[i],
                    )
            },
            None => !anchors_related(consignment@),
        },
{
    let contract_id = consignment.contract_id();
    let mut blocks: Vec<AnchorBlock> = Vec::new();
    let mut i: usize = 0;
    while i < consignment.anchored_bundles.len()
        invariant
            i <= consignment.anchored_bundles.len(),
            contract_id == consignment@.genesis.contract_id,
            blocks.len() == i,
            forall|j: int|
                0 <= j < i ==> (#[trigger] consignment@.anchored_bundles[j]).anchor.covers(
                    contract_id,
                    bundle_id_of(consignment@.anchored_bundles[j]),
                ),
            forall|j: int|
                0 <= j < i ==> (#[trigger] blocks[j])@ == block_of(consignment@.anchored_bundles[j]),
        decreases consignment.anchored_bundles.len() - i,
    {
        let ab = &consignment.anchored_bundles[i];
        assert(consignment@.anchored_bundles[i as int] == ab@);
        match ab.anchor.into_merkle_block(contract_id, ab.bundle.bundle_id()) {
            Ok(block) => {
                blocks.push(block);
            },
            Err(_) => {
                return None;
            },
        }
        i += 1;
    }
    Some(blocks)
}

impl Runtime {
    /// A node that knows no contract.
    pub fn new() -> (r: Runtime)
        ensures
            r.stash@ == StashView::empty(),
    {
        Runtime { stash: Stash::new() }
    }

    /// Merges a consignment that the validator has judged. A consignment
    /// that is not admitted leaves the stash as it was, and so does one with
    /// an anchor that does not cover its bundle; the verdict is handed back
    /// in every other case.
    pub fn process_consignment(&mut self, consignment: Consignment, validity: Validity, force: bool) -> (r:
        Result<Validity, StashError>)
        ensures
            match r {
                Ok(verdict) => {
                    &&& verdict == validity
                    &&& admits(validity, force) ==> anchors_related(consignment@)
                    &&& admits(validity, force) ==> final(self).stash@ == ingested(
                        old(self).stash@,
                        consignment@,
                    )
                    &&& !admits(validity, force) ==> final(self).stash@ == old(self).stash@
                },
                Err(e) => {
                    &&& e == StashError::UnrelatedAnchor
                    &&& admits(validity, force)
                    &&& !anchors_related(consignment@)
                    &&& final(self).stash@ == old(self).stash@
                },
            },
    {
        match validity {
            Validity::Valid => {},
            Validity::UnresolvedTransactions => {
                if !force {
                    return Ok(validity);
                }
            },
            Validity::Invalid => {
                return Ok(validity);
            },
        }
        let blocks = match anchor_blocks(&consignment) {
            Some(blocks) => blocks,
            None => {
                return Err(StashError::UnrelatedAnchor);
            },
        };
        let contract_id = consignment.contract_id();
        let mut state = match self.stash.contracts.get(&contract_id.0) {
            Some(known) => known.copy(),
            None => ContractState::with(contract_id, &consignment.genesis),
        };
        self.stash.schemata.put(consignment.schema.schema_id.0, consignment.schema);
        match consignment.root_schema {
            Some(root) => {
                self.stash.schemata.put(root.schema_id.0, root);
            },
            None => {},
        }
        self.stash.genesis.put_new(contract_id.0, consignment.genesis.copy());
        let ghost start = Merge { stash: self.stash@, state: state@ };
        let ghost bundles = consignment@.anchored_bundles;
        let mut i: usize = 0;
        while i < consignment.anchored_bundles.len()
            invariant
                i <= consignment.anchored_bundles.len(),
                bundles == consignment@.anchored_bundles,
                blocks.len() == consignment.anchored_bundles.len(),
                forall|j: int| 0 <= j < blocks.len() ==> (#[trigger] blocks[j])@ == block_of(bundles[j]),
                (Merge { stash: self.stash@, state: state@ }) == merge_bundles(
                    start,
                    contract_id,
                    bundles.take(i as int),
                ),
            decreases consignment.anchored_bundles.len() - i,
        {
            let ab = &consignment.anchored_bundles[i];
            proof {
                assert(bundles.take(i + 1).drop_last() == bundles.take(i as int));
                assert(bundles.take(i + 1).last() == ab@);
            }
            keep_bundle(&mut self.stash, &mut state, contract_id, ab, &blocks[i]);
            i += 1;
        }
        let ghost middle = Merge { stash: self.stash@, state: state@ };
        let ghost extensions = consignment@.state_extensions;
        proof {
            assert(bundles.take(i as int) == bundles);
        }
        let mut k: usize = 0;
        while k < consignment.state_extensions.len()
            invariant
                k <= consignment.state_extensions.len(),
                extensions == consignment@.state_extensions,
                (Merge { stash: self.stash@, state: state@ }) == merge_extensions(
                    middle,
                    extensions.take(k as int),
                ),
            decreases consignment.state_extensions.len() - k,
        {
            let extension = &consignment.state_extensions[k];
            proof {
                assert(extensions.take(k + 1).drop_last() == extensions.take(k as int));
                assert(extensions.take(k + 1).last() == extension@);
            }
            keep_extension(&mut self.stash, &mut state, extension);
            k += 1;
        }
        proof {
            assert(extensions.take(k as int) == extensions);
        }
        self.stash.contracts.put(contract_id.0, state);
        Ok(validity)
    }
}

} // verus!
