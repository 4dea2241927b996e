//! The stash: every table that holds what is known of the contracts.

use vstd::prelude::*;
use vstd::string::StringExecFns;
use crate::anchor::{AnchorBlock, AnchorBlockView};
use crate::bundle::{ItemView, RevealError, TransitionBundle};
use crate::graph::{Extension, ExtensionView, Genesis, GenesisView, Schema, Transition, TransitionView};
use crate::ident::{node_id_text, schema_id_text, txid_text, Digest, NodeId, SchemaId, Txid};
use crate::state::{ContractState, ContractStateView};
use crate::table::{IndexEntry, Table, TypeIndex};

verus! {

/// What can be found missing or wrong in the stash.
#[derive(Clone, Copy, Debug, PartialEq, Eq)]
pub enum StashError {
    /// The contract is unknown.
    GenesisAbsent,
    /// The schema is unknown.
    SchemaAbsent(SchemaId),
    /// The transition is absent.
    TransitionAbsent(NodeId),
    /// The witness transaction of the transition is not known.
    TransitionTxidAbsent(NodeId),
    /// The anchor of the witness transaction is absent.
    AnchorAbsent(Txid),
    /// The bundle of the witness transaction is absent.
    BundleAbsent(Txid),
    /// The anchor is not related to the contract.
    UnrelatedAnchor,
    /// A bundle refused to reveal a transition.
    BundleReveal(RevealError),
    /// More anchored bundles than a consignment may hold.
    OutsizedBundle,
}

impl StashError {
    /// The message that tells an operator what is wrong.
    pub open spec fn spec_message(self) -> Seq<char> {
        match self {
            StashError::GenesisAbsent =>
                "contract is unknown. Probably you haven't imported the contract yet."@,
            StashError::SchemaAbsent(id) => "schema "@ + schema_id_text(id) + " is unknown."@,
            StashError::TransitionAbsent(id) => "transition "@ + node_id_text(id) + " is absent."@,
            StashError::TransitionTxidAbsent(id) => "witness Txid is not known for transition "@
                + node_id_text(id),
            StashError::AnchorAbsent(txid) => "anchor for txid "@ + txid_text(txid) + " is absent"@,
            StashError::BundleAbsent(txid) => "bundle data for txid "@ + txid_text(txid)
                + " is absent"@,
            StashError::UnrelatedAnchor => "the anchor is not related to the contract"@,
            StashError::BundleReveal(RevealError::UnrelatedTransition) =>
                "the provided state transition is not a part of the bundle"@,
            StashError::OutsizedBundle =>
                "the resulting bundle size exceeds consensus restrictions"@,
        }
    }

    /// The message that tells an operator what is wrong.
    pub fn message(&self) -> (s: String)
        ensures
            s@ == self.spec_message(),
    {
        match self {
            StashError::GenesisAbsent => {
                "contract is unknown. Probably you haven't imported the contract yet.".to_owned()
            },
            StashError::SchemaAbsent(id) => {
                let mut s = "schema ".to_owned();
                s.append(id.to_text().as_str());
                s.append(" is unknown.");
                s
            },
            StashError::TransitionAbsent(id) => {
                let mut s = "transition ".to_owned();
                s.append(id.to_text().as_str());
                s.append(" is absent.");
                s
            },
            StashError::TransitionTxidAbsent(id) => {
                let mut s = "witness Txid is not known for transition ".to_owned();
                s.append(id.to_text().as_str());
                s
            },
            StashError::AnchorAbsent(txid) => {
                let mut s = "anchor for txid ".to_owned();
                s.append(txid.to_text().as_str());
                s.append(" is absent");
                s
            },
            StashError::BundleAbsent(txid) => {
                let mut s = "bundle data for txid ".to_owned();
                s.append(txid.to_text().as_str());
                s.append(" is absent");
                s
            },
            StashError::UnrelatedAnchor => "the anchor is not related to the contract".to_owned(),
            StashError::BundleReveal(RevealError::UnrelatedTransition) => {
                "the provided state transition is not a part of the bundle".to_owned()
            },
            StashError::OutsizedBundle => {
                "the resulting bundle size exceeds consensus restrictions".to_owned()
            },
        }
    }
}

/// The tables of the stash. Schemata are kept under their schema id;
/// genesis and contract state under the contract id; anchors and bundles
/// under the id of the witness transaction; transitions, their witness
/// transactions and extensions under the node id.
pub struct Stash {
    pub schemata: Table<Schema>,
    pub genesis: Table<Genesis>,
    pub anchors: Table<AnchorBlock>,
    pub bundles: Table<TransitionBundle>,
    pub transitions: Table<Transition>,
    pub transition_txid: Table<Txid>,
    pub extensions: Table<Extension>,
    pub contract_transitions: TypeIndex,
    pub contracts: Table<ContractState>,
}

/// The stash as contracts speak of it: each table as a map from key to
/// value, and the index as the list of its entries.
#[verifier::ext_equal]
pub struct StashView {
    pub schemata: Map<Digest, Schema>,
    pub genesis: Map<Digest, GenesisView>,
    pub anchors: Map<Digest, AnchorBlockView>,
    pub bundles: Map<Digest, Seq<ItemView>>,
    pub transitions: Map<Digest, TransitionView>,
    pub transition_txid: Map<Digest, Txid>,
    pub extensions: Map<Digest, ExtensionView>,
    pub contract_transitions: Seq<IndexEntry>,
    pub contracts: Map<Digest, ContractStateView>,
}

impl View for Stash {
    type V = StashView;

    open spec fn view(&self) -> StashView {
        StashView {
            schemata: self.schemata@,
            genesis: self.genesis@,
            anchors: self.anchors@,
            bundles: self.bundles@,
            transitions: self.transitions@,
            transition_txid: self.transition_txid@,
            extensions: self.extensions@,
            contract_transitions: self.contract_transitions@,
            contracts: self.contracts@,
        }
    }
}

impl StashView {
    /// The stash that knows nothing.
    pub open spec fn empty() -> StashView {
        StashView {
            schemata: Map::empty(),
            genesis: Map::empty(),
            anchors: Map::empty(),
            bundles: Map::empty(),
            transitions: Map::empty(),
            transition_txid: Map::empty(),
            extensions: Map::empty(),
            contract_transitions: Seq::empty(),
            contracts: Map::empty(),
        }
    }
}

impl Stash {
    /// A stash that knows nothing.
    pub fn new() -> (s: Stash)
        ensures
            s@ == StashView::empty(),
    {
        Stash {
            schemata: Table::new(),
            genesis: Table::new(),
            anchors: Table::new(),
            bundles: Table::new(),
            transitions: Table::new(),
            transition_txid: Table::new(),
            extensions: Table::new(),
            contract_transitions: TypeIndex::new(),
            contracts: Table::new(),
        }
    }
}

} // verus!
