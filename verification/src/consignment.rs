//! Consignments: the proof packages that peers exchange.

use vstd::prelude::*;
use crate::anchor::AnchorProof;
use crate::bundle::{ItemView, TransitionBundle};
use crate::graph::{Extension, ExtensionView, Genesis, GenesisView, Schema};
use crate::ident::{BundleId, ContractId, NodeOutpoint};
use crate::seal::SealEndpoint;

verus! {

/// An output disclosed to the recipient: the bundle that assigns it and the
/// seal over it.
#[derive(Clone, Copy, Debug, PartialEq, Eq)]
pub struct Endpoint {
    pub bundle_id: BundleId,
    pub seal: SealEndpoint,
}

/// A bundle with the proof that its witness transaction commits to it.
#[derive(Debug, PartialEq, Eq)]
pub struct AnchoredBundle {
    pub anchor: AnchorProof,
    pub bundle: TransitionBundle,
}

/// An anchored bundle as contracts speak of it.
pub struct AnchoredBundleView {
    pub anchor: AnchorProof,
    pub bundle: Seq<ItemView>,
}

impl View for AnchoredBundle {
    type V = AnchoredBundleView;

    open spec fn view(&self) -> AnchoredBundleView {
        AnchoredBundleView { anchor: self.anchor, bundle: self.bundle@ }
    }
}

/// A self-contained package that proves contract state.
#[derive(Debug, PartialEq, Eq)]
pub struct Consignment {
    pub schema: Schema,
    pub root_schema: Option<Schema>,
    pub genesis: Genesis,
    pub tips: Vec<NodeOutpoint>,
    pub endpoints: Vec<Endpoint>,
    pub anchored_bundles: Vec<AnchoredBundle>,
    pub state_extensions: Vec<Extension>,
}

/// A consignment as contracts speak of it.
#[verifier::ext_equal]
pub struct ConsignmentView {
    pub schema: Schema,
    pub root_schema: Option<Schema>,
    pub genesis: GenesisView,
    pub tips: Seq<NodeOutpoint>,
    pub endpoints: Seq<Endpoint>,
    pub anchored_bundles: Seq<AnchoredBundleView>,
    pub state_extensions: Seq<ExtensionView>,
}

impl View for Consignment {
    type V = ConsignmentView;

    open spec fn view(&self) -> ConsignmentView {
        ConsignmentView {
            schema: self.schema,
            root_schema: self.root_schema,
            genesis: self.genesis@,
            tips: self.tips@,
            endpoints: self.endpoints@,
            anchored_bundles: self.anchored_bundles@.map_values(|ab: AnchoredBundle| ab@),
            state_extensions: self.state_extensions@.map_values(|e: Extension| e@),
        }
    }
}

impl Consignment {
    /// The contract that the consignment is about.
    pub fn contract_id(&self) -> (id: ContractId)
        ensures
            id == self@.genesis.contract_id,
    {
        self.genesis.contract_id
    }
}

} // verus!
