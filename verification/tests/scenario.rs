use rgb_node::anchor::{AnchorProof, Leaf};
use rgb_node::bundle::{BundleItem, Inputs, TransitionBundle};
use rgb_node::consignment::{AnchoredBundle, Consignment};
use rgb_node::graph::{Assignment, Genesis, Schema, Transition};
use rgb_node::ident::{ContractId, Digest, NodeId, NodeOutpoint, OutPoint, SchemaId, Txid};
use rgb_node::seal::{CloseMethod, RevealedSeal, SealEndpoint};
use rgb_node::selection::OutpointSelection;
use rgb_node::{Runtime, StashError, Validity};

fn digest(n: u8) -> Digest {
    Digest([n; 32])
}

fn seal(txid: Option<Txid>, vout: u32) -> RevealedSeal {
    RevealedSeal { method: CloseMethod::TapretFirst, txid, vout, blinding: 7 }
}

fn contract() -> ContractId {
    ContractId(digest(1))
}

fn genesis() -> Genesis {
    Genesis {
        contract_id: contract(),
        schema_id: SchemaId(digest(2)),
        assignments: vec![Assignment { ty: 0, output_no: 0, seal: seal(Some(Txid(digest(9))), 0) }],
    }
}

fn schema() -> Schema {
    Schema { schema_id: SchemaId(digest(2)), root_id: None }
}

fn first_transition() -> Transition {
    Transition {
        node_id: NodeId(digest(3)),
        transition_type: 7,
        parents: vec![NodeOutpoint { ty: 0, node_id: NodeId(digest(1)), output_no: 0 }],
        assignments: vec![Assignment { ty: 0, output_no: 0, seal: seal(None, 1) }],
    }
}

fn witness() -> Txid {
    Txid(digest(20))
}

fn consignment_of(bundles: Vec<(Txid, Vec<Transition>)>) -> Consignment {
    let anchored_bundles = bundles
        .into_iter()
        .map(|(txid, transitions)| {
            let items = transitions
                .into_iter()
                .map(|t| BundleItem { node_id: t.node_id, inputs: Inputs::new(vec![0]).unwrap(), transition: Some(t) })
                .collect();
            let bundle = TransitionBundle { items };
            let leaf = Leaf { contract_id: contract(), bundle_id: bundle.bundle_id() };
            AnchoredBundle { anchor: AnchorProof { txid, leaf }, bundle }
        })
        .collect();
    Consignment {
        schema: schema(),
        root_schema: None,
        genesis: genesis(),
        tips: vec![],
        endpoints: vec![],
        anchored_bundles,
        state_extensions: vec![],
    }
}

fn node_with_one_transition() -> Runtime {
    let mut runtime = Runtime::new();
    let consignment = consignment_of(vec![(witness(), vec![first_transition()])]);
    assert_eq!(runtime.process_consignment(consignment, Validity::Valid, false), Ok(Validity::Valid));
    runtime
}

#[test]
fn compose_discloses_the_only_transition() {
    let runtime = node_with_one_transition();
    let selection = OutpointSelection::Specific(vec![OutPoint { txid: witness(), vout: 1 }]);
    let composed = runtime.compose_consignment(contract(), vec![7], selection).unwrap();

    assert_eq!(composed.tips, vec![NodeOutpoint { ty: 0, node_id: NodeId(digest(3)), output_no: 0 }]);
    assert_eq!(composed.endpoints.len(), 1);
    assert_eq!(
        composed.endpoints[0].seal,
        SealEndpoint::WitnessVout { method: CloseMethod::TapretFirst, vout: 1, blinding: 7 }
    );
    assert_eq!(composed.anchored_bundles.len(), 1);
    let anchored = &composed.anchored_bundles[0];
    assert_eq!(anchored.anchor.txid, witness());
    assert_eq!(composed.endpoints[0].bundle_id, anchored.bundle.bundle_id());
    assert_eq!(anchored.bundle.items.len(), 1);
    assert_eq!(anchored.bundle.items[0].transition, Some(first_transition()));
    assert_eq!(composed.genesis, genesis());
    assert_eq!(composed.schema, schema());
    assert_eq!(composed.root_schema, None);
    assert!(composed.state_extensions.is_empty());
}

#[test]
fn unresolved_without_force_changes_nothing() {
    let mut runtime = Runtime::new();
    let consignment = consignment_of(vec![(witness(), vec![first_transition()])]);
    let verdict = runtime.process_consignment(consignment, Validity::UnresolvedTransactions, false);
    assert_eq!(verdict, Ok(Validity::UnresolvedTransactions));
    assert!(runtime.stash.schemata.keys().is_empty());
    assert!(runtime.stash.genesis.keys().is_empty());
    assert!(runtime.stash.anchors.keys().is_empty());
    assert!(runtime.stash.bundles.keys().is_empty());
    assert!(runtime.stash.transitions.keys().is_empty());
    assert!(runtime.stash.transition_txid.keys().is_empty());
    assert!(runtime.stash.extensions.keys().is_empty());
    assert!(runtime.stash.contracts.keys().is_empty());
    assert!(runtime.stash.contract_transitions.transitions_by_type(contract(), 7).is_empty());
}

#[test]
fn unresolved_with_force_is_merged() {
    let mut runtime = Runtime::new();
    let consignment = consignment_of(vec![(witness(), vec![first_transition()])]);
    let verdict = runtime.process_consignment(consignment, Validity::UnresolvedTransactions, true);
    assert_eq!(verdict, Ok(Validity::UnresolvedTransactions));
    assert_eq!(
        runtime.stash.contract_transitions.transitions_by_type(contract(), 7),
        vec![NodeId(digest(3))]
    );
    assert_eq!(runtime.stash.transition_txid.get(&digest(3)), Some(&witness()));
}

#[test]
fn invalid_is_never_merged() {
    let mut runtime = Runtime::new();
    let consignment = consignment_of(vec![(witness(), vec![first_transition()])]);
    assert_eq!(
        runtime.process_consignment(consignment, Validity::Invalid, true),
        Ok(Validity::Invalid)
    );
    assert!(runtime.stash.contracts.keys().is_empty());
}

#[test]
fn unknown_contract_cannot_be_composed() {
    let runtime = Runtime::new();
    assert_eq!(
        runtime.compose_consignment(contract(), vec![7], OutpointSelection::All),
        Err(StashError::GenesisAbsent)
    );
}
