use rgb_node::anchor::{AnchorBlock, AnchorProof, Leaf};
use rgb_node::bundle::{BundleItem, Inputs, RevealError, TransitionBundle};
use rgb_node::collector::Collector;
use rgb_node::consignment::{AnchoredBundle, Consignment, Endpoint};
use rgb_node::graph::{Assignment, Extension, Genesis, Schema, Transition};
use rgb_node::ident::{
    BundleId, ContractId, Digest, NodeId, NodeOutpoint, OutPoint, SchemaId, Txid,
};
use rgb_node::seal::{CloseMethod, RevealedSeal, SealEndpoint};
use rgb_node::selection::OutpointSelection;
use rgb_node::state::OwnedState;
use rgb_node::table::IndexEntry;
use rgb_node::{Runtime, Stash, StashError, Validity};

fn digest(n: u8) -> Digest {
    Digest([n; 32])
}

fn contract() -> ContractId {
    ContractId(digest(1))
}

fn genesis_node() -> NodeId {
    NodeId(digest(1))
}

fn schema() -> Schema {
    Schema { schema_id: SchemaId(digest(2)), root_id: None }
}

fn seal(vout: u32) -> RevealedSeal {
    RevealedSeal { method: CloseMethod::TapretFirst, txid: None, vout, blinding: 7 }
}

fn genesis() -> Genesis {
    Genesis {
        contract_id: contract(),
        schema_id: SchemaId(digest(2)),
        assignments: vec![Assignment {
            ty: 0,
            output_no: 0,
            seal: RevealedSeal {
                method: CloseMethod::TapretFirst,
                txid: Some(Txid(digest(9))),
                vout: 0,
                blinding: 1,
            },
        }],
    }
}

/// A transition `n` of type `kind` that spends output 0 of each of
/// `parents` and assigns its output 0 to output `n` of its witness.
fn transition(n: u8, kind: u16, parents: &[NodeId]) -> Transition {
    Transition {
        node_id: NodeId(digest(n)),
        transition_type: kind,
        parents: parents.iter().map(|p| NodeOutpoint { ty: 0, node_id: *p, output_no: 0 }).collect(),
        assignments: vec![Assignment { ty: 0, output_no: 0, seal: seal(n as u32) }],
    }
}

fn witness(n: u8) -> Txid {
    Txid(digest(100 + n))
}

fn bundle_of(transitions: Vec<Transition>) -> TransitionBundle {
    TransitionBundle {
        items: transitions
            .into_iter()
            .map(|t| BundleItem { node_id: t.node_id, inputs: Inputs::new(vec![0]).unwrap(), transition: Some(t) })
            .collect(),
    }
}

fn anchored(txid: Txid, bundle: TransitionBundle) -> AnchoredBundle {
    let leaf = Leaf { contract_id: contract(), bundle_id: bundle.bundle_id() };
    AnchoredBundle { anchor: AnchorProof { txid, leaf }, bundle }
}

fn consignment(anchored_bundles: Vec<AnchoredBundle>) -> Consignment {
    Consignment {
        schema: schema(),
        root_schema: None,
        genesis: genesis(),
        tips: vec![],
        endpoints: vec![],
        anchored_bundles,
        state_extensions: vec![],
    }
}

/// Genesis, then transitions 10 (type 5), 11 and 12 (type 7) in a chain,
/// each with a witness transaction of its own.
fn chain() -> Runtime {
    let mut runtime = Runtime::new();
    let c = consignment(vec![
        anchored(witness(10), bundle_of(vec![transition(10, 5, &[genesis_node()])])),
        anchored(witness(11), bundle_of(vec![transition(11, 7, &[NodeId(digest(10))])])),
        anchored(witness(12), bundle_of(vec![transition(12, 7, &[NodeId(digest(11))])])),
    ]);
    assert_eq!(runtime.process_consignment(c, Validity::Valid, false), Ok(Validity::Valid));
    runtime
}

fn select(n: u8) -> OutpointSelection {
    OutpointSelection::Specific(vec![OutPoint { txid: witness(n), vout: n as u32 }])
}

fn open_endpoint(n: u8) -> SealEndpoint {
    SealEndpoint::WitnessVout { method: CloseMethod::TapretFirst, vout: n as u32, blinding: 7 }
}

fn revealed_ids(bundle: &TransitionBundle) -> Vec<NodeId> {
    bundle.items.iter().filter(|i| i.transition.is_some()).map(|i| i.node_id).collect()
}

#[test]
fn closure_pulls_in_every_ancestor() {
    let runtime = chain();
    let composed = runtime.compose_consignment(contract(), vec![7], select(12)).unwrap();

    assert_eq!(composed.tips, vec![NodeOutpoint { ty: 0, node_id: NodeId(digest(12)), output_no: 0 }]);
    let txids: Vec<Txid> = composed.anchored_bundles.iter().map(|ab| ab.anchor.txid).collect();
    assert_eq!(txids, vec![witness(10), witness(11), witness(12)]);
    for ab in &composed.anchored_bundles {
        assert_eq!(revealed_ids(&ab.bundle).len(), 1);
        assert_eq!(ab.anchor.leaf.contract_id, contract());
        assert_eq!(ab.anchor.leaf.bundle_id, ab.bundle.bundle_id());
    }
    // The disclosed output first, then what the closure records at the ancestors.
    let seals: Vec<SealEndpoint> = composed.endpoints.iter().map(|e| e.seal).collect();
    assert_eq!(seals, vec![open_endpoint(12), open_endpoint(11), open_endpoint(10)]);
}

#[test]
fn forward_walk_alone_conserves_the_selection() {
    // The only transition of the type asked for spends the genesis: the closure visits nothing.
    let runtime = chain();
    let composed = runtime.compose_consignment(contract(), vec![5], select(10)).unwrap();
    assert_eq!(composed.endpoints.len(), 1);
    assert_eq!(composed.endpoints[0].seal, open_endpoint(10));
    assert_eq!(composed.tips, vec![NodeOutpoint { ty: 0, node_id: NodeId(digest(10)), output_no: 0 }]);
    assert_eq!(composed.anchored_bundles.len(), 1);
}

#[test]
fn nothing_selected_discloses_nothing_but_reveals_what_was_walked() {
    let runtime = chain();
    let nothing = OutpointSelection::Specific(vec![]);
    let composed = runtime.compose_consignment(contract(), vec![7], nothing).unwrap();
    assert!(composed.tips.is_empty());
    assert!(composed.endpoints.is_empty());
    let txids: Vec<Txid> = composed.anchored_bundles.iter().map(|ab| ab.anchor.txid).collect();
    assert_eq!(txids, vec![witness(11), witness(12)]);
    assert_eq!(revealed_ids(&composed.anchored_bundles[0].bundle), vec![NodeId(digest(11))]);
    assert_eq!(revealed_ids(&composed.anchored_bundles[1].bundle), vec![NodeId(digest(12))]);
}

#[test]
fn kinds_count_as_a_set() {
    let runtime = chain();
    let composed =
        runtime.compose_consignment(contract(), vec![7, 5, 7], OutpointSelection::All).unwrap();
    assert_eq!(
        composed.tips,
        vec![
            NodeOutpoint { ty: 0, node_id: NodeId(digest(10)), output_no: 0 },
            NodeOutpoint { ty: 0, node_id: NodeId(digest(11)), output_no: 0 },
            NodeOutpoint { ty: 0, node_id: NodeId(digest(12)), output_no: 0 },
        ]
    );
    let once = runtime.compose_consignment(contract(), vec![5, 7], OutpointSelection::All).unwrap();
    assert_eq!(composed, once);
    let no_kind = runtime.compose_consignment(contract(), vec![], OutpointSelection::All).unwrap();
    assert!(no_kind.tips.is_empty() && no_kind.anchored_bundles.is_empty());
}

#[test]
fn diamond_is_visited_once() {
    // 20 spends the genesis; 21 and 22 spend 20; 23 (type 7) spends 21 and 22.
    let mut runtime = Runtime::new();
    let c = consignment(vec![
        anchored(witness(20), bundle_of(vec![transition(20, 5, &[genesis_node()])])),
        anchored(
            witness(21),
            bundle_of(vec![
                transition(21, 5, &[NodeId(digest(20))]),
                transition(22, 5, &[NodeId(digest(20))]),
            ]),
        ),
        anchored(
            witness(23),
            bundle_of(vec![transition(23, 7, &[NodeId(digest(21)), NodeId(digest(22))])]),
        ),
    ]);
    assert_eq!(runtime.process_consignment(c, Validity::Valid, false), Ok(Validity::Valid));
    let composed = runtime.compose_consignment(contract(), vec![7], OutpointSelection::All).unwrap();

    let txids: Vec<Txid> = composed.anchored_bundles.iter().map(|ab| ab.anchor.txid).collect();
    assert_eq!(txids, vec![witness(20), witness(21), witness(23)]);
    assert_eq!(
        revealed_ids(&composed.anchored_bundles[1].bundle),
        vec![NodeId(digest(21)), NodeId(digest(22))]
    );
    // One endpoint for each of the four transitions: the grandparent is recorded once.
    assert_eq!(composed.endpoints.len(), 4);
}

#[test]
fn siblings_that_were_not_walked_stay_concealed() {
    // One witness transaction anchors 30 (type 7) and 31, 32 (type 5), all spending the genesis.
    let mut runtime = Runtime::new();
    let c = consignment(vec![anchored(
        witness(30),
        bundle_of(vec![
            transition(31, 5, &[genesis_node()]),
            transition(30, 7, &[genesis_node()]),
            transition(32, 5, &[genesis_node()]),
        ]),
    )]);
    assert_eq!(runtime.process_consignment(c, Validity::Valid, false), Ok(Validity::Valid));
    let composed = runtime.compose_consignment(contract(), vec![7], OutpointSelection::All).unwrap();

    assert_eq!(composed.anchored_bundles.len(), 1);
    let bundle = &composed.anchored_bundles[0].bundle;
    let ids: Vec<NodeId> = bundle.items.iter().map(|i| i.node_id).collect();
    assert_eq!(ids, vec![NodeId(digest(31)), NodeId(digest(30)), NodeId(digest(32))]);
    assert_eq!(bundle.items[0].transition, None);
    assert_eq!(bundle.items[1].transition, Some(transition(30, 7, &[genesis_node()])));
    assert_eq!(bundle.items[2].transition, None);
    assert!(bundle.is_revealed(NodeId(digest(30))));
    assert!(!bundle.is_revealed(NodeId(digest(31))));
    assert!(!bundle.is_revealed(NodeId(digest(99))));
}

#[test]
fn root_schema_is_carried_when_the_schema_names_one() {
    let mut runtime = chain();
    let root = Schema { schema_id: SchemaId(digest(3)), root_id: None };
    let extended = Schema { schema_id: SchemaId(digest(2)), root_id: Some(SchemaId(digest(3))) };
    runtime.stash.schemata.put(digest(2), extended);
    assert_eq!(
        runtime.compose_consignment(contract(), vec![7], OutpointSelection::All),
        Err(StashError::SchemaAbsent(SchemaId(digest(3))))
    );
    runtime.stash.schemata.put(digest(3), root);
    let composed = runtime.compose_consignment(contract(), vec![7], OutpointSelection::All).unwrap();
    assert_eq!(composed.schema, extended);
    assert_eq!(composed.root_schema, Some(root));
}

#[test]
fn missing_pieces_are_named() {
    let all = || OutpointSelection::All;
    let mut runtime = Runtime::new();
    assert_eq!(runtime.compose_consignment(contract(), vec![7], all()), Err(StashError::GenesisAbsent));

    runtime.stash.genesis.put(digest(1), genesis());
    assert_eq!(
        runtime.compose_consignment(contract(), vec![7], all()),
        Err(StashError::SchemaAbsent(SchemaId(digest(2))))
    );

    runtime.stash.schemata.put(digest(2), schema());
    let id = NodeId(digest(40));
    runtime.stash.contract_transitions.insert(IndexEntry {
        contract_id: contract(),
        transition_type: 7,
        node_id: id,
    });
    assert_eq!(
        runtime.compose_consignment(contract(), vec![7], all()),
        Err(StashError::TransitionAbsent(id))
    );

    runtime.stash.transitions.put(digest(40), transition(40, 7, &[genesis_node()]));
    assert_eq!(
        runtime.compose_consignment(contract(), vec![7], all()),
        Err(StashError::TransitionTxidAbsent(id))
    );

    runtime.stash.transition_txid.put(digest(40), witness(40));
    assert_eq!(
        runtime.compose_consignment(contract(), vec![7], all()),
        Err(StashError::AnchorAbsent(witness(40)))
    );

    let other = Leaf { contract_id: ContractId(digest(77)), bundle_id: BundleId(digest(78)) };
    runtime.stash.anchors.put(witness(40).0, AnchorBlock { txid: witness(40), leaves: vec![other] });
    assert_eq!(
        runtime.compose_consignment(contract(), vec![7], all()),
        Err(StashError::BundleAbsent(witness(40)))
    );

    let unrelated = bundle_of(vec![transition(41, 7, &[genesis_node()])]).to_concealed();
    runtime.stash.bundles.put(witness(40).0, unrelated);
    assert_eq!(
        runtime.compose_consignment(contract(), vec![7], all()),
        Err(StashError::UnrelatedAnchor)
    );

    let ours = Leaf { contract_id: contract(), bundle_id: BundleId(digest(79)) };
    runtime.stash.anchors.put(witness(40).0, AnchorBlock { txid: witness(40), leaves: vec![other, ours] });
    assert_eq!(
        runtime.compose_consignment(contract(), vec![7], all()),
        Err(StashError::BundleReveal(RevealError::UnrelatedTransition))
    );

    let bundle = bundle_of(vec![transition(40, 7, &[genesis_node()])]).to_concealed();
    runtime.stash.bundles.put(witness(40).0, bundle);
    let composed = runtime.compose_consignment(contract(), vec![7], all()).unwrap();
    assert_eq!(composed.anchored_bundles[0].anchor, AnchorProof { txid: witness(40), leaf: ours });
}

#[test]
fn a_missing_ancestor_fails_the_closure() {
    let mut runtime = Runtime::new();
    let c = consignment(vec![anchored(
        witness(50),
        bundle_of(vec![transition(50, 7, &[NodeId(digest(49))])]),
    )]);
    assert_eq!(runtime.process_consignment(c, Validity::Valid, false), Ok(Validity::Valid));
    assert_eq!(
        runtime.compose_consignment(contract(), vec![7], select(50)),
        Err(StashError::TransitionAbsent(NodeId(digest(49))))
    );
    // Nothing disclosed: the parent is not needed.
    let nothing = OutpointSelection::Specific(vec![]);
    assert!(runtime.compose_consignment(contract(), vec![7], nothing).is_ok());
}

#[test]
fn anchor_that_does_not_cover_its_bundle_aborts_the_merge() {
    let mut runtime = Runtime::new();
    let bundle = bundle_of(vec![transition(10, 5, &[genesis_node()])]);
    let wrong = Leaf { contract_id: contract(), bundle_id: BundleId(digest(66)) };
    let c = consignment(vec![
        anchored(witness(11), bundle_of(vec![transition(11, 7, &[NodeId(digest(10))])])),
        AnchoredBundle { anchor: AnchorProof { txid: witness(10), leaf: wrong }, bundle },
    ]);
    assert_eq!(
        runtime.process_consignment(c, Validity::Valid, false),
        Err(StashError::UnrelatedAnchor)
    );
    assert!(runtime.stash.schemata.keys().is_empty());
    assert!(runtime.stash.transitions.keys().is_empty());
    assert!(runtime.stash.anchors.keys().is_empty());
    assert!(runtime.stash.contracts.keys().is_empty());
}

fn owned(runtime: &Runtime) -> Vec<OwnedState> {
    let mut owned = runtime.stash.contracts.get(&digest(1)).unwrap().owned.clone();
    owned.sort();
    owned
}

fn chain_consignment() -> Consignment {
    let mut c = consignment(vec![
        anchored(witness(10), bundle_of(vec![transition(10, 5, &[genesis_node()])])),
        anchored(witness(11), bundle_of(vec![transition(11, 7, &[NodeId(digest(10))])])),
    ]);
    c.state_extensions.push(Extension {
        node_id: NodeId(digest(60)),
        assignments: vec![Assignment { ty: 0, output_no: 3, seal: seal(4) }],
    });
    c
}

#[test]
fn state_is_what_is_produced_and_not_spent() {
    let mut runtime = Runtime::new();
    assert_eq!(
        runtime.process_consignment(chain_consignment(), Validity::Valid, false),
        Ok(Validity::Valid)
    );
    let zero = Txid(Digest([0; 32]));
    let mut expected = vec![
        OwnedState {
            outpoint: NodeOutpoint { ty: 0, node_id: NodeId(digest(11)), output_no: 0 },
            seal: OutPoint { txid: witness(11), vout: 11 },
        },
        OwnedState {
            outpoint: NodeOutpoint { ty: 0, node_id: NodeId(digest(60)), output_no: 3 },
            seal: OutPoint { txid: zero, vout: 4 },
        },
    ];
    expected.sort();
    assert_eq!(owned(&runtime), expected);
}

#[test]
fn merging_twice_is_merging_once() {
    let mut runtime = Runtime::new();
    assert_eq!(
        runtime.process_consignment(chain_consignment(), Validity::Valid, false),
        Ok(Validity::Valid)
    );
    let once = owned(&runtime);
    let composed_once = runtime.compose_consignment(contract(), vec![7], select(11)).unwrap();
    assert_eq!(
        runtime.process_consignment(chain_consignment(), Validity::Valid, false),
        Ok(Validity::Valid)
    );
    assert_eq!(owned(&runtime), once);
    assert_eq!(runtime.stash.transitions.keys().len(), 2);
    assert_eq!(runtime.stash.contract_transitions.transitions_by_type(contract(), 7).len(), 1);
    assert_eq!(runtime.stash.anchors.get(&witness(10).0).unwrap().leaves.len(), 1);
    assert_eq!(
        runtime.compose_consignment(contract(), vec![7], select(11)).unwrap(),
        composed_once
    );
}

#[test]
fn anchors_of_one_witness_are_merged_across_contracts() {
    let mut stash = Stash::new();
    let ours = Leaf { contract_id: contract(), bundle_id: BundleId(digest(5)) };
    let theirs = Leaf { contract_id: ContractId(digest(8)), bundle_id: BundleId(digest(6)) };
    let mut block = AnchorBlock { txid: witness(1), leaves: vec![theirs] };
    assert!(block.to_merkle_proof(contract()).is_err());
    block.merge_reveal(&AnchorBlock { txid: witness(1), leaves: vec![ours, theirs] });
    assert_eq!(block.leaves, vec![theirs, ours]);
    assert_eq!(block.to_merkle_proof(contract()), Ok(AnchorProof { txid: witness(1), leaf: ours }));
    stash.anchors.put(witness(1).0, block);
    assert!(stash.anchors.get(&witness(1).0).is_some());

    let proof = AnchorProof { txid: witness(1), leaf: ours };
    assert_eq!(
        proof.into_merkle_block(contract(), BundleId(digest(5))),
        Ok(AnchorBlock { txid: witness(1), leaves: vec![ours] })
    );
    assert!(proof.into_merkle_block(contract(), BundleId(digest(6))).is_err());
    assert!(proof.into_merkle_block(ContractId(digest(8)), BundleId(digest(5))).is_err());
}

#[test]
fn collector_records_one_endpoint_for_each_selected_seal() {
    let runtime = chain();
    let mut collector = Collector::new(contract());
    let tips = collector
        .process(&runtime.stash, &vec![NodeId(digest(11)), NodeId(digest(12))], &select(12))
        .unwrap();
    assert_eq!(tips, vec![NodeOutpoint { ty: 0, node_id: NodeId(digest(12)), output_no: 0 }]);
    assert_eq!(collector.endpoint_inputs, vec![NodeId(digest(11))]);
    assert_eq!(collector.anchored_bundles.len(), 2);
    let bundle_id = collector.anchored_bundles[1].bundle.bundle_id();
    assert_eq!(collector.endpoints, vec![Endpoint { bundle_id, seal: open_endpoint(12) }]);

    // An error leaves what was gathered before the transition that failed.
    let failed = collector.process(
        &runtime.stash,
        &vec![NodeId(digest(10)), NodeId(digest(99)), NodeId(digest(11))],
        &OutpointSelection::All,
    );
    assert_eq!(failed, Err(StashError::TransitionAbsent(NodeId(digest(99)))));
    assert_eq!(collector.anchored_bundles.len(), 3);
    assert_eq!(collector.endpoints.len(), 2);

    let closed = collector.iterate(&runtime.stash).unwrap();
    assert!(closed.endpoint_inputs.is_empty());
    let tips = vec![
        NodeOutpoint { ty: 0, node_id: NodeId(digest(12)), output_no: 0 },
        NodeOutpoint { ty: 0, node_id: NodeId(digest(12)), output_no: 0 },
        NodeOutpoint { ty: 0, node_id: NodeId(digest(10)), output_no: 0 },
    ];
    let made = closed.consignment(schema(), None, genesis(), tips).unwrap();
    assert_eq!(
        made.tips,
        vec![
            NodeOutpoint { ty: 0, node_id: NodeId(digest(12)), output_no: 0 },
            NodeOutpoint { ty: 0, node_id: NodeId(digest(10)), output_no: 0 },
        ]
    );
    assert_eq!(made.anchored_bundles.len(), 3);
}

#[test]
fn merging_twice_keeps_every_table() {
    let mut once = Runtime::new();
    let mut twice = Runtime::new();
    for runtime in [&mut once, &mut twice] {
        assert_eq!(
            runtime.process_consignment(chain_consignment(), Validity::Valid, false),
            Ok(Validity::Valid)
        );
    }
    assert_eq!(
        twice.process_consignment(chain_consignment(), Validity::Valid, false),
        Ok(Validity::Valid)
    );
    let (a, b) = (&once.stash, &twice.stash);
    assert_eq!(a.schemata.keys(), b.schemata.keys());
    assert_eq!(a.genesis.keys(), b.genesis.keys());
    assert_eq!(a.contracts.keys(), b.contracts.keys());
    assert_eq!(a.extensions.keys(), b.extensions.keys());
    assert_eq!(a.contract_transitions.entries(), b.contract_transitions.entries());
    for key in a.transitions.keys() {
        assert_eq!(a.transitions.get(&key), b.transitions.get(&key));
        assert_eq!(a.transition_txid.get(&key), b.transition_txid.get(&key));
    }
    for key in a.anchors.keys() {
        assert_eq!(a.anchors.get(&key), b.anchors.get(&key));
        assert_eq!(a.bundles.get(&key), b.bundles.get(&key));
    }
    assert_eq!(a.anchors.keys().len(), 2);
    assert_eq!(b.bundles.keys().len(), 2);
}

/// Two transitions of type 7 that spend the genesis; the first listed has
/// the later witness transaction.
fn descending() -> Runtime {
    let mut runtime = Runtime::new();
    let c = consignment(vec![
        anchored(Txid(digest(250)), bundle_of(vec![transition(61, 7, &[genesis_node()])])),
        anchored(Txid(digest(240)), bundle_of(vec![transition(62, 7, &[genesis_node()])])),
    ]);
    assert_eq!(runtime.process_consignment(c, Validity::Valid, false), Ok(Validity::Valid));
    runtime
}

#[test]
fn bundles_come_out_by_ascending_witness_transaction() {
    let runtime = descending();
    let composed = runtime.compose_consignment(contract(), vec![7], OutpointSelection::All).unwrap();
    let txids: Vec<Txid> = composed.anchored_bundles.iter().map(|ab| ab.anchor.txid).collect();
    assert_eq!(txids, vec![Txid(digest(240)), Txid(digest(250))]);
    assert_eq!(revealed_ids(&composed.anchored_bundles[0].bundle), vec![NodeId(digest(62))]);
    assert_eq!(revealed_ids(&composed.anchored_bundles[1].bundle), vec![NodeId(digest(61))]);

    let mut collector = Collector::new(contract());
    collector
        .process(&runtime.stash, &vec![NodeId(digest(61)), NodeId(digest(62))], &OutpointSelection::All)
        .unwrap();
    let gathered: Vec<Txid> = collector.anchored_bundles.iter().map(|c| c.txid).collect();
    assert_eq!(gathered, vec![Txid(digest(250)), Txid(digest(240))]);
    let made = collector.consignment(schema(), None, genesis(), vec![]).unwrap();
    let txids: Vec<Txid> = made.anchored_bundles.iter().map(|ab| ab.anchor.txid).collect();
    assert_eq!(txids, vec![Txid(digest(240)), Txid(digest(250))]);
}

#[test]
fn the_first_byte_counts_most_in_the_order() {
    let mut low = [0u8; 32];
    low[31] = 9;
    let mut high = [0u8; 32];
    high[0] = 1;
    assert!(Digest(low).before(&Digest(high)));
    assert!(!Digest(high).before(&Digest(low)));
    assert!(!Digest(low).before(&Digest(low)));
}

#[test]
fn content_in_the_stash_is_not_revealed_unless_walked() {
    let mut runtime = Runtime::new();
    let c = consignment(vec![anchored(
        witness(30),
        bundle_of(vec![transition(30, 7, &[genesis_node()]), transition(31, 5, &[genesis_node()])]),
    )]);
    assert_eq!(runtime.process_consignment(c, Validity::Valid, false), Ok(Validity::Valid));
    let with_content =
        bundle_of(vec![transition(30, 7, &[genesis_node()]), transition(31, 5, &[genesis_node()])]);
    runtime.stash.bundles.put(witness(30).0, with_content);
    let composed = runtime.compose_consignment(contract(), vec![7], OutpointSelection::All).unwrap();
    assert_eq!(revealed_ids(&composed.anchored_bundles[0].bundle), vec![NodeId(digest(30))]);
}

#[test]
fn a_bundle_refuses_other_content_under_a_revealed_id() {
    let t = transition(30, 7, &[genesis_node()]);
    let mut bundle = bundle_of(vec![transition(30, 7, &[genesis_node()])]).to_concealed();
    assert_eq!(bundle.reveal_transition(t.copy()), Ok(true));
    assert_eq!(bundle.reveal_transition(t.copy()), Ok(false));
    let mut other = transition(30, 7, &[genesis_node()]);
    other.assignments.clear();
    assert!(!t.same(&other));
    assert_eq!(bundle.reveal_transition(other), Err(RevealError::UnrelatedTransition));
    assert_eq!(bundle.items[0].transition, Some(t));
    assert_eq!(
        bundle.reveal_transition(transition(31, 7, &[genesis_node()])),
        Err(RevealError::UnrelatedTransition)
    );
}

#[test]
fn outputs_are_told_apart_by_type_and_number() {
    let mut runtime = Runtime::new();
    let mut first = transition(70, 5, &[genesis_node()]);
    first.assignments = vec![
        Assignment { ty: 1, output_no: 0, seal: seal(1) },
        Assignment { ty: 2, output_no: 0, seal: seal(2) },
    ];
    let mut second = transition(71, 5, &[]);
    second.parents = vec![NodeOutpoint { ty: 2, node_id: NodeId(digest(70)), output_no: 0 }];
    let c = consignment(vec![
        anchored(witness(70), bundle_of(vec![first])),
        anchored(witness(71), bundle_of(vec![second])),
    ]);
    assert_eq!(runtime.process_consignment(c, Validity::Valid, false), Ok(Validity::Valid));
    let spent = NodeOutpoint { ty: 2, node_id: NodeId(digest(70)), output_no: 0 };
    let kept = NodeOutpoint { ty: 1, node_id: NodeId(digest(70)), output_no: 0 };
    let owned = owned(&runtime);
    assert!(owned.iter().all(|o| o.outpoint != spent));
    assert!(owned.iter().any(|o| o.outpoint == kept));
}
