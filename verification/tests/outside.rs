use std::collections::{BTreeMap, BTreeSet};

use amplify::Wrapper;
use commit_verify::{CommitConceal, TaggedHash};
use rgb_node::bundle::{BundleItem, Inputs, RevealError, TransitionBundle};
use rgb_node::consignment::Consignment;
use rgb_node::graph::{Genesis, Schema};
use rgb_node::ident::{ContractId, Digest, NodeId, SchemaId, Txid};
use rgb_node::seal::{CloseMethod, RevealedSeal, SealEndpoint};
use rgb_node::{Command, StashError};

fn bytes(n: u8) -> [u8; 32] {
    let mut b = [n; 32];
    b[0] = 0xa5;
    b[31] = n.wrapping_add(1);
    b
}

fn concealed_item(n: u8, inputs: Vec<u16>) -> BundleItem {
    BundleItem { node_id: NodeId(Digest(bytes(n))), inputs: Inputs::new(inputs).unwrap(), transition: None }
}

#[test]
fn seal_over_known_transaction_is_concealed_as_the_protocol_does() {
    let seal = RevealedSeal {
        method: CloseMethod::TapretFirst,
        txid: Some(Txid(Digest(bytes(3)))),
        vout: 6,
        blinding: 0x1122334455667788,
    };
    let expected = rgb::seal::Revealed {
        method: bp::seals::txout::CloseMethod::TapretFirst,
        txid: Some(bitcoin::hashes::Hash::from_inner(bytes(3))),
        vout: 6,
        blinding: 0x1122334455667788,
    }
    .commit_conceal()
    .into_inner();
    let expected: [u8; 32] = bitcoin::hashes::Hash::into_inner(expected);
    assert_eq!(SealEndpoint::from_revealed(&seal), SealEndpoint::ConcealedUtxo(Digest(expected)));
    assert_ne!(expected, bytes(3));
}

#[test]
fn concealment_depends_on_every_field() {
    let seal = RevealedSeal {
        method: CloseMethod::TapretFirst,
        txid: Some(Txid(Digest(bytes(3)))),
        vout: 6,
        blinding: 9,
    };
    let base = SealEndpoint::from_revealed(&seal);
    assert_ne!(base, SealEndpoint::from_revealed(&RevealedSeal { vout: 7, ..seal }));
    assert_ne!(base, SealEndpoint::from_revealed(&RevealedSeal { blinding: 10, ..seal }));
    assert_ne!(
        base,
        SealEndpoint::from_revealed(&RevealedSeal { method: CloseMethod::OpretFirst, ..seal })
    );
    assert_ne!(
        base,
        SealEndpoint::from_revealed(&RevealedSeal { txid: Some(Txid(Digest(bytes(4)))), ..seal })
    );
    assert_eq!(base, SealEndpoint::from_revealed(&seal));
}

#[test]
fn seal_over_the_witness_is_disclosed_in_the_open() {
    let seal = RevealedSeal { method: CloseMethod::OpretFirst, txid: None, vout: 2, blinding: 5 };
    assert_eq!(
        SealEndpoint::from_revealed(&seal),
        SealEndpoint::WitnessVout { method: CloseMethod::OpretFirst, vout: 2, blinding: 5 }
    );
}

#[test]
fn bundle_id_is_the_commitment_of_the_protocol() {
    let bundle = TransitionBundle {
        items: vec![concealed_item(7, vec![0, 2]), concealed_item(5, vec![1])],
    };
    let mut concealed: BTreeMap<rgb::NodeId, BTreeSet<u16>> = BTreeMap::new();
    concealed.insert(rgb::NodeId::from_array(bytes(7)), [0u16, 2].into_iter().collect());
    concealed.insert(rgb::NodeId::from_array(bytes(5)), [1u16].into_iter().collect());
    let expected = rgb::TransitionBundle::try_from(concealed).unwrap().bundle_id();
    let expected: [u8; 32] = bitcoin::hashes::Hash::into_inner(expected.into_inner());
    assert_eq!(bundle.bundle_id().0 .0, expected);
}

#[test]
fn bundle_id_depends_on_ids_and_inputs_only() {
    let bundle = TransitionBundle {
        items: vec![concealed_item(7, vec![0, 2]), concealed_item(5, vec![1])],
    };
    let other_inputs = TransitionBundle {
        items: vec![concealed_item(7, vec![0, 3]), concealed_item(5, vec![1])],
    };
    let other_ids = TransitionBundle {
        items: vec![concealed_item(8, vec![0, 2]), concealed_item(5, vec![1])],
    };
    assert_ne!(bundle.bundle_id(), other_inputs.bundle_id());
    assert_ne!(bundle.bundle_id(), other_ids.bundle_id());
    assert_eq!(bundle.bundle_id(), bundle.copy().bundle_id());
    assert_eq!(bundle.bundle_id(), bundle.to_concealed().bundle_id());
}

#[test]
fn inputs_are_bounded() {
    assert_eq!(Inputs::new(vec![1, 2]).unwrap().to_vec(), vec![1, 2]);
    assert!(Inputs::new(vec![1, 1]).is_none());
    assert!(Inputs::new(vec![2, 1]).is_none());
    assert!(Inputs::new((0..=0xFFFFu16).collect()).is_none());
    let every: Vec<u16> = (0..0xFFFFu16).collect();
    assert!(Inputs::new(every.clone()).is_some());
    let bundle = TransitionBundle { items: vec![concealed_item(7, every)] };
    assert_eq!(bundle.bundle_id(), bundle.copy().bundle_id());
}

#[test]
fn empty_bundle_has_an_id() {
    let empty = TransitionBundle { items: vec![] };
    assert_eq!(empty.bundle_id(), empty.copy().bundle_id());
    let expected: [u8; 32] =
        bitcoin::hashes::Hash::into_inner(rgb::TransitionBundle::default().bundle_id().into_inner());
    assert_eq!(empty.bundle_id().0 .0, expected);
}

#[test]
fn repeated_ids_count_once_in_the_bundle_id() {
    let bundle = TransitionBundle {
        items: vec![concealed_item(7, vec![0, 2]), concealed_item(5, vec![1])],
    };
    let repeated = TransitionBundle {
        items: vec![
            concealed_item(7, vec![0, 2]),
            concealed_item(5, vec![1]),
            concealed_item(7, vec![9]),
        ],
    };
    assert_eq!(bundle.bundle_id(), repeated.bundle_id());
}

#[test]
fn errors_are_worded_with_the_ids_as_the_protocol_writes_them() {
    let node = rgb::NodeId::from_array(bytes(4)).to_string();
    let txid: bitcoin::Txid = bitcoin::hashes::Hash::from_inner(bytes(5));
    let schema = rgb::SchemaId::from_array(bytes(6)).to_string();
    assert!(schema.starts_with("rgbsh1"));
    assert_eq!(
        StashError::GenesisAbsent.message(),
        "contract is unknown. Probably you haven't imported the contract yet."
    );
    assert_eq!(
        StashError::SchemaAbsent(SchemaId(Digest(bytes(6)))).message(),
        format!("schema {} is unknown.", schema)
    );
    assert_eq!(
        StashError::TransitionAbsent(NodeId(Digest(bytes(4)))).message(),
        format!("transition {} is absent.", node)
    );
    assert_eq!(
        StashError::TransitionTxidAbsent(NodeId(Digest(bytes(4)))).message(),
        format!("witness Txid is not known for transition {}", node)
    );
    assert_eq!(
        StashError::AnchorAbsent(Txid(Digest(bytes(5)))).message(),
        format!("anchor for txid {} is absent", txid)
    );
    assert_eq!(
        StashError::BundleAbsent(Txid(Digest(bytes(5)))).message(),
        format!("bundle data for txid {} is absent", txid)
    );
    assert_eq!(
        StashError::UnrelatedAnchor.message(),
        "the anchor is not related to the contract"
    );
    assert_eq!(
        StashError::BundleReveal(RevealError::UnrelatedTransition).message(),
        rgb::bundle::RevealError::UnrelatedTransition.to_string()
    );
    assert_eq!(
        StashError::OutsizedBundle.message(),
        "the resulting bundle size exceeds consensus restrictions"
    );
}

#[test]
fn contract_id_is_written_in_bech32() {
    let id = ContractId(Digest(bytes(1)));
    let text = id.to_text();
    assert_eq!(text, rgb::ContractId::from_array(bytes(1)).to_string());
    assert!(text.starts_with("rgb1"));
    assert_ne!(text, ContractId(Digest(bytes(2))).to_text());
}

#[test]
fn action_strings() {
    let id = ContractId(Digest(bytes(1)));
    let text = id.to_text();
    assert_eq!(Command::Contracts.action_string(), "Listring contracts");
    assert_eq!(
        Command::State { contract_id: id }.action_string(),
        format!("Quering state of {}", text)
    );
    assert_eq!(
        Command::Contract { contract_id: id }.action_string(),
        format!("Retrieving contract source for {}", text)
    );
    let contract = Consignment {
        schema: Schema { schema_id: SchemaId(Digest(bytes(9))), root_id: None },
        root_schema: None,
        genesis: Genesis { contract_id: id, schema_id: SchemaId(Digest(bytes(9))), assignments: vec![] },
        tips: vec![],
        endpoints: vec![],
        anchored_bundles: vec![],
        state_extensions: vec![],
    };
    assert_eq!(
        Command::Register { contract }.action_string(),
        format!("Registering contract {}", text)
    );
}
