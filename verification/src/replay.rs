//! Merging a consignment a second time: the state of the contract stays
//! what the first merge made it.

use vstd::prelude::*;
use crate::bundle::ItemView;
use crate::consignment::{AnchoredBundleView, ConsignmentView};
use crate::graph::{Assignment, ExtensionView};
use crate::ident::{ContractId, NodeId, NodeOutpoint, Txid};
use crate::ingest::{
    ingested, merge_bundles, merge_extensions, merge_items, starting_state, with_header, Merge,
};
use crate::stash::StashView;
use crate::state::{produces, zero_txid, ContractStateView, OwnedState};

verus! {

/// What folding a node does to the owned output `x`: `Some(true)` where the
/// node produces it, `Some(false)` where the node spends it, `None` where
/// the node leaves it as it is.
pub open spec fn node_fate(
    node_id: NodeId,
    txid: Txid,
    parents: Seq<NodeOutpoint>,
    assignments: Seq<Assignment>,
    x: OwnedState,
) -> Option<bool> {
    if produces(node_id, txid, assignments, x) {
        Some(true)
    } else if parents.contains(x.outpoint) {
        Some(false)
    } else {
        None
    }
}

/// What the last of `first` and `then` that touches an output does to it.
pub open spec fn later(first: Option<bool>, then: Option<bool>) -> Option<bool> {
    match then {
        Some(b) => Some(b),
        None => first,
    }
}

/// What folding the revealed transitions of a bundle does to `x`.
pub open spec fn items_fate(txid: Txid, items: Seq<ItemView>, x: OwnedState) -> Option<bool>
    decreases items.len(),
{
    if items.len() == 0 {
        None
    } else {
        later(
            items_fate(txid, items.drop_last(), x),
            match items.last().transition {
                Some(t) => node_fate(t.node_id, txid, t.parents, t.assignments, x),
                None => None,
            },
        )
    }
}

/// What folding the anchored bundles does to `x`.
pub open spec fn bundles_fate(bundles: Seq<AnchoredBundleView>, x: OwnedState) -> Option<bool>
    decreases bundles.len(),
{
    if bundles.len() == 0 {
        None
    } else {
        later(
            bundles_fate(bundles.drop_last(), x),
            items_fate(bundles.last().anchor.txid, bundles.last().bundle, x),
        )
    }
}

/// What folding the extensions does to `x`.
pub open spec fn extensions_fate(extensions: Seq<ExtensionView>, x: OwnedState) -> Option<bool>
    decreases extensions.len(),
{
    if extensions.len() == 0 {
        None
    } else {
        later(
            extensions_fate(extensions.drop_last(), x),
            node_fate(
                extensions.last().node_id,
                zero_txid(),
                Seq::empty(),
                extensions.last().assignments,
                x,
            ),
        )
    }
}

/// What folding every node of a consignment does to `x`.
pub open spec fn fate(c: ConsignmentView, x: OwnedState) -> Option<bool> {
    later(bundles_fate(c.anchored_bundles, x), extensions_fate(c.state_extensions, x))
}

/// Whether `x` is owned after a fold that does `fate` to it.
pub open spec fn owned_after(before: ContractStateView, fate: Option<bool>, x: OwnedState) -> bool {
    match fate {
        Some(b) => b,
        None => before.owned.contains(x),
    }
}

proof fn lemma_items(m: Merge, contract_id: ContractId, txid: Txid, items: Seq<ItemView>)
    ensures
        merge_items(m, contract_id, txid, items).state.contract_id == m.state.contract_id,
        merge_items(m, contract_id, txid, items).stash.contracts == m.stash.contracts,
        forall|x: OwnedState|
            merge_items(m, contract_id, txid, items).state.owned.contains(x) == owned_after(
                m.state,
                items_fate(txid, items, x),
                x,
            ),
    decreases items.len(),
{
    if items.len() > 0 {
        lemma_items(m, contract_id, txid, items.drop_last());
    }
}

proof fn lemma_bundles(m: Merge, contract_id: ContractId, bundles: Seq<AnchoredBundleView>)
    ensures
        merge_bundles(m, contract_id, bundles).state.contract_id == m.state.contract_id,
        merge_bundles(m, contract_id, bundles).stash.contracts == m.stash.contracts,
        forall|x: OwnedState|
            merge_bundles(m, contract_id, bundles).state.owned.contains(x) == owned_after(
                m.state,
                bundles_fate(bundles, x),
                x,
            ),
    decreases bundles.len(),
{
    if bundles.len() > 0 {
        lemma_bundles(m, contract_id, bundles.drop_last());
        let prev = merge_bundles(m, contract_id, bundles.drop_last());
        let ab = bundles.last();
        let anchored = Merge {
            stash: StashView {
                anchors: prev.stash.anchors.insert(
                    ab.anchor.txid.0,
                    if prev.stash.anchors.contains_key(ab.anchor.txid.0) {
                        prev.stash.anchors[ab.anchor.txid.0].merged(crate::ingest::block_of(ab))
                    } else {
                        crate::ingest::block_of(ab)
                    },
                ),
                ..prev.stash
            },
            state: prev.state,
        };
        lemma_items(anchored, contract_id, ab.anchor.txid, ab.bundle);
    }
}

proof fn lemma_extensions(m: Merge, extensions: Seq<ExtensionView>)
    ensures
        merge_extensions(m, extensions).state.contract_id == m.state.contract_id,
        merge_extensions(m, extensions).stash.contracts == m.stash.contracts,
        forall|x: OwnedState|
            merge_extensions(m, extensions).state.owned.contains(x) == owned_after(
                m.state,
                extensions_fate(extensions, x),
                x,
            ),
    decreases extensions.len(),
{
    if extensions.len() > 0 {
        lemma_extensions(m, extensions.drop_last());
    }
}

/// After a consignment is merged, an output is owned where the last node
/// of the consignment that touches it produces it, or where no node of the
/// consignment touches it and it was owned in the state the fold started
/// from.
pub proof fn lemma_state_after(stash: StashView, c: ConsignmentView)
    ensures
        ingested(stash, c).contracts.contains_key(c.genesis.contract_id.0),
        ingested(stash, c).contracts[c.genesis.contract_id.0].contract_id == starting_state(
            stash,
            c,
        ).contract_id,
        forall|x: OwnedState|
            ingested(stash, c).contracts[c.genesis.contract_id.0].owned.contains(x)
                == owned_after(starting_state(stash, c), fate(c, x), x),
{
    let start = Merge { stash: with_header(stash, c), state: starting_state(stash, c) };
    lemma_bundles(start, c.genesis.contract_id, c.anchored_bundles);
    lemma_extensions(
        merge_bundles(start, c.genesis.contract_id, c.anchored_bundles),
        c.state_extensions,
    );
}

/// Merging a consignment a second time leaves the state of its contract
/// as the first merge made it.
pub proof fn lemma_replay_keeps_state(stash: StashView, c: ConsignmentView)
    ensures
        ingested(ingested(stash, c), c).contracts[c.genesis.contract_id.0] == ingested(
            stash,
            c,
        ).contracts[c.genesis.contract_id.0],
{
    let once = ingested(stash, c);
    let twice = ingested(once, c);
    let key = c.genesis.contract_id.0;
    lemma_state_after(stash, c);
    lemma_state_after(once, c);
    assert(starting_state(once, c) == once.contracts[key]);
    assert(twice.contracts[key].owned =~= once.contracts[key].owned);
}

} // verus!
