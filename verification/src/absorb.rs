//! Merging a consignment a second time: the whole stash stays what the
//! first merge made it.

use vstd::prelude::*;
use crate::anchor::{leaf_contracts, with_leaf, with_leaves, AnchorBlockView, Leaf};
use crate::bundle::{concealed, ItemView};
use crate::consignment::{AnchoredBundleView, ConsignmentView};
use crate::graph::{ExtensionView, TransitionView};
use crate::ident::{ContractId, Digest, Txid};
use crate::ingest::{
    block_of, ingested, merge_bundles, merge_extensions, merge_items, starting_state, with_header,
    Merge,
};
use crate::lookup::{first_index, is_first, lemma_first_found, lemma_first_index};
use crate::replay::lemma_replay_keeps_state;
use crate::stash::StashView;
use crate::table::{indexed, IndexEntry};

verus! {

/// Whether a revealed transition of `items` is kept under `k`.
pub open spec fn items_write(items: Seq<ItemView>, k: Digest) -> bool
    decreases items.len(),
{
    if items.len() == 0 {
        false
    } else {
        items_write(items.drop_last(), k) || match items.last().transition {
            Some(t) => t.node_id.0 == k,
            None => false,
        }
    }
}

/// The first revealed transition of `items` that is kept under `k`.
pub open spec fn items_first(items: Seq<ItemView>, k: Digest) -> Option<TransitionView>
    decreases items.len(),
{
    if items.len() == 0 {
        None
    } else {
        match items_first(items.drop_last(), k) {
            Some(t) => Some(t),
            None => match items.last().transition {
                Some(t) => if t.node_id.0 == k {
                    Some(t)
                } else {
                    None
                },
                None => None,
            },
        }
    }
}

/// The index entry of a revealed transition.
pub open spec fn entry_of(contract_id: ContractId, t: TransitionView) -> IndexEntry {
    IndexEntry { contract_id, transition_type: t.transition_type, node_id: t.node_id }
}

/// The index lists every revealed transition of `items`.
pub open spec fn items_listed(
    index: Seq<IndexEntry>,
    contract_id: ContractId,
    items: Seq<ItemView>,
) -> bool {
    forall|j: int|
        0 <= j < items.len() && (#[trigger] items[j]).transition is Some ==> index.contains(
            entry_of(contract_id, items[j].transition->Some_0),
        )
}

/// The witness transaction that the last bundle with a revealed transition
/// kept under `k` records for it.
pub open spec fn bundles_witness(bundles: Seq<AnchoredBundleView>, k: Digest) -> Option<Txid>
    decreases bundles.len(),
{
    if bundles.len() == 0 {
        None
    } else if items_write(bundles.last().bundle, k) {
        Some(bundles.last().anchor.txid)
    } else {
        bundles_witness(bundles.drop_last(), k)
    }
}

/// The first revealed transition of the bundles that is kept under `k`.
pub open spec fn bundles_first(bundles: Seq<AnchoredBundleView>, k: Digest) -> Option<
    TransitionView,
>
    decreases bundles.len(),
{
    if bundles.len() == 0 {
        None
    } else {
        match bundles_first(bundles.drop_last(), k) {
            Some(t) => Some(t),
            None => items_first(bundles.last().bundle, k),
        }
    }
}

/// The bundle that the last anchored bundle of the witness transaction `k`
/// leaves in the stash.
pub open spec fn bundles_kept(bundles: Seq<AnchoredBundleView>, k: Digest) -> Option<Seq<ItemView>>
    decreases bundles.len(),
{
    if bundles.len() == 0 {
        None
    } else if bundles.last().anchor.txid.0 == k {
        Some(concealed(bundles.last().bundle))
    } else {
        bundles_kept(bundles.drop_last(), k)
    }
}

/// The first extension that is kept under `k`.
pub open spec fn extensions_first(extensions: Seq<ExtensionView>, k: Digest) -> Option<
    ExtensionView,
>
    decreases extensions.len(),
{
    if extensions.len() == 0 {
        None
    } else {
        match extensions_first(extensions.drop_last(), k) {
            Some(e) => Some(e),
            None => if extensions.last().node_id.0 == k {
                Some(extensions.last())
            } else {
                None
            },
        }
    }
}

/// The anchors know, for the witness transaction of `ab`, a commitment
/// under the contract of its leaf.
pub open spec fn anchored(anchors: Map<Digest, AnchorBlockView>, ab: AnchoredBundleView) -> bool {
    &&& anchors.contains_key(ab.anchor.txid.0)
    &&& first_index(
        leaf_contracts(anchors[ab.anchor.txid.0].leaves),
        ab.anchor.leaf.contract_id,
    ) is Some
}

/// The anchors know a commitment for each of the bundles.
pub open spec fn all_anchored(
    anchors: Map<Digest, AnchorBlockView>,
    bundles: Seq<AnchoredBundleView>,
) -> bool {
    forall|j: int| 0 <= j < bundles.len() ==> anchored(anchors, #[trigger] bundles[j])
}

/// The index lists every revealed transition of the bundles.
pub open spec fn all_listed(
    index: Seq<IndexEntry>,
    contract_id: ContractId,
    bundles: Seq<AnchoredBundleView>,
) -> bool {
    forall|j: int|
        0 <= j < bundles.len() ==> items_listed(index, contract_id, (#[trigger] bundles[j]).bundle)
}

proof fn lemma_indexed(index: Seq<IndexEntry>, entry: IndexEntry)
    ensures
        indexed(index, entry).contains(entry),
        forall|e: IndexEntry| index.contains(e) ==> indexed(index, entry).contains(e),
{
    let next = indexed(index, entry);
    if !index.contains(entry) {
        assert(next[index.len() as int] == entry);
    }
    assert forall|e: IndexEntry| index.contains(e) implies next.contains(e) by {
        let m = choose|m: int| 0 <= m < index.len() && index[m] == e;
        assert(next[m] == e);
    }
}

/// What merging the revealed transitions of a bundle does to each table.
proof fn lemma_items_tables(m: Merge, contract_id: ContractId, txid: Txid, items: Seq<ItemView>)
    ensures
        ({
            let r = merge_items(m, contract_id, txid, items).stash;
            &&& r.schemata == m.stash.schemata
            &&& r.genesis == m.stash.genesis
            &&& r.anchors == m.stash.anchors
            &&& r.bundles == m.stash.bundles
            &&& r.extensions == m.stash.extensions
            &&& r.contracts == m.stash.contracts
            &&& forall|k: Digest|
                #![trigger r.transitions.contains_key(k)]
                r.transitions.contains_key(k) == (m.stash.transitions.contains_key(k)
                    || items_first(items, k) is Some)
            &&& forall|k: Digest|
                #![trigger r.transitions[k]]
                r.transitions.contains_key(k) ==> r.transitions[k] == if m.stash.transitions.contains_key(
                    k,
                ) {
                    m.stash.transitions[k]
                } else {
                    items_first(items, k)->Some_0
                }
            &&& forall|k: Digest|
                #![trigger r.transition_txid.contains_key(k)]
                r.transition_txid.contains_key(k) == (m.stash.transition_txid.contains_key(k)
                    || items_write(items, k))
            &&& forall|k: Digest|
                #![trigger r.transition_txid[k]]
                r.transition_txid.contains_key(k) ==> r.transition_txid[k] == if items_write(
                    items,
                    k,
                ) {
                    txid
                } else {
                    m.stash.transition_txid[k]
                }
            &&& forall|e: IndexEntry|
                #![trigger r.contract_transitions.contains(e)]
                m.stash.contract_transitions.contains(e) ==> r.contract_transitions.contains(e)
            &&& items_listed(r.contract_transitions, contract_id, items)
            &&& items_listed(m.stash.contract_transitions, contract_id, items)
                ==> r.contract_transitions == m.stash.contract_transitions
        }),
    decreases items.len(),
{
    if items.len() > 0 {
        let front = items.drop_last();
        lemma_items_tables(m, contract_id, txid, front);
        let prev = merge_items(m, contract_id, txid, front).stash;
        let r = merge_items(m, contract_id, txid, items).stash;
        match items.last().transition {
            Some(t) => {
                lemma_indexed(prev.contract_transitions, entry_of(contract_id, t));
            },
            None => {},
        }
        assert forall|e: IndexEntry|
            m.stash.contract_transitions.contains(e) implies #[trigger] r.contract_transitions.contains(
            e,
        ) by {
            assert(prev.contract_transitions.contains(e));
        }
        assert forall|j: int|
            0 <= j < items.len() && (#[trigger] items[j]).transition is Some implies r.contract_transitions.contains(
            entry_of(contract_id, items[j].transition->Some_0),
        ) by {
            if j < front.len() {
                assert(front[j] == items[j]);
            }
        }
        if items_listed(m.stash.contract_transitions, contract_id, items) {
            assert forall|j: int|
                0 <= j < front.len() && (#[trigger] front[j]).transition
                    is Some implies m.stash.contract_transitions.contains(
                entry_of(contract_id, front[j].transition->Some_0),
            ) by {
                assert(front[j] == items[j]);
            }
            assert(items[items.len() - 1] == items.last());
        }
    }
}

proof fn lemma_with_leaf_keeps(leaves: Seq<Leaf>, leaf: Leaf, contract_id: ContractId)
    ensures
        first_index(leaf_contracts(with_leaf(leaves, leaf)), leaf.contract_id) is Some,
        first_index(leaf_contracts(leaves), contract_id) is Some ==> first_index(
            leaf_contracts(with_leaf(leaves, leaf)),
            contract_id,
        ) is Some,
        first_index(leaf_contracts(leaves), leaf.contract_id) is Some ==> with_leaf(leaves, leaf)
            == leaves,
{
    let keys = leaf_contracts(leaves);
    let next = leaf_contracts(with_leaf(leaves, leaf));
    lemma_first_index(keys, leaf.contract_id);
    lemma_first_index(keys, contract_id);
    if first_index(keys, leaf.contract_id) is None {
        assert(next =~= keys.push(leaf.contract_id));
        assert(is_first(next, leaf.contract_id, keys.len() as int));
        lemma_first_found(next, leaf.contract_id, keys.len() as int);
        if first_index(keys, contract_id) is Some {
            let i = first_index(keys, contract_id)->Some_0;
            assert(is_first(next, contract_id, i));
            lemma_first_found(next, contract_id, i);
        }
    }
}

/// The anchors after the anchor of `ab` is joined to them.
pub open spec fn anchors_with(
    anchors: Map<Digest, AnchorBlockView>,
    ab: AnchoredBundleView,
) -> Map<Digest, AnchorBlockView> {
    anchors.insert(
        ab.anchor.txid.0,
        if anchors.contains_key(ab.anchor.txid.0) {
            anchors[ab.anchor.txid.0].merged(block_of(ab))
        } else {
            block_of(ab)
        },
    )
}

proof fn lemma_anchors_with(
    anchors: Map<Digest, AnchorBlockView>,
    ab: AnchoredBundleView,
    other: AnchoredBundleView,
)
    ensures
        anchored(anchors_with(anchors, ab), ab),
        anchored(anchors, other) ==> anchored(anchors_with(anchors, ab), other),
        anchored(anchors, ab) ==> anchors_with(anchors, ab) == anchors,
{
    let key = ab.anchor.txid.0;
    let leaf = ab.anchor.leaf;
    assert(block_of(ab).leaves.drop_last() =~= Seq::<Leaf>::empty());
    assert(block_of(ab).leaves.last() == leaf);
    if anchors.contains_key(key) {
        let old = anchors[key].leaves;
        assert(with_leaves(old, block_of(ab).leaves) == with_leaf(old, leaf)) by {
            reveal_with_fuel(with_leaves, 2);
        }
        lemma_with_leaf_keeps(old, leaf, leaf.contract_id);
        lemma_with_leaf_keeps(old, leaf, other.anchor.leaf.contract_id);
        if anchored(anchors, ab) {
            assert(anchors_with(anchors, ab) =~= anchors);
        }
    } else {
        let keys = leaf_contracts(block_of(ab).leaves);
        assert(is_first(keys, leaf.contract_id, 0));
        lemma_first_found(keys, leaf.contract_id, 0);
    }
}

/// What merging the anchored bundles does to each table.
proof fn lemma_bundles_tables(m: Merge, contract_id: ContractId, bundles: Seq<AnchoredBundleView>)
    ensures
        ({
            let r = merge_bundles(m, contract_id, bundles).stash;
            &&& r.schemata == m.stash.schemata
            &&& r.genesis == m.stash.genesis
            &&& r.extensions == m.stash.extensions
            &&& r.contracts == m.stash.contracts
            &&& forall|k: Digest|
                #![trigger r.transitions.contains_key(k)]
                r.transitions.contains_key(k) == (m.stash.transitions.contains_key(k)
                    || bundles_first(bundles, k) is Some)
            &&& forall|k: Digest|
                #![trigger r.transitions[k]]
                r.transitions.contains_key(k) ==> r.transitions[k] == if m.stash.transitions.contains_key(
                    k,
                ) {
                    m.stash.transitions[k]
                } else {
                    bundles_first(bundles, k)->Some_0
                }
            &&& forall|k: Digest|
                #![trigger r.transition_txid.contains_key(k)]
                r.transition_txid.contains_key(k) == (m.stash.transition_txid.contains_key(k)
                    || bundles_witness(bundles, k) is Some)
            &&& forall|k: Digest|
                #![trigger r.transition_txid[k]]
                r.transition_txid.contains_key(k) ==> r.transition_txid[k] == match bundles_witness(
                    bundles,
                    k,
                ) {
                    Some(txid) => txid,
                    None => m.stash.transition_txid[k],
                }
            &&& forall|k: Digest|
                #![trigger r.bundles.contains_key(k)]
                r.bundles.contains_key(k) == (m.stash.bundles.contains_key(k) || bundles_kept(
                    bundles,
                    k,
                ) is Some)
            &&& forall|k: Digest|
                #![trigger r.bundles[k]]
                r.bundles.contains_key(k) ==> r.bundles[k] == match bundles_kept(bundles, k) {
                    Some(kept) => kept,
                    None => m.stash.bundles[k],
                }
            &&& forall|e: IndexEntry|
                #![trigger r.contract_transitions.contains(e)]
                m.stash.contract_transitions.contains(e) ==> r.contract_transitions.contains(e)
            &&& all_listed(r.contract_transitions, contract_id, bundles)
            &&& all_listed(m.stash.contract_transitions, contract_id, bundles)
                ==> r.contract_transitions == m.stash.contract_transitions
            &&& forall|other: AnchoredBundleView|
                #![trigger anchored(r.anchors, other)]
                anchored(m.stash.anchors, other) ==> anchored(r.anchors, other)
            &&& all_anchored(r.anchors, bundles)
            &&& all_anchored(m.stash.anchors, bundles) ==> r.anchors == m.stash.anchors
        }),
    decreases bundles.len(),
{
    if bundles.len() > 0 {
        let front = bundles.drop_last();
        let ab = bundles.last();
        lemma_bundles_tables(m, contract_id, front);
        let prev = merge_bundles(m, contract_id, front);
        let start = Merge {
            stash: StashView { anchors: anchors_with(prev.stash.anchors, ab), ..prev.stash },
            state: prev.state,
        };
        lemma_items_tables(start, contract_id, ab.anchor.txid, ab.bundle);
        let r = merge_bundles(m, contract_id, bundles).stash;
        lemma_anchors_with(prev.stash.anchors, ab, ab);
        assert forall|e: IndexEntry|
            m.stash.contract_transitions.contains(e) implies #[trigger] r.contract_transitions.contains(
            e,
        ) by {
            assert(prev.stash.contract_transitions.contains(e));
            assert(start.stash.contract_transitions.contains(e));
        }
        assert forall|other: AnchoredBundleView|
            anchored(m.stash.anchors, other) implies #[trigger] anchored(r.anchors, other) by {
            lemma_anchors_with(prev.stash.anchors, ab, other);
        }
        assert forall|j: int| 0 <= j < bundles.len() implies anchored(
            r.anchors,
            #[trigger] bundles[j],
        ) by {
            if j < front.len() {
                assert(front[j] == bundles[j]);
                lemma_anchors_with(prev.stash.anchors, ab, front[j]);
            }
        }
        assert forall|j: int| 0 <= j < bundles.len() implies items_listed(
            r.contract_transitions,
            contract_id,
            (#[trigger] bundles[j]).bundle,
        ) by {
            if j < front.len() {
                assert(front[j] == bundles[j]);
                assert(items_listed(prev.stash.contract_transitions, contract_id, front[j].bundle));
            }
        }
        if all_listed(m.stash.contract_transitions, contract_id, bundles) {
            assert forall|j: int| 0 <= j < front.len() implies items_listed(
                m.stash.contract_transitions,
                contract_id,
                (#[trigger] front[j]).bundle,
            ) by {
                assert(front[j] == bundles[j]);
            }
            assert(bundles[bundles.len() - 1] == ab);
        }
        if all_anchored(m.stash.anchors, bundles) {
            assert forall|j: int| 0 <= j < front.len() implies anchored(
                m.stash.anchors,
                #[trigger] front[j],
            ) by {
                assert(front[j] == bundles[j]);
            }
            assert(bundles[bundles.len() - 1] == ab);
        }
    }
}

/// What merging the extensions does to each table.
proof fn lemma_extensions_tables(m: Merge, extensions: Seq<ExtensionView>)
    ensures
        ({
            let r = merge_extensions(m, extensions).stash;
            &&& r.schemata == m.stash.schemata
            &&& r.genesis == m.stash.genesis
            &&& r.anchors == m.stash.anchors
            &&& r.bundles == m.stash.bundles
            &&& r.transitions == m.stash.transitions
            &&& r.transition_txid == m.stash.transition_txid
            &&& r.contract_transitions == m.stash.contract_transitions
            &&& r.contracts == m.stash.contracts
            &&& forall|k: Digest|
                #![trigger r.extensions.contains_key(k)]
                r.extensions.contains_key(k) == (m.stash.extensions.contains_key(k)
                    || extensions_first(extensions, k) is Some)
            &&& forall|k: Digest|
                #![trigger r.extensions[k]]
                r.extensions.contains_key(k) ==> r.extensions[k] == if m.stash.extensions.contains_key(
                    k,
                ) {
                    m.stash.extensions[k]
                } else {
                    extensions_first(extensions, k)->Some_0
                }
        }),
    decreases extensions.len(),
{
    if extensions.len() > 0 {
        lemma_extensions_tables(m, extensions.drop_last());
    }
}

/// Merging a consignment a second time leaves the whole stash as the
/// first merge made it.
pub proof fn lemma_replay_keeps_stash(stash: StashView, c: ConsignmentView)
    ensures
        ingested(ingested(stash, c), c) == ingested(stash, c),
{
    let contract_id = c.genesis.contract_id;
    let once = ingested(stash, c);
    let twice = ingested(once, c);
    let first = Merge { stash: with_header(stash, c), state: starting_state(stash, c) };
    let second = Merge { stash: with_header(once, c), state: starting_state(once, c) };
    lemma_bundles_tables(first, contract_id, c.anchored_bundles);
    lemma_extensions_tables(
        merge_bundles(first, contract_id, c.anchored_bundles),
        c.state_extensions,
    );
    lemma_bundles_tables(second, contract_id, c.anchored_bundles);
    lemma_extensions_tables(
        merge_bundles(second, contract_id, c.anchored_bundles),
        c.state_extensions,
    );
    lemma_replay_keeps_state(stash, c);
    assert(twice.schemata =~= once.schemata);
    assert(twice.genesis =~= once.genesis);
    assert(twice.anchors =~= once.anchors);
    assert(twice.bundles =~= once.bundles);
    assert(twice.transitions =~= once.transitions);
    assert(twice.transition_txid =~= once.transition_txid);
    assert(twice.extensions =~= once.extensions);
    assert(twice.contract_transitions =~= once.contract_transitions);
    assert(twice.contracts =~= once.contracts);
}

} // verus!
