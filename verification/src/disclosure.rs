//! Which endpoints a composed consignment discloses.

use vstd::prelude::*;
use crate::bundle::{concealed, concealed_form, lemma_reveal_keeps_commitment, TransitionBundle};
use crate::collector::{
    cached_txids, closed, disclosed, endpoints_of, fresh_ids, genesis_node, lemma_round_shrinks,
    unseen, visited, walked, with_bundle, Collector, CollectorView,
};
use crate::compose::{
    closure, composed, forward, forward_ids, forward_list, lemma_ordered, ordered,
};
use crate::consignment::Endpoint;
use crate::graph::Assignment;
use crate::ident::{ContractId, NodeId, Txid};
use crate::lookup::lemma_first_index;
use crate::seal::SealEndpoint;
use crate::selection::OutpointSelection;
use crate::stash::StashView;
use crate::table::{ids_of_type, IndexEntry};

verus! {

/// The endpoints that a visit of the transition `id` records: one for each
/// of its assignments that the selection covers, in order.
pub open spec fn recorded_at(stash: StashView, id: NodeId, selection: OutpointSelection) -> Seq<
    Endpoint,
> {
    let t = stash.transitions[id.0];
    let txid = stash.transition_txid[id.0];
    endpoints_of(
        TransitionBundle::spec_bundle_id(stash.bundles[txid.0]),
        disclosed(t.assignments, txid, selection),
    )
}

/// The endpoints that visits of `ids` record, in order.
pub open spec fn recorded(stash: StashView, ids: Seq<NodeId>, selection: OutpointSelection) -> Seq<
    Endpoint,
>
    decreases ids.len(),
{
    if ids.len() == 0 {
        Seq::empty()
    } else {
        recorded(stash, ids.drop_last(), selection) + recorded_at(stash, ids.last(), selection)
    }
}

/// Every gathered bundle commits to what the bundle kept in the stash for
/// its witness transaction commits to.
pub open spec fn faithful(c: CollectorView, stash: StashView) -> bool {
    forall|i: int|
        0 <= i < c.anchored_bundles.len() ==> {
            let cached = #[trigger] c.anchored_bundles[i];
            &&& stash.bundles.contains_key(cached.txid.0)
            &&& concealed_form(cached.bundle) == concealed_form(stash.bundles[cached.txid.0])
        }
}

/// The assignment `k` of the transition `id` is covered by the selection,
/// and `e` is the endpoint that discloses it.
pub open spec fn discloses(
    stash: StashView,
    selection: OutpointSelection,
    id: NodeId,
    k: int,
    e: Endpoint,
) -> bool {
    let t = stash.transitions[id.0];
    let txid = stash.transition_txid[id.0];
    &&& 0 <= k < t.assignments.len()
    &&& selection.selects(t.assignments[k].seal.spec_outpoint_or(txid))
    &&& e == Endpoint {
        bundle_id: TransitionBundle::spec_bundle_id(stash.bundles[txid.0]),
        seal: SealEndpoint::of(t.assignments[k].seal),
    }
}

/// The assignment `k` of the transition `ids[j]` is covered by the
/// selection, and `e` is the endpoint that discloses it.
pub open spec fn discloses_in(
    stash: StashView,
    selection: OutpointSelection,
    ids: Seq<NodeId>,
    j: int,
    k: int,
    e: Endpoint,
) -> bool {
    0 <= j < ids.len() && discloses(stash, selection, ids[j], k, e)
}

/// The assignment `k` of the transition `id`, which the index lists for the
/// contract under the type `kind`, one of `kinds`, is covered by the
/// selection, and `e` is the endpoint that discloses it.
pub open spec fn owes(
    stash: StashView,
    contract_id: ContractId,
    kinds: Seq<u16>,
    selection: OutpointSelection,
    id: NodeId,
    kind: u16,
    k: int,
    e: Endpoint,
) -> bool {
    &&& kinds.contains(kind)
    &&& stash.contract_transitions.contains(
        IndexEntry { contract_id, transition_type: kind, node_id: id },
    )
    &&& discloses(stash, selection, id, k, e)
}

/// A visit that does not fail keeps the collector faithful and records the
/// endpoints of the transition after those recorded before.
pub proof fn lemma_visit_records(
    c: CollectorView,
    stash: StashView,
    id: NodeId,
    selection: OutpointSelection,
)
    requires
        faithful(c, stash),
        visited(c, stash, id, selection) is Ok,
    ensures
        faithful(visited(c, stash, id, selection)->Ok_0.0, stash),
        visited(c, stash, id, selection)->Ok_0.0.endpoints == c.endpoints + recorded_at(
            stash,
            id,
            selection,
        ),
        visited(c, stash, id, selection)->Ok_0.0.contract_id == c.contract_id,
{
    let t = stash.transitions[id.0];
    let txid = stash.transition_txid[id.0];
    let (c1, i) = with_bundle(c, stash, txid)->Ok_0;
    let cached = c1.anchored_bundles[i];
    let after = visited(c, stash, id, selection)->Ok_0.0;
    lemma_first_index(cached_txids(c.anchored_bundles), txid);
    lemma_reveal_keeps_commitment(cached.bundle, t);
    assert(cached.txid == txid);
    assert(concealed_form(concealed(stash.bundles[txid.0])) =~= concealed_form(
        stash.bundles[txid.0],
    ));
    assert(faithful(c1, stash)) by {
        assert forall|j: int| 0 <= j < c1.anchored_bundles.len() implies {
            let cb = #[trigger] c1.anchored_bundles[j];
            &&& stash.bundles.contains_key(cb.txid.0)
            &&& concealed_form(cb.bundle) == concealed_form(stash.bundles[cb.txid.0])
        } by {
            if j < c.anchored_bundles.len() {
                assert(c1.anchored_bundles[j] == c.anchored_bundles[j]);
            }
        }
    }
    assert forall|j: int| 0 <= j < after.anchored_bundles.len() implies {
        let cb = #[trigger] after.anchored_bundles[j];
        &&& stash.bundles.contains_key(cb.txid.0)
        &&& concealed_form(cb.bundle) == concealed_form(stash.bundles[cb.txid.0])
    } by {
        if j != i {
            assert(after.anchored_bundles[j] == c1.anchored_bundles[j]);
        }
    }
}

/// A walk that does not fail keeps the collector faithful and records the
/// endpoints of the transitions it visits, in order.
pub proof fn lemma_walk_records(
    c: CollectorView,
    stash: StashView,
    ids: Seq<NodeId>,
    selection: OutpointSelection,
)
    requires
        faithful(c, stash),
        walked(c, stash, ids, selection).failure is None,
    ensures
        faithful(walked(c, stash, ids, selection).collector, stash),
        walked(c, stash, ids, selection).collector.endpoints == c.endpoints + recorded(
            stash,
            ids,
            selection,
        ),
        walked(c, stash, ids, selection).collector.contract_id == c.contract_id,
    decreases ids.len(),
{
    if ids.len() == 0 {
        assert(c.endpoints + recorded(stash, ids, selection) =~= c.endpoints);
    } else {
        let prev = walked(c, stash, ids.drop_last(), selection);
        lemma_walk_records(c, stash, ids.drop_last(), selection);
        lemma_visit_records(prev.collector, stash, ids.last(), selection);
        assert((c.endpoints + recorded(stash, ids.drop_last(), selection)) + recorded_at(
            stash,
            ids.last(),
            selection,
        ) =~= c.endpoints + recorded(stash, ids, selection));
    }
}

/// A closure that does not fail keeps the collector faithful and records
/// the endpoints of the transitions it visits, with every output selected,
/// after those recorded before.
pub proof fn lemma_closure_records(c: CollectorView, stash: StashView, seen: Seq<NodeId>)
    requires
        stash.transitions.dom().finite(),
        faithful(c, stash),
        closed(c, stash, seen).failure is None,
    ensures
        faithful(closed(c, stash, seen).collector, stash),
        closed(c, stash, seen).seen.len() >= seen.len(),
        closed(c, stash, seen).seen.take(seen.len() as int) == seen,
        closed(c, stash, seen).collector.endpoints == c.endpoints + recorded(
            stash,
            closed(c, stash, seen).seen.skip(seen.len() as int),
            OutpointSelection::All,
        ),
        closed(c, stash, seen).collector.contract_id == c.contract_id,
    decreases unseen(stash, seen),
{
    let fresh = fresh_ids(c.endpoint_inputs, seen, genesis_node(c.contract_id));
    let start = CollectorView { endpoint_inputs: Seq::empty(), ..c };
    if fresh.len() == 0 {
        assert(seen.take(seen.len() as int) =~= seen);
        assert(seen.skip(seen.len() as int) =~= Seq::<NodeId>::empty());
        assert(c.endpoints + Seq::<Endpoint>::empty() =~= c.endpoints);
    } else {
        let round = walked(start, stash, fresh, OutpointSelection::All);
        assert(faithful(start, stash));
        lemma_walk_records(start, stash, fresh, OutpointSelection::All);
        lemma_round_shrinks(c, stash, seen);
        lemma_closure_records(round.collector, stash, seen + fresh);
        let all = closed(c, stash, seen).seen;
        let more = all.skip((seen + fresh).len() as int);
        assert(all.take(seen.len() as int) =~= all.take((seen + fresh).len() as int).take(
            seen.len() as int,
        ));
        let n = (seen + fresh).len() as int;
        assert forall|i: int| 0 <= i < fresh.len() implies all.skip(seen.len() as int)[i]
            == fresh[i] by {
            assert(all.take(n)[seen.len() + i] == all[seen.len() + i]);
            assert((seen + fresh)[seen.len() + i] == fresh[i]);
        }
        assert(all.skip(seen.len() as int) =~= fresh + more);
        lemma_recorded_concat(stash, fresh, more, OutpointSelection::All);
        assert((c.endpoints + recorded(stash, fresh, OutpointSelection::All)) + recorded(
            stash,
            more,
            OutpointSelection::All,
        ) =~= c.endpoints + (recorded(stash, fresh, OutpointSelection::All) + recorded(
            stash,
            more,
            OutpointSelection::All,
        )));
    }
}

/// The endpoints of two lists of visits in a row.
pub proof fn lemma_recorded_concat(
    stash: StashView,
    first: Seq<NodeId>,
    second: Seq<NodeId>,
    selection: OutpointSelection,
)
    ensures
        recorded(stash, first + second, selection) == recorded(stash, first, selection) + recorded(
            stash,
            second,
            selection,
        ),
    decreases second.len(),
{
    if second.len() == 0 {
        assert(first + second =~= first);
        assert(recorded(stash, first, selection) + Seq::<Endpoint>::empty() =~= recorded(
            stash,
            first,
            selection,
        ));
    } else {
        assert((first + second).drop_last() =~= first + second.drop_last());
        lemma_recorded_concat(stash, first, second.drop_last(), selection);
        assert((recorded(stash, first, selection) + recorded(
            stash,
            second.drop_last(),
            selection,
        )) + recorded_at(stash, second.last(), selection) =~= recorded(stash, first, selection)
            + recorded(stash, second, selection));
    }
}

/// The disclosed assignments are those that the selection covers.
pub proof fn lemma_disclosed_member(
    assignments: Seq<Assignment>,
    txid: Txid,
    selection: OutpointSelection,
    a: Assignment,
)
    ensures
        disclosed(assignments, txid, selection).contains(a) <==> assignments.contains(a)
            && selection.selects(a.seal.spec_outpoint_or(txid)),
    decreases assignments.len(),
{
    if assignments.len() > 0 {
        let front = assignments.drop_last();
        let rest = disclosed(front, txid, selection);
        let full = disclosed(assignments, txid, selection);
        lemma_disclosed_member(front, txid, selection, a);
        if full.contains(a) {
            let m = choose|m: int| 0 <= m < full.len() && full[m] == a;
            if m < rest.len() {
                assert(rest[m] == a);
                assert(rest.contains(a));
                assert(front.contains(a));
                let n = choose|n: int| 0 <= n < front.len() && front[n] == a;
                assert(assignments[n] == a);
            } else {
                assert(assignments[assignments.len() - 1] == a);
            }
        }
        if assignments.contains(a) && selection.selects(a.seal.spec_outpoint_or(txid)) {
            let n = choose|n: int| 0 <= n < assignments.len() && assignments[n] == a;
            if n < assignments.len() - 1 {
                assert(front[n] == a);
                assert(front.contains(a));
                assert(rest.contains(a));
                let m = choose|m: int| 0 <= m < rest.len() && rest[m] == a;
                assert(full[m] == a);
            } else {
                assert(full[full.len() - 1] == a);
            }
        }
    }
}

/// The endpoints recorded at a transition are those of its assignments
/// that the selection covers.
pub proof fn lemma_recorded_at_members(
    stash: StashView,
    id: NodeId,
    selection: OutpointSelection,
    e: Endpoint,
)
    ensures
        recorded_at(stash, id, selection).contains(e) <==> exists|k: int|
            discloses(stash, selection, id, k, e),
{
    let t = stash.transitions[id.0];
    let txid = stash.transition_txid[id.0];
    let hits = disclosed(t.assignments, txid, selection);
    let bundle_id = TransitionBundle::spec_bundle_id(stash.bundles[txid.0]);
    let ends = recorded_at(stash, id, selection);
    if ends.contains(e) {
        let m = choose|m: int| 0 <= m < ends.len() && ends[m] == e;
        assert(hits.contains(hits[m]));
        lemma_disclosed_member(t.assignments, txid, selection, hits[m]);
        let k = choose|k: int| 0 <= k < t.assignments.len() && t.assignments[k] == hits[m];
        assert(discloses(stash, selection, id, k, e));
    }
    if exists|k: int| discloses(stash, selection, id, k, e) {
        let k = choose|k: int| discloses(stash, selection, id, k, e);
        assert(t.assignments.contains(t.assignments[k]));
        lemma_disclosed_member(t.assignments, txid, selection, t.assignments[k]);
        assert(hits.contains(t.assignments[k]));
        let m = choose|m: int| 0 <= m < hits.len() && hits[m] == t.assignments[k];
        assert(ends[m] == e);
    }
}

/// The endpoints recorded over a list of visits are those recorded at one
/// of them.
pub proof fn lemma_recorded_members(
    stash: StashView,
    ids: Seq<NodeId>,
    selection: OutpointSelection,
    e: Endpoint,
)
    ensures
        recorded(stash, ids, selection).contains(e) <==> exists|j: int, k: int| #[trigger]
            discloses_in(stash, selection, ids, j, k, e),
    decreases ids.len(),
{
    if ids.len() > 0 {
        let rest = recorded(stash, ids.drop_last(), selection);
        let last = recorded_at(stash, ids.last(), selection);
        let full = recorded(stash, ids, selection);
        lemma_recorded_members(stash, ids.drop_last(), selection, e);
        lemma_recorded_at_members(stash, ids.last(), selection, e);
        if full.contains(e) {
            let m = choose|m: int| 0 <= m < full.len() && full[m] == e;
            if m < rest.len() {
                assert(rest[m] == e);
                assert(rest.contains(e));
                let (j, k) = choose|j: int, k: int| #[trigger]
                    discloses_in(stash, selection, ids.drop_last(), j, k, e);
                assert(discloses_in(stash, selection, ids, j, k, e));
            } else {
                assert(last[m - rest.len()] == e);
                assert(last.contains(e));
                let k = choose|k: int| discloses(stash, selection, ids.last(), k, e);
                assert(discloses_in(stash, selection, ids, ids.len() - 1, k, e));
            }
        }
        if exists|j: int, k: int| #[trigger] discloses_in(stash, selection, ids, j, k, e) {
            let (j, k) = choose|j: int, k: int| #[trigger]
                discloses_in(stash, selection, ids, j, k, e);
            if j < ids.len() - 1 {
                assert(discloses_in(stash, selection, ids.drop_last(), j, k, e));
                assert(rest.contains(e));
                let m = choose|m: int| 0 <= m < rest.len() && rest[m] == e;
                assert(full[m] == e);
            } else {
                assert(last.contains(e));
                let m = choose|m: int| 0 <= m < last.len() && last[m] == e;
                assert(full[rest.len() + m] == e);
            }
        }
    }
}

/// The index lists a transition for a contract and a type where it holds
/// the entry of the three.
pub proof fn lemma_ids_of_type_members(
    index: Seq<IndexEntry>,
    contract_id: ContractId,
    kind: u16,
    id: NodeId,
)
    ensures
        ids_of_type(index, contract_id, kind).contains(id) <==> index.contains(
            IndexEntry { contract_id, transition_type: kind, node_id: id },
        ),
    decreases index.len(),
{
    let entry = IndexEntry { contract_id, transition_type: kind, node_id: id };
    if index.len() > 0 {
        let rest = ids_of_type(index.drop_last(), contract_id, kind);
        let full = ids_of_type(index, contract_id, kind);
        lemma_ids_of_type_members(index.drop_last(), contract_id, kind, id);
        if full.contains(id) {
            let m = choose|m: int| 0 <= m < full.len() && full[m] == id;
            if m < rest.len() {
                assert(rest[m] == id);
                assert(rest.contains(id));
                let n = choose|n: int| 0 <= n < index.drop_last().len() && index.drop_last()[n] == entry;
                assert(index[n] == entry);
            } else {
                assert(index[index.len() - 1] == entry);
            }
        }
        if index.contains(entry) {
            let n = choose|n: int| 0 <= n < index.len() && index[n] == entry;
            if n < index.len() - 1 {
                assert(index.drop_last()[n] == entry);
                assert(rest.contains(id));
                let m = choose|m: int| 0 <= m < rest.len() && rest[m] == id;
                assert(full[m] == id);
            } else {
                assert(full[full.len() - 1] == id);
            }
        }
    }
}

/// The forward walk visits the transitions that the index lists for the
/// contract under one of the types asked for.
pub proof fn lemma_forward_members(
    index: Seq<IndexEntry>,
    contract_id: ContractId,
    kinds: Seq<u16>,
    id: NodeId,
)
    ensures
        forward_ids(index, contract_id, kinds).contains(id) <==> exists|kind: u16|
            kinds.contains(kind) && #[trigger] index.contains(
                IndexEntry { contract_id, transition_type: kind, node_id: id },
            ),
    decreases kinds.len(),
{
    if kinds.len() > 0 {
        let rest = forward_ids(index, contract_id, kinds.drop_last());
        let last = ids_of_type(index, contract_id, kinds.last());
        let full = forward_ids(index, contract_id, kinds);
        lemma_forward_members(index, contract_id, kinds.drop_last(), id);
        lemma_ids_of_type_members(index, contract_id, kinds.last(), id);
        if full.contains(id) {
            let m = choose|m: int| 0 <= m < full.len() && full[m] == id;
            if m < rest.len() {
                assert(rest[m] == id);
                assert(rest.contains(id));
                let kind = choose|kind: u16|
                    kinds.drop_last().contains(kind) && #[trigger] index.contains(
                        IndexEntry { contract_id, transition_type: kind, node_id: id },
                    );
                let n = choose|n: int| 0 <= n < kinds.drop_last().len() && kinds.drop_last()[n] == kind;
                assert(kinds[n] == kind);
            } else {
                assert(last[m - rest.len()] == id);
                assert(last.contains(id));
                assert(kinds[kinds.len() - 1] == kinds.last());
            }
        }
        if exists|kind: u16|
            kinds.contains(kind) && #[trigger] index.contains(
                IndexEntry { contract_id, transition_type: kind, node_id: id },
            ) {
            let kind = choose|kind: u16|
                kinds.contains(kind) && #[trigger] index.contains(
                    IndexEntry { contract_id, transition_type: kind, node_id: id },
                );
            let n = choose|n: int| 0 <= n < kinds.len() && kinds[n] == kind;
            if n < kinds.len() - 1 {
                assert(kinds.drop_last()[n] == kind);
                assert(rest.contains(id));
                let m = choose|m: int| 0 <= m < rest.len() && rest[m] == id;
                assert(full[m] == id);
            } else {
                assert(last.contains(id));
                let m = choose|m: int| 0 <= m < last.len() && last[m] == id;
                assert(full[rest.len() + m] == id);
            }
        }
    }
}

/// The endpoints of a composed consignment are those that the forward
/// walk records, followed by those that the closure records at the
/// ancestors it visits.
pub proof fn lemma_composed_endpoints(
    stash: StashView,
    contract_id: ContractId,
    kinds: Seq<u16>,
    selection: OutpointSelection,
)
    requires
        stash.transitions.dom().finite(),
        composed(stash, contract_id, kinds, selection) is Ok,
    ensures
        composed(stash, contract_id, kinds, selection)->Ok_0.endpoints == recorded(
            stash,
            forward_list(stash, contract_id, kinds),
            selection,
        ) + recorded(
            stash,
            closure(stash, contract_id, kinds, selection).seen,
            OutpointSelection::All,
        ),
{
    let ids = forward_list(stash, contract_id, kinds);
    let start = Collector::empty(contract_id);
    lemma_walk_records(start, stash, ids, selection);
    lemma_closure_records(forward(stash, contract_id, kinds, selection).collector, stash, Seq::empty());
    let result = closure(stash, contract_id, kinds, selection);
    assert(result.seen.skip(0) =~= result.seen);
    assert(start.endpoints + recorded(stash, ids, selection) =~= recorded(stash, ids, selection));
}

/// Where the closure records no endpoint, the endpoints of a composed
/// consignment are exactly those of the assignments that the selection
/// covers, among the transitions that the index lists for the contract
/// under one of the types asked for.
pub proof fn lemma_conservation(
    stash: StashView,
    contract_id: ContractId,
    kinds: Seq<u16>,
    selection: OutpointSelection,
    e: Endpoint,
)
    requires
        stash.transitions.dom().finite(),
        composed(stash, contract_id, kinds, selection) is Ok,
        recorded(
            stash,
            closure(stash, contract_id, kinds, selection).seen,
            OutpointSelection::All,
        ).len() == 0,
    ensures
        composed(stash, contract_id, kinds, selection)->Ok_0.endpoints.contains(e) <==> exists|
            id: NodeId,
            kind: u16,
            k: int,
        | #[trigger] owes(stash, contract_id, kinds, selection, id, kind, k, e),
{
    let ids = forward_list(stash, contract_id, kinds);
    let ends = composed(stash, contract_id, kinds, selection)->Ok_0.endpoints;
    lemma_composed_endpoints(stash, contract_id, kinds, selection);
    assert(ends =~= recorded(stash, ids, selection));
    lemma_recorded_members(stash, ids, selection, e);
    lemma_ordered(kinds);
    if ends.contains(e) {
        let (j, k) = choose|j: int, k: int| #[trigger]
            discloses_in(stash, selection, ids, j, k, e);
        assert(ids.contains(ids[j]));
        lemma_forward_members(stash.contract_transitions, contract_id, ordered(kinds), ids[j]);
        let kind = choose|kind: u16|
            ordered(kinds).contains(kind) && #[trigger] stash.contract_transitions.contains(
                IndexEntry { contract_id, transition_type: kind, node_id: ids[j] },
            );
        assert(owes(stash, contract_id, kinds, selection, ids[j], kind, k, e));
    }
    if exists|id: NodeId, kind: u16, k: int| #[trigger]
        owes(stash, contract_id, kinds, selection, id, kind, k, e) {
        let (id, kind, k) = choose|id: NodeId, kind: u16, k: int| #[trigger]
            owes(stash, contract_id, kinds, selection, id, kind, k, e);
        lemma_forward_members(stash.contract_transitions, contract_id, ordered(kinds), id);
        assert(ordered(kinds).contains(kind));
        assert(ids.contains(id));
        let j = choose|j: int| 0 <= j < ids.len() && ids[j] == id;
        assert(discloses_in(stash, selection, ids, j, k, e));
    }
}

} // verus!
