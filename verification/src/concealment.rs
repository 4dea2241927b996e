//! Which transitions a composed consignment reveals: in each gathered
//! bundle those that were visited, and no others.

use vstd::prelude::*;
use crate::bundle::{
    concealed, concealed_count, concealed_form, item_ids, lemma_counts, revealed_count,
    revealed_in, ItemView, TransitionBundle,
};
use crate::collector::{
    arranged, ascending_txids, cached_txids, carried, closed, lemma_arranged, fresh_ids, genesis_node, lemma_round_shrinks, unseen, visited,
    walked, with_bundle, CachedView, Collector, CollectorView,
};
use crate::ancestry::{descends, lemma_concat_contains, lemma_descent};
use crate::compose::{
    closure, composed, forward, forward_ids, forward_list, lemma_ordered, ordered,
};
use crate::ident::{ContractId, NodeId, Txid};
use crate::lookup::{first_index, lemma_first_index};
use crate::selection::OutpointSelection;
use crate::stash::StashView;

verus! {

/// The transition `v` is witnessed by `txid`, and item `j` of the bundle
/// kept for `txid` is the first with its id.
pub open spec fn reveals_at(stash: StashView, v: NodeId, txid: Txid, j: int) -> bool {
    &&& stash.transition_txid[v.0] == txid
    &&& first_index(item_ids(stash.bundles[txid.0]), stash.transitions[v.0].node_id) == Some(j)
}

/// One of `visits` is revealed in item `j` of the bundle kept for `txid`.
pub open spec fn reveals(stash: StashView, visits: Seq<NodeId>, txid: Txid, j: int) -> bool {
    exists|m: int| 0 <= m < visits.len() && reveals_at(stash, #[trigger] visits[m], txid, j)
}

/// One of `visits` is witnessed by `txid`.
pub open spec fn witnesses(stash: StashView, visits: Seq<NodeId>, txid: Txid) -> bool {
    exists|m: int| 0 <= m < visits.len() && stash.transition_txid[(#[trigger] visits[m]).0] == txid
}

/// Where the transition `v` is revealed in item `j` of the gathered bundle,
/// the item holds the transition as the stash keeps it.
pub open spec fn shows(cached: CachedView, stash: StashView, v: NodeId, j: int) -> bool {
    reveals_at(stash, v, cached.txid, j) ==> cached.bundle[j].transition == Some(
        stash.transitions[v.0],
    )
}

/// A gathered bundle has the items of the bundle kept for its witness
/// transaction, with content in those that a visited transition is revealed
/// in, and in no others; the content is the visited transition as the stash
/// keeps it.
pub open spec fn follows(cached: CachedView, stash: StashView, visits: Seq<NodeId>) -> bool {
    let stored = stash.bundles[cached.txid.0];
    &&& stash.bundles.contains_key(cached.txid.0)
    &&& cached.bundle.len() == stored.len()
    &&& forall|j: int|
        0 <= j < stored.len() ==> {
            &&& (#[trigger] cached.bundle[j]).node_id == stored[j].node_id
            &&& cached.bundle[j].inputs == stored[j].inputs
            &&& (cached.bundle[j].transition is Some <==> reveals(stash, visits, cached.txid, j))
        }
    &&& forall|m: int, j: int|
        0 <= m < visits.len() && 0 <= j < stored.len() ==> #[trigger] shows(
            cached,
            stash,
            visits[m],
            j,
        )
}

/// Every gathered bundle is the bundle of the witness transaction of one
/// of `visits`.
pub open spec fn all_witnessed(c: CollectorView, stash: StashView, visits: Seq<NodeId>) -> bool {
    forall|i: int|
        0 <= i < c.anchored_bundles.len() ==> witnesses(
            stash,
            visits,
            (#[trigger] c.anchored_bundles[i]).txid,
        )
}

/// The bundle of the transition `v` is gathered at `i`, and it has an item
/// with the id of the transition.
pub open spec fn held_at(c: CollectorView, stash: StashView, v: NodeId, i: int) -> bool {
    &&& 0 <= i < c.anchored_bundles.len()
    &&& c.anchored_bundles[i].txid == stash.transition_txid[v.0]
    &&& first_index(
        item_ids(stash.bundles[stash.transition_txid[v.0].0]),
        stash.transitions[v.0].node_id,
    ) is Some
}

/// The bundle of the transition `v` is gathered, and it has an item with
/// the id of the transition.
pub open spec fn held(c: CollectorView, stash: StashView, v: NodeId) -> bool {
    exists|i: int| held_at(c, stash, v, i)
}

/// What the collector has gathered is what the visits `visits` call for:
/// one bundle for each witness transaction of a visited transition, each as
/// the stash keeps it but for the content of the visited transitions.
pub open spec fn keeps_track(c: CollectorView, stash: StashView, visits: Seq<NodeId>) -> bool {
    &&& cached_txids(c.anchored_bundles).no_duplicates()
    &&& forall|i: int|
        0 <= i < c.anchored_bundles.len() ==> follows(#[trigger] c.anchored_bundles[i], stash, visits)
    &&& forall|m: int| 0 <= m < visits.len() ==> held(c, stash, #[trigger] visits[m])
}

/// What one more visit adds to what the visits reveal and witness.
pub proof fn lemma_reveals_push(
    stash: StashView,
    visits: Seq<NodeId>,
    id: NodeId,
    txid: Txid,
    j: int,
)
    ensures
        reveals(stash, visits.push(id), txid, j) <==> reveals(stash, visits, txid, j)
            || reveals_at(stash, id, txid, j),
        witnesses(stash, visits, txid) ==> witnesses(stash, visits.push(id), txid),
        stash.transition_txid[id.0] == txid ==> witnesses(stash, visits.push(id), txid),
{
    let more = visits.push(id);
    if reveals(stash, more, txid, j) {
        let m = choose|m: int| 0 <= m < more.len() && reveals_at(stash, #[trigger] more[m], txid, j);
        if m < visits.len() {
            assert(reveals_at(stash, visits[m], txid, j));
        }
    }
    if reveals(stash, visits, txid, j) {
        let m = choose|m: int|
            0 <= m < visits.len() && reveals_at(stash, #[trigger] visits[m], txid, j);
        assert(reveals_at(stash, more[m], txid, j));
    }
    if reveals_at(stash, id, txid, j) {
        assert(reveals_at(stash, more[visits.len() as int], txid, j));
    }
    if witnesses(stash, visits, txid) {
        let m = choose|m: int|
            0 <= m < visits.len() && stash.transition_txid[(#[trigger] visits[m]).0] == txid;
        assert(stash.transition_txid[more[m].0] == txid);
    }
    if stash.transition_txid[id.0] == txid {
        assert(stash.transition_txid[more[visits.len() as int].0] == txid);
    }
}

/// A visit that does not fail keeps the collector on track.
pub proof fn lemma_visit_tracks(
    c: CollectorView,
    stash: StashView,
    visits: Seq<NodeId>,
    id: NodeId,
    selection: OutpointSelection,
)
    requires
        keeps_track(c, stash, visits),
        visited(c, stash, id, selection) is Ok,
    ensures
        keeps_track(visited(c, stash, id, selection)->Ok_0.0, stash, visits.push(id)),
        all_witnessed(c, stash, visits) ==> all_witnessed(
            visited(c, stash, id, selection)->Ok_0.0,
            stash,
            visits.push(id),
        ),
{
    let t = stash.transitions[id.0];
    let txid = stash.transition_txid[id.0];
    let (c1, i) = with_bundle(c, stash, txid)->Ok_0;
    let cached = c1.anchored_bundles[i];
    let stored = stash.bundles[txid.0];
    let after = visited(c, stash, id, selection)->Ok_0.0;
    let items = revealed_in(cached.bundle, t)->Ok_0.0;
    let more = visits.push(id);
    let keys = cached_txids(c.anchored_bundles);
    lemma_first_index(keys, txid);
    lemma_first_index(item_ids(cached.bundle), t.node_id);
    let j0 = first_index(item_ids(cached.bundle), t.node_id)->Some_0;

    // The bundle at hand is the one gathered, or the one kept in the stash without content.
    assert(cached.txid == txid);
    assert(stash.bundles.contains_key(txid.0) && cached.bundle.len() == stored.len()) by {
        if first_index(keys, txid) is Some {
            assert(follows(c.anchored_bundles[i], stash, visits));
        }
    }
    assert forall|j: int| 0 <= j < stored.len() implies {
        &&& (#[trigger] cached.bundle[j]).node_id == stored[j].node_id
        &&& cached.bundle[j].inputs == stored[j].inputs
        &&& (cached.bundle[j].transition is Some <==> reveals(stash, visits, txid, j))
    } by {
        if first_index(keys, txid) is Some {
            assert(follows(c.anchored_bundles[i], stash, visits));
        } else {
            assert(cached.bundle[j] == concealed(stored)[j]);
            if reveals(stash, visits, txid, j) {
                let m = choose|m: int|
                    0 <= m < visits.len() && reveals_at(stash, #[trigger] visits[m], txid, j);
                assert(held(c, stash, visits[m]));
                let h = choose|h: int| held_at(c, stash, visits[m], h);
                assert(keys[h] == txid);
            }
        }
    }
    assert forall|m: int, j: int|
        0 <= m < visits.len() && 0 <= j < stored.len() implies #[trigger] shows(
        cached,
        stash,
        visits[m],
        j,
    ) by {
        if first_index(keys, txid) is Some {
            assert(follows(c.anchored_bundles[i], stash, visits));
        } else {
            if reveals_at(stash, visits[m], txid, j) {
                assert(held(c, stash, visits[m]));
                let h = choose|h: int| held_at(c, stash, visits[m], h);
                assert(keys[h] == txid);
            }
        }
    }
    assert(item_ids(cached.bundle) =~= item_ids(stored));
    assert(reveals_at(stash, id, txid, j0));

    // The witness transactions stay distinct.
    let keys_after = cached_txids(after.anchored_bundles);
    assert(keys_after =~= cached_txids(c1.anchored_bundles));
    assert(keys_after.no_duplicates()) by {
        if first_index(keys, txid) is None {
            assert(keys_after =~= keys.push(txid));
        } else {
            assert(keys_after =~= keys);
        }
    }

    // Every gathered bundle is on track.
    assert forall|h: int| 0 <= h < after.anchored_bundles.len() implies follows(
        #[trigger] after.anchored_bundles[h],
        stash,
        more,
    ) by {
        let cb = after.anchored_bundles[h];
        if h == i {
            lemma_reveals_push(stash, visits, id, txid, j0);
            assert forall|j: int| 0 <= j < stored.len() implies {
                &&& (#[trigger] cb.bundle[j]).node_id == stored[j].node_id
                &&& cb.bundle[j].inputs == stored[j].inputs
                &&& (cb.bundle[j].transition is Some <==> reveals(stash, more, txid, j))
            } by {
                lemma_reveals_push(stash, visits, id, txid, j);
                assert(cached.bundle[j].node_id == stored[j].node_id);
            }
            assert forall|m: int, j: int|
                0 <= m < more.len() && 0 <= j < stored.len() implies #[trigger] shows(
                cb,
                stash,
                more[m],
                j,
            ) by {
                assert(cached.bundle[j].node_id == stored[j].node_id);
                if m < visits.len() {
                    assert(shows(cached, stash, visits[m], j));
                    if reveals_at(stash, visits[m], txid, j) {
                        assert(reveals(stash, visits, txid, j));
                    }
                }
            }
        } else {
            let before = c.anchored_bundles[h];
            assert(cb == c1.anchored_bundles[h]);
            assert(cb == before);
            assert(follows(before, stash, visits));
            assert(keys_after[h] == cb.txid && keys_after[i] == txid);
            assert(cb.txid != txid);
            lemma_reveals_push(stash, visits, id, cb.txid, 0);
            let kept = stash.bundles[cb.txid.0];
            assert forall|j: int| 0 <= j < kept.len() implies {
                &&& (#[trigger] cb.bundle[j]).node_id == kept[j].node_id
                &&& cb.bundle[j].inputs == kept[j].inputs
                &&& (cb.bundle[j].transition is Some <==> reveals(stash, more, cb.txid, j))
            } by {
                lemma_reveals_push(stash, visits, id, cb.txid, j);
            }
            assert forall|m: int, j: int|
                0 <= m < more.len() && 0 <= j < kept.len() implies #[trigger] shows(
                cb,
                stash,
                more[m],
                j,
            ) by {
                if m < visits.len() {
                    assert(shows(before, stash, visits[m], j));
                }
            }
        }
    }

    if all_witnessed(c, stash, visits) {
        assert forall|h: int| 0 <= h < after.anchored_bundles.len() implies witnesses(
            stash,
            more,
            (#[trigger] after.anchored_bundles[h]).txid,
        ) by {
            lemma_reveals_push(stash, visits, id, after.anchored_bundles[h].txid, 0);
            if h != i {
                assert(after.anchored_bundles[h] == c1.anchored_bundles[h]);
                assert(c1.anchored_bundles[h] == c.anchored_bundles[h]);
            }
        }
    }

    // The bundle of every visited transition is gathered.
    assert forall|m: int| 0 <= m < more.len() implies held(after, stash, #[trigger] more[m]) by {
        if m < visits.len() {
            assert(held(c, stash, visits[m]));
            let h = choose|h: int| held_at(c, stash, visits[m], h);
            assert(c1.anchored_bundles[h].txid == c.anchored_bundles[h].txid);
            assert(held_at(after, stash, more[m], h));
        } else {
            assert(held_at(after, stash, more[m], i));
        }
    }
}

/// A walk that does not fail keeps the collector on track.
pub proof fn lemma_walk_tracks(
    c: CollectorView,
    stash: StashView,
    visits: Seq<NodeId>,
    ids: Seq<NodeId>,
    selection: OutpointSelection,
)
    requires
        keeps_track(c, stash, visits),
        walked(c, stash, ids, selection).failure is None,
    ensures
        keeps_track(walked(c, stash, ids, selection).collector, stash, visits + ids),
        all_witnessed(c, stash, visits) ==> all_witnessed(
            walked(c, stash, ids, selection).collector,
            stash,
            visits + ids,
        ),
    decreases ids.len(),
{
    if ids.len() == 0 {
        assert(visits + ids =~= visits);
    } else {
        let prev = walked(c, stash, ids.drop_last(), selection);
        lemma_walk_tracks(c, stash, visits, ids.drop_last(), selection);
        lemma_visit_tracks(prev.collector, stash, visits + ids.drop_last(), ids.last(), selection);
        assert((visits + ids.drop_last()).push(ids.last()) =~= visits + ids);
    }
}

/// A closure that does not fail keeps the collector on track.
pub proof fn lemma_closure_tracks(
    c: CollectorView,
    stash: StashView,
    visits: Seq<NodeId>,
    seen: Seq<NodeId>,
)
    requires
        stash.transitions.dom().finite(),
        keeps_track(c, stash, visits),
        closed(c, stash, seen).failure is None,
    ensures
        closed(c, stash, seen).seen.len() >= seen.len(),
        closed(c, stash, seen).seen.take(seen.len() as int) == seen,
        keeps_track(
            closed(c, stash, seen).collector,
            stash,
            visits + closed(c, stash, seen).seen.skip(seen.len() as int),
        ),
        all_witnessed(c, stash, visits) ==> all_witnessed(
            closed(c, stash, seen).collector,
            stash,
            visits + closed(c, stash, seen).seen.skip(seen.len() as int),
        ),
    decreases unseen(stash, seen),
{
    let fresh = fresh_ids(c.endpoint_inputs, seen, genesis_node(c.contract_id));
    let start = CollectorView { endpoint_inputs: Seq::empty(), ..c };
    let all = closed(c, stash, seen).seen;
    assert(start.anchored_bundles == c.anchored_bundles);
    assert(all_witnessed(c, stash, visits) ==> all_witnessed(start, stash, visits));
    assert(keeps_track(start, stash, visits)) by {
        assert forall|m: int| 0 <= m < visits.len() implies held(
            start,
            stash,
            #[trigger] visits[m],
        ) by {
            assert(held(c, stash, visits[m]));
            let i = choose|i: int| held_at(c, stash, visits[m], i);
            assert(held_at(start, stash, visits[m], i));
        }
    }
    if fresh.len() == 0 {
        assert(seen.take(seen.len() as int) =~= seen);
        assert(visits + all.skip(seen.len() as int) =~= visits);
    } else {
        let round = walked(start, stash, fresh, OutpointSelection::All);
        let next = seen + fresh;
        lemma_walk_tracks(start, stash, visits, fresh, OutpointSelection::All);
        lemma_round_shrinks(c, stash, seen);
        lemma_closure_tracks(round.collector, stash, visits + fresh, next);
        let n = next.len() as int;
        assert(all.take(seen.len() as int) =~= all.take(n).take(seen.len() as int));
        assert forall|i: int| 0 <= i < fresh.len() implies all.skip(seen.len() as int)[i]
            == fresh[i] by {
            assert(all.take(n)[seen.len() + i] == all[seen.len() + i]);
            assert(next[seen.len() + i] == fresh[i]);
        }
        assert((visits + fresh) + all.skip(n) =~= visits + all.skip(seen.len() as int));
    }
}

/// The transitions that a composition visits: those of the forward walk,
/// then those of the closure.
pub open spec fn visits(
    stash: StashView,
    contract_id: ContractId,
    kinds: Seq<u16>,
    selection: OutpointSelection,
) -> Seq<NodeId> {
    forward_list(stash, contract_id, kinds) + closure(
        stash,
        contract_id,
        kinds,
        selection,
    ).seen
}

/// How many of the first `n` items of the bundle kept for `txid` one of
/// `visits` is revealed in.
pub open spec fn visited_count(stash: StashView, visits: Seq<NodeId>, txid: Txid, n: nat) -> nat
    decreases n,
{
    if n == 0 {
        0
    } else {
        visited_count(stash, visits, txid, (n - 1) as nat) + if reveals(
            stash,
            visits,
            txid,
            n - 1,
        ) {
            1nat
        } else {
            0nat
        }
    }
}

proof fn lemma_count_revealed(
    items: Seq<ItemView>,
    stash: StashView,
    visits: Seq<NodeId>,
    txid: Txid,
    n: nat,
)
    requires
        n <= items.len(),
        forall|j: int|
            0 <= j < n ==> ((#[trigger] items[j]).transition is Some <==> reveals(
                stash,
                visits,
                txid,
                j,
            )),
    ensures
        revealed_count(items.take(n as int)) == visited_count(stash, visits, txid, n),
    decreases n,
{
    if n > 0 {
        lemma_count_revealed(items, stash, visits, txid, (n - 1) as nat);
        assert(items.take(n as int).drop_last() =~= items.take(n - 1));
        assert(items.take(n as int).last() == items[n - 1]);
    }
}

/// Of a composed consignment: it carries the gathered bundles, one for
/// each witness transaction of a visited transition, by ascending witness
/// transaction; each has the items of the bundle that the stash keeps for
/// that transaction, with content in those that a visited transition is
/// revealed in, and in no others.
pub proof fn lemma_concealment(
    stash: StashView,
    contract_id: ContractId,
    kinds: Seq<u16>,
    selection: OutpointSelection,
)
    requires
        stash.transitions.dom().finite(),
        composed(stash, contract_id, kinds, selection) is Ok,
    ensures
        ({
            let gathered = closure(stash, contract_id, kinds, selection).collector.anchored_bundles;
            &&& composed(stash, contract_id, kinds, selection)->Ok_0.anchored_bundles == carried(
                arranged(gathered),
            )
            &&& ascending_txids(cached_txids(arranged(gathered)))
            &&& arranged(gathered).len() == gathered.len()
            &&& forall|x: CachedView| arranged(gathered).contains(x) <==> gathered.contains(x)
        }),
        keeps_track(
            closure(stash, contract_id, kinds, selection).collector,
            stash,
            visits(stash, contract_id, kinds, selection),
        ),
        all_witnessed(
            closure(stash, contract_id, kinds, selection).collector,
            stash,
            visits(stash, contract_id, kinds, selection),
        ),
{
    let ids = forward_list(stash, contract_id, kinds);
    let start = Collector::empty(contract_id);
    assert(keeps_track(start, stash, Seq::empty()));
    lemma_walk_tracks(start, stash, Seq::empty(), ids, selection);
    assert(Seq::<NodeId>::empty() + ids =~= ids);
    lemma_closure_tracks(forward(stash, contract_id, kinds, selection).collector, stash, ids, Seq::empty());
    let seen = closure(stash, contract_id, kinds, selection).seen;
    assert(seen.skip(0) =~= seen);
    let gathered = closure(stash, contract_id, kinds, selection).collector.anchored_bundles;
    lemma_arranged(gathered);
    assert forall|x: CachedView| gathered.contains(x) implies arranged(gathered).contains(x) by {
        let m = choose|m: int| 0 <= m < gathered.len() && gathered[m] == x;
        assert(arranged(gathered).contains(gathered[m]));
    }
}

/// A gathered bundle on track has the id of the bundle that the stash
/// keeps for its witness transaction.
pub proof fn lemma_follows_commitment(cached: CachedView, stash: StashView, visits: Seq<NodeId>)
    requires
        follows(cached, stash, visits),
    ensures
        item_ids(cached.bundle) == item_ids(stash.bundles[cached.txid.0]),
        TransitionBundle::spec_bundle_id(cached.bundle) == TransitionBundle::spec_bundle_id(
            stash.bundles[cached.txid.0],
        ),
{
    let stored = stash.bundles[cached.txid.0];
    assert forall|j: int| 0 <= j < stored.len() implies cached.bundle[j].node_id
        == stored[j].node_id && cached.bundle[j].inputs == stored[j].inputs by {
        assert(cached.bundle[j].node_id == stored[j].node_id);
    }
    assert(item_ids(cached.bundle) =~= item_ids(stored));
    assert(concealed_form(cached.bundle) =~= concealed_form(stored));
}

/// Of a walk that does not fail, from a collector whose gathered bundles
/// are the bundles of the stash with no content, no two of one witness
/// transaction: each gathered bundle has the items and the id of the bundle
/// that the stash keeps, with content in the items that a transition of
/// `ids` is revealed in, and in no others, whatever the selection.
pub proof fn lemma_process_reveals(
    c: CollectorView,
    stash: StashView,
    ids: Seq<NodeId>,
    selection: OutpointSelection,
)
    requires
        keeps_track(c, stash, Seq::empty()),
        walked(c, stash, ids, selection).failure is None,
    ensures
        keeps_track(walked(c, stash, ids, selection).collector, stash, ids),
        forall|i: int|
            0 <= i < walked(c, stash, ids, selection).collector.anchored_bundles.len() ==> {
                let cached = #[trigger] walked(
                    c,
                    stash,
                    ids,
                    selection,
                ).collector.anchored_bundles[i];
                let stored = stash.bundles[cached.txid.0];
                &&& item_ids(cached.bundle) == item_ids(stored)
                &&& TransitionBundle::spec_bundle_id(cached.bundle)
                    == TransitionBundle::spec_bundle_id(stored)
                &&& revealed_count(cached.bundle) == visited_count(
                    stash,
                    ids,
                    cached.txid,
                    stored.len(),
                )
                &&& concealed_count(cached.bundle) == stored.len() - visited_count(
                    stash,
                    ids,
                    cached.txid,
                    stored.len(),
                )
            },
{
    lemma_walk_tracks(c, stash, Seq::empty(), ids, selection);
    assert(Seq::<NodeId>::empty() + ids =~= ids);
    let after = walked(c, stash, ids, selection).collector;
    assert forall|i: int| 0 <= i < after.anchored_bundles.len() implies {
        let cached = #[trigger] after.anchored_bundles[i];
        let stored = stash.bundles[cached.txid.0];
        &&& item_ids(cached.bundle) == item_ids(stored)
        &&& TransitionBundle::spec_bundle_id(cached.bundle) == TransitionBundle::spec_bundle_id(
            stored,
        )
        &&& revealed_count(cached.bundle) == visited_count(stash, ids, cached.txid, stored.len())
        &&& concealed_count(cached.bundle) == stored.len() - visited_count(
            stash,
            ids,
            cached.txid,
            stored.len(),
        )
    } by {
        let cached = after.anchored_bundles[i];
        assert(follows(cached, stash, ids));
        lemma_follows_commitment(cached, stash, ids);
        lemma_revealed_counts(cached, stash, ids);
    }
}

/// Of a gathered bundle on track: with `n` items of which `m` have a
/// visited transition revealed in them, it holds `m` items with content and
/// `n - m` without.
pub proof fn lemma_revealed_counts(cached: CachedView, stash: StashView, visits: Seq<NodeId>)
    requires
        follows(cached, stash, visits),
    ensures
        cached.bundle.len() == stash.bundles[cached.txid.0].len(),
        revealed_count(cached.bundle) == visited_count(
            stash,
            visits,
            cached.txid,
            cached.bundle.len(),
        ),
        concealed_count(cached.bundle) == cached.bundle.len() - visited_count(
            stash,
            visits,
            cached.txid,
            cached.bundle.len(),
        ),
{
    lemma_count_revealed(cached.bundle, stash, visits, cached.txid, cached.bundle.len());
    assert(cached.bundle.take(cached.bundle.len() as int) =~= cached.bundle);
    lemma_counts(cached.bundle);
}

/// The bundle at `n` of the consignment is the bundle of the witness
/// transaction of `v`, and the first item with the id of `v` holds `v` as
/// the stash keeps it.
pub open spec fn revealed_at(
    stash: StashView,
    out: Seq<crate::consignment::AnchoredBundleView>,
    sorted: Seq<CachedView>,
    v: NodeId,
    n: int,
) -> bool {
    let j = first_index(
        item_ids(stash.bundles[stash.transition_txid[v.0].0]),
        stash.transitions[v.0].node_id,
    )->Some_0;
    &&& 0 <= n < out.len()
    &&& n < sorted.len()
    &&& sorted[n].txid == stash.transition_txid[v.0]
    &&& out[n].bundle == sorted[n].bundle
    &&& 0 <= j < out[n].bundle.len()
    &&& out[n].bundle[j].node_id == stash.transitions[v.0].node_id
    &&& out[n].bundle[j].transition == Some(stash.transitions[v.0])
}

/// Every transition that a composition visits is revealed in the
/// consignment: the bundle of its witness transaction is carried, and the
/// first item of that bundle with the id of the transition holds the
/// transition as the stash keeps it.
pub proof fn lemma_visited_revealed(
    stash: StashView,
    contract_id: ContractId,
    kinds: Seq<u16>,
    selection: OutpointSelection,
    v: NodeId,
)
    requires
        stash.transitions.dom().finite(),
        composed(stash, contract_id, kinds, selection) is Ok,
        visits(stash, contract_id, kinds, selection).contains(v),
    ensures
        exists|n: int| #[trigger]
            revealed_at(
                stash,
                composed(stash, contract_id, kinds, selection)->Ok_0.anchored_bundles,
                arranged(closure(stash, contract_id, kinds, selection).collector.anchored_bundles),
                v,
                n,
            ),
{
    let all = visits(stash, contract_id, kinds, selection);
    let gathered = closure(stash, contract_id, kinds, selection).collector;
    let sorted = arranged(gathered.anchored_bundles);
    let out = composed(stash, contract_id, kinds, selection)->Ok_0.anchored_bundles;
    let txid = stash.transition_txid[v.0];
    let stored = stash.bundles[txid.0];
    lemma_concealment(stash, contract_id, kinds, selection);
    let m = choose|m: int| 0 <= m < all.len() && all[m] == v;
    assert(held(gathered, stash, all[m]));
    let i = choose|i: int| held_at(gathered, stash, all[m], i);
    let cached = gathered.anchored_bundles[i];
    assert(follows(cached, stash, all));
    lemma_first_index(item_ids(stored), stash.transitions[v.0].node_id);
    let j = first_index(item_ids(stored), stash.transitions[v.0].node_id)->Some_0;
    assert(reveals_at(stash, all[m], txid, j));
    assert(shows(cached, stash, all[m], j));
    assert(cached.bundle[j].node_id == stored[j].node_id);
    assert(gathered.anchored_bundles.contains(cached));
    assert(sorted.contains(cached));
    let n = choose|n: int| 0 <= n < sorted.len() && sorted[n] == cached;
    assert(out[n].bundle == sorted[n].bundle);
    assert(revealed_at(stash, out, sorted, v, n));
}

/// The transition `v` was visited, `content` is `v` as the stash keeps it,
/// and `v` is of a type asked for or an ancestor of a transition of a type
/// asked for that has an output that the selection covers.
pub open spec fn accounts(
    stash: StashView,
    contract_id: ContractId,
    kinds: Seq<u16>,
    selection: OutpointSelection,
    v: NodeId,
    content: Option<crate::graph::TransitionView>,
) -> bool {
    &&& visits(stash, contract_id, kinds, selection).contains(v)
    &&& content == Some(stash.transitions[v.0])
    &&& (forward_list(stash, contract_id, kinds).contains(v) || descends(
        stash,
        selection,
        forward_list(stash, contract_id, kinds),
        v,
    ))
}

/// Whatever content a composed consignment holds is a transition that was
/// visited, as the stash keeps it: one of a type asked for, or an ancestor
/// of such a transition that has an output that the selection covers.
/// Nothing else is revealed.
pub proof fn lemma_only_visited_revealed(
    stash: StashView,
    contract_id: ContractId,
    kinds: Seq<u16>,
    selection: OutpointSelection,
    n: int,
    j: int,
)
    requires
        stash.transitions.dom().finite(),
        composed(stash, contract_id, kinds, selection) is Ok,
        0 <= n < composed(stash, contract_id, kinds, selection)->Ok_0.anchored_bundles.len(),
        0 <= j < composed(stash, contract_id, kinds, selection)->Ok_0.anchored_bundles[n].bundle.len(),
        composed(stash, contract_id, kinds, selection)->Ok_0.anchored_bundles[n].bundle[j].transition
            is Some,
    ensures
        exists|v: NodeId| #[trigger]
            accounts(
                stash,
                contract_id,
                kinds,
                selection,
                v,
                composed(
                    stash,
                    contract_id,
                    kinds,
                    selection,
                )->Ok_0.anchored_bundles[n].bundle[j].transition,
            ),
{
    let all = visits(stash, contract_id, kinds, selection);
    let gathered = closure(stash, contract_id, kinds, selection).collector;
    let sorted = arranged(gathered.anchored_bundles);
    let out = composed(stash, contract_id, kinds, selection)->Ok_0.anchored_bundles;
    lemma_concealment(stash, contract_id, kinds, selection);
    let cached = sorted[n];
    assert(out[n].bundle == cached.bundle);
    assert(sorted.contains(cached));
    assert(gathered.anchored_bundles.contains(cached));
    let i = choose|i: int|
        0 <= i < gathered.anchored_bundles.len() && gathered.anchored_bundles[i] == cached;
    assert(follows(gathered.anchored_bundles[i], stash, all));
    assert(cached.bundle[j].transition is Some);
    assert(reveals(stash, all, cached.txid, j));
    let m = choose|m: int| 0 <= m < all.len() && reveals_at(stash, #[trigger] all[m], cached.txid, j);
    assert(shows(cached, stash, all[m], j));
    let v = all[m];
    assert(all.contains(v));
    lemma_concat_contains(
        forward_list(stash, contract_id, kinds),
        closure(stash, contract_id, kinds, selection).seen,
        v,
    );
    if !forward_list(stash, contract_id, kinds).contains(v) {
        lemma_descent(stash, contract_id, kinds, selection, v);
    }
    assert(accounts(stash, contract_id, kinds, selection, v, out[n].bundle[j].transition));
}

} // verus!
