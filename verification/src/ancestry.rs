//! Which ancestors the closure visits: the parents of every transition
//! that has a disclosed output, their parents in turn, and nothing else.

use vstd::prelude::*;
use crate::collector::{
    closed, disclosed, fresh_ids, genesis_node, lemma_fresh, lemma_round_shrinks, parent_ids,
    repeated, unseen, visited, walked, Collector, CollectorView,
};
use crate::compose::{closure, forward, forward_list};
use crate::ident::{ContractId, NodeId};
use crate::selection::OutpointSelection;
use crate::stash::StashView;

verus! {

/// The parents that a visit of the transition `id` queues: all of them,
/// once for each assignment that the selection covers.
pub open spec fn queued_at(stash: StashView, id: NodeId, selection: OutpointSelection) -> Seq<
    NodeId,
> {
    let t = stash.transitions[id.0];
    let txid = stash.transition_txid[id.0];
    repeated(parent_ids(t.parents), disclosed(t.assignments, txid, selection).len())
}

/// The parents that visits of `ids` queue, in order.
pub open spec fn queued(stash: StashView, ids: Seq<NodeId>, selection: OutpointSelection) -> Seq<
    NodeId,
>
    decreases ids.len(),
{
    if ids.len() == 0 {
        Seq::empty()
    } else {
        queued(stash, ids.drop_last(), selection) + queued_at(stash, ids.last(), selection)
    }
}

/// The transition `id` has an assignment that the selection covers, and it
/// spends an output of the node `parent`.
pub open spec fn draws_on(
    stash: StashView,
    selection: OutpointSelection,
    id: NodeId,
    parent: NodeId,
) -> bool {
    let t = stash.transitions[id.0];
    let txid = stash.transition_txid[id.0];
    disclosed(t.assignments, txid, selection).len() > 0 && parent_ids(t.parents).contains(parent)
}

/// One of `ids` draws on `parent`.
pub open spec fn drawn_by(
    stash: StashView,
    selection: OutpointSelection,
    ids: Seq<NodeId>,
    parent: NodeId,
) -> bool {
    exists|j: int| 0 <= j < ids.len() && draws_on(stash, selection, #[trigger] ids[j], parent)
}

/// The visit `n` of `visits` was queued, or an earlier one draws on it.
pub open spec fn justified(queue: Seq<NodeId>, stash: StashView, visits: Seq<NodeId>, n: int) -> bool {
    queue.contains(visits[n]) || exists|j: int|
        0 <= j < n && draws_on(stash, OutpointSelection::All, #[trigger] visits[j], visits[n])
}

/// The node at `i` of `path` has an assignment and spends an output of the
/// next.
pub open spec fn step(stash: StashView, path: Seq<NodeId>, i: int) -> bool {
    draws_on(stash, OutpointSelection::All, path[i], path[i + 1])
}

/// `path` starts at a transition of `ids` that has an output that the
/// selection covers, and goes on from each node to one whose output the
/// node spends.
pub open spec fn leads(
    stash: StashView,
    selection: OutpointSelection,
    ids: Seq<NodeId>,
    path: Seq<NodeId>,
) -> bool {
    &&& path.len() >= 2
    &&& ids.contains(path[0])
    &&& draws_on(stash, selection, path[0], path[1])
    &&& forall|i: int| 1 <= i < path.len() - 1 ==> #[trigger] step(stash, path, i)
}

/// The node `v` is an ancestor of a transition of `ids` that has an output
/// that the selection covers.
pub open spec fn descends(
    stash: StashView,
    selection: OutpointSelection,
    ids: Seq<NodeId>,
    v: NodeId,
) -> bool {
    exists|path: Seq<NodeId>| #[trigger] leads(stash, selection, ids, path) && path.last() == v
}

/// What a concatenation holds is what either part holds.
pub proof fn lemma_concat_contains<A>(a: Seq<A>, b: Seq<A>, x: A)
    ensures
        (a + b).contains(x) <==> a.contains(x) || b.contains(x),
{
    if (a + b).contains(x) {
        let m = choose|m: int| 0 <= m < (a + b).len() && (a + b)[m] == x;
        if m < a.len() {
            assert(a[m] == x);
        } else {
            assert(b[m - a.len()] == x);
        }
    }
    if a.contains(x) {
        let m = choose|m: int| 0 <= m < a.len() && a[m] == x;
        assert((a + b)[m] == x);
    }
    if b.contains(x) {
        let m = choose|m: int| 0 <= m < b.len() && b[m] == x;
        assert((a + b)[a.len() + m] == x);
    }
}

/// What a repetition holds is what the repeated list holds, where it is
/// written out at least once.
pub proof fn lemma_repeated_contains<A>(xs: Seq<A>, n: nat, x: A)
    ensures
        repeated(xs, n).contains(x) <==> n > 0 && xs.contains(x),
    decreases n,
{
    if n > 0 {
        lemma_repeated_contains(xs, (n - 1) as nat, x);
        lemma_concat_contains(repeated(xs, (n - 1) as nat), xs, x);
    }
}

/// What is queued over a list of visits is what one of the visited
/// transitions draws on.
pub proof fn lemma_queued_contains(
    stash: StashView,
    ids: Seq<NodeId>,
    selection: OutpointSelection,
    parent: NodeId,
)
    ensures
        queued(stash, ids, selection).contains(parent) <==> drawn_by(stash, selection, ids, parent),
    decreases ids.len(),
{
    if ids.len() > 0 {
        let front = ids.drop_last();
        lemma_queued_contains(stash, front, selection, parent);
        lemma_concat_contains(
            queued(stash, front, selection),
            queued_at(stash, ids.last(), selection),
            parent,
        );
        let t = stash.transitions[ids.last().0];
        let txid = stash.transition_txid[ids.last().0];
        lemma_repeated_contains(
            parent_ids(t.parents),
            disclosed(t.assignments, txid, selection).len(),
            parent,
        );
        if drawn_by(stash, selection, front, parent) {
            let j = choose|j: int|
                0 <= j < front.len() && draws_on(stash, selection, #[trigger] front[j], parent);
            assert(draws_on(stash, selection, ids[j], parent));
        }
        if draws_on(stash, selection, ids.last(), parent) {
            assert(draws_on(stash, selection, ids[ids.len() - 1], parent));
        }
        if drawn_by(stash, selection, ids, parent) {
            let j = choose|j: int|
                0 <= j < ids.len() && draws_on(stash, selection, #[trigger] ids[j], parent);
            if j < ids.len() - 1 {
                assert(draws_on(stash, selection, front[j], parent));
            }
        }
    }
}

/// A walk that does not fail queues the parents that its visits queue,
/// after what was queued before, and keeps the contract.
pub proof fn lemma_walk_queues(
    c: CollectorView,
    stash: StashView,
    ids: Seq<NodeId>,
    selection: OutpointSelection,
)
    requires
        walked(c, stash, ids, selection).failure is None,
    ensures
        walked(c, stash, ids, selection).collector.endpoint_inputs == c.endpoint_inputs + queued(
            stash,
            ids,
            selection,
        ),
        walked(c, stash, ids, selection).collector.contract_id == c.contract_id,
    decreases ids.len(),
{
    if ids.len() == 0 {
        assert(c.endpoint_inputs + queued(stash, ids, selection) =~= c.endpoint_inputs);
    } else {
        lemma_walk_queues(c, stash, ids.drop_last(), selection);
        assert((c.endpoint_inputs + queued(stash, ids.drop_last(), selection)) + queued_at(
            stash,
            ids.last(),
            selection,
        ) =~= c.endpoint_inputs + queued(stash, ids, selection));
    }
}

/// What a closure that does not fail has visited: what was queued, the
/// parents that the visited transitions draw on, and only transitions that
/// were queued or that a visited transition draws on; none of them twice,
/// and never the genesis.
pub proof fn lemma_closure_visits(c: CollectorView, stash: StashView, seen: Seq<NodeId>)
    requires
        stash.transitions.dom().finite(),
        closed(c, stash, seen).failure is None,
        seen.no_duplicates(),
    ensures
        closed(c, stash, seen).seen.len() >= seen.len(),
        closed(c, stash, seen).seen.take(seen.len() as int) == seen,
        closed(c, stash, seen).seen.no_duplicates(),
        forall|q: NodeId| #[trigger]
            c.endpoint_inputs.contains(q) ==> q == genesis_node(c.contract_id) || closed(
                c,
                stash,
                seen,
            ).seen.contains(q),
        forall|v: NodeId, p: NodeId|
            closed(c, stash, seen).seen.skip(seen.len() as int).contains(v) && #[trigger] draws_on(
                stash,
                OutpointSelection::All,
                v,
                p,
            ) ==> p == genesis_node(c.contract_id) || closed(c, stash, seen).seen.contains(p),
        forall|v: NodeId| #[trigger]
            closed(c, stash, seen).seen.skip(seen.len() as int).contains(v) ==> v != genesis_node(
                c.contract_id,
            ) && (c.endpoint_inputs.contains(v) || drawn_by(
                stash,
                OutpointSelection::All,
                closed(c, stash, seen).seen.skip(seen.len() as int),
                v,
            )),
        forall|n: int|
            0 <= n < closed(c, stash, seen).seen.skip(seen.len() as int).len()
                ==> #[trigger] justified(
                c.endpoint_inputs,
                stash,
                closed(c, stash, seen).seen.skip(seen.len() as int),
                n,
            ),
    decreases unseen(stash, seen),
{
    let genesis = genesis_node(c.contract_id);
    let fresh = fresh_ids(c.endpoint_inputs, seen, genesis);
    let start = CollectorView { endpoint_inputs: Seq::empty(), ..c };
    let all = closed(c, stash, seen).seen;
    lemma_fresh(c.endpoint_inputs, seen, genesis);
    if fresh.len() == 0 {
        assert(seen.take(seen.len() as int) =~= seen);
        assert(all.skip(seen.len() as int) =~= Seq::<NodeId>::empty());
    } else {
        let round = walked(start, stash, fresh, OutpointSelection::All);
        let next = seen + fresh;
        lemma_walk_queues(start, stash, fresh, OutpointSelection::All);
        lemma_round_shrinks(c, stash, seen);
        assert(next.no_duplicates()) by {
            assert forall|i: int, j: int| 0 <= i < j < next.len() implies next[i] != next[j] by {
                if j >= seen.len() && i < seen.len() {
                    assert(fresh[j - seen.len()] == next[j]);
                    assert(seen.contains(next[i]));
                } else if i >= seen.len() {
                    assert(fresh[i - seen.len()] == next[i]);
                    assert(fresh[j - seen.len()] == next[j]);
                }
            }
        }
        lemma_closure_visits(round.collector, stash, next);
        let n = next.len() as int;
        let more = all.skip(n);
        let new = all.skip(seen.len() as int);
        assert(all.take(seen.len() as int) =~= all.take(n).take(seen.len() as int));
        assert forall|i: int| 0 <= i < fresh.len() implies new[i] == fresh[i] by {
            assert(all.take(n)[seen.len() + i] == all[seen.len() + i]);
            assert(next[seen.len() + i] == fresh[i]);
        }
        assert(new =~= fresh + more);
        assert(round.collector.endpoint_inputs =~= queued(stash, fresh, OutpointSelection::All));
        assert forall|x: NodeId| next.contains(x) implies all.contains(x) by {
            let m = choose|m: int| 0 <= m < next.len() && next[m] == x;
            assert(all.take(n)[m] == all[m]);
        }
        assert forall|x: NodeId| more.contains(x) implies all.contains(x) by {
            let m = choose|m: int| 0 <= m < more.len() && more[m] == x;
            assert(all[n + m] == x);
        }
        assert forall|q: NodeId| #[trigger] c.endpoint_inputs.contains(q) implies q == genesis
            || all.contains(q) by {
            if q != genesis {
                if seen.contains(q) {
                    lemma_concat_contains(seen, fresh, q);
                } else {
                    assert(fresh.contains(q));
                    lemma_concat_contains(seen, fresh, q);
                }
            }
        }
        assert forall|v: NodeId, p: NodeId|
            new.contains(v) && #[trigger] draws_on(
                stash,
                OutpointSelection::All,
                v,
                p,
            ) implies p == genesis || all.contains(p) by {
            lemma_concat_contains(fresh, more, v);
            if fresh.contains(v) {
                let j = choose|j: int| 0 <= j < fresh.len() && fresh[j] == v;
                assert(draws_on(stash, OutpointSelection::All, fresh[j], p));
                lemma_queued_contains(stash, fresh, OutpointSelection::All, p);
                assert(round.collector.endpoint_inputs.contains(p));
            }
        }
        assert forall|n: int| 0 <= n < new.len() implies #[trigger] justified(
            c.endpoint_inputs,
            stash,
            new,
            n,
        ) by {
            if n < fresh.len() {
                assert(new[n] == fresh[n]);
                assert(c.endpoint_inputs.contains(fresh[n]));
            } else {
                let k = n - fresh.len();
                assert(new[n] == more[k]);
                assert(justified(round.collector.endpoint_inputs, stash, more, k));
                if round.collector.endpoint_inputs.contains(more[k]) {
                    lemma_queued_contains(stash, fresh, OutpointSelection::All, more[k]);
                    let j = choose|j: int|
                        0 <= j < fresh.len() && draws_on(
                            stash,
                            OutpointSelection::All,
                            #[trigger] fresh[j],
                            more[k],
                        );
                    assert(new[j] == fresh[j]);
                    assert(draws_on(stash, OutpointSelection::All, new[j], new[n]));
                } else {
                    let j = choose|j: int|
                        0 <= j < k && draws_on(
                            stash,
                            OutpointSelection::All,
                            #[trigger] more[j],
                            more[k],
                        );
                    assert(new[fresh.len() + j] == more[j]);
                    assert(draws_on(stash, OutpointSelection::All, new[fresh.len() + j], new[n]));
                }
            }
        }
        assert forall|v: NodeId| #[trigger] new.contains(v) implies v != genesis && (
        c.endpoint_inputs.contains(v) || drawn_by(stash, OutpointSelection::All, new, v)) by {
            lemma_concat_contains(fresh, more, v);
            if fresh.contains(v) {
                let j = choose|j: int| 0 <= j < fresh.len() && fresh[j] == v;
                assert(fresh[j] != genesis && c.endpoint_inputs.contains(fresh[j]));
            } else {
                assert(more.contains(v));
                if round.collector.endpoint_inputs.contains(v) {
                    lemma_queued_contains(stash, fresh, OutpointSelection::All, v);
                    let j = choose|j: int|
                        0 <= j < fresh.len() && draws_on(
                            stash,
                            OutpointSelection::All,
                            #[trigger] fresh[j],
                            v,
                        );
                    assert(new[j] == fresh[j]);
                    assert(draws_on(stash, OutpointSelection::All, new[j], v));
                } else {
                    let j = choose|j: int|
                        0 <= j < more.len() && draws_on(
                            stash,
                            OutpointSelection::All,
                            #[trigger] more[j],
                            v,
                        );
                    assert(new[fresh.len() + j] == more[j]);
                    assert(draws_on(stash, OutpointSelection::All, new[fresh.len() + j], v));
                }
            }
        }
    }
}

/// Of a composition whose walks do not fail: the closure visits every
/// parent, but the genesis, of a transition of the forward walk that has a
/// disclosed output, and every parent, but the genesis, of a transition it
/// visits that has an assignment; it visits nothing else, nothing twice, and
/// never the genesis.
pub proof fn lemma_ancestry(
    stash: StashView,
    contract_id: ContractId,
    kinds: Seq<u16>,
    selection: OutpointSelection,
)
    requires
        stash.transitions.dom().finite(),
        forward(stash, contract_id, kinds, selection).failure is None,
        closure(stash, contract_id, kinds, selection).failure is None,
    ensures
        closure(stash, contract_id, kinds, selection).seen.no_duplicates(),
        forall|id: NodeId, p: NodeId|
            forward_list(stash, contract_id, kinds).contains(id)
                && #[trigger] draws_on(stash, selection, id, p) ==> p == genesis_node(contract_id)
                || closure(stash, contract_id, kinds, selection).seen.contains(p),
        forall|v: NodeId, p: NodeId|
            closure(stash, contract_id, kinds, selection).seen.contains(v) && #[trigger] draws_on(
                stash,
                OutpointSelection::All,
                v,
                p,
            ) ==> p == genesis_node(contract_id) || closure(
                stash,
                contract_id,
                kinds,
                selection,
            ).seen.contains(p),
        forall|v: NodeId| #[trigger]
            closure(stash, contract_id, kinds, selection).seen.contains(v) ==> v != genesis_node(
                contract_id,
            ) && (drawn_by(
                stash,
                selection,
                forward_list(stash, contract_id, kinds),
                v,
            ) || drawn_by(
                stash,
                OutpointSelection::All,
                closure(stash, contract_id, kinds, selection).seen,
                v,
            )),
{
    let ids = forward_list(stash, contract_id, kinds);
    let start = Collector::empty(contract_id);
    let gathered = forward(stash, contract_id, kinds, selection).collector;
    let seen = closure(stash, contract_id, kinds, selection).seen;
    lemma_walk_queues(start, stash, ids, selection);
    lemma_closure_visits(gathered, stash, Seq::empty());
    assert(seen.skip(0) =~= seen);
    assert(gathered.endpoint_inputs =~= queued(stash, ids, selection));
    assert forall|id: NodeId, p: NodeId|
        ids.contains(id) && #[trigger] draws_on(stash, selection, id, p) implies p == genesis_node(
        contract_id,
    ) || seen.contains(p) by {
        let j = choose|j: int| 0 <= j < ids.len() && ids[j] == id;
        assert(draws_on(stash, selection, ids[j], p));
        lemma_queued_contains(stash, ids, selection, p);
        assert(gathered.endpoint_inputs.contains(p));
    }
    assert forall|v: NodeId| #[trigger] seen.contains(v) implies v != genesis_node(contract_id)
        && (drawn_by(stash, selection, ids, v) || drawn_by(
        stash,
        OutpointSelection::All,
        seen,
        v,
    )) by {
        lemma_queued_contains(stash, ids, selection, v);
    }
}

proof fn lemma_descends_at(
    stash: StashView,
    contract_id: ContractId,
    kinds: Seq<u16>,
    selection: OutpointSelection,
    n: int,
)
    requires
        stash.transitions.dom().finite(),
        forward(stash, contract_id, kinds, selection).failure is None,
        closure(stash, contract_id, kinds, selection).failure is None,
        0 <= n < closure(stash, contract_id, kinds, selection).seen.len(),
    ensures
        descends(
            stash,
            selection,
            forward_list(stash, contract_id, kinds),
            closure(stash, contract_id, kinds, selection).seen[n],
        ),
    decreases n,
{
    let ids = forward_list(stash, contract_id, kinds);
    let start = Collector::empty(contract_id);
    let gathered = forward(stash, contract_id, kinds, selection).collector;
    let seen = closure(stash, contract_id, kinds, selection).seen;
    let v = seen[n];
    lemma_walk_queues(start, stash, ids, selection);
    lemma_closure_visits(gathered, stash, Seq::empty());
    assert(seen.skip(0) =~= seen);
    assert(gathered.endpoint_inputs =~= queued(stash, ids, selection));
    assert(justified(gathered.endpoint_inputs, stash, seen, n));
    if gathered.endpoint_inputs.contains(v) {
        lemma_queued_contains(stash, ids, selection, v);
        let j = choose|j: int|
            0 <= j < ids.len() && draws_on(stash, selection, #[trigger] ids[j], v);
        let path = seq![ids[j], v];
        assert(ids.contains(path[0]));
        assert(leads(stash, selection, ids, path));
        assert(path.last() == v);
    } else {
        let j = choose|j: int|
            0 <= j < n && draws_on(stash, OutpointSelection::All, #[trigger] seen[j], seen[n]);
        lemma_descends_at(stash, contract_id, kinds, selection, j);
        let before = choose|path: Seq<NodeId>| #[trigger]
            leads(stash, selection, ids, path) && path.last() == seen[j];
        let path = before.push(v);
        assert forall|i: int| 1 <= i < path.len() - 1 implies #[trigger] step(stash, path, i) by {
            if i < before.len() - 1 {
                assert(step(stash, before, i));
                assert(path[i] == before[i] && path[i + 1] == before[i + 1]);
            } else {
                assert(path[i] == before.last() && path[i + 1] == v);
            }
        }
        assert(path[0] == before[0] && path[1] == before[1]);
        assert(leads(stash, selection, ids, path));
        assert(path.last() == v);
    }
}

/// Every transition that the closure visits is an ancestor of a transition
/// of the forward walk that has an output that the selection covers: a
/// path leads to it from that transition, from each node to one whose
/// output the node spends.
pub proof fn lemma_descent(
    stash: StashView,
    contract_id: ContractId,
    kinds: Seq<u16>,
    selection: OutpointSelection,
    v: NodeId,
)
    requires
        stash.transitions.dom().finite(),
        forward(stash, contract_id, kinds, selection).failure is None,
        closure(stash, contract_id, kinds, selection).failure is None,
        closure(stash, contract_id, kinds, selection).seen.contains(v),
    ensures
        descends(stash, selection, forward_list(stash, contract_id, kinds), v),
{
    let seen = closure(stash, contract_id, kinds, selection).seen;
    let n = choose|n: int| 0 <= n < seen.len() && seen[n] == v;
    lemma_descends_at(stash, contract_id, kinds, selection, n);
}

} // verus!
