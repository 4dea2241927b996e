//! The traversal that gathers, for a set of transitions, the bundles that
//! anchor them, the outputs to disclose and the ancestors still to visit.

use vstd::prelude::*;
use crate::anchor::AnchorProof;
use crate::bundle::{concealed, revealed_in, ItemView, TransitionBundle};
use crate::consignment::{AnchoredBundle, AnchoredBundleView, Consignment, ConsignmentView, Endpoint};
use crate::graph::{Assignment, Genesis, GenesisView, Schema, Transition};
use crate::ident::{
    lemma_order_strict, lemma_order_total, lemma_order_transitive, BundleId, ContractId, Digest,
    NodeId, NodeOutpoint, Txid,
};
use crate::lookup::{
    first_index, is_first, lemma_first_absent, lemma_first_found, lemma_first_index,
};
use crate::seal::SealEndpoint;
use crate::selection::OutpointSelection;
use crate::stash::{Stash, StashError, StashView};

verus! {

/// A bundle gathered for a witness transaction, with the proof that the
/// transaction commits to it under the contract.
#[derive(Debug, PartialEq, Eq)]
pub struct CachedBundle {
    pub txid: Txid,
    pub anchor: AnchorProof,
    pub bundle: TransitionBundle,
}

/// A gathered bundle as contracts speak of it.
pub struct CachedView {
    pub txid: Txid,
    pub anchor: AnchorProof,
    pub bundle: Seq<ItemView>,
}

impl View for CachedBundle {
    type V = CachedView;

    open spec fn view(&self) -> CachedView {
        CachedView { txid: self.txid, anchor: self.anchor, bundle: self.bundle@ }
    }
}

/// What has been gathered for one contract: a bundle for each witness
/// transaction met (of two for one transaction the first counts), the
/// outputs to disclose, and the parents of disclosed transitions that are
/// still to be visited. The bundles are held as they were gathered; a
/// consignment carries them by ascending witness transaction.
#[derive(Debug, PartialEq, Eq)]
pub struct Collector {
    pub contract_id: ContractId,
    pub anchored_bundles: Vec<CachedBundle>,
    pub endpoints: Vec<Endpoint>,
    pub endpoint_inputs: Vec<NodeId>,
}

/// A collector as contracts speak of it.
#[verifier::ext_equal]
pub struct CollectorView {
    pub contract_id: ContractId,
    pub anchored_bundles: Seq<CachedView>,
    pub endpoints: Seq<Endpoint>,
    pub endpoint_inputs: Seq<NodeId>,
}

impl View for Collector {
    type V = CollectorView;

    open spec fn view(&self) -> CollectorView {
        CollectorView {
            contract_id: self.contract_id,
            anchored_bundles: self.anchored_bundles@.map_values(|c: CachedBundle| c@),
            endpoints: self.endpoints@,
            endpoint_inputs: self.endpoint_inputs@,
        }
    }
}

/// The witness transactions of the gathered bundles, in order.
pub open spec fn cached_txids(bundles: Seq<CachedView>) -> Seq<Txid> {
    bundles.map_values(|c: CachedView| c.txid)
}

/// The assignments whose seal, closed by `txid`, points to a selected
/// output; in order.
pub open spec fn disclosed(
    assignments: Seq<Assignment>,
    txid: Txid,
    selection: OutpointSelection,
) -> Seq<Assignment>
    decreases assignments.len(),
{
    if assignments.len() == 0 {
        Seq::empty()
    } else {
        let rest = disclosed(assignments.drop_last(), txid, selection);
        if selection.selects(assignments.last().seal.spec_outpoint_or(txid)) {
            rest.push(assignments.last())
        } else {
            rest
        }
    }
}

/// The node outputs that the disclosed assignments of node `node_id` stand
/// for.
pub open spec fn tips_of(node_id: NodeId, hits: Seq<Assignment>) -> Seq<NodeOutpoint> {
    hits.map_values(|a: Assignment| NodeOutpoint { node_id, ty: a.ty, output_no: a.output_no })
}

/// The endpoints that disclose the given assignments of a bundle.
pub open spec fn endpoints_of(bundle_id: BundleId, hits: Seq<Assignment>) -> Seq<Endpoint> {
    hits.map_values(|a: Assignment| Endpoint { bundle_id, seal: SealEndpoint::of(a.seal) })
}

/// The nodes whose outputs are spent, in order.
pub open spec fn parent_ids(parents: Seq<NodeOutpoint>) -> Seq<NodeId> {
    parents.map_values(|p: NodeOutpoint| p.node_id)
}

/// `xs` written out `n` times.
pub open spec fn repeated<A>(xs: Seq<A>, n: nat) -> Seq<A>
    decreases n,
{
    if n == 0 {
        Seq::empty()
    } else {
        repeated(xs, (n - 1) as nat) + xs
    }
}

/// The collector with the bundle of `txid` at hand, and where it stands:
/// the one gathered before, or else the one of the stash, with no content
/// and with its anchor narrowed to the contract, put last.
pub open spec fn with_bundle(c: CollectorView, stash: StashView, txid: Txid) -> Result<
    (CollectorView, int),
    StashError,
> {
    match first_index(cached_txids(c.anchored_bundles), txid) {
        Some(i) => Ok((c, i)),
        None => if !stash.anchors.contains_key(txid.0) {
            Err(StashError::AnchorAbsent(txid))
        } else if !stash.bundles.contains_key(txid.0) {
            Err(StashError::BundleAbsent(txid))
        } else {
            match stash.anchors[txid.0].proof_for(c.contract_id) {
                None => Err(StashError::UnrelatedAnchor),
                Some(anchor) => Ok(
                    (
                        CollectorView {
                            anchored_bundles: c.anchored_bundles.push(
                                CachedView { txid, anchor, bundle: concealed(stash.bundles[txid.0]) },
                            ),
                            ..c
                        },
                        c.anchored_bundles.len() as int,
                    ),
                ),
            }
        },
    }
}

/// The collector after the transition `id` is visited, with the node
/// outputs found to disclose: the transition is revealed in its bundle,
/// and for each of its disclosed assignments an endpoint is recorded and
/// its parents are queued. An error leaves the collector as it was.
pub open spec fn visited(
    c: CollectorView,
    stash: StashView,
    id: NodeId,
    selection: OutpointSelection,
) -> Result<(CollectorView, Seq<NodeOutpoint>), StashError> {
    if !stash.transitions.contains_key(id.0) {
        Err(StashError::TransitionAbsent(id))
    } else if !stash.transition_txid.contains_key(id.0) {
        Err(StashError::TransitionTxidAbsent(id))
    } else {
        let t = stash.transitions[id.0];
        let txid = stash.transition_txid[id.0];
        match with_bundle(c, stash, txid) {
            Err(e) => Err(e),
            Ok((c1, i)) => {
                let cached = c1.anchored_bundles[i];
                let hits = disclosed(t.assignments, txid, selection);
                match revealed_in(cached.bundle, t) {
                    Err(e) => Err(StashError::BundleReveal(e)),
                    Ok((items, _)) => Ok(
                        (
                            CollectorView {
                                contract_id: c1.contract_id,
                                anchored_bundles: c1.anchored_bundles.update(
                                    i,
                                    CachedView {
                                        txid: cached.txid,
                                        anchor: cached.anchor,
                                        bundle: items,
                                    },
                                ),
                                endpoints: c1.endpoints + endpoints_of(
                                    TransitionBundle::spec_bundle_id(cached.bundle),
                                    hits,
                                ),
                                endpoint_inputs: c1.endpoint_inputs + repeated(
                                    parent_ids(t.parents),
                                    hits.len(),
                                ),
                            },
                            tips_of(id, hits),
                        ),
                    ),
                }
            },
        }
    }
}

/// Where a walk over a list of transitions has got to: the collector, the
/// node outputs found to disclose, and the error that stopped it, if one
/// did.
#[verifier::ext_equal]
pub struct Walk {
    pub collector: CollectorView,
    pub tips: Seq<NodeOutpoint>,
    pub failure: Option<StashError>,
}

/// The walk over `ids` in order, stopped by the first error.
pub open spec fn walked(
    c: CollectorView,
    stash: StashView,
    ids: Seq<NodeId>,
    selection: OutpointSelection,
) -> Walk
    decreases ids.len(),
{
    if ids.len() == 0 {
        Walk { collector: c, tips: Seq::empty(), failure: None }
    } else {
        let prev = walked(c, stash, ids.drop_last(), selection);
        if prev.failure is Some {
            prev
        } else {
            match visited(prev.collector, stash, ids.last(), selection) {
                Ok((next, tips)) => Walk { collector: next, tips: prev.tips + tips, failure: None },
                Err(e) => Walk { collector: prev.collector, tips: prev.tips, failure: Some(e) },
            }
        }
    }
}

fn find_cached(bundles: &Vec<CachedBundle>, txid: Txid) -> (r: Option<usize>)
    ensures
        match r {
            Some(i) => i < bundles.len() && first_index(
                cached_txids(bundles@.map_values(|c: CachedBundle| c@)),
                txid,
            ) == Some(i as int),
            None => first_index(cached_txids(bundles@.map_values(|c: CachedBundle| c@)), txid)
                is None,
        },
{
    let ghost keys = cached_txids(bundles@.map_values(|c: CachedBundle| c@));
    let mut i: usize = 0;
    while i < bundles.len()
        invariant
            i <= bundles.len(),
            keys == cached_txids(bundles@.map_values(|c: CachedBundle| c@)),
            forall|j: int| 0 <= j < i ==> keys[j] != txid,
        decreases bundles.len() - i,
    {
        if bundles[i].txid.same(&txid) {
            proof {
                assert(is_first(keys, txid, i as int));
                lemma_first_found(keys, txid, i as int);
            }
            return Some(i);
        }
        i += 1;
    }
    proof {
        lemma_first_absent(keys, txid);
    }
    None
}

fn disclosed_of(transition: &Transition, txid: Txid, selection: &OutpointSelection) -> (hits: Vec<
    Assignment,
>)
    ensures
        hits@ == disclosed(transition.assignments@, txid, *selection),
{
    let mut hits: Vec<Assignment> = Vec::new();
    let mut i: usize = 0;
    while i < transition.assignments.len()
        invariant
            i <= transition.assignments.len(),
            hits@ == disclosed(transition.assignments@.take(i as int), txid, *selection),
        decreases transition.assignments.len() - i,
    {
        let a = transition.assignments[i];
        proof {
            assert(transition.assignments@.take(i + 1).drop_last() == transition.assignments@.take(
                i as int,
            ));
        }
        if selection.includes(a.seal.outpoint_or(txid)) {
            hits.push(a);
        }
        i += 1;
    }
    proof {
        assert(transition.assignments@.take(i as int) == transition.assignments@);
    }
    hits
}

fn queue_parents(queue: &mut Vec<NodeId>, parents: &Vec<NodeOutpoint>)
    ensures
        final(queue)@ == old(queue)@ + parent_ids(parents@),
{
    let mut i: usize = 0;
    while i < parents.len()
        invariant
            i <= parents.len(),
            queue@ == old(queue)@ + parent_ids(parents@).take(i as int),
        decreases parents.len() - i,
    {
        queue.push(parents[i].node_id);
        proof {
            assert(queue@ =~= old(queue)@ + parent_ids(parents@).take(i + 1));
        }
        i += 1;
    }
    proof {
        assert(parent_ids(parents@).take(i as int) =~= parent_ids(parents@));
    }
}

/// Records the disclosed assignments `hits` of the transition `id`.
fn record(
    endpoints: &mut Vec<Endpoint>,
    queue: &mut Vec<NodeId>,
    id: NodeId,
    bundle_id: BundleId,
    parents: &Vec<NodeOutpoint>,
    hits: &Vec<Assignment>,
) -> (tips: Vec<NodeOutpoint>)
    ensures
        tips@ == tips_of(id, hits@),
        final(endpoints)@ == old(endpoints)@ + endpoints_of(bundle_id, hits@),
        final(queue)@ == old(queue)@ + repeated(parent_ids(parents@), hits@.len()),
{
    let mut tips: Vec<NodeOutpoint> = Vec::new();
    let mut i: usize = 0;
    while i < hits.len()
        invariant
            i <= hits.len(),
            tips@ == tips_of(id, hits@.take(i as int)),
            endpoints@ == old(endpoints)@ + endpoints_of(bundle_id, hits@.take(i as int)),
            queue@ == old(queue)@ + repeated(parent_ids(parents@), i as nat),
        decreases hits.len() - i,
    {
        let hit = hits[i];
        tips.push(NodeOutpoint::new(id, hit.ty, hit.output_no));
        endpoints.push(Endpoint { bundle_id, seal: SealEndpoint::from_revealed(&hit.seal) });
        queue_parents(queue, parents);
        proof {
            assert(hits@.take(i + 1) =~= hits@.take(i as int).push(hit));
            assert(tips@ =~= tips_of(id, hits@.take(i + 1)));
            assert(endpoints@ =~= old(endpoints)@ + endpoints_of(bundle_id, hits@.take(i + 1)));
            assert(queue@ =~= old(queue)@ + repeated(parent_ids(parents@), (i + 1) as nat));
        }
        i += 1;
    }
    proof {
        assert(hits@.take(i as int) =~= hits@);
    }
    tips
}

impl Collector {
    /// The view of a collector that has gathered nothing.
    pub open spec fn empty(contract_id: ContractId) -> CollectorView {
        CollectorView {
            contract_id,
            anchored_bundles: Seq::empty(),
            endpoints: Seq::empty(),
            endpoint_inputs: Seq::empty(),
        }
    }

    /// A collector for `contract_id` that has gathered nothing.
    pub fn new(contract_id: ContractId) -> (c: Collector)
        ensures
            c@ == Collector::empty(contract_id),
    {
        let c = Collector {
            contract_id,
            anchored_bundles: Vec::new(),
            endpoints: Vec::new(),
            endpoint_inputs: Vec::new(),
        };
        proof {
            assert(c@.anchored_bundles =~= Seq::empty());
        }
        c
    }

    fn visit(&mut self, stash: &Stash, id: NodeId, selection: &OutpointSelection) -> (r: Result<
        Vec<NodeOutpoint>,
        StashError,
    >)
        ensures
            match visited(old(self)@, stash@, id, *selection) {
                Ok((c, tips)) => r is Ok && r->Ok_0@ == tips && final(self)@ == c,
                Err(e) => r == Err::<Vec<NodeOutpoint>, StashError>(e) && final(self)@ == old(
                    self,
                )@,
            },
    {
        let transition = match stash.transitions.get(&id.0) {
            Some(t) => t,
            None => {
                return Err(StashError::TransitionAbsent(id));
            },
        };
        let txid = match stash.transition_txid.get(&id.0) {
            Some(t) => *t,
            None => {
                return Err(StashError::TransitionTxidAbsent(id));
            },
        };
        let hits = disclosed_of(transition, txid, selection);
        let ghost before = self@;
        match find_cached(&self.anchored_bundles, txid) {
            Some(i) => {
                let mut cached = self.anchored_bundles.remove(i);
                let bundle_id = cached.bundle.bundle_id();
                let revealed = cached.bundle.reveal_transition(transition.copy());
                let ghost after = cached@;
                self.anchored_bundles.insert(i, cached);
                proof {
                    assert(self@.anchored_bundles =~= before.anchored_bundles.update(
                        i as int,
                        after,
                    ));
                }
                match revealed {
                    Err(e) => {
                        proof {
                            assert(self@.anchored_bundles =~= before.anchored_bundles);
                        }
                        return Err(StashError::BundleReveal(e));
                    },
                    Ok(_) => {},
                }
                let tips = record(
                    &mut self.endpoints,
                    &mut self.endpoint_inputs,
                    id,
                    bundle_id,
                    &transition.parents,
                    &hits,
                );
                Ok(tips)
            },
            None => {
                let block = match stash.anchors.get(&txid.0) {
                    Some(block) => block,
                    None => {
                        return Err(StashError::AnchorAbsent(txid));
                    },
                };
                let stored = match stash.bundles.get(&txid.0) {
                    Some(stored) => stored,
                    None => {
                        return Err(StashError::BundleAbsent(txid));
                    },
                };
                let anchor = match block.to_merkle_proof(self.contract_id) {
                    Ok(anchor) => anchor,
                    Err(_) => {
                        return Err(StashError::UnrelatedAnchor);
                    },
                };
                let mut bundle = stored.to_concealed();
                let bundle_id = bundle.bundle_id();
                match bundle.reveal_transition(transition.copy()) {
                    Err(e) => {
                        return Err(StashError::BundleReveal(e));
                    },
                    Ok(_) => {},
                }
                let cached = CachedBundle { txid, anchor, bundle };
                let ghost after = cached@;
                self.anchored_bundles.push(cached);
                proof {
                    assert(self@.anchored_bundles =~= before.anchored_bundles.push(
                        CachedView { txid, anchor, bundle: concealed(stash@.bundles[txid.0]) },
                    ).update(before.anchored_bundles.len() as int, after));
                }
                let tips = record(
                    &mut self.endpoints,
                    &mut self.endpoint_inputs,
                    id,
                    bundle_id,
                    &transition.parents,
                    &hits,
                );
                Ok(tips)
            },
        }
    }

    /// Visits the transitions `node_ids` in order and hands back the node
    /// outputs found to disclose. The first error stops the walk and is
    /// handed back; the collector then holds what was gathered before the
    /// transition that failed.
    pub fn process(&mut self, stash: &Stash, node_ids: &Vec<NodeId>, selection: &OutpointSelection) -> (r:
        Result<Vec<NodeOutpoint>, StashError>)
        ensures
            final(self)@ == walked(old(self)@, stash@, node_ids@, *selection).collector,
            match walked(old(self)@, stash@, node_ids@, *selection).failure {
                None => r is Ok && r->Ok_0@ == walked(
                    old(self)@,
                    stash@,
                    node_ids@,
                    *selection,
                ).tips,
                Some(e) => r == Err::<Vec<NodeOutpoint>, StashError>(e),
            },
    {
        let mut tips: Vec<NodeOutpoint> = Vec::new();
        let mut i: usize = 0;
        while i < node_ids.len()
            invariant
                i <= node_ids.len(),
                walked(old(self)@, stash@, node_ids@.take(i as int), *selection) == (Walk {
                    collector: self@,
                    tips: tips@,
                    failure: None,
                }),
            decreases node_ids.len() - i,
        {
            proof {
                assert(node_ids@.take(i + 1).drop_last() == node_ids@.take(i as int));
            }
            match self.visit(stash, node_ids[i], selection) {
                Ok(mut found) => {
                    tips.append(&mut found);
                },
                Err(e) => {
                    proof {
                        lemma_walk_stays_failed(
                            old(self)@,
                            stash@,
                            node_ids@,
                            *selection,
                            i + 1,
                        );
                    }
                    return Err(e);
                },
            }
            i += 1;
        }
        proof {
            assert(node_ids@.take(i as int) == node_ids@);
        }
        Ok(tips)
    }
}

/// A walk that has failed on a prefix of `ids` stays as it is on `ids`.
pub proof fn lemma_walk_stays_failed(
    c: CollectorView,
    stash: StashView,
    ids: Seq<NodeId>,
    selection: OutpointSelection,
    n: int,
)
    requires
        0 <= n <= ids.len(),
        walked(c, stash, ids.take(n), selection).failure is Some,
    ensures
        walked(c, stash, ids, selection) == walked(c, stash, ids.take(n), selection),
    decreases ids.len() - n,
{
    if n < ids.len() {
        assert(ids.take(n + 1).drop_last() == ids.take(n));
        lemma_walk_stays_failed(c, stash, ids, selection, n + 1);
    } else {
        assert(ids.take(n) == ids);
    }
}

/// The most anchored bundles that a consignment may hold.
pub const MAX_ANCHORED_BUNDLES: u64 = 0xFFFF_FFFF;

/// The node that stands for the genesis of a contract.
pub open spec fn genesis_node(contract_id: ContractId) -> NodeId {
    NodeId(contract_id.0)
}

/// The queued nodes that a round of the closure visits: each once, in the
/// order queued, without the genesis and without what was visited before.
pub open spec fn fresh_ids(queue: Seq<NodeId>, seen: Seq<NodeId>, genesis: NodeId) -> Seq<NodeId>
    decreases queue.len(),
{
    if queue.len() == 0 {
        Seq::empty()
    } else {
        let rest = fresh_ids(queue.drop_last(), seen, genesis);
        let id = queue.last();
        if id == genesis || seen.contains(id) || rest.contains(id) {
            rest
        } else {
            rest.push(id)
        }
    }
}

/// How many transitions of the stash the closure has not visited.
pub open spec fn unseen(stash: StashView, seen: Seq<NodeId>) -> nat {
    stash.transitions.dom().filter(|d: Digest| !seen.contains(NodeId(d))).len()
}

/// Where a closure has got to: the collector, the transitions visited, and
/// the error that stopped it, if one did.
#[verifier::ext_equal]
pub struct Closure {
    pub collector: CollectorView,
    pub seen: Seq<NodeId>,
    pub failure: Option<StashError>,
}

/// The closure: round after round, the queued parents are visited with
/// every output selected, until a round finds nothing new to visit or an
/// error stops it. `seen` holds what earlier rounds visited.
pub open spec fn closed(c: CollectorView, stash: StashView, seen: Seq<NodeId>) -> Closure
    decreases unseen(stash, seen),
    when stash.transitions.dom().finite()
{
    let fresh = fresh_ids(c.endpoint_inputs, seen, genesis_node(c.contract_id));
    let start = CollectorView { endpoint_inputs: Seq::empty(), ..c };
    if fresh.len() == 0 {
        Closure { collector: start, seen, failure: None }
    } else {
        let round = walked(start, stash, fresh, OutpointSelection::All);
        if round.failure is Some {
            Closure { collector: round.collector, seen, failure: round.failure }
        } else {
            proof {
                lemma_round_shrinks(c, stash, seen);
            }
            closed(round.collector, stash, seen + fresh)
        }
    }
}

/// A walk that did not fail found every transition it was asked to visit.
pub proof fn lemma_walked_known(
    c: CollectorView,
    stash: StashView,
    ids: Seq<NodeId>,
    selection: OutpointSelection,
)
    requires
        walked(c, stash, ids, selection).failure is None,
    ensures
        forall|j: int| 0 <= j < ids.len() ==> stash.transitions.contains_key((#[trigger] ids[j]).0),
    decreases ids.len(),
{
    if ids.len() > 0 {
        lemma_walked_known(c, stash, ids.drop_last(), selection);
        assert forall|j: int| 0 <= j < ids.len() implies stash.transitions.contains_key(
            (#[trigger] ids[j]).0,
        ) by {
            if j < ids.len() - 1 {
                assert(ids.drop_last()[j] == ids[j]);
            }
        }
    }
}

/// What a round visits is queued, is not the genesis, was not visited
/// before, and holds nothing twice.
pub proof fn lemma_fresh(queue: Seq<NodeId>, seen: Seq<NodeId>, genesis: NodeId)
    ensures
        forall|j: int|
            0 <= j < fresh_ids(queue, seen, genesis).len() ==> {
                let id = #[trigger] fresh_ids(queue, seen, genesis)[j];
                id != genesis && !seen.contains(id) && queue.contains(id)
            },
        fresh_ids(queue, seen, genesis).no_duplicates(),
        forall|id: NodeId|
            queue.contains(id) && id != genesis && !seen.contains(id) ==> fresh_ids(
                queue,
                seen,
                genesis,
            ).contains(id),
    decreases queue.len(),
{
    if queue.len() > 0 {
        lemma_fresh(queue.drop_last(), seen, genesis);
        let rest = fresh_ids(queue.drop_last(), seen, genesis);
        let fresh = fresh_ids(queue, seen, genesis);
        assert forall|j: int| 0 <= j < fresh.len() implies {
            let id = #[trigger] fresh[j];
            id != genesis && !seen.contains(id) && queue.contains(id)
        } by {
            if j < rest.len() {
                assert(fresh[j] == rest[j]);
                let k = choose|k: int| 0 <= k < queue.drop_last().len() && queue.drop_last()[k] == rest[j];
                assert(queue[k] == rest[j]);
            } else {
                assert(queue[queue.len() - 1] == queue.last());
            }
        }
        assert forall|id: NodeId|
            queue.contains(id) && id != genesis && !seen.contains(id) implies fresh.contains(
            id,
        ) by {
            let k = choose|k: int| 0 <= k < queue.len() && queue[k] == id;
            if k < queue.len() - 1 {
                assert(queue.drop_last()[k] == id);
                assert(rest.contains(id));
                let m = choose|m: int| 0 <= m < rest.len() && rest[m] == id;
                assert(fresh[m] == id);
            } else {
                if rest.contains(id) {
                    let m = choose|m: int| 0 <= m < rest.len() && rest[m] == id;
                    assert(fresh[m] == id);
                } else {
                    assert(fresh[fresh.len() - 1] == id);
                }
            }
        }
    }
}

/// A round that visits something and does not fail leaves fewer
/// transitions unvisited.
pub proof fn lemma_round_shrinks(c: CollectorView, stash: StashView, seen: Seq<NodeId>)
    requires
        stash.transitions.dom().finite(),
        fresh_ids(c.endpoint_inputs, seen, genesis_node(c.contract_id)).len() > 0,
        walked(
            CollectorView { endpoint_inputs: Seq::empty(), ..c },
            stash,
            fresh_ids(c.endpoint_inputs, seen, genesis_node(c.contract_id)),
            OutpointSelection::All,
        ).failure is None,
    ensures
        unseen(stash, seen + fresh_ids(c.endpoint_inputs, seen, genesis_node(c.contract_id)))
            < unseen(stash, seen),
{
    let fresh = fresh_ids(c.endpoint_inputs, seen, genesis_node(c.contract_id));
    let start = CollectorView { endpoint_inputs: Seq::empty(), ..c };
    lemma_walked_known(start, stash, fresh, OutpointSelection::All);
    lemma_fresh(c.endpoint_inputs, seen, genesis_node(c.contract_id));
    let dom = stash.transitions.dom();
    let before = dom.filter(|d: Digest| !seen.contains(NodeId(d)));
    let after = dom.filter(|d: Digest| !(seen + fresh).contains(NodeId(d)));
    let x = fresh[0];
    dom.lemma_len_filter(|d: Digest| !seen.contains(NodeId(d)));
    assert(NodeId(x.0) == x);
    assert(before.contains(x.0));
    assert((seen + fresh)[seen.len() as int] == x);
    assert forall|d: Digest| after.contains(d) implies before.remove(x.0).contains(d) by {
        if seen.contains(NodeId(d)) {
            let k = choose|k: int| 0 <= k < seen.len() && seen[k] == NodeId(d);
            assert((seen + fresh)[k] == NodeId(d));
        }
    }
    vstd::set_lib::lemma_len_subset(after, before.remove(x.0));
}

fn has_id(list: &Vec<NodeId>, id: NodeId) -> (r: bool)
    ensures
        r == list@.contains(id),
{
    let mut i: usize = 0;
    while i < list.len()
        invariant
            i <= list.len(),
            forall|j: int| 0 <= j < i ==> list@[j] != id,
        decreases list.len() - i,
    {
        if list[i].same(&id) {
            assert(list@[i as int] == id);
            return true;
        }
        i += 1;
    }
    false
}

fn select_fresh(queue: &Vec<NodeId>, seen: &Vec<NodeId>, genesis: NodeId) -> (fresh: Vec<NodeId>)
    ensures
        fresh@ == fresh_ids(queue@, seen@, genesis),
{
    let mut fresh: Vec<NodeId> = Vec::new();
    let mut i: usize = 0;
    while i < queue.len()
        invariant
            i <= queue.len(),
            fresh@ == fresh_ids(queue@.take(i as int), seen@, genesis),
        decreases queue.len() - i,
    {
        let id = queue[i];
        proof {
            assert(queue@.take(i + 1).drop_last() == queue@.take(i as int));
        }
        if !id.same(&genesis) && !has_id(seen, id) && !has_id(&fresh, id) {
            fresh.push(id);
        }
        i += 1;
    }
    proof {
        assert(queue@.take(i as int) == queue@);
    }
    fresh
}

/// `tips` with each node output kept where it first occurs.
pub open spec fn distinct(tips: Seq<NodeOutpoint>) -> Seq<NodeOutpoint>
    decreases tips.len(),
{
    if tips.len() == 0 {
        Seq::empty()
    } else {
        let rest = distinct(tips.drop_last());
        if rest.contains(tips.last()) {
            rest
        } else {
            rest.push(tips.last())
        }
    }
}

fn holds_tip(list: &Vec<NodeOutpoint>, tip: &NodeOutpoint) -> (r: bool)
    ensures
        r == list@.contains(*tip),
{
    let mut i: usize = 0;
    while i < list.len()
        invariant
            i <= list.len(),
            forall|j: int| 0 <= j < i ==> list@[j] != *tip,
        decreases list.len() - i,
    {
        if list[i].same(tip) {
            assert(list@[i as int] == *tip);
            return true;
        }
        i += 1;
    }
    false
}

fn distinct_tips(tips: &Vec<NodeOutpoint>) -> (r: Vec<NodeOutpoint>)
    ensures
        r@ == distinct(tips@),
{
    let mut r: Vec<NodeOutpoint> = Vec::new();
    let mut i: usize = 0;
    while i < tips.len()
        invariant
            i <= tips.len(),
            r@ == distinct(tips@.take(i as int)),
        decreases tips.len() - i,
    {
        let tip = tips[i];
        proof {
            assert(tips@.take(i + 1).drop_last() == tips@.take(i as int));
        }
        if !holds_tip(&r, &tip) {
            r.push(tip);
        }
        i += 1;
    }
    proof {
        assert(tips@.take(i as int) == tips@);
    }
    r
}

/// How many of the first of `keys` stand before `k`, up to the first that
/// does not.
pub open spec fn rank(keys: Seq<Txid>, k: Txid) -> int
    decreases keys.len(),
{
    if keys.len() == 0 {
        0
    } else if keys[0].0.precedes(k.0) {
        1 + rank(keys.drop_first(), k)
    } else {
        0
    }
}

/// `sorted` with `entry` put where its witness transaction belongs, unless
/// a bundle of that transaction is there already.
pub open spec fn placed(sorted: Seq<CachedView>, entry: CachedView) -> Seq<CachedView> {
    if cached_txids(sorted).contains(entry.txid) {
        sorted
    } else {
        sorted.insert(rank(cached_txids(sorted), entry.txid), entry)
    }
}

/// The gathered bundles by ascending witness transaction, the first
/// byte counting most; of two bundles of one transaction the first.
pub open spec fn arranged(bundles: Seq<CachedView>) -> Seq<CachedView>
    decreases bundles.len(),
{
    if bundles.len() == 0 {
        Seq::empty()
    } else {
        placed(arranged(bundles.drop_last()), bundles.last())
    }
}

/// Whether the witness transactions stand in strictly ascending order.
pub open spec fn ascending_txids(keys: Seq<Txid>) -> bool {
    forall|i: int, j: int| 0 <= i < j < keys.len() ==> keys[i].0.precedes(keys[j].0)
}

/// Where `rank` points: everything before it stands before `k`, and what
/// is there does not.
pub proof fn lemma_rank(keys: Seq<Txid>, k: Txid)
    ensures
        0 <= rank(keys, k) <= keys.len(),
        forall|j: int| 0 <= j < rank(keys, k) ==> (#[trigger] keys[j]).0.precedes(k.0),
        rank(keys, k) < keys.len() ==> !keys[rank(keys, k)].0.precedes(k.0),
    decreases keys.len(),
{
    if keys.len() > 0 && keys[0].0.precedes(k.0) {
        let rest = keys.drop_first();
        lemma_rank(rest, k);
        assert forall|j: int| 0 <= j < rank(keys, k) implies (#[trigger] keys[j]).0.precedes(
            k.0,
        ) by {
            if j > 0 {
                assert(rest[j - 1] == keys[j]);
            }
        }
        if rank(keys, k) < keys.len() {
            assert(rest[rank(rest, k)] == keys[rank(keys, k)]);
        }
    }
}

/// The arranged bundles stand by strictly ascending witness transaction;
/// each of them is one of the gathered; and where no two gathered bundles
/// have one witness transaction, each gathered bundle is among them.
pub proof fn lemma_arranged(bundles: Seq<CachedView>)
    ensures
        ascending_txids(cached_txids(arranged(bundles))),
        arranged(bundles).len() <= bundles.len(),
        forall|x: CachedView| arranged(bundles).contains(x) ==> bundles.contains(x),
        forall|i: int|
            0 <= i < bundles.len() ==> cached_txids(arranged(bundles)).contains(
                (#[trigger] bundles[i]).txid,
            ),
        cached_txids(bundles).no_duplicates() ==> arranged(bundles).len() == bundles.len()
            && forall|i: int|
            0 <= i < bundles.len() ==> arranged(bundles).contains(#[trigger] bundles[i]),
    decreases bundles.len(),
{
    if bundles.len() > 0 {
        let front = bundles.drop_last();
        let entry = bundles.last();
        let sorted = arranged(front);
        let keys = cached_txids(sorted);
        let next = arranged(bundles);
        let p = rank(keys, entry.txid);
        lemma_arranged(front);
        lemma_rank(keys, entry.txid);
        assert forall|x: CachedView| front.contains(x) implies bundles.contains(x) by {
            let m = choose|m: int| 0 <= m < front.len() && front[m] == x;
            assert(bundles[m] == x);
        }
        assert(bundles[bundles.len() - 1] == entry);
        if keys.contains(entry.txid) {
            assert forall|i: int| 0 <= i < bundles.len() implies cached_txids(next).contains(
                (#[trigger] bundles[i]).txid,
            ) by {
                if i < front.len() {
                    assert(front[i] == bundles[i]);
                }
            }
            if cached_txids(bundles).no_duplicates() {
                let m = choose|m: int| 0 <= m < keys.len() && keys[m] == entry.txid;
                assert(keys[m] == sorted[m].txid);
                assert(sorted.contains(sorted[m]));
                assert(front.contains(sorted[m]));
                let n = choose|n: int| 0 <= n < front.len() && front[n] == sorted[m];
                assert(bundles[n] == front[n]);
                assert(cached_txids(bundles)[n] == bundles[n].txid);
                assert(cached_txids(bundles)[bundles.len() - 1] == entry.txid);
                assert(false);
            }
        } else {
            let keys_next = cached_txids(next);
            assert(keys_next =~= keys.insert(p, entry.txid));
            assert forall|i: int, j: int| 0 <= i < j < keys_next.len() implies keys_next[i].0.precedes(
                keys_next[j].0,
            ) by {
                if p < keys.len() {
                    lemma_order_total(keys[p].0, entry.txid.0);
                    assert(keys[p] == entry.txid ==> keys.contains(entry.txid));
                }
                if j == p {
                    assert(keys[i].0.precedes(entry.txid.0));
                } else if i == p {
                    if j - 1 > p {
                        lemma_order_transitive(entry.txid.0, keys[p].0, keys[j - 1].0);
                    }
                } else if i < p && j > p {
                    assert(keys_next[j] == keys[j - 1]);
                } else if i > p {
                    assert(keys_next[i] == keys[i - 1] && keys_next[j] == keys[j - 1]);
                }
            }
            assert forall|x: CachedView| next.contains(x) implies bundles.contains(x) by {
                let m = choose|m: int| 0 <= m < next.len() && next[m] == x;
                if m < p {
                    assert(sorted[m] == x);
                    assert(sorted.contains(x));
                } else if m > p {
                    assert(sorted[m - 1] == x);
                    assert(sorted.contains(x));
                }
            }
            assert forall|x: CachedView| sorted.contains(x) implies next.contains(x) by {
                let m = choose|m: int| 0 <= m < sorted.len() && sorted[m] == x;
                if m < p {
                    assert(next[m] == x);
                } else {
                    assert(next[m + 1] == x);
                }
            }
            assert(next[p] == entry);
            assert forall|i: int| 0 <= i < bundles.len() implies cached_txids(next).contains(
                (#[trigger] bundles[i]).txid,
            ) by {
                if i < front.len() {
                    assert(front[i] == bundles[i]);
                    let m = choose|m: int| 0 <= m < keys.len() && keys[m] == front[i].txid;
                    if m < p {
                        assert(keys_next[m] == keys[m]);
                    } else {
                        assert(keys_next[m + 1] == keys[m]);
                    }
                } else {
                    assert(keys_next[p] == entry.txid);
                }
            }
            if cached_txids(bundles).no_duplicates() {
                assert(cached_txids(front) =~= cached_txids(bundles).drop_last());
                assert forall|i: int| 0 <= i < bundles.len() implies next.contains(
                    #[trigger] bundles[i],
                ) by {
                    if i < front.len() {
                        assert(front[i] == bundles[i]);
                        assert(sorted.contains(front[i]));
                    }
                }
            }
        }
    }
}

fn place_of(sorted: &Vec<CachedBundle>, txid: Txid) -> (p: usize)
    ensures
        p <= sorted.len(),
        p == rank(cached_txids(sorted@.map_values(|c: CachedBundle| c@)), txid),
{
    let ghost keys = cached_txids(sorted@.map_values(|c: CachedBundle| c@));
    let mut p: usize = 0;
    proof {
        assert(keys.skip(0) =~= keys);
    }
    while p < sorted.len()
        invariant
            p <= sorted.len(),
            keys == cached_txids(sorted@.map_values(|c: CachedBundle| c@)),
            rank(keys, txid) == p + rank(keys.skip(p as int), txid),
        decreases sorted.len() - p,
    {
        proof {
            assert(keys.skip(p as int)[0] == sorted[p as int].txid);
            assert(keys.skip(p as int).drop_first() =~= keys.skip(p + 1));
        }
        if !sorted[p].txid.0.before(&txid.0) {
            return p;
        }
        p += 1;
    }
    proof {
        assert(keys.skip(p as int).len() == 0);
    }
    p
}

/// The gathered bundles, copied into the order of their witness
/// transactions.
fn arrange(bundles: &Vec<CachedBundle>) -> (r: Vec<CachedBundle>)
    ensures
        r@.map_values(|c: CachedBundle| c@) == arranged(bundles@.map_values(|c: CachedBundle| c@)),
{
    let ghost all = bundles@.map_values(|c: CachedBundle| c@);
    let mut r: Vec<CachedBundle> = Vec::new();
    let mut i: usize = 0;
    proof {
        assert(r@.map_values(|c: CachedBundle| c@) =~= arranged(all.take(0)));
    }
    while i < bundles.len()
        invariant
            i <= bundles.len(),
            all == bundles@.map_values(|c: CachedBundle| c@),
            r@.map_values(|c: CachedBundle| c@) == arranged(all.take(i as int)),
        decreases bundles.len() - i,
    {
        let entry = &bundles[i];
        let ghost before = r@.map_values(|c: CachedBundle| c@);
        proof {
            assert(all.take(i + 1).drop_last() =~= all.take(i as int));
            assert(all.take(i + 1).last() == entry@);
            lemma_first_index(cached_txids(before), entry.txid);
            lemma_rank(cached_txids(before), entry.txid);
            if cached_txids(before).contains(entry.txid) {
                let m = choose|m: int|
                    0 <= m < cached_txids(before).len() && cached_txids(before)[m] == entry.txid;
                assert(cached_txids(before)[m] == entry.txid);
            }
        }
        if find_cached(&r, entry.txid).is_none() {
            let p = place_of(&r, entry.txid);
            let copy = CachedBundle {
                txid: entry.txid,
                anchor: entry.anchor,
                bundle: entry.bundle.copy(),
            };
            r.insert(p, copy);
            proof {
                assert(r@.map_values(|c: CachedBundle| c@) =~= before.insert(p as int, entry@));
            }
        }
        i += 1;
    }
    proof {
        assert(all.take(i as int) =~= all);
    }
    r
}

/// The gathered bundles as a consignment carries them.
pub open spec fn carried(bundles: Seq<CachedView>) -> Seq<AnchoredBundleView> {
    bundles.map_values(|c: CachedView| AnchoredBundleView { anchor: c.anchor, bundle: c.bundle })
}

/// The consignment made of what a collector gathered: the bundles by
/// ascending witness transaction, the tips each once; or the error where
/// more bundles were gathered than a consignment may hold.
pub open spec fn assembled(
    c: CollectorView,
    schema: Schema,
    root_schema: Option<Schema>,
    genesis: GenesisView,
    tips: Seq<NodeOutpoint>,
) -> Result<ConsignmentView, StashError> {
    if arranged(c.anchored_bundles).len() > MAX_ANCHORED_BUNDLES {
        Err(StashError::OutsizedBundle)
    } else {
        Ok(
            ConsignmentView {
                schema,
                root_schema,
                genesis,
                tips: distinct(tips),
                endpoints: c.endpoints,
                anchored_bundles: carried(arranged(c.anchored_bundles)),
                state_extensions: Seq::empty(),
            },
        )
    }
}

fn carry(bundles: Vec<CachedBundle>) -> (r: Vec<AnchoredBundle>)
    ensures
        r@.map_values(|ab: AnchoredBundle| ab@) == carried(
            bundles@.map_values(|c: CachedBundle| c@),
        ),
{
    let ghost goal = carried(bundles@.map_values(|c: CachedBundle| c@));
    let mut r: Vec<AnchoredBundle> = Vec::new();
    let mut i: usize = 0;
    while i < bundles.len()
        invariant
            i <= bundles.len(),
            goal == carried(bundles@.map_values(|c: CachedBundle| c@)),
            r@.map_values(|ab: AnchoredBundle| ab@) == goal.take(i as int),
        decreases bundles.len() - i,
    {
        let ghost before = r@.map_values(|ab: AnchoredBundle| ab@);
        r.push(AnchoredBundle { anchor: bundles[i].anchor, bundle: bundles[i].bundle.copy() });
        proof {
            assert(r@.map_values(|ab: AnchoredBundle| ab@) =~= before.push(goal[i as int]));
            assert(before.push(goal[i as int]) =~= goal.take(i + 1));
        }
        i += 1;
    }
    proof {
        assert(goal.take(i as int) =~= goal);
    }
    r
}

impl Collector {
    /// Closes the collection under ancestry: the queued parents are
    /// visited with every output selected, then the parents they queue, and
    /// so on until nothing new is queued. No transition is visited twice and
    /// the genesis is never visited. The first error is handed back.
    pub fn iterate(self, stash: &Stash) -> (r: Result<Collector, StashError>)
        ensures
            match closed(self@, stash@, Seq::empty()).failure {
                None => r is Ok && r->Ok_0@ == closed(self@, stash@, Seq::empty()).collector,
                Some(e) => r == Err::<Collector, StashError>(e),
            },
    {
        let ghost start = self@;
        let mut this = self;
        let mut seen: Vec<NodeId> = Vec::new();
        proof {
            stash.transitions.lemma_finite();
        }
        loop
            invariant
                start == self@,
                stash@.transitions.dom().finite(),
                closed(this@, stash@, seen@) == closed(start, stash@, Seq::empty()),
            decreases unseen(stash@, seen@),
        {
            let genesis = NodeId(this.contract_id.0);
            let ghost before = this@;
            let mut queue: Vec<NodeId> = Vec::new();
            std::mem::swap(&mut queue, &mut this.endpoint_inputs);
            let mut fresh = select_fresh(&queue, &seen, genesis);
            proof {
                assert(this@ == (CollectorView { endpoint_inputs: Seq::empty(), ..before }));
            }
            if fresh.len() == 0 {
                return Ok(this);
            }
            match this.process(stash, &fresh, &OutpointSelection::All) {
                Err(e) => {
                    return Err(e);
                },
                Ok(_) => {},
            }
            proof {
                lemma_round_shrinks(before, stash@, seen@);
            }
            seen.append(&mut fresh);
        }
    }

    /// Makes the consignment of what was gathered, its bundles by ascending
    /// witness transaction. Fails, with nothing made, where more bundles were
    /// gathered than a consignment may hold.
    pub fn consignment(
        self,
        schema: Schema,
        root_schema: Option<Schema>,
        genesis: Genesis,
        tips: Vec<NodeOutpoint>,
    ) -> (r: Result<Consignment, StashError>)
        ensures
            match assembled(self@, schema, root_schema, genesis@, tips@) {
                Ok(c) => r is Ok && r->Ok_0@ == c,
                Err(e) => r == Err::<Consignment, StashError>(e),
            },
    {
        let sorted = arrange(&self.anchored_bundles);
        if sorted.len() as u64 > MAX_ANCHORED_BUNDLES {
            return Err(StashError::OutsizedBundle);
        }
        let anchored_bundles = carry(sorted);
        let c = Consignment {
            schema,
            root_schema,
            genesis,
            tips: distinct_tips(&tips),
            endpoints: self.endpoints,
            anchored_bundles,
            state_extensions: Vec::new(),
        };
        proof {
            assert(c@.state_extensions =~= Seq::empty());
        }
        Ok(c)
    }
}

} // verus!
