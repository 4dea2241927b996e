//! Composing a consignment that proves the provenance of selected outputs
//! of a contract.

use vstd::prelude::*;
use crate::collector::{
    arranged, assembled, closed, walked, Closure, Collector, CollectorView, Walk,
    MAX_ANCHORED_BUNDLES,
};
use crate::consignment::{Consignment, ConsignmentView};
use crate::graph::{GenesisView, Schema};
use crate::ident::{ContractId, NodeId, NodeOutpoint};
use crate::ingest::Runtime;
use crate::selection::OutpointSelection;
use crate::stash::{StashError, StashView};
use crate::table::{ids_of_type, IndexEntry};

verus! {

/// The transitions of a contract that have one of the types `kinds`:
/// type after type in the order given, and within a type in the order of
/// the index.
pub open spec fn forward_ids(
    index: Seq<IndexEntry>,
    contract_id: ContractId,
    kinds: Seq<u16>,
) -> Seq<NodeId>
    decreases kinds.len(),
{
    if kinds.len() == 0 {
        Seq::empty()
    } else {
        forward_ids(index, contract_id, kinds.drop_last()) + ids_of_type(
            index,
            contract_id,
            kinds.last(),
        )
    }
}

/// How many of the first of `sorted` are smaller than `k`, up to the first
/// that is not.
pub open spec fn kind_rank(sorted: Seq<u16>, k: u16) -> int
    decreases sorted.len(),
{
    if sorted.len() == 0 {
        0
    } else if sorted[0] < k {
        1 + kind_rank(sorted.drop_first(), k)
    } else {
        0
    }
}

/// `sorted` with `k` put where it belongs, unless it is there already.
pub open spec fn with_kind(sorted: Seq<u16>, k: u16) -> Seq<u16> {
    if sorted.contains(k) {
        sorted
    } else {
        sorted.insert(kind_rank(sorted, k), k)
    }
}

/// The types asked for as a set: each once, in ascending order.
pub open spec fn ordered(kinds: Seq<u16>) -> Seq<u16>
    decreases kinds.len(),
{
    if kinds.len() == 0 {
        Seq::empty()
    } else {
        with_kind(ordered(kinds.drop_last()), kinds.last())
    }
}

/// Where `kind_rank` points: everything before it is smaller than `k`,
/// and what is there is not.
pub proof fn lemma_kind_rank(sorted: Seq<u16>, k: u16)
    ensures
        0 <= kind_rank(sorted, k) <= sorted.len(),
        forall|j: int| 0 <= j < kind_rank(sorted, k) ==> #[trigger] sorted[j] < k,
        kind_rank(sorted, k) < sorted.len() ==> sorted[kind_rank(sorted, k)] >= k,
    decreases sorted.len(),
{
    if sorted.len() > 0 && sorted[0] < k {
        let rest = sorted.drop_first();
        lemma_kind_rank(rest, k);
        assert forall|j: int| 0 <= j < kind_rank(sorted, k) implies #[trigger] sorted[j] < k by {
            if j > 0 {
                assert(rest[j - 1] == sorted[j]);
            }
        }
        if kind_rank(sorted, k) < sorted.len() {
            assert(rest[kind_rank(rest, k)] == sorted[kind_rank(sorted, k)]);
        }
    }
}

/// The ordered types are the types asked for, each once, in strictly
/// ascending order.
pub proof fn lemma_ordered(kinds: Seq<u16>)
    ensures
        forall|i: int, j: int|
            0 <= i < j < ordered(kinds).len() ==> ordered(kinds)[i] < ordered(kinds)[j],
        forall|k: u16| ordered(kinds).contains(k) <==> kinds.contains(k),
    decreases kinds.len(),
{
    if kinds.len() > 0 {
        let front = kinds.drop_last();
        let k = kinds.last();
        let sorted = ordered(front);
        let next = ordered(kinds);
        let p = kind_rank(sorted, k);
        lemma_ordered(front);
        lemma_kind_rank(sorted, k);
        assert(kinds[kinds.len() - 1] == k);
        if !sorted.contains(k) {
            assert forall|i: int, j: int| 0 <= i < j < next.len() implies next[i] < next[j] by {
                if p < sorted.len() {
                    assert(sorted[p] == k ==> sorted.contains(k));
                }
                if j == p {
                    assert(sorted[i] < k);
                } else if i == p {
                    assert(next[j] == sorted[j - 1]);
                } else if i < p && j > p {
                    assert(next[j] == sorted[j - 1]);
                } else if i > p {
                    assert(next[i] == sorted[i - 1] && next[j] == sorted[j - 1]);
                }
            }
            assert(next[p] == k);
        }
        assert forall|x: u16| next.contains(x) <==> kinds.contains(x) by {
            if next.contains(x) {
                let m = choose|m: int| 0 <= m < next.len() && next[m] == x;
                if sorted.contains(k) {
                    assert(sorted.contains(x));
                } else if m < p {
                    assert(sorted[m] == x);
                    assert(sorted.contains(x));
                } else if m > p {
                    assert(sorted[m - 1] == x);
                    assert(sorted.contains(x));
                }
                if sorted.contains(x) {
                    assert(front.contains(x));
                    let n = choose|n: int| 0 <= n < front.len() && front[n] == x;
                    assert(kinds[n] == x);
                }
            }
            if kinds.contains(x) {
                let n = choose|n: int| 0 <= n < kinds.len() && kinds[n] == x;
                if n < front.len() {
                    assert(front[n] == x);
                    assert(front.contains(x));
                    assert(sorted.contains(x));
                    let m = choose|m: int| 0 <= m < sorted.len() && sorted[m] == x;
                    if sorted.contains(k) {
                    } else if m < p {
                        assert(next[m] == x);
                    } else {
                        assert(next[m + 1] == x);
                    }
                } else {
                    if sorted.contains(k) {
                    } else {
                        assert(next[p] == x);
                    }
                }
            }
        }
    }
}

fn kind_place(sorted: &Vec<u16>, k: u16) -> (p: usize)
    ensures
        p <= sorted.len(),
        p == kind_rank(sorted@, k),
{
    let mut p: usize = 0;
    proof {
        assert(sorted@.skip(0) =~= sorted@);
    }
    while p < sorted.len()
        invariant
            p <= sorted.len(),
            kind_rank(sorted@, k) == p + kind_rank(sorted@.skip(p as int), k),
        decreases sorted.len() - p,
    {
        proof {
            assert(sorted@.skip(p as int)[0] == sorted@[p as int]);
            assert(sorted@.skip(p as int).drop_first() =~= sorted@.skip(p + 1));
        }
        if sorted[p] >= k {
            return p;
        }
        p += 1;
    }
    proof {
        assert(sorted@.skip(p as int).len() == 0);
    }
    p
}

fn holds_kind(sorted: &Vec<u16>, k: u16) -> (r: bool)
    ensures
        r == sorted@.contains(k),
{
    let mut i: usize = 0;
    while i < sorted.len()
        invariant
            i <= sorted.len(),
            forall|j: int| 0 <= j < i ==> sorted@[j] != k,
        decreases sorted.len() - i,
    {
        if sorted[i] == k {
            assert(sorted@[i as int] == k);
            return true;
        }
        i += 1;
    }
    false
}

fn order_kinds(kinds: &Vec<u16>) -> (r: Vec<u16>)
    ensures
        r@ == ordered(kinds@),
{
    let mut r: Vec<u16> = Vec::new();
    let mut i: usize = 0;
    while i < kinds.len()
        invariant
            i <= kinds.len(),
            r@ == ordered(kinds@.take(i as int)),
        decreases kinds.len() - i,
    {
        let k = kinds[i];
        proof {
            assert(kinds@.take(i + 1).drop_last() =~= kinds@.take(i as int));
        }
        if !holds_kind(&r, k) {
            let p = kind_place(&r, k);
            r.insert(p, k);
        }
        i += 1;
    }
    proof {
        assert(kinds@.take(i as int) =~= kinds@);
    }
    r
}

/// The transitions that the forward walk visits: those of the types asked
/// for, type after type in ascending order.
pub open spec fn forward_list(stash: StashView, contract_id: ContractId, kinds: Seq<u16>) -> Seq<
    NodeId,
> {
    forward_ids(stash.contract_transitions, contract_id, ordered(kinds))
}

/// The genesis of a contract with its schema and the schema that one
/// extends, if any; or what the stash lacks of them.
pub open spec fn header(stash: StashView, contract_id: ContractId) -> Result<
    (GenesisView, Schema, Option<Schema>),
    StashError,
> {
    if !stash.genesis.contains_key(contract_id.0) {
        Err(StashError::GenesisAbsent)
    } else {
        let genesis = stash.genesis[contract_id.0];
        if !stash.schemata.contains_key(genesis.schema_id.0) {
            Err(StashError::SchemaAbsent(genesis.schema_id))
        } else {
            let schema = stash.schemata[genesis.schema_id.0];
            match schema.root_id {
                Some(root_id) => if !stash.schemata.contains_key(root_id.0) {
                    Err(StashError::SchemaAbsent(root_id))
                } else {
                    Ok((genesis, schema, Some(stash.schemata[root_id.0])))
                },
                None => Ok((genesis, schema, None)),
            }
        }
    }
}

/// The walk, with the caller's selection, over the transitions of the
/// types asked for.
pub open spec fn forward(
    stash: StashView,
    contract_id: ContractId,
    kinds: Seq<u16>,
    selection: OutpointSelection,
) -> Walk {
    walked(
        Collector::empty(contract_id),
        stash,
        forward_list(stash, contract_id, kinds),
        selection,
    )
}

/// The closure under ancestry of what the forward walk gathered.
pub open spec fn closure(
    stash: StashView,
    contract_id: ContractId,
    kinds: Seq<u16>,
    selection: OutpointSelection,
) -> Closure {
    closed(forward(stash, contract_id, kinds, selection).collector, stash, Seq::empty())
}

/// The consignment composed from a stash: the transitions of the types
/// asked for are walked with the caller's selection, the collection is
/// closed under ancestry, and the result is assembled with the genesis and
/// the schemata of the contract. The error is the first that is met.
pub open spec fn composed(
    stash: StashView,
    contract_id: ContractId,
    kinds: Seq<u16>,
    selection: OutpointSelection,
) -> Result<ConsignmentView, StashError> {
    match header(stash, contract_id) {
        Err(e) => Err(e),
        Ok((genesis, schema, root_schema)) => match forward(
            stash,
            contract_id,
            kinds,
            selection,
        ).failure {
            Some(e) => Err(e),
            None => match closure(stash, contract_id, kinds, selection).failure {
                Some(e) => Err(e),
                None => assembled(
                    closure(stash, contract_id, kinds, selection).collector,
                    schema,
                    root_schema,
                    genesis,
                    forward(stash, contract_id, kinds, selection).tips,
                ),
            },
        },
    }
}

/// A consignment is composed only where no more bundles were gathered than
/// it may hold; where more were gathered, composing fails for that reason
/// and makes nothing.
pub proof fn lemma_bound(
    stash: StashView,
    contract_id: ContractId,
    kinds: Seq<u16>,
    selection: OutpointSelection,
)
    ensures
        composed(stash, contract_id, kinds, selection) is Ok ==> composed(
            stash,
            contract_id,
            kinds,
            selection,
        )->Ok_0.anchored_bundles.len() <= MAX_ANCHORED_BUNDLES,
        header(stash, contract_id) is Ok && forward(stash, contract_id, kinds, selection).failure
            is None && closure(stash, contract_id, kinds, selection).failure is None && arranged(
            closure(stash, contract_id, kinds, selection).collector.anchored_bundles,
        ).len() > MAX_ANCHORED_BUNDLES ==> composed(
            stash,
            contract_id,
            kinds,
            selection,
        ) == Err::<ConsignmentView, StashError>(StashError::OutsizedBundle),
{
}

/// A walk over two lists in a row is the walk over the first followed, where
/// that did not fail, by the walk over the second.
pub proof fn lemma_walked_concat(
    c: CollectorView,
    stash: StashView,
    first: Seq<NodeId>,
    second: Seq<NodeId>,
    selection: OutpointSelection,
)
    ensures
        walked(c, stash, first + second, selection) == if walked(c, stash, first, selection).failure
            is Some {
            walked(c, stash, first, selection)
        } else {
            let rest = walked(walked(c, stash, first, selection).collector, stash, second, selection);
            Walk {
                collector: rest.collector,
                tips: walked(c, stash, first, selection).tips + rest.tips,
                failure: rest.failure,
            }
        },
    decreases second.len(),
{
    if second.len() == 0 {
        assert(first + second =~= first);
        assert(walked(c, stash, first, selection).tips + Seq::<NodeOutpoint>::empty() =~= walked(
            c,
            stash,
            first,
            selection,
        ).tips);
    } else {
        assert((first + second).drop_last() =~= first + second.drop_last());
        assert((first + second).last() == second.last());
        lemma_walked_concat(c, stash, first, second.drop_last(), selection);
        let head = walked(c, stash, first, selection);
        if head.failure is None {
            let prev = walked(head.collector, stash, second.drop_last(), selection);
            if prev.failure is None {
                match crate::collector::visited(prev.collector, stash, second.last(), selection) {
                    Ok((next, tips)) => {
                        assert((head.tips + prev.tips) + tips =~= head.tips + (prev.tips + tips));
                    },
                    Err(_) => {},
                }
            }
        }
    }
}

impl Runtime {
    /// Composes the consignment that discloses the selected outputs of the
    /// transitions of `contract_id` that have one of the types `kinds`,
    /// together with every ancestor that their provenance needs.
    #[verifier::loop_isolation(false)]
    pub fn compose_consignment(
        &self,
        contract_id: ContractId,
        kinds: Vec<u16>,
        outpoint_selection: OutpointSelection,
    ) -> (r: Result<Consignment, StashError>)
        ensures
            match composed(self.stash@, contract_id, kinds@, outpoint_selection) {
                Ok(c) => r is Ok && r->Ok_0@ == c,
                Err(e) => r == Err::<Consignment, StashError>(e),
            },
    {
        let genesis = match self.stash.genesis.get(&contract_id.0) {
            Some(genesis) => genesis.copy(),
            None => {
                return Err(StashError::GenesisAbsent);
            },
        };
        let schema_id = genesis.schema_id;
        let schema = match self.stash.schemata.get(&schema_id.0) {
            Some(schema) => *schema,
            None => {
                return Err(StashError::SchemaAbsent(schema_id));
            },
        };
        let root_schema = match schema.root_id {
            Some(root_id) => match self.stash.schemata.get(&root_id.0) {
                Some(root) => Some(*root),
                None => {
                    return Err(StashError::SchemaAbsent(root_id));
                },
            },
            None => None,
        };
        let walked_kinds = order_kinds(&kinds);
        let mut collector = Collector::new(contract_id);
        let mut tips: Vec<NodeOutpoint> = Vec::new();
        let ghost index = self.stash@.contract_transitions;
        let mut i: usize = 0;
        while i < walked_kinds.len()
            invariant
                i <= walked_kinds.len(),
                index == self.stash@.contract_transitions,
                walked(
                    Collector::empty(contract_id),
                    self.stash@,
                    forward_ids(index, contract_id, walked_kinds@.take(i as int)),
                    outpoint_selection,
                ) == (Walk { collector: collector@, tips: tips@, failure: None }),
            decreases walked_kinds.len() - i,
        {
            let node_ids = self.stash.contract_transitions.transitions_by_type(
                contract_id,
                walked_kinds[i],
            );
            proof {
                assert(walked_kinds@.take(i + 1).drop_last() == walked_kinds@.take(i as int));
                lemma_walked_concat(
                    Collector::empty(contract_id),
                    self.stash@,
                    forward_ids(index, contract_id, walked_kinds@.take(i as int)),
                    node_ids@,
                    outpoint_selection,
                );
            }
            match collector.process(&self.stash, &node_ids, &outpoint_selection) {
                Ok(mut found) => {
                    tips.append(&mut found);
                },
                Err(e) => {
                    proof {
                        lemma_forward_stays_failed(
                            self.stash@,
                            contract_id,
                            walked_kinds@,
                            outpoint_selection,
                            i + 1,
                        );
                    }
                    return Err(e);
                },
            }
            i += 1;
        }
        proof {
            assert(walked_kinds@.take(i as int) == walked_kinds@);
        }
        let collector = match collector.iterate(&self.stash) {
            Ok(collector) => collector,
            Err(e) => {
                return Err(e);
            },
        };
        collector.consignment(schema, root_schema, genesis, tips)
    }
}

/// A forward walk that has failed on the first `n` types stays as it is on
/// all of them.
pub proof fn lemma_forward_stays_failed(
    stash: StashView,
    contract_id: ContractId,
    kinds: Seq<u16>,
    selection: OutpointSelection,
    n: int,
)
    requires
        0 <= n <= kinds.len(),
        walked(
            Collector::empty(contract_id),
            stash,
            forward_ids(stash.contract_transitions, contract_id, kinds.take(n)),
            selection,
        ).failure is Some,
    ensures
        walked(
            Collector::empty(contract_id),
            stash,
            forward_ids(stash.contract_transitions, contract_id, kinds),
            selection,
        ) == walked(
            Collector::empty(contract_id),
            stash,
            forward_ids(stash.contract_transitions, contract_id, kinds.take(n)),
            selection,
        ),
    decreases kinds.len() - n,
{
    if n < kinds.len() {
        assert(kinds.take(n + 1).drop_last() == kinds.take(n));
        lemma_walked_concat(
            Collector::empty(contract_id),
            stash,
            forward_ids(stash.contract_transitions, contract_id, kinds.take(n)),
            ids_of_type(stash.contract_transitions, contract_id, kinds[n]),
            selection,
        );
        lemma_forward_stays_failed(stash, contract_id, kinds, selection, n + 1);
    } else {
        assert(kinds.take(n) == kinds);
    }
}

} // verus!
