//! Transition bundles: the transitions anchored by one witness transaction,
//! each held either with its content or as a commitment only.

use vstd::prelude::*;
use std::collections::{BTreeMap, BTreeSet};
use amplify::Wrapper;
use commit_verify::TaggedHash;
use crate::graph::{Transition, TransitionView};
use crate::ident::{BundleId, Digest, NodeId};
use crate::lookup::{first_index, is_first, lemma_first_absent, lemma_first_found};

verus! {

/// Whether the numbers stand in strictly ascending order.
pub open spec fn ascending(list: Seq<u16>) -> bool {
    forall|i: int, j: int| 0 <= i < j < list.len() ==> list[i] < list[j]
}

/// The inputs of a witness transaction that a transition is bound to: a
/// set of at most 65535 input numbers, held in ascending order.
#[derive(Debug, PartialEq, Eq)]
pub struct Inputs {
    list: Vec<u16>,
}

impl View for Inputs {
    type V = Seq<u16>;

    closed spec fn view(&self) -> Seq<u16> {
        self.list@
    }
}

impl Inputs {
    #[verifier::type_invariant]
    spec fn bounded(self) -> bool {
        self.list@.len() <= 0xFFFF && ascending(self.list@)
    }

    /// The inputs `list`, unless they are more than a bundle can hold or
    /// do not stand in strictly ascending order.
    pub fn new(list: Vec<u16>) -> (r: Option<Inputs>)
        ensures
            match r {
                Some(inputs) => inputs@ == list@ && list@.len() <= 0xFFFF && ascending(list@),
                None => list@.len() > 0xFFFF || !ascending(list@),
            },
    {
        if list.len() > 0xFFFF {
            return None;
        }
        let mut i: usize = 1;
        while i < list.len()
            invariant
                1 <= i,
                forall|a: int, b: int| 0 <= a < b < i && b < list.len() ==> list@[a] < list@[b],
            decreases list.len() - i,
        {
            if list[i - 1] >= list[i] {
                return None;
            }
            i += 1;
        }
        Some(Inputs { list })
    }

    /// The input numbers, in ascending order.
    pub fn to_vec(&self) -> (r: Vec<u16>)
        ensures
            r@ == self@,
            r@.len() <= 0xFFFF,
            ascending(r@),
    {
        proof {
            use_type_invariant(self);
        }
        self.list.clone()
    }

    /// A copy with the same content.
    pub fn copy(&self) -> (r: Inputs)
        ensures
            r@ == self@,
    {
        proof {
            use_type_invariant(self);
        }
        Inputs { list: self.list.clone() }
    }
}

/// One transition of a bundle: its id, the inputs of the witness
/// transaction it is bound to, and its content where that is revealed.
#[derive(Debug, PartialEq, Eq)]
pub struct BundleItem {
    pub node_id: NodeId,
    pub inputs: Inputs,
    pub transition: Option<Transition>,
}

/// A bundle item as contracts speak of it.
pub struct ItemView {
    pub node_id: NodeId,
    pub inputs: Seq<u16>,
    pub transition: Option<TransitionView>,
}

impl View for BundleItem {
    type V = ItemView;

    open spec fn view(&self) -> ItemView {
        ItemView {
            node_id: self.node_id,
            inputs: self.inputs@,
            transition: match self.transition {
                Some(t) => Some(t@),
                None => None,
            },
        }
    }
}

/// The transitions anchored by one witness transaction. Of two items with
/// one id the first counts.
#[derive(Debug, PartialEq, Eq)]
pub struct TransitionBundle {
    pub items: Vec<BundleItem>,
}

impl View for TransitionBundle {
    type V = Seq<ItemView>;

    open spec fn view(&self) -> Seq<ItemView> {
        self.items@.map_values(|item: BundleItem| item@)
    }
}

/// The bundle has no item with the id of the transition to reveal, or the
/// item holds other content.
#[derive(Clone, Copy, Debug, PartialEq, Eq)]
pub enum RevealError {
    UnrelatedTransition,
}

/// The ids of a bundle's items, in order.
pub open spec fn item_ids(items: Seq<ItemView>) -> Seq<NodeId> {
    items.map_values(|item: ItemView| item.node_id)
}

/// What a bundle commits to: each id with its inputs, content left out.
pub open spec fn concealed_form(items: Seq<ItemView>) -> Seq<(NodeId, Seq<u16>)> {
    items.map_values(|item: ItemView| (item.node_id, item.inputs))
}

/// `items` with every content taken out.
pub open spec fn concealed(items: Seq<ItemView>) -> Seq<ItemView> {
    items.map_values(
        |item: ItemView| ItemView { node_id: item.node_id, inputs: item.inputs, transition: None },
    )
}

/// How many of `items` hold their content.
pub open spec fn revealed_count(items: Seq<ItemView>) -> nat
    decreases items.len(),
{
    if items.len() == 0 {
        0
    } else {
        revealed_count(items.drop_last()) + if items.last().transition is Some {
            1nat
        } else {
            0nat
        }
    }
}

/// How many of `items` are commitments only.
pub open spec fn concealed_count(items: Seq<ItemView>) -> nat {
    (items.len() - revealed_count(items)) as nat
}

/// The ids of what a bundle commits to, in order.
pub open spec fn form_ids(entries: Seq<(NodeId, Seq<u16>)>) -> Seq<NodeId> {
    entries.map_values(|e: (NodeId, Seq<u16>)| e.0)
}

/// `entries` without those whose id stands in an earlier entry.
pub open spec fn distinct_entries(entries: Seq<(NodeId, Seq<u16>)>) -> Seq<(NodeId, Seq<u16>)>
    decreases entries.len(),
{
    if entries.len() == 0 {
        Seq::empty()
    } else {
        let rest = distinct_entries(entries.drop_last());
        if form_ids(entries.drop_last()).contains(entries.last().0) {
            rest
        } else {
            rest.push(entries.last())
        }
    }
}

/// `items` after `transition` is revealed in it, and whether that changed
/// anything: the first item with its id takes the content where it held
/// none, and stays as it is where it holds the same content. The error
/// where no item has its id, or where the item holds other content.
pub open spec fn revealed_in(items: Seq<ItemView>, transition: TransitionView) -> Result<
    (Seq<ItemView>, bool),
    RevealError,
> {
    match first_index(item_ids(items), transition.node_id) {
        None => Err(RevealError::UnrelatedTransition),
        Some(i) => if items[i].transition is Some {
            if items[i].transition == Some(transition) {
                Ok((items, false))
            } else {
                Err(RevealError::UnrelatedTransition)
            }
        } else {
            Ok(
                (
                    items.update(
                        i,
                        ItemView {
                            node_id: items[i].node_id,
                            inputs: items[i].inputs,
                            transition: Some(transition),
                        },
                    ),
                    true,
                ),
            )
        },
    }
}

/// The commitment of a bundle that holds the given ids with their inputs.
pub uninterp spec fn bundle_commitment(entries: Seq<(NodeId, Seq<u16>)>) -> Digest;

/// A list of entries as contracts speak of it.
pub open spec fn entries_view(entries: Seq<(NodeId, Vec<u16>)>) -> Seq<(NodeId, Seq<u16>)> {
    entries.map_values(|e: (NodeId, Vec<u16>)| (e.0, e.1@))
}

/// The ids of a list of entries, in order.
pub open spec fn entry_ids(entries: Seq<(NodeId, Vec<u16>)>) -> Seq<NodeId> {
    entries.map_values(|e: (NodeId, Vec<u16>)| e.0)
}

/// Builds an `rgb::TransitionBundle` that holds each entry as a commitment
/// (an empty one where there is no entry) and calls its `bundle_id`, which
/// commits to the ids and their inputs and to no content. The entries are
/// handed over as a map of sets: the precondition asks that no id stands
/// twice and that each list of inputs is strictly ascending, so that
/// nothing is dropped on the way. That call panics on a set of more than
/// 65535 inputs, which the precondition leaves out too. The contract only
/// names the resulting tagged hash.
#[verifier::external_body]
fn commit_bundle(entries: &Vec<(NodeId, Vec<u16>)>) -> (d: Digest)
    requires
        entry_ids(entries@).no_duplicates(),
        forall|i: int|
            0 <= i < entries.len() ==> (#[trigger] entries[i]).1@.len() <= 0xFFFF && ascending(
                entries[i].1@,
            ),
    ensures
        d == bundle_commitment(entries_view(entries@)),
{
    let map: BTreeMap<rgb::NodeId, BTreeSet<u16>> = entries.iter().map(
        |e| (rgb::NodeId::from_array(e.0.0.0), e.1.iter().copied().collect()),
    ).collect();
    let bundle = rgb::TransitionBundle::try_from(map).unwrap_or_default();
    Digest(bitcoin::hashes::Hash::into_inner(bundle.bundle_id().into_inner()))
}

fn find_item(items: &Vec<BundleItem>, node_id: NodeId) -> (r: Option<usize>)
    ensures
        match r {
            Some(i) => i < items.len() && first_index(
                item_ids(items@.map_values(|item: BundleItem| item@)),
                node_id,
            ) == Some(i as int),
            None => first_index(item_ids(items@.map_values(|item: BundleItem| item@)), node_id)
                is None,
        },
{
    let ghost keys = item_ids(items@.map_values(|item: BundleItem| item@));
    let mut i: usize = 0;
    while i < items.len()
        invariant
            i <= items.len(),
            keys == item_ids(items@.map_values(|item: BundleItem| item@)),
            forall|j: int| 0 <= j < i ==> keys[j] != node_id,
        decreases items.len() - i,
    {
        if items[i].node_id.same(&node_id) {
            proof {
                assert(is_first(keys, node_id, i as int));
                lemma_first_found(keys, node_id, i as int);
            }
            return Some(i);
        }
        i += 1;
    }
    proof {
        lemma_first_absent(keys, node_id);
    }
    None
}

impl TransitionBundle {
    /// The id of the bundle: the commitment to its ids with their inputs,
    /// where of two items with one id the first counts.
    pub open spec fn spec_bundle_id(items: Seq<ItemView>) -> BundleId {
        BundleId(bundle_commitment(distinct_entries(concealed_form(items))))
    }

    /// The id of the bundle: the commitment to the ids of its items and
    /// their inputs.
    pub fn bundle_id(&self) -> (id: BundleId)
        ensures
            id == Self::spec_bundle_id(self@),
    {
        let ghost form = concealed_form(self@);
        let mut entries: Vec<(NodeId, Vec<u16>)> = Vec::new();
        let mut i: usize = 0;
        while i < self.items.len()
            invariant
                i <= self.items.len(),
                form == concealed_form(self@),
                entries_view(entries@) == distinct_entries(form.take(i as int)),
                entry_ids(entries@).no_duplicates(),
                forall|k: NodeId|
                    entry_ids(entries@).contains(k) ==> form_ids(form.take(i as int)).contains(k),
                forall|j: int|
                    0 <= j < entries.len() ==> (#[trigger] entries[j]).1@.len() <= 0xFFFF
                        && ascending(entries[j].1@),
            decreases self.items.len() - i,
        {
            let item = &self.items[i];
            let ghost before = entries@;
            let ghost seen = form_ids(form.take(i as int));
            proof {
                assert(form.take(i + 1).drop_last() =~= form.take(i as int));
                assert(form.take(i + 1).last() == (item.node_id, item.inputs@));
                assert(seen =~= item_ids(self@).take(i as int));
            }
            let first = find_item(&self.items, item.node_id);
            proof {
                crate::lookup::lemma_first_index(item_ids(self@), item.node_id);
                let f = first_index(item_ids(self@), item.node_id)->Some_0;
                if f == i {
                    if seen.contains(item.node_id) {
                        let m = choose|m: int| 0 <= m < seen.len() && seen[m] == item.node_id;
                        assert(item_ids(self@)[m] == item.node_id);
                    }
                } else {
                    assert(item_ids(self@)[i as int] == item.node_id);
                    assert(seen[f] == item.node_id);
                    assert(seen.contains(item.node_id));
                }
                assert((f == i) <==> !seen.contains(item.node_id));
                assert(form_ids(form.take(i + 1).drop_last()) =~= seen);
                assert(!seen.contains(item.node_id) ==> !entry_ids(entries@).contains(
                    item.node_id,
                ));
            }
            if first == Some(i) {
                entries.push((item.node_id, item.inputs.to_vec()));
                proof {
                    let next = form_ids(form.take(i + 1));
                    assert(entries_view(entries@) =~= entries_view(before).push(
                        (item.node_id, item.inputs@),
                    ));
                    assert(entry_ids(entries@) =~= entry_ids(before).push(item.node_id));
                    assert forall|k: NodeId| entry_ids(entries@).contains(k) implies next.contains(
                        k,
                    ) by {
                        let m = choose|m: int|
                            0 <= m < entry_ids(entries@).len() && entry_ids(entries@)[m] == k;
                        if m < before.len() {
                            assert(entry_ids(before)[m] == k);
                            assert(entry_ids(before).contains(k));
                            let n = choose|n: int| 0 <= n < seen.len() && seen[n] == k;
                            assert(next[n] == k);
                        } else {
                            assert(next[i as int] == k);
                        }
                    }
                }
            } else {
                proof {
                    let next = form_ids(form.take(i + 1));
                    assert forall|k: NodeId| entry_ids(entries@).contains(k) implies next.contains(
                        k,
                    ) by {
                        let n = choose|n: int| 0 <= n < seen.len() && seen[n] == k;
                        assert(next[n] == k);
                    }
                }
            }
            i += 1;
        }
        proof {
            assert(form.take(i as int) =~= form);
        }
        BundleId(commit_bundle(&entries))
    }

    /// Whether the bundle holds the content of the transition `node_id`.
    pub fn is_revealed(&self, node_id: NodeId) -> (r: bool)
        ensures
            r == match first_index(item_ids(self@), node_id) {
                Some(i) => self@[i].transition is Some,
                None => false,
            },
    {
        match find_item(&self.items, node_id) {
            Some(i) => self.items[i].transition.is_some(),
            None => false,
        }
    }

    /// A copy with the same content.
    pub fn copy(&self) -> (r: TransitionBundle)
        ensures
            r@ == self@,
    {
        let mut items: Vec<BundleItem> = Vec::new();
        let mut i: usize = 0;
        while i < self.items.len()
            invariant
                i <= self.items.len(),
                items@.map_values(|item: BundleItem| item@) == self@.take(i as int),
            decreases self.items.len() - i,
        {
            let item = &self.items[i];
            let ghost before = items@.map_values(|item: BundleItem| item@);
            let transition = match &item.transition {
                Some(t) => Some(t.copy()),
                None => None,
            };
            items.push(BundleItem { node_id: item.node_id, inputs: item.inputs.copy(), transition });
            proof {
                assert(items@.map_values(|item: BundleItem| item@) =~= before.push(self@[i as int]));
                assert(before.push(self@[i as int]) =~= self@.take(i + 1));
            }
            i += 1;
        }
        proof {
            assert(self@.take(i as int) =~= self@);
        }
        TransitionBundle { items }
    }

    /// A bundle with the same ids and inputs that holds no content.
    pub fn to_concealed(&self) -> (r: TransitionBundle)
        ensures
            r@ == concealed(self@),
    {
        let mut items: Vec<BundleItem> = Vec::new();
        let mut i: usize = 0;
        while i < self.items.len()
            invariant
                i <= self.items.len(),
                items@.map_values(|item: BundleItem| item@) == concealed(self@).take(i as int),
            decreases self.items.len() - i,
        {
            let item = &self.items[i];
            let ghost before = items@.map_values(|item: BundleItem| item@);
            items.push(
                BundleItem { node_id: item.node_id, inputs: item.inputs.copy(), transition: None },
            );
            proof {
                assert(items@.map_values(|item: BundleItem| item@) =~= before.push(
                    concealed(self@)[i as int],
                ));
                assert(before.push(concealed(self@)[i as int]) =~= concealed(self@).take(i + 1));
            }
            i += 1;
        }
        proof {
            assert(concealed(self@).take(i as int) =~= concealed(self@));
        }
        TransitionBundle { items }
    }

    /// Puts the content of `transition` into the first item that has its
    /// id. Says whether the item was a commitment until now. An item that
    /// holds other content refuses the transition.
    pub fn reveal_transition(&mut self, transition: Transition) -> (r: Result<bool, RevealError>)
        ensures
            match revealed_in(old(self)@, transition@) {
                Ok((items, fresh)) => r == Ok::<bool, RevealError>(fresh) && final(self)@ == items,
                Err(e) => r == Err::<bool, RevealError>(e) && final(self)@ == old(self)@,
            },
    {
        match find_item(&self.items, transition.node_id) {
            None => Err(RevealError::UnrelatedTransition),
            Some(i) => {
                let held = match &self.items[i].transition {
                    Some(content) => Some(content.same(&transition)),
                    None => None,
                };
                match held {
                    Some(true) => Ok(false),
                    Some(false) => Err(RevealError::UnrelatedTransition),
                    None => {
                        let ghost before = self@;
                        let ghost content = transition@;
                        let mut item = self.items.remove(i);
                        item.transition = Some(transition);
                        self.items.insert(i, item);
                        proof {
                            assert(self@ =~= before.update(
                                i as int,
                                ItemView {
                                    node_id: before[i as int].node_id,
                                    inputs: before[i as int].inputs,
                                    transition: Some(content),
                                },
                            ));
                        }
                        Ok(true)
                    },
                }
            },
        }
    }
}

/// Revealing a transition changes no id and no inputs, and so not what the
/// bundle commits to.
pub proof fn lemma_reveal_keeps_commitment(items: Seq<ItemView>, transition: TransitionView)
    ensures
        match revealed_in(items, transition) {
            Ok((after, _)) => concealed_form(after) == concealed_form(items) && item_ids(after)
                == item_ids(items),
            Err(_) => true,
        },
{
    match revealed_in(items, transition) {
        Ok((after, _)) => {
            crate::lookup::lemma_first_index(item_ids(items), transition.node_id);
            assert(concealed_form(after) =~= concealed_form(items));
            assert(item_ids(after) =~= item_ids(items));
        },
        Err(_) => {},
    }
}

/// Every item is either revealed or concealed.
pub proof fn lemma_counts(items: Seq<ItemView>)
    ensures
        revealed_count(items) <= items.len(),
        revealed_count(items) + concealed_count(items) == items.len(),
    decreases items.len(),
{
    if items.len() > 0 {
        lemma_counts(items.drop_last());
    }
}

} // verus!
