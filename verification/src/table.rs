//! Tables of the stash: values kept under a digest, and the index of
//! transitions by contract and type.

use vstd::prelude::*;
use crate::ident::{ContractId, Digest, NodeId};
use crate::lookup::{
    first_index, is_first, lemma_first_absent, lemma_first_found, lemma_first_index,
};

verus! {

/// Values kept under a digest, one value for each key that is present.
pub struct Table<V> {
    entries: Vec<(Digest, V)>,
}

/// The keys of a list of entries, in order.
pub open spec fn entry_keys<V>(entries: Seq<(Digest, V)>) -> Seq<Digest> {
    entries.map_values(|e: (Digest, V)| e.0)
}

impl<V: View> View for Table<V> {
    type V = Map<Digest, V::V>;

    closed spec fn view(&self) -> Map<Digest, V::V> {
        Map::new(
            |k: Digest| first_index(entry_keys(self.entries@), k) is Some,
            |k: Digest| self.entries@[first_index(entry_keys(self.entries@), k).unwrap()].1@,
        )
    }
}

impl<V: View> Table<V> {
    /// A table that holds nothing.
    pub fn new() -> (t: Table<V>)
        ensures
            t@ == Map::<Digest, V::V>::empty(),
    {
        let t = Table { entries: Vec::new() };
        proof {
            assert forall|k: Digest| !t@.contains_key(k) by {
                lemma_first_absent(entry_keys(t.entries@), k);
            }
            assert(t@ =~= Map::<Digest, V::V>::empty());
        }
        t
    }

    fn find(&self, key: &Digest) -> (r: Option<usize>)
        ensures
            match r {
                Some(i) => i < self.entries.len() && first_index(entry_keys(self.entries@), *key)
                    == Some(i as int),
                None => first_index(entry_keys(self.entries@), *key) is None,
            },
    {
        let ghost keys = entry_keys(self.entries@);
        let mut i: usize = 0;
        while i < self.entries.len()
            invariant
                i <= self.entries.len(),
                keys == entry_keys(self.entries@),
                forall|j: int| 0 <= j < i ==> keys[j] != *key,
            decreases self.entries.len() - i,
        {
            if self.entries[i].0.same(key) {
                proof {
                    assert(is_first(keys, *key, i as int));
                    lemma_first_found(keys, *key, i as int);
                }
                return Some(i);
            }
            i += 1;
        }
        proof {
            lemma_first_absent(keys, *key);
        }
        None
    }

    /// The value kept under `key`, if there is one.
    pub fn get(&self, key: &Digest) -> (r: Option<&V>)
        ensures
            match r {
                Some(v) => self@.contains_key(*key) && self@[*key] == v@,
                None => !self@.contains_key(*key),
            },
    {
        match self.find(key) {
            Some(i) => Some(&self.entries[i].1),
            None => None,
        }
    }

    /// Keeps `value` under `key`, in place of what was kept there.
    pub fn put(&mut self, key: Digest, value: V)
        ensures
            final(self)@ == old(self)@.insert(key, value@),
    {
        let ghost before = self.entries@;
        let ghost content = value@;
        match self.find(&key) {
            Some(i) => {
                self.entries.set(i, (key, value));
                proof {
                    assert(entry_keys(self.entries@) =~= entry_keys(before));
                    assert(self@ =~= old(self)@.insert(key, content));
                }
            },
            None => {
                self.entries.push((key, value));
                proof {
                    let keys = entry_keys(before);
                    let next = entry_keys(self.entries@);
                    assert(next =~= keys.push(key));
                    lemma_first_index(keys, key);
                    assert(is_first(next, key, before.len() as int));
                    lemma_first_found(next, key, before.len() as int);
                    assert forall|k: Digest| k != key implies first_index(next, k) == first_index(
                        keys,
                        k,
                    ) by {
                        lemma_first_index(keys, k);
                        match first_index(keys, k) {
                            Some(i) => {
                                assert(is_first(next, k, i));
                                lemma_first_found(next, k, i);
                            },
                            None => {
                                lemma_first_absent(next, k);
                            },
                        }
                    }
                    assert(self@ =~= old(self)@.insert(key, content));
                }
            },
        }
    }

    /// Keeps `value` under `key` unless a value is kept there already. Says
    /// whether it was put.
    pub fn put_new(&mut self, key: Digest, value: V) -> (fresh: bool)
        ensures
            fresh == !old(self)@.contains_key(key),
            final(self)@ == if fresh {
                old(self)@.insert(key, value@)
            } else {
                old(self)@
            },
    {
        if self.find(&key).is_some() {
            false
        } else {
            self.put(key, value);
            true
        }
    }

    /// A table holds finitely many keys.
    pub proof fn lemma_finite(&self)
        ensures
            self@.dom().finite(),
    {
        let keys = entry_keys(self.entries@);
        assert forall|k: Digest| self@.dom().contains(k) implies keys.to_set().contains(k) by {
            lemma_first_index(keys, k);
        }
        vstd::seq_lib::seq_to_set_is_finite(keys);
        vstd::set_lib::lemma_len_subset(self@.dom(), keys.to_set());
    }

    /// The keys that are present, each once.
    pub fn keys(&self) -> (r: Vec<Digest>)
        ensures
            r@.no_duplicates(),
            forall|k: Digest| r@.contains(k) <==> self@.contains_key(k),
    {
        let ghost keys = entry_keys(self.entries@);
        let mut r: Vec<Digest> = Vec::new();
        let mut i: usize = 0;
        while i < self.entries.len()
            invariant
                i <= self.entries.len(),
                keys == entry_keys(self.entries@),
                r@.no_duplicates(),
                forall|k: Digest|
                    r@.contains(k) <==> exists|j: int| 0 <= j < i && is_first(keys, k, j),
            decreases self.entries.len() - i,
        {
            let key = self.entries[i].0;
            let ghost before = r@;
            let first = self.find(&key);
            proof {
                lemma_first_index(keys, key);
            }
            if first == Some(i) {
                proof {
                    if before.contains(key) {
                        let j = choose|j: int| 0 <= j < i && is_first(keys, key, j);
                        lemma_first_found(keys, key, j);
                    }
                }
                r.push(key);
            }
            proof {
                assert forall|k: Digest|
                    r@.contains(k) <==> exists|j: int| 0 <= j < i + 1 && is_first(keys, k, j) by {
                    if r@.contains(k) {
                        let m = choose|m: int| 0 <= m < r@.len() && r@[m] == k;
                        if m < before.len() {
                            assert(before[m] == k);
                            assert(before.contains(k));
                            let j = choose|j: int| 0 <= j < i && is_first(keys, k, j);
                            assert(0 <= j < i + 1 && is_first(keys, k, j));
                        } else {
                            assert(is_first(keys, k, i as int));
                        }
                    }
                    if exists|j: int| 0 <= j < i + 1 && is_first(keys, k, j) {
                        let j = choose|j: int| 0 <= j < i + 1 && is_first(keys, k, j);
                        if j < i {
                            assert(before.contains(k));
                            let m = choose|m: int| 0 <= m < before.len() && before[m] == k;
                            assert(r@[m] == k);
                        } else {
                            lemma_first_found(keys, k, j);
                            assert(r@[r@.len() - 1] == k);
                        }
                    }
                }
            }
            i += 1;
        }
        proof {
            assert forall|k: Digest| r@.contains(k) <==> self@.contains_key(k) by {
                lemma_first_index(keys, k);
                if r@.contains(k) {
                    let j = choose|j: int| 0 <= j < i && is_first(keys, k, j);
                    lemma_first_found(keys, k, j);
                }
                if self@.contains_key(k) {
                    let j = first_index(keys, k)->Some_0;
                    assert(0 <= j < i && is_first(keys, k, j));
                }
            }
        }
        r
    }
}

/// One entry of the index: a transition of a contract, with its type.
#[derive(Clone, Copy, Debug, PartialEq, Eq)]
pub struct IndexEntry {
    pub contract_id: ContractId,
    pub transition_type: u16,
    pub node_id: NodeId,
}

/// The transitions of each contract by type: a set of entries, held in the
/// order in which they came.
pub struct TypeIndex {
    entries: Vec<IndexEntry>,
}

impl View for TypeIndex {
    type V = Seq<IndexEntry>;

    closed spec fn view(&self) -> Seq<IndexEntry> {
        self.entries@
    }
}

/// `entries` with `entry` added at the end, unless it is there already.
pub open spec fn indexed(entries: Seq<IndexEntry>, entry: IndexEntry) -> Seq<IndexEntry> {
    if entries.contains(entry) {
        entries
    } else {
        entries.push(entry)
    }
}

/// The transitions that `entries` lists for a contract and a type, in order.
pub open spec fn ids_of_type(
    entries: Seq<IndexEntry>,
    contract_id: ContractId,
    transition_type: u16,
) -> Seq<NodeId>
    decreases entries.len(),
{
    if entries.len() == 0 {
        Seq::empty()
    } else {
        let rest = ids_of_type(entries.drop_last(), contract_id, transition_type);
        let e = entries.last();
        if e.contract_id == contract_id && e.transition_type == transition_type {
            rest.push(e.node_id)
        } else {
            rest
        }
    }
}

impl TypeIndex {
    /// An index that lists nothing.
    pub fn new() -> (t: TypeIndex)
        ensures
            t@ == Seq::<IndexEntry>::empty(),
    {
        TypeIndex { entries: Vec::new() }
    }

    /// Every entry, in the order in which they came.
    pub fn entries(&self) -> (r: Vec<IndexEntry>)
        ensures
            r@ == self@,
    {
        self.entries.clone()
    }

    /// Adds a transition to the set kept for its contract and type.
    pub fn insert(&mut self, entry: IndexEntry)
        ensures
            final(self)@ == indexed(old(self)@, entry),
    {
        let mut i: usize = 0;
        while i < self.entries.len()
            invariant
                i <= self.entries.len(),
                self.entries@ == old(self).entries@,
                forall|j: int| 0 <= j < i ==> self.entries@[j] != entry,
            decreases self.entries.len() - i,
        {
            let e = &self.entries[i];
            if e.transition_type == entry.transition_type && e.contract_id.same(
                &entry.contract_id,
            ) && e.node_id.same(&entry.node_id) {
                assert(self.entries@[i as int] == entry);
                return ;
            }
            i += 1;
        }
        self.entries.push(entry);
    }

    /// The transitions of `contract_id` that have the type `transition_type`.
    pub fn transitions_by_type(&self, contract_id: ContractId, transition_type: u16) -> (r: Vec<
        NodeId,
    >)
        ensures
            r@ == ids_of_type(self@, contract_id, transition_type),
    {
        let mut r: Vec<NodeId> = Vec::new();
        let mut i: usize = 0;
        while i < self.entries.len()
            invariant
                i <= self.entries.len(),
                r@ == ids_of_type(self.entries@.take(i as int), contract_id, transition_type),
            decreases self.entries.len() - i,
        {
            let e = &self.entries[i];
            proof {
                assert(self.entries@.take(i + 1).drop_last() == self.entries@.take(i as int));
            }
            if e.transition_type == transition_type && e.contract_id.same(&contract_id) {
                r.push(e.node_id);
            }
            i += 1;
        }
        proof {
            assert(self.entries@.take(i as int) == self.entries@);
        }
        r
    }
}

} // verus!
