//! The caller's choice of outputs to disclose.

use vstd::prelude::*;
use crate::ident::OutPoint;

verus! {

/// A predicate over chain outpoints.
#[derive(Debug, PartialEq, Eq)]
pub enum OutpointSelection {
    /// Every outpoint is selected.
    All,
    /// Exactly the listed outpoints are selected.
    Specific(Vec<OutPoint>),
}

impl OutpointSelection {
    /// Whether the selection covers `outpoint`.
    pub open spec fn selects(self, outpoint: OutPoint) -> bool {
        match self {
            OutpointSelection::All => true,
            OutpointSelection::Specific(list) => list@.contains(outpoint),
        }
    }

    /// Whether the selection covers `outpoint`.
    pub fn includes(&self, outpoint: OutPoint) -> (r: bool)
        ensures
            r == self.selects(outpoint),
    {
        match self {
            OutpointSelection::All => true,
            OutpointSelection::Specific(list) => listed(list, outpoint),
        }
    }
}

fn listed(list: &Vec<OutPoint>, outpoint: OutPoint) -> (r: bool)
    ensures
        r == list@.contains(outpoint),
{
    let mut i: usize = 0;
    while i < list.len()
        invariant
            i <= list.len(),
            forall|j: int| 0 <= j < i ==> list@[j] != outpoint,
        decreases list.len() - i,
    {
        if list[i].same(&outpoint) {
            assert(list@[i as int] == outpoint);
            return true;
        }
        i += 1;
    }
    false
}

} // verus!
