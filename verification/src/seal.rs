//! Single-use seals over transaction outputs, and the endpoints disclosed to
//! a counterparty.

use vstd::prelude::*;
use commit_verify::CommitConceal;
use amplify::Wrapper;
use crate::ident::{Digest, OutPoint, Txid};

verus! {

/// How the transaction that closes a seal carries the commitment.
#[derive(Clone, Copy, Debug, PartialEq, Eq, PartialOrd, Ord, Hash)]
pub enum CloseMethod {
    OpretFirst,
    TapretFirst,
}

/// A seal whose definition is known: the output it points to and the
/// blinding factor that hides it once concealed. A seal without a
/// transaction id points into the witness transaction of its own bundle.
#[derive(Clone, Copy, Debug, PartialEq, Eq, PartialOrd, Ord, Hash)]
pub struct RevealedSeal {
    pub method: CloseMethod,
    pub txid: Option<Txid>,
    pub vout: u32,
    pub blinding: u64,
}

impl CloseMethod {
    /// Whether the two are the same method.
    pub fn same(&self, other: &CloseMethod) -> (r: bool)
        ensures
            r == (*self == *other),
    {
        match (self, other) {
            (CloseMethod::OpretFirst, CloseMethod::OpretFirst) => true,
            (CloseMethod::TapretFirst, CloseMethod::TapretFirst) => true,
            _ => false,
        }
    }
}

impl RevealedSeal {
    /// Whether the two are the same, field for field.
    pub fn same(&self, other: &RevealedSeal) -> (r: bool)
        ensures
            r == (*self == *other),
    {
        let txids = match (&self.txid, &other.txid) {
            (Some(a), Some(b)) => a.same(b),
            (None, None) => true,
            _ => false,
        };
        txids && self.method.same(&other.method) && self.vout == other.vout && self.blinding
            == other.blinding
    }

    /// The output the seal points to, when it is closed by `witness`.
    pub open spec fn spec_outpoint_or(self, witness: Txid) -> OutPoint {
        OutPoint {
            txid: match self.txid {
                Some(txid) => txid,
                None => witness,
            },
            vout: self.vout,
        }
    }

    /// The output the seal points to, when it is closed by `witness`.
    pub fn outpoint_or(&self, witness: Txid) -> (o: OutPoint)
        ensures
            o == self.spec_outpoint_or(witness),
    {
        match self.txid {
            Some(txid) => OutPoint::new(txid, self.vout),
            None => OutPoint::new(witness, self.vout),
        }
    }
}

/// The commitment that stands for a revealed seal once it is concealed.
pub uninterp spec fn seal_commitment(seal: RevealedSeal) -> Digest;

/// Calls `commit_conceal` of `rgb::seal::Revealed` on a seal with the same
/// four fields. The contract only names the resulting tagged hash.
#[verifier::external_body]
fn conceal_seal(seal: &RevealedSeal) -> (d: Digest)
    ensures
        d == seal_commitment(*seal),
{
    let method = match seal.method {
        CloseMethod::OpretFirst => bp::seals::txout::CloseMethod::OpretFirst,
        CloseMethod::TapretFirst => bp::seals::txout::CloseMethod::TapretFirst,
    };
    let txid: Option<bitcoin::Txid> = seal.txid.map(|t| bitcoin::hashes::Hash::from_inner(t.0.0));
    let revealed = rgb::seal::Revealed { method, txid, vout: seal.vout, blinding: seal.blinding };
    Digest(bitcoin::hashes::Hash::into_inner(revealed.commit_conceal().into_inner()))
}

/// What a counterparty is told about an output it receives.
#[derive(Clone, Copy, Debug, PartialEq, Eq, PartialOrd, Ord, Hash)]
pub enum SealEndpoint {
    /// A seal over an output of a known transaction, concealed.
    ConcealedUtxo(Digest),
    /// A seal over an output of the witness transaction itself.
    WitnessVout { method: CloseMethod, vout: u32, blinding: u64 },
}

impl SealEndpoint {
    /// The endpoint that discloses `seal`.
    pub open spec fn of(seal: RevealedSeal) -> SealEndpoint {
        match seal.txid {
            None => SealEndpoint::WitnessVout {
                method: seal.method,
                vout: seal.vout,
                blinding: seal.blinding,
            },
            Some(_) => SealEndpoint::ConcealedUtxo(seal_commitment(seal)),
        }
    }

    /// The endpoint that discloses `seal`: the seal in the open where it
    /// points into the witness transaction, its commitment where it names a
    /// transaction.
    pub fn from_revealed(seal: &RevealedSeal) -> (e: SealEndpoint)
        ensures
            e == SealEndpoint::of(*seal),
    {
        match seal.txid {
            None => SealEndpoint::WitnessVout {
                method: seal.method,
                vout: seal.vout,
                blinding: seal.blinding,
            },
            Some(_) => SealEndpoint::ConcealedUtxo(conceal_seal(seal)),
        }
    }
}

} // verus!
