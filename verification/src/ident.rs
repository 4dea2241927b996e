//! Content-addressed identifiers and the addresses built from them.

use vstd::prelude::*;
use commit_verify::TaggedHash;

verus! {

/// A 256-bit hash commitment. Two digests are equal when their bytes are.
#[derive(Clone, Copy, Debug, PartialEq, Eq, PartialOrd, Ord, Hash)]
pub struct Digest(pub [u8; 32]);

impl Digest {
    /// Byte-wise comparison.
    pub fn same(&self, other: &Digest) -> (r: bool)
        ensures
            r == (*self == *other),
    {
        let mut i: usize = 0;
        while i < 32
            invariant
                i <= 32,
                forall|j: int| 0 <= j < i ==> self.0[j] == other.0[j],
            decreases 32 - i,
        {
            if self.0[i] != other.0[i] {
                return false;
            }
            i += 1;
        }
        assert(self.0 =~= other.0);
        true
    }
}

/// The two digests agree on their first `i` bytes and `a` has the smaller
/// byte at `i`.
pub open spec fn differs_at(a: Digest, b: Digest, i: int) -> bool {
    &&& 0 <= i < 32
    &&& a.0[i] < b.0[i]
    &&& forall|j: int| 0 <= j < i ==> a.0[j] == b.0[j]
}

impl Digest {
    /// Whether `self` stands before `other` in the order of their bytes,
    /// the first byte counting most.
    pub open spec fn precedes(self, other: Digest) -> bool {
        exists|i: int| differs_at(self, other, i)
    }

    /// Whether `self` stands before `other` in the order of their bytes.
    pub fn before(&self, other: &Digest) -> (r: bool)
        ensures
            r == self.precedes(*other),
    {
        let mut i: usize = 0;
        while i < 32
            invariant
                i <= 32,
                forall|j: int| 0 <= j < i ==> self.0[j] == other.0[j],
            decreases 32 - i,
        {
            if self.0[i] < other.0[i] {
                assert(differs_at(*self, *other, i as int));
                return true;
            }
            if self.0[i] > other.0[i] {
                assert forall|k: int| !differs_at(*self, *other, k) by {
                    if differs_at(*self, *other, k) {
                        if k > i {
                            assert(self.0[i as int] == other.0[i as int]);
                        }
                    }
                }
                return false;
            }
            i += 1;
        }
        assert forall|k: int| !differs_at(*self, *other, k) by {}
        false
    }
}

/// Of two digests one stands before the other, or they are the same.
pub proof fn lemma_order_total(a: Digest, b: Digest)
    ensures
        a == b || a.precedes(b) || b.precedes(a),
{
    lemma_order_from(a, b, 0);
}

proof fn lemma_order_from(a: Digest, b: Digest, n: int)
    requires
        0 <= n <= 32,
        forall|j: int| 0 <= j < n ==> a.0[j] == b.0[j],
    ensures
        a == b || a.precedes(b) || b.precedes(a),
    decreases 32 - n,
{
    if n == 32 {
        assert(a.0 =~= b.0);
    } else if a.0[n] == b.0[n] {
        lemma_order_from(a, b, n + 1);
    } else if a.0[n] < b.0[n] {
        assert(differs_at(a, b, n));
    } else {
        assert(differs_at(b, a, n));
    }
}

/// A digest that stands before another is not the same and does not stand
/// after it.
pub proof fn lemma_order_strict(a: Digest, b: Digest)
    requires
        a.precedes(b),
    ensures
        a != b,
        !b.precedes(a),
{
    let i = choose|i: int| differs_at(a, b, i);
    if b.precedes(a) {
        let k = choose|k: int| differs_at(b, a, k);
        if k < i {
            assert(a.0[k] == b.0[k]);
        } else if i < k {
            assert(b.0[i] == a.0[i]);
        }
    }
}

/// What stands before a digest stands before everything that digest
/// stands before.
pub proof fn lemma_order_transitive(a: Digest, b: Digest, c: Digest)
    requires
        a.precedes(b),
        b.precedes(c),
    ensures
        a.precedes(c),
{
    let i = choose|i: int| differs_at(a, b, i);
    let k = choose|k: int| differs_at(b, c, k);
    if i <= k {
        assert forall|j: int| 0 <= j < i implies a.0[j] == c.0[j] by {
            assert(a.0[j] == b.0[j]);
            assert(b.0[j] == c.0[j]);
        }
        if i < k {
            assert(b.0[i] == c.0[i]);
        }
        assert(differs_at(a, c, i));
    } else {
        assert forall|j: int| 0 <= j < k implies a.0[j] == c.0[j] by {
            assert(a.0[j] == b.0[j]);
            assert(b.0[j] == c.0[j]);
        }
        assert(a.0[k] == b.0[k]);
        assert(differs_at(a, c, k));
    }
}

/// Identifier of a base-ledger transaction.
#[derive(Clone, Copy, Debug, PartialEq, Eq, PartialOrd, Ord, Hash)]
pub struct Txid(pub Digest);

/// Identifier of a contract: the commitment to its genesis.
#[derive(Clone, Copy, Debug, PartialEq, Eq, PartialOrd, Ord, Hash)]
pub struct ContractId(pub Digest);

/// Identifier of a schema: the commitment to its content.
#[derive(Clone, Copy, Debug, PartialEq, Eq, PartialOrd, Ord, Hash)]
pub struct SchemaId(pub Digest);

/// Identifier of a graph node: the commitment to its content.
#[derive(Clone, Copy, Debug, PartialEq, Eq, PartialOrd, Ord, Hash)]
pub struct NodeId(pub Digest);

/// Identifier of a transition bundle: the commitment to its concealed form.
#[derive(Clone, Copy, Debug, PartialEq, Eq, PartialOrd, Ord, Hash)]
pub struct BundleId(pub Digest);

impl View for Txid {
    type V = Txid;

    open spec fn view(&self) -> Txid {
        *self
    }
}

/// The text in which a transaction id is written.
pub uninterp spec fn txid_text(id: Txid) -> Seq<char>;

/// Formats the `bitcoin::Txid` of the same 32 bytes with its `Display`,
/// which writes the bytes in hexadecimal, the last byte first. The contract
/// only names the resulting text.
#[verifier::external_body]
fn display_txid(id: &Txid) -> (s: String)
    ensures
        s@ == txid_text(*id),
{
    let txid: bitcoin::Txid = bitcoin::hashes::Hash::from_inner(id.0.0);
    txid.to_string()
}

/// The text in which a schema id is written.
pub uninterp spec fn schema_id_text(id: SchemaId) -> Seq<char>;

/// Formats the `rgb::SchemaId` of the same 32 bytes with its `Display`,
/// which writes the bytes in Bech32m behind the prefix `rgbsh`. The
/// contract only names the resulting text.
#[verifier::external_body]
fn display_schema_id(id: &SchemaId) -> (s: String)
    ensures
        s@ == schema_id_text(*id),
{
    rgb::SchemaId::from_array(id.0.0).to_string()
}

/// The text in which a node id is written.
pub uninterp spec fn node_id_text(id: NodeId) -> Seq<char>;

/// Formats the `rgb::NodeId` of the same 32 bytes with its `Display`, which
/// writes the bytes in hexadecimal. The contract only names the resulting
/// text.
#[verifier::external_body]
fn display_node_id(id: &NodeId) -> (s: String)
    ensures
        s@ == node_id_text(*id),
{
    rgb::NodeId::from_array(id.0.0).to_string()
}

impl Txid {
    /// The id as it is written for people.
    pub fn to_text(&self) -> (s: String)
        ensures
            s@ == txid_text(*self),
    {
        display_txid(self)
    }

    /// Whether the two are the same, byte for byte.
    pub fn same(&self, other: &Txid) -> (r: bool)
        ensures
            r == (*self == *other),
    {
        self.0.same(&other.0)
    }
}

/// The text in which a contract id is written.
pub uninterp spec fn contract_id_text(id: ContractId) -> Seq<char>;

/// Formats the `rgb::ContractId` of the same 32 bytes with its `Display`,
/// which writes the bytes in Bech32m behind the prefix `rgb`. The contract
/// only names the resulting text.
#[verifier::external_body]
fn display_contract_id(id: &ContractId) -> (s: String)
    ensures
        s@ == contract_id_text(*id),
{
    rgb::ContractId::from_array(id.0.0).to_string()
}

impl ContractId {
    /// The id as it is written for people.
    pub fn to_text(&self) -> (s: String)
        ensures
            s@ == contract_id_text(*self),
    {
        display_contract_id(self)
    }

    /// Whether the two are the same, byte for byte.
    pub fn same(&self, other: &ContractId) -> (r: bool)
        ensures
            r == (*self == *other),
    {
        self.0.same(&other.0)
    }
}

impl SchemaId {
    /// The id as it is written for people.
    pub fn to_text(&self) -> (s: String)
        ensures
            s@ == schema_id_text(*self),
    {
        display_schema_id(self)
    }

    /// Whether the two are the same, byte for byte.
    pub fn same(&self, other: &SchemaId) -> (r: bool)
        ensures
            r == (*self == *other),
    {
        self.0.same(&other.0)
    }
}

impl NodeId {
    /// The id as it is written for people.
    pub fn to_text(&self) -> (s: String)
        ensures
            s@ == node_id_text(*self),
    {
        display_node_id(self)
    }

    /// Whether the two are the same, byte for byte.
    pub fn same(&self, other: &NodeId) -> (r: bool)
        ensures
            r == (*self == *other),
    {
        self.0.same(&other.0)
    }
}

impl BundleId {
    /// Whether the two are the same, byte for byte.
    pub fn same(&self, other: &BundleId) -> (r: bool)
        ensures
            r == (*self == *other),
    {
        self.0.same(&other.0)
    }
}

/// One output of a base-ledger transaction.
#[derive(Clone, Copy, Debug, PartialEq, Eq, PartialOrd, Ord, Hash)]
pub struct OutPoint {
    pub txid: Txid,
    pub vout: u32,
}

impl OutPoint {
    /// The output `vout` of the transaction `txid`.
    pub fn new(txid: Txid, vout: u32) -> (o: OutPoint)
        ensures
            o == (OutPoint { txid, vout }),
    {
        OutPoint { txid, vout }
    }

    /// Whether the two are the same, byte for byte.
    pub fn same(&self, other: &OutPoint) -> (r: bool)
        ensures
            r == (*self == *other),
    {
        self.vout == other.vout && self.txid.same(&other.txid)
    }
}

/// The address of one produced assignment of a node: the node, the type
/// of the owned right, and the number of the assignment within that type.
#[derive(Clone, Copy, Debug, PartialEq, Eq, PartialOrd, Ord, Hash)]
pub struct NodeOutpoint {
    pub node_id: NodeId,
    pub ty: u16,
    pub output_no: u16,
}

impl NodeOutpoint {
    /// The output `output_no` of type `ty` of the node `node_id`.
    pub fn new(node_id: NodeId, ty: u16, output_no: u16) -> (o: NodeOutpoint)
        ensures
            o == (NodeOutpoint { node_id, ty, output_no }),
    {
        NodeOutpoint { node_id, ty, output_no }
    }

    /// Whether the two are the same, byte for byte.
    pub fn same(&self, other: &NodeOutpoint) -> (r: bool)
        ensures
            r == (*self == *other),
    {
        self.ty == other.ty && self.output_no == other.output_no && self.node_id.same(
            &other.node_id,
        )
    }
}

} // verus!
