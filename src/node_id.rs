//! Identifiers of the nodes that hold the data and of the manager.
use vstd::prelude::*;

verus! {

/// The identifier of a node, as its raw bytes. The empty identifier is the
/// null node: routing hands it out when no range holds a slot.
#[derive(Clone, Debug, PartialEq, Eq, Hash)]
pub struct NodeId {
    pub bytes: Vec<u8>,
}

impl View for NodeId {
    type V = Seq<u8>;

    open spec fn view(&self) -> Seq<u8> {
        self.bytes@
    }
}

impl NodeId {
    /// An identifier made of the given bytes.
    pub fn from_slice(bytes: &[u8]) -> (r: NodeId)
        ensures
            r@ == bytes@,
    {
        let mut v: Vec<u8> = Vec::new();
        let mut i: usize = 0;
        while i < bytes.len()
            invariant
                0 <= i <= bytes@.len(),
                v@ == bytes@.subrange(0, i as int),
            decreases bytes@.len() - i,
        {
            v.push(bytes[i]);
            i = i + 1;
            assert(v@ =~= bytes@.subrange(0, i as int));
        }
        assert(v@ =~= bytes@);
        NodeId { bytes: v }
    }

    /// The null identifier.
    pub fn null() -> (r: NodeId)
        ensures
            r@ == Seq::<u8>::empty(),
    {
        NodeId { bytes: Vec::new() }
    }

    /// Whether this is the null identifier.
    pub fn is_null(&self) -> (r: bool)
        ensures
            r == (self@.len() == 0),
    {
        self.bytes.len() == 0
    }

    /// Whether two identifiers name the same node.
    pub fn same_as(&self, other: &NodeId) -> (r: bool)
        ensures
            r == (self@ == other@),
    {
        if self.bytes.len() != other.bytes.len() {
            return false;
        }
        let mut i: usize = 0;
        while i < self.bytes.len()
            invariant
                self@.len() == other@.len(),
                0 <= i <= self@.len(),
                forall|j: int| 0 <= j < i ==> self@[j] == other@[j],
            decreases self@.len() - i,
        {
            if self.bytes[i] != other.bytes[i] {
                return false;
            }
            i = i + 1;
        }
        assert(self@ =~= other@);
        true
    }

    /// A copy of this identifier.
    pub fn duplicate(&self) -> (r: NodeId)
        ensures
            r@ == self@,
    {
        NodeId::from_slice(self.bytes.as_slice())
    }
}

} // verus!
