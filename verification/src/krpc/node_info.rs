//! Node info: a discovered node's id and address, and its compact wire
//! form of fixed byte width (id, then address, then big-endian port).

use vstd::prelude::*;

use crate::kademlia::NodeId;

verus! {

/// A discovered node: an id plus an address that suffices to contact it.
pub trait NodeInfo: Sized {
    /// The type of the node id.
    type NodeId: NodeId;

    /// The type of the address.
    type Address;

    /// The node's id.
    fn get_node_id(&self) -> &Self::NodeId;

    /// The node's address.
    fn to_address(&self) -> Self::Address;

    /// A node info from an id and an address.
    fn new_with_address(node_id: Self::NodeId, address: Self::Address) -> Self;
}

/// The compact wire form of a node info: a fixed-width byte layout, so
/// that several can be concatenated with no separator and sliced apart
/// again by width alone.
pub trait CompactNodeInfo: NodeInfo {
    /// The error a malformed read reports.
    type Error;

    /// The fixed width of the compact form, in bytes; at least one.
    spec fn compact_len() -> int;

    /// The compact bytes of this node info.
    spec fn compact_bytes(&self) -> Seq<u8>;

    /// The node info that a compact byte run of the fixed width denotes.
    spec fn compact_of_bytes(b: Seq<u8>) -> Self;

    /// Writing is one-to-one: the compact bytes have the fixed width and
    /// read back as the same node info.
    proof fn lemma_compact_roundtrip(x: &Self)
        ensures
            Self::compact_len() >= 1,
            x.compact_bytes().len() == Self::compact_len(),
            Self::compact_of_bytes(x.compact_bytes()) == *x,
    ;

    /// Reads one compact node info from the front of the data.  Succeeds
    /// exactly when the data holds at least the fixed width, consuming
    /// exactly that many bytes.
    fn try_read_compact_node_info(data: &[u8]) -> (r: Result<(usize, Self), Self::Error>)
        ensures
            (r is Ok) == (data@.len() >= Self::compact_len()),
            r matches Ok((n, x)) ==> n as int == Self::compact_len() && x
                == Self::compact_of_bytes(data@.subrange(0, Self::compact_len())),
    ;

    /// The compact bytes of this node info, of exactly the fixed width.
    fn write_compact_node_info(&self) -> (r: Vec<u8>)
        ensures
            r@ == self.compact_bytes(),
    ;
}

/// A BitTorrent IPv4 node info: a node id, a 4-byte address, a port.
#[derive(Debug, PartialEq, Eq, Clone)]
pub struct BittorrentNodeInfoV4<N: NodeId> {
    pub node_id: N,
    pub ip: [u8; 4],
    pub port: u16,
}

/// A BitTorrent IPv6 node info: a node id, a 16-byte address, a port.
#[derive(Debug, PartialEq, Eq, Clone)]
pub struct BittorrentNodeInfoV6<N: NodeId> {
    pub node_id: N,
    pub ip: [u8; 16],
    pub port: u16,
}

/// Reading the compact bytes of a node info hands back the same info and
/// reports exactly its fixed width.
pub proof fn lemma_compact_node_info_roundtrip<I: CompactNodeInfo>(x: &I)
    ensures
        x.compact_bytes().len() == I::compact_len(),
        I::compact_of_bytes(x.compact_bytes().subrange(0, I::compact_len())) == *x,
{
    I::lemma_compact_roundtrip(x);
    assert(x.compact_bytes().subrange(0, I::compact_len()) =~= x.compact_bytes());
}

} // verus!
