//! The production BitTorrent types: 20-byte node ids compared byte-wise,
//! IPv4 endpoints, and their compact wire forms.

use vstd::prelude::*;

use core::cmp::Ordering;

use crate::bencode::common::bytes_le;
use crate::bencode::common::lemma_bytes_le_antisymmetric;
use crate::bencode::common::lemma_bytes_le_total;
use crate::bencode::common::lemma_bytes_le_transitive;
use crate::kademlia::Address;
use crate::kademlia::NodeId;
use crate::kademlia::Xorable;
use crate::krpc::node_info::CompactNodeInfo;
use crate::krpc::node_info::NodeInfo;
use crate::krpc::peer_info::CompactPeerInfo;

verus! {

broadcast use vstd::array::group_array_axioms;

/// A 20-byte BitTorrent node id (also used for info-hashes).
#[derive(Debug, Clone, Copy, PartialEq, Eq, PartialOrd, Ord, Hash)]
pub struct BittorrentNodeId(pub [u8; 20]);

/// An IPv4 endpoint: four address bytes and a port.
#[derive(Debug, Clone, Copy, PartialEq, Eq, Hash)]
pub struct IPv4Address {
    pub ip: [u8; 4],
    pub port: u16,
}

/// A BitTorrent IPv4 node info: a node id and an IPv4 endpoint.
#[derive(Debug, Clone, Copy, PartialEq, Eq, Hash)]
pub struct BittorrentNodeInfoV4 {
    pub node_id: BittorrentNodeId,
    pub address: IPv4Address,
}

impl Address for IPv4Address {

}

/// The number of leading positions in which two byte runs agree.
pub open spec fn byte_prefix_len(a: Seq<u8>, b: Seq<u8>) -> int
    decreases a.len(),
{
    if a.len() == 0 || b.len() == 0 || a[0] != b[0] {
        0
    } else {
        1 + byte_prefix_len(a.subrange(1, a.len() as int), b.subrange(1, b.len() as int))
    }
}

proof fn lemma_byte_prefix_len_bounds(a: Seq<u8>, b: Seq<u8>)
    ensures
        0 <= byte_prefix_len(a, b),
        byte_prefix_len(a, b) <= a.len(),
        byte_prefix_len(a, b) <= b.len(),
    decreases a.len(),
{
    if a.len() > 0 && b.len() > 0 && a[0] == b[0] {
        lemma_byte_prefix_len_bounds(
            a.subrange(1, a.len() as int),
            b.subrange(1, b.len() as int),
        );
    }
}

proof fn lemma_byte_prefix_len_self(a: Seq<u8>)
    ensures
        byte_prefix_len(a, a) == a.len(),
    decreases a.len(),
{
    if a.len() > 0 {
        lemma_byte_prefix_len_self(a.subrange(1, a.len() as int));
    }
}

/// A prefix-equal scan that stops at the first difference (or at the end
/// of either run) has found the shared-prefix length.
proof fn lemma_byte_prefix_len_eq(a: Seq<u8>, b: Seq<u8>, i: int)
    requires
        0 <= i <= a.len(),
        i <= b.len(),
        forall|k: int| 0 <= k < i ==> a[k] == b[k],
        i < a.len() && i < b.len() ==> a[i] != b[i],
    ensures
        byte_prefix_len(a, b) == i,
    decreases i,
{
    if i == 0 {
    } else {
        let a1 = a.subrange(1, a.len() as int);
        let b1 = b.subrange(1, b.len() as int);
        assert forall|k: int| 0 <= k < i - 1 implies a1[k] == b1[k] by {
            assert(a1[k] == a[k + 1]);
            assert(b1[k] == b[k + 1]);
        }
        if i - 1 < a1.len() && i - 1 < b1.len() {
            assert(a1[i - 1] == a[i as int]);
            assert(b1[i - 1] == b[i as int]);
        }
        lemma_byte_prefix_len_eq(a1, b1, i - 1);
    }
}

impl Xorable for BittorrentNodeId {
    /// Byte-wise lexicographic order of the raw ids: a stable total
    /// order, not a distance to any third reference.
    open spec fn le_spec(&self, other: &Self) -> bool {
        bytes_le(self.0@, other.0@)
    }

    /// The number of leading bytes the two ids share.
    open spec fn bucket_index_spec(&self, other: &Self) -> int {
        byte_prefix_len(self.0@, other.0@)
    }

    proof fn lemma_le_total_order(a: &Self, b: &Self, c: &Self) {
        lemma_bytes_le_total(a.0@, b.0@);
        lemma_bytes_le_total(a.0@, a.0@);
        if bytes_le(a.0@, b.0@) && bytes_le(b.0@, a.0@) {
            lemma_bytes_le_antisymmetric(a.0@, b.0@);
            assert(a.0 =~= b.0);
        }
        if bytes_le(a.0@, b.0@) && bytes_le(b.0@, c.0@) {
            lemma_bytes_le_transitive(a.0@, b.0@, c.0@);
        }
    }

    proof fn lemma_bucket_index_self(a: &Self, b: &Self) {
        lemma_byte_prefix_len_self(a.0@);
        lemma_byte_prefix_len_bounds(a.0@, b.0@);
    }

    /// Compares the raw bytes of the two ids.
    #[verifier::loop_isolation(false)]
    fn cmp_distance(&self, other: &Self) -> (r: Ordering) {
        proof {
            assert(self.0@.subrange(0, 20) =~= self.0@);
            assert(other.0@.subrange(0, 20) =~= other.0@);
        }
        let mut i: usize = 0;
        while i < 20
            invariant
                i <= 20,
                forall|k: int| 0 <= k < i ==> self.0@[k] == other.0@[k],
                bytes_le(self.0@, other.0@) == bytes_le(
                    self.0@.subrange(i as int, 20),
                    other.0@.subrange(i as int, 20),
                ),
                bytes_le(other.0@, self.0@) == bytes_le(
                    other.0@.subrange(i as int, 20),
                    self.0@.subrange(i as int, 20),
                ),
            decreases 20 - i,
        {
            let x = self.0[i];
            let y = other.0[i];
            proof {
                let sa = self.0@.subrange(i as int, 20);
                let sb = other.0@.subrange(i as int, 20);
                assert(sa[0] == self.0@[i as int]);
                assert(sb[0] == other.0@[i as int]);
                assert(sa.subrange(1, sa.len() as int) =~= self.0@.subrange(i + 1, 20));
                assert(sb.subrange(1, sb.len() as int) =~= other.0@.subrange(i + 1, 20));
            }
            if x < y {
                proof {
                    assert(*self != *other) by {
                        assert(self.0@[i as int] != other.0@[i as int]);
                    }
                }
                return Ordering::Less;
            }
            if x > y {
                return Ordering::Greater;
            }
            i = i + 1;
        }
        proof {
            assert(self.0@ =~= other.0@);
            assert(self.0 =~= other.0);
            assert(self.0@.subrange(20, 20).len() == 0);
        }
        Ordering::Equal
    }

    /// The index of the first byte where the two ids differ; 20 when they
    /// are the same id.
    #[verifier::loop_isolation(false)]
    fn bucket_index(&self, other: &Self) -> (r: usize) {
        let mut i: usize = 0;
        while i < 20
            invariant
                i <= 20,
                forall|k: int| 0 <= k < i ==> self.0@[k] == other.0@[k],
            decreases 20 - i,
        {
            if self.0[i] != other.0[i] {
                proof {
                    lemma_byte_prefix_len_eq(self.0@, other.0@, i as int);
                }
                return i;
            }
            i = i + 1;
        }
        proof {
            lemma_byte_prefix_len_eq(self.0@, other.0@, 20);
        }
        20
    }
}

impl NodeId for BittorrentNodeId {
    /// The raw 20 bytes of the id.
    open spec fn id_bytes(&self) -> Seq<u8> {
        self.0@
    }

    /// Exactly 20 bytes.
    open spec fn valid_id_bytes(b: Seq<u8>) -> bool {
        b.len() == 20
    }

    /// The id holding exactly those bytes.
    open spec fn id_of_bytes(b: Seq<u8>) -> Self {
        choose|x: BittorrentNodeId| x.0@ == b
    }

    proof fn lemma_id_bytes_roundtrip(a: &Self) {
        assert(exists|x: BittorrentNodeId| x.0@ == a.0@) by {
            assert(a.0@ == a.0@);
        }
        let x = choose|x: BittorrentNodeId| x.0@ == a.0@;
        assert(x.0 =~= a.0);
    }

    /// Copies 20 bytes into an id; any other length is rejected.
    #[verifier::loop_isolation(false)]
    fn try_from_bytes(b: &[u8]) -> (r: Result<Self, ()>) {
        if b.len() != 20 {
            return Err(());
        }
        let mut arr = [0u8; 20];
        let mut i: usize = 0;
        while i < 20
            invariant
                i <= 20,
                b@.len() == 20,
                forall|k: int| 0 <= k < i ==> arr@[k] == b@[k],
            decreases 20 - i,
        {
            arr[i] = *vstd::slice::slice_index_get(b, i);
            i = i + 1;
        }
        let id = BittorrentNodeId(arr);
        proof {
            assert(arr@ =~= b@);
            let x = choose|x: BittorrentNodeId| x.0@ == b@;
            assert(id.0@ == b@);
            assert(x.0 =~= id.0);
        }
        Ok(id)
    }

    /// The raw 20 bytes of the id.
    fn to_bytes(&self) -> (r: Vec<u8>) {
        vstd::slice::slice_to_vec(self.0.as_slice())
    }
}

/// The compact bytes of an IPv4 endpoint: the four address bytes, then
/// the port big-endian.
pub open spec fn ipv4_compact_bytes(a: IPv4Address) -> Seq<u8> {
    a.ip@ + seq![(a.port / 256) as u8, (a.port % 256) as u8]
}

impl CompactPeerInfo for IPv4Address {
    type Error = &'static str;

    /// Four address bytes and two port bytes.
    open spec fn compact_len() -> int {
        6
    }

    open spec fn compact_bytes(&self) -> Seq<u8> {
        ipv4_compact_bytes(*self)
    }

    /// The endpoint the first six bytes denote.
    open spec fn compact_of_bytes(b: Seq<u8>) -> Self {
        choose|x: IPv4Address|
            x.ip@ == b.subrange(0, 4) && x.port == b[4] as u16 * 256 + b[5] as u16
    }

    proof fn lemma_compact_roundtrip(x: &Self) {
        let b = x.compact_bytes();
        assert(b.subrange(0, 4) =~= x.ip@);
        assert(b[4] == (x.port / 256) as u8);
        assert(b[5] == (x.port % 256) as u8);
        assert(b[4] as u16 * 256 + b[5] as u16 == x.port);
        assert(exists|y: IPv4Address|
            y.ip@ == b.subrange(0, 4) && y.port == b[4] as u16 * 256 + b[5] as u16) by {
            assert(x.ip@ == b.subrange(0, 4) && x.port == b[4] as u16 * 256 + b[5] as u16);
        }
        let y = choose|y: IPv4Address|
            y.ip@ == b.subrange(0, 4) && y.port == b[4] as u16 * 256 + b[5] as u16;
        assert(y.ip =~= x.ip);
    }

    /// Reads four address bytes and a big-endian port.
    fn try_read_compact_peer_info(data: &[u8]) -> (r: Result<(usize, Self), Self::Error>) {
        if data.len() < 6 {
            return Err("Invalid length for compact peer info");
        }
        let ip = read_ip4(data, 0);
        let hi = *vstd::slice::slice_index_get(data, 4);
        let lo = *vstd::slice::slice_index_get(data, 5);
        let port: u16 = hi as u16 * 256 + lo as u16;
        let addr = IPv4Address { ip, port };
        proof {
            let b = data@.subrange(0, 6);
            assert(b.subrange(0, 4) =~= data@.subrange(0, 4));
            assert(b[4] == data@[4] && b[5] == data@[5]);
            assert(addr.ip@ == b.subrange(0, 4) && addr.port == b[4] as u16 * 256 + b[5] as u16);
            let y = choose|y: IPv4Address|
                y.ip@ == b.subrange(0, 4) && y.port == b[4] as u16 * 256 + b[5] as u16;
            assert(y.ip =~= addr.ip);
        }
        Ok((6, addr))
    }

    /// Writes the four address bytes, then the port big-endian.
    fn write_compact_peer_info(&self) -> (r: Vec<u8>) {
        let mut out: Vec<u8> = Vec::new();
        out.push(self.ip[0]);
        out.push(self.ip[1]);
        out.push(self.ip[2]);
        out.push(self.ip[3]);
        out.push((self.port / 256) as u8);
        out.push((self.port % 256) as u8);
        proof {
            assert(out@ =~= ipv4_compact_bytes(*self));
        }
        out
    }
}

/// Reads four bytes starting at `at` into an address array.
#[verifier::loop_isolation(false)]
fn read_ip4(data: &[u8], at: usize) -> (r: [u8; 4])
    requires
        at + 4 <= data@.len(),
    ensures
        r@ == data@.subrange(at as int, at + 4),
{
    let n = data.len();
    let mut ip = [0u8; 4];
    ip[0] = *vstd::slice::slice_index_get(data, at);
    ip[1] = *vstd::slice::slice_index_get(data, at + 1);
    ip[2] = *vstd::slice::slice_index_get(data, at + 2);
    ip[3] = *vstd::slice::slice_index_get(data, at + 3);
    proof {
        assert(ip@ =~= data@.subrange(at as int, at + 4));
    }
    ip
}

impl NodeInfo for BittorrentNodeInfoV4 {
    type NodeId = BittorrentNodeId;

    type Address = IPv4Address;

    /// The node's id.
    fn get_node_id(&self) -> &BittorrentNodeId {
        &self.node_id
    }

    /// The node's endpoint.
    fn to_address(&self) -> IPv4Address {
        IPv4Address { ip: self.address.ip, port: self.address.port }
    }

    /// A node info from an id and an endpoint.
    fn new_with_address(node_id: BittorrentNodeId, address: IPv4Address) -> Self {
        BittorrentNodeInfoV4 { node_id, address }
    }
}

/// The compact bytes of an IPv4 node info: 20 id bytes, then the
/// endpoint's six.
pub open spec fn node_v4_compact_bytes(x: BittorrentNodeInfoV4) -> Seq<u8> {
    x.node_id.0@ + ipv4_compact_bytes(x.address)
}

impl CompactNodeInfo for BittorrentNodeInfoV4 {
    type Error = &'static str;

    /// Twenty id bytes, four address bytes, two port bytes.
    open spec fn compact_len() -> int {
        26
    }

    open spec fn compact_bytes(&self) -> Seq<u8> {
        node_v4_compact_bytes(*self)
    }

    /// The node info the first 26 bytes denote.
    open spec fn compact_of_bytes(b: Seq<u8>) -> Self {
        choose|x: BittorrentNodeInfoV4|
            x.node_id.0@ == b.subrange(0, 20) && x.address.ip@ == b.subrange(20, 24)
                && x.address.port == b[24] as u16 * 256 + b[25] as u16
    }

    proof fn lemma_compact_roundtrip(x: &Self) {
        let b = x.compact_bytes();
        assert(b.subrange(0, 20) =~= x.node_id.0@);
        assert(b.subrange(20, 24) =~= x.address.ip@);
        assert(b[24] == (x.address.port / 256) as u8);
        assert(b[25] == (x.address.port % 256) as u8);
        assert(b[24] as u16 * 256 + b[25] as u16 == x.address.port);
        assert(exists|y: BittorrentNodeInfoV4|
            y.node_id.0@ == b.subrange(0, 20) && y.address.ip@ == b.subrange(20, 24)
                && y.address.port == b[24] as u16 * 256 + b[25] as u16) by {
            assert(x.node_id.0@ == b.subrange(0, 20) && x.address.ip@ == b.subrange(20, 24)
                && x.address.port == b[24] as u16 * 256 + b[25] as u16);
        }
        let y = choose|y: BittorrentNodeInfoV4|
            y.node_id.0@ == b.subrange(0, 20) && y.address.ip@ == b.subrange(20, 24)
                && y.address.port == b[24] as u16 * 256 + b[25] as u16;
        assert(y.node_id.0 =~= x.node_id.0);
        assert(y.address.ip =~= x.address.ip);
    }

    /// Reads 20 id bytes, four address bytes, and a big-endian port.
    #[verifier::loop_isolation(false)]
    fn try_read_compact_node_info(data: &[u8]) -> (r: Result<(usize, Self), Self::Error>) {
        if data.len() < 26 {
            return Err("Invalid length for compact node info");
        }
        let mut arr = [0u8; 20];
        let mut i: usize = 0;
        while i < 20
            invariant
                i <= 20,
                data@.len() >= 26,
                forall|k: int| 0 <= k < i ==> arr@[k] == data@[k],
            decreases 20 - i,
        {
            arr[i] = *vstd::slice::slice_index_get(data, i);
            i = i + 1;
        }
        let ip = read_ip4(data, 20);
        let hi = *vstd::slice::slice_index_get(data, 24);
        let lo = *vstd::slice::slice_index_get(data, 25);
        let port: u16 = hi as u16 * 256 + lo as u16;
        let info = BittorrentNodeInfoV4 {
            node_id: BittorrentNodeId(arr),
            address: IPv4Address { ip, port },
        };
        proof {
            let b = data@.subrange(0, 26);
            assert(arr@ =~= b.subrange(0, 20));
            assert(ip@ =~= b.subrange(20, 24));
            assert(b[24] == data@[24] && b[25] == data@[25]);
            assert(info.node_id.0@ == b.subrange(0, 20) && info.address.ip@ == b.subrange(20, 24)
                && info.address.port == b[24] as u16 * 256 + b[25] as u16);
            let y = choose|y: BittorrentNodeInfoV4|
                y.node_id.0@ == b.subrange(0, 20) && y.address.ip@ == b.subrange(20, 24)
                    && y.address.port == b[24] as u16 * 256 + b[25] as u16;
            assert(y.node_id.0 =~= info.node_id.0);
            assert(y.address.ip =~= info.address.ip);
        }
        Ok((26, info))
    }

    /// Writes the 20 id bytes, the address bytes, then the port.
    #[verifier::loop_isolation(false)]
    fn write_compact_node_info(&self) -> (r: Vec<u8>) {
        let mut out: Vec<u8> = Vec::new();
        let mut i: usize = 0;
        while i < 20
            invariant
                i <= 20,
                out@ == self.node_id.0@.subrange(0, i as int),
            decreases 20 - i,
        {
            out.push(self.node_id.0[i]);
            proof {
                assert(out@ =~= self.node_id.0@.subrange(0, i + 1));
            }
            i = i + 1;
        }
        out.push(self.address.ip[0]);
        out.push(self.address.ip[1]);
        out.push(self.address.ip[2]);
        out.push(self.address.ip[3]);
        out.push((self.address.port / 256) as u8);
        out.push((self.address.port % 256) as u8);
        proof {
            assert(self.node_id.0@.subrange(0, 20) =~= self.node_id.0@);
            assert(out@ =~= node_v4_compact_bytes(*self));
        }
        out
    }
}

} // verus!
