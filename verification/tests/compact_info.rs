//! Compact endpoint codecs: fixed widths, exact byte layouts, and the
//! read-back of written forms.

use bitcrawler_proto::bittorrent::BittorrentNodeId;
use bitcrawler_proto::bittorrent::BittorrentNodeInfoV4;
use bitcrawler_proto::bittorrent::IPv4Address;
use bitcrawler_proto::kademlia::NodeId;
use bitcrawler_proto::kademlia::Xorable;
use bitcrawler_proto::krpc::node_info::CompactNodeInfo;
use bitcrawler_proto::krpc::peer_info::CompactPeerInfo;
use core::cmp::Ordering;

#[test]
fn peer_info_round_trip() {
    let peer = IPv4Address { ip: [10, 0, 0, 1], port: 6881 };
    let bytes = peer.write_compact_peer_info();
    assert_eq!(bytes, vec![10, 0, 0, 1, 26, 225]);
    let (read, back) = IPv4Address::try_read_compact_peer_info(&bytes).unwrap();
    assert_eq!(read, 6);
    assert_eq!(back, peer);
}

#[test]
fn peer_info_rejects_short_input() {
    assert!(IPv4Address::try_read_compact_peer_info(&[1, 2, 3, 4, 5]).is_err());
}

#[test]
fn node_info_round_trip() {
    let mut id_bytes = [0u8; 20];
    for (k, b) in id_bytes.iter_mut().enumerate() {
        *b = k as u8;
    }
    let info = BittorrentNodeInfoV4 {
        node_id: BittorrentNodeId(id_bytes),
        address: IPv4Address { ip: [192, 168, 1, 2], port: 51413 },
    };
    let bytes = info.write_compact_node_info();
    assert_eq!(bytes.len(), 26);
    assert_eq!(&bytes[0..20], &id_bytes);
    assert_eq!(&bytes[20..24], &[192, 168, 1, 2]);
    assert_eq!(&bytes[24..26], &[200, 213]);
    let (read, back) = BittorrentNodeInfoV4::try_read_compact_node_info(&bytes).unwrap();
    assert_eq!(read, 26);
    assert_eq!(back, info);
}

#[test]
fn node_info_rejects_short_input() {
    assert!(BittorrentNodeInfoV4::try_read_compact_node_info(&[0u8; 25]).is_err());
}

#[test]
fn node_info_reads_only_its_fixed_width() {
    let info = BittorrentNodeInfoV4 {
        node_id: BittorrentNodeId([7u8; 20]),
        address: IPv4Address { ip: [1, 2, 3, 4], port: 80 },
    };
    let mut bytes = info.write_compact_node_info();
    bytes.extend_from_slice(&[9, 9, 9]);
    let (read, back) = BittorrentNodeInfoV4::try_read_compact_node_info(&bytes).unwrap();
    assert_eq!(read, 26);
    assert_eq!(back, info);
}

#[test]
fn node_id_bytes_round_trip() {
    let id = BittorrentNodeId([
        1, 2, 3, 4, 5, 6, 7, 8, 9, 10, 11, 12, 13, 14, 15, 16, 17, 18, 19, 20,
    ]);
    let bytes = id.to_bytes();
    assert_eq!(bytes.len(), 20);
    let back = BittorrentNodeId::try_from_bytes(&bytes).unwrap();
    assert_eq!(back, id);
    assert!(BittorrentNodeId::try_from_bytes(&bytes[0..19]).is_err());
}

#[test]
fn cmp_distance_is_byte_wise_order() {
    let mut low = [0u8; 20];
    let mut high = [0u8; 20];
    low[0] = 1;
    high[0] = 2;
    let a = BittorrentNodeId(low);
    let b = BittorrentNodeId(high);
    assert_eq!(a.cmp_distance(&b), Ordering::Less);
    assert_eq!(b.cmp_distance(&a), Ordering::Greater);
    assert_eq!(a.cmp_distance(&a), Ordering::Equal);
}

#[test]
fn bucket_index_counts_shared_leading_bytes() {
    let mut x = [7u8; 20];
    let mut y = [7u8; 20];
    y[3] = 9;
    let a = BittorrentNodeId(x);
    let b = BittorrentNodeId(y);
    assert_eq!(a.bucket_index(&b), 3);
    assert_eq!(a.bucket_index(&a), 20);
    x[0] = 1;
    let c = BittorrentNodeId(x);
    assert_eq!(c.bucket_index(&b), 0);
}
