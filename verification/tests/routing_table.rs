//! Routing table behaviour: insertion, lookup, removal, duplicate
//! rejection, and the split of a full bucket.

use bitcrawler_proto::bittorrent::BittorrentNodeId;
use bitcrawler_proto::bittorrent::IPv4Address;
use bitcrawler_proto::kademlia::Node;
use bitcrawler_proto::kademlia::RoutingTable;

fn id(first: u8, second: u8) -> BittorrentNodeId {
    let mut bytes = [0u8; 20];
    bytes[0] = first;
    bytes[1] = second;
    BittorrentNodeId(bytes)
}

fn node(first: u8, second: u8) -> Node<IPv4Address, BittorrentNodeId> {
    Node::new(id(first, second), vec![IPv4Address { ip: [127, 0, 0, 1], port: 6881 }])
}

#[test]
fn insert_then_find_bucket_contains_the_node() {
    let mut table: RoutingTable<IPv4Address, BittorrentNodeId> = RoutingTable::new(id(100, 0));
    assert!(table.insert(node(10, 0)));
    assert!(table.insert(node(20, 0)));
    assert!(table.insert(node(30, 0)));
    let bucket = table.find_bucket(&id(20, 0)).unwrap();
    assert!(bucket.contains(&id(20, 0)));
    assert!(bucket.contains(&id(10, 0)));
    assert_eq!(bucket.len(), 3);
}

#[test]
fn duplicate_ids_are_rejected_silently() {
    let mut table: RoutingTable<IPv4Address, BittorrentNodeId> = RoutingTable::new(id(100, 0));
    assert!(table.insert(node(10, 0)));
    assert!(!table.insert(node(10, 0)));
    let bucket = table.find_bucket(&id(10, 0)).unwrap();
    assert_eq!(bucket.len(), 1);
}

#[test]
fn bucket_stays_sorted_by_id() {
    let mut table: RoutingTable<IPv4Address, BittorrentNodeId> = RoutingTable::new(id(100, 0));
    assert!(table.insert(node(30, 0)));
    assert!(table.insert(node(10, 0)));
    assert!(table.insert(node(20, 0)));
    let bucket = table.find_bucket(&id(10, 0)).unwrap();
    assert_eq!(bucket.first().unwrap().id, id(10, 0));
    assert_eq!(bucket.get(1).unwrap().id, id(20, 0));
    assert_eq!(bucket.last().unwrap().id, id(30, 0));
}

#[test]
fn remove_hands_the_node_back_and_drops_empty_buckets() {
    let mut table: RoutingTable<IPv4Address, BittorrentNodeId> = RoutingTable::new(id(100, 0));
    assert!(table.insert(node(10, 0)));
    assert_eq!(table.bucket_count(), 1);
    let removed = table.remove(&id(10, 0)).unwrap();
    assert_eq!(removed.id, id(10, 0));
    assert_eq!(table.bucket_count(), 0);
    assert!(table.remove(&id(10, 0)).is_none());
}

#[test]
fn full_bucket_outside_local_range_rejects_insertion() {
    // All 20 nodes sit above the local id, so the bucket's range does not
    // contain it and the twenty-first node is rejected.
    let mut table: RoutingTable<IPv4Address, BittorrentNodeId> = RoutingTable::new(id(5, 0));
    for k in 0..20 {
        assert!(table.insert(node(50, k as u8)));
    }
    assert!(!table.insert(node(50, 99)));
    assert_eq!(table.bucket_count(), 1);
}

#[test]
fn full_bucket_straddling_local_id_splits_into_two_buckets() {
    // Twenty-one nodes whose ids straddle the local id: the single
    // initial bucket splits into exactly two, and every inserted node is
    // still present.
    let mut table: RoutingTable<IPv4Address, BittorrentNodeId> = RoutingTable::new(id(100, 0));
    let mut firsts: Vec<u8> = Vec::new();
    for k in 90..100 {
        firsts.push(k as u8);
    }
    for k in 101..112 {
        firsts.push(k as u8);
    }
    assert_eq!(firsts.len(), 21);
    for (count, f) in firsts.iter().enumerate() {
        assert!(table.insert(node(*f, 0)));
        if count < 20 {
            assert_eq!(table.bucket_count(), 1);
        }
    }
    assert_eq!(table.bucket_count(), 2);
    for f in firsts.iter() {
        let bucket = table.find_bucket(&id(*f, 0)).unwrap();
        assert!(bucket.contains(&id(*f, 0)));
    }
}
