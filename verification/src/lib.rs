//! Client-side core of the BitTorrent Mainline DHT protocol: the bencode
//! codec, the KRPC message layer with its response classifier, and a
//! Kademlia-style routing table, with machine-checked contracts.

pub mod bencode;
pub mod bittorrent;
pub mod kademlia;
pub mod krpc;
