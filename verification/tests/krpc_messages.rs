//! KRPC layer tests over a small mock id family: message emission and
//! parsing for errors, queries and responses, and the response
//! classifier's precedence.

use core::cmp::Ordering;

use bitcrawler_proto::bencode::BencodeString;
use bitcrawler_proto::bencode::BencodeValue;
use bitcrawler_proto::kademlia::NodeId;
use bitcrawler_proto::kademlia::Xorable;
use bitcrawler_proto::krpc::ErrorCode;
use bitcrawler_proto::krpc::ErrorMessage;
use bitcrawler_proto::krpc::Message;
use bitcrawler_proto::krpc::Query;
use bitcrawler_proto::krpc::QueryType;
use bitcrawler_proto::krpc::Response;
use bitcrawler_proto::krpc::ResponseType;
use bitcrawler_proto::krpc::node_info::CompactNodeInfo;
use bitcrawler_proto::krpc::node_info::NodeInfo;
use bitcrawler_proto::krpc::peer_info::CompactPeerInfo;
use bitcrawler_proto::krpc::query::Ping as PingQuery;
use bitcrawler_proto::krpc::response::GetPeers as GetPeersResponse;
use bitcrawler_proto::krpc::response::FindNode as FindNodeResponse;
use bitcrawler_proto::krpc::response::Ping as PingResponse;

#[derive(Debug, PartialEq, Eq, Clone, Copy, PartialOrd, Ord)]
pub struct MockNodeId(pub u64);

#[derive(Debug, PartialEq, Eq, Clone)]
pub struct MockNodeInfo {
    pub node_id: MockNodeId,
    pub ip: [u8; 4],
    pub port: u16,
}

#[derive(Debug, PartialEq, Eq, Clone)]
pub struct MockAddress {
    pub ip: [u8; 4],
    pub port: u16,
}

impl Xorable for MockNodeId {
    // The specification-level members of the library's traits survive
    // compilation as ordinary trait items; a test implementation only has
    // to provide bodies, and nothing ever calls them.
    fn le_spec(&self, _other: &Self) -> bool {
        unreachable!()
    }

    fn bucket_index_spec(&self, _other: &Self) -> vstd::prelude::int {
        unreachable!()
    }

    fn lemma_le_total_order(_a: &Self, _b: &Self, _c: &Self) {}

    fn lemma_bucket_index_self(_a: &Self, _b: &Self) {}

    fn cmp_distance(&self, other: &Self) -> Ordering {
        self.0.cmp(&other.0)
    }

    fn bucket_index(&self, other: &Self) -> usize {
        let x = self.0 ^ other.0;
        let mut count = 0;
        while (x >> count) > 1 {
            count += 1;
        }
        count
    }
}

impl NodeId for MockNodeId {
    fn id_bytes(&self) -> vstd::prelude::Seq<u8> {
        unreachable!()
    }

    fn valid_id_bytes(_b: vstd::prelude::Seq<u8>) -> bool {
        unreachable!()
    }

    fn id_of_bytes(_b: vstd::prelude::Seq<u8>) -> Self {
        unreachable!()
    }

    fn lemma_id_bytes_roundtrip(_a: &Self) {}

    fn try_from_bytes(value: &[u8]) -> Result<Self, ()> {
        if value.len() != 8 {
            return Err(());
        }
        let mut array = [0u8; 8];
        array.copy_from_slice(value);
        Ok(MockNodeId(u64::from_be_bytes(array)))
    }

    fn to_bytes(&self) -> Vec<u8> {
        self.0.to_be_bytes().to_vec()
    }
}

impl NodeInfo for MockNodeInfo {
    type NodeId = MockNodeId;
    type Address = MockAddress;

    fn get_node_id(&self) -> &Self::NodeId {
        &self.node_id
    }

    fn to_address(&self) -> Self::Address {
        MockAddress { ip: self.ip, port: self.port }
    }

    fn new_with_address(node_id: Self::NodeId, address: Self::Address) -> Self {
        MockNodeInfo { node_id, ip: address.ip, port: address.port }
    }
}

impl CompactNodeInfo for MockNodeInfo {
    type Error = &'static str;

    fn compact_len() -> vstd::prelude::int {
        unreachable!()
    }

    fn compact_bytes(&self) -> vstd::prelude::Seq<u8> {
        unreachable!()
    }

    fn compact_of_bytes(_b: vstd::prelude::Seq<u8>) -> Self {
        unreachable!()
    }

    fn lemma_compact_roundtrip(_x: &Self) {}

    fn try_read_compact_node_info(data: &[u8]) -> Result<(usize, Self), Self::Error> {
        if data.len() < 14 {
            return Err("Invalid length for compact node info");
        }
        let mut node_id = [0u8; 8];
        node_id.copy_from_slice(&data[0..8]);
        let ip = [data[8], data[9], data[10], data[11]];
        let port = u16::from_be_bytes([data[12], data[13]]);
        Ok((14, MockNodeInfo { node_id: MockNodeId(u64::from_be_bytes(node_id)), ip, port }))
    }

    fn write_compact_node_info(&self) -> Vec<u8> {
        let mut data = Vec::with_capacity(14);
        data.extend_from_slice(&self.node_id.0.to_be_bytes());
        data.extend_from_slice(&self.ip);
        data.extend_from_slice(&self.port.to_be_bytes());
        data
    }
}

impl CompactPeerInfo for MockAddress {
    type Error = &'static str;

    fn compact_len() -> vstd::prelude::int {
        unreachable!()
    }

    fn compact_bytes(&self) -> vstd::prelude::Seq<u8> {
        unreachable!()
    }

    fn compact_of_bytes(_b: vstd::prelude::Seq<u8>) -> Self {
        unreachable!()
    }

    fn lemma_compact_roundtrip(_x: &Self) {}

    fn try_read_compact_peer_info(data: &[u8]) -> Result<(usize, Self), Self::Error> {
        if data.len() < 6 {
            return Err("Invalid length for compact peer info");
        }
        let ip = [data[0], data[1], data[2], data[3]];
        let port = u16::from_be_bytes([data[4], data[5]]);
        Ok((6, MockAddress { ip, port }))
    }

    fn write_compact_peer_info(&self) -> Vec<u8> {
        let mut data = Vec::with_capacity(6);
        data.extend_from_slice(&self.ip);
        data.extend_from_slice(&self.port.to_be_bytes());
        data
    }
}

#[test]
fn test_error_message_to_bencoded() {
    let error = ErrorMessage::new(
        "123".into(),
        ErrorCode::GenericError,
        "error message".into(),
    );
    let bencoded = error.to_bencoded();
    assert_eq!(
        bencoded,
        BencodeValue::Dict(vec![
            ("t".into(), BencodeValue::ByteString("123".into())),
            ("y".into(), BencodeValue::ByteString("e".into())),
            (
                "e".into(),
                BencodeValue::List(vec![
                    BencodeValue::Integer(201),
                    BencodeValue::ByteString("error message".into()),
                ])
            ),
        ])
    );
}

#[test]
fn test_error_message_try_from_bencoded() {
    let bencoded = BencodeValue::Dict(vec![
        ("t".into(), BencodeValue::ByteString("123".into())),
        ("y".into(), BencodeValue::ByteString("e".into())),
        (
            "e".into(),
            BencodeValue::List(vec![
                BencodeValue::Integer(201),
                BencodeValue::ByteString("error message".into()),
            ]),
        ),
    ]);
    let error = ErrorMessage::try_from_bencoded(&bencoded).unwrap();
    assert_eq!(
        error,
        ErrorMessage::new("123".into(), ErrorCode::GenericError, "error message".into())
    );
}

#[test]
fn error_message_with_unknown_code_is_rejected() {
    let bencoded = BencodeValue::Dict(vec![
        ("t".into(), BencodeValue::ByteString("123".into())),
        ("y".into(), BencodeValue::ByteString("e".into())),
        (
            "e".into(),
            BencodeValue::List(vec![
                BencodeValue::Integer(205),
                BencodeValue::ByteString("mystery".into()),
            ]),
        ),
    ]);
    assert!(ErrorMessage::try_from_bencoded(&bencoded).is_err());
}


#[test]
fn error_message_with_non_utf8_text_is_rejected() {
    // On the wire: d1:t2:aa1:eli201e1:\xffee.
    let mut wire = b"d1:t2:aa1:eli201e1:".to_vec();
    wire.push(0xff);
    wire.extend_from_slice(b"ee");
    let (consumed, bencoded) = bitcrawler_proto::bencode::decode(&wire).unwrap();
    assert_eq!(consumed, wire.len());
    assert!(ErrorMessage::try_from_bencoded(&bencoded).is_err());

    let direct = BencodeValue::Dict(vec![
        ("t".into(), BencodeValue::ByteString("aa".into())),
        (
            "e".into(),
            BencodeValue::List(vec![
                BencodeValue::Integer(201),
                BencodeValue::ByteString(BencodeString(vec![0xff])),
            ]),
        ),
    ]);
    assert!(ErrorMessage::try_from_bencoded(&direct).is_err());
}

#[test]
fn error_message_accepts_multibyte_utf8_text() {
    let bencoded = BencodeValue::Dict(vec![
        ("t".into(), BencodeValue::ByteString("aa".into())),
        ("y".into(), BencodeValue::ByteString("e".into())),
        (
            "e".into(),
            BencodeValue::List(vec![
                BencodeValue::Integer(203),
                BencodeValue::ByteString("protocole viol\u{e9} \u{1F980}".into()),
            ]),
        ),
    ]);
    let error = ErrorMessage::try_from_bencoded(&bencoded).unwrap();
    assert_eq!(error.code, ErrorCode::ProtocolError);
    assert_eq!(
        error.message,
        BencodeString("protocole viol\u{e9} \u{1F980}".as_bytes().to_vec())
    );
}

#[test]
fn error_message_validates_only_the_last_e_entry() {
    // A later `e` pair overwrites an earlier one; only the text that
    // remains at the end must be valid UTF-8.
    let bencoded = BencodeValue::Dict(vec![
        ("t".into(), BencodeValue::ByteString("aa".into())),
        (
            "e".into(),
            BencodeValue::List(vec![
                BencodeValue::Integer(201),
                BencodeValue::ByteString(BencodeString(vec![0xff])),
            ]),
        ),
        (
            "e".into(),
            BencodeValue::List(vec![
                BencodeValue::Integer(202),
                BencodeValue::ByteString("ok".into()),
            ]),
        ),
    ]);
    let error = ErrorMessage::try_from_bencoded(&bencoded).unwrap();
    assert_eq!(error.code, ErrorCode::ServerError);
    assert_eq!(error.message, BencodeString(b"ok".to_vec()));
}

#[test]
fn test_ping_query_to_bencoded() {
    let node_id = MockNodeId::try_from_bytes(&b"25000000"[..]).unwrap();
    let node_id_: Vec<u8> = node_id.to_bytes();

    let query = Query::new(
        "transaction_id".into(),
        QueryType::Ping(PingQuery { id: node_id }),
    );
    let mut bencoded = query.to_bencoded();
    let mut expected = BencodeValue::Dict(vec![
        ("t".into(), BencodeValue::ByteString("transaction_id".into())),
        ("y".into(), BencodeValue::ByteString("q".into())),
        ("q".into(), BencodeValue::ByteString("ping".into())),
        (
            "a".into(),
            BencodeValue::Dict(vec![("id".into(), BencodeValue::ByteString(node_id_.into()))]),
        ),
    ]);
    bencoded.sort_keys();
    expected.sort_keys();
    assert_eq!(bencoded, expected);
}

#[test]
fn query_round_trip_through_bencode() {
    let query = Query::new(
        "aa".into(),
        QueryType::Ping(PingQuery { id: MockNodeId(77) }),
    );
    let parsed = Query::<MockNodeId>::try_from_bencoded(&query.to_bencoded()).unwrap();
    assert!(parsed == query);
}

#[test]
fn announce_peer_query_with_bad_port_is_rejected() {
    let bencoded = BencodeValue::Dict(vec![
        ("t".into(), BencodeValue::ByteString("aa".into())),
        ("y".into(), BencodeValue::ByteString("q".into())),
        ("q".into(), BencodeValue::ByteString("announce_peer".into())),
        (
            "a".into(),
            BencodeValue::Dict(vec![
                ("id".into(), BencodeValue::ByteString("25000000".into())),
                ("info_hash".into(), BencodeValue::ByteString("25000001".into())),
                ("port".into(), BencodeValue::Integer(70000)),
                ("token".into(), BencodeValue::ByteString("tok".into())),
            ]),
        ),
    ]);
    assert!(Query::<MockNodeId>::try_from_bencoded(&bencoded).is_err());
}

#[test]
fn message_dispatches_on_kind() {
    let query = Query::new(
        "aa".into(),
        QueryType::Ping(PingQuery { id: MockNodeId(5) }),
    );
    let parsed = Message::<MockNodeId>::try_from_bencoded(&query.to_bencoded()).unwrap();
    assert!(matches!(parsed, Message::Query(_)));

    let unknown = BencodeValue::Dict(vec![
        ("t".into(), BencodeValue::ByteString("aa".into())),
        ("y".into(), BencodeValue::ByteString("x".into())),
    ]);
    assert!(Message::<MockNodeId>::try_from_bencoded(&unknown).is_err());
}

#[test]
fn test_ping_response_to_bencoded() {
    let response = Response::<MockNodeInfo, MockAddress>::new(
        "123".into(),
        ResponseType::Ping(PingResponse { id: MockNodeId(123) }),
    );
    let mut bencoded = response.to_bencoded();
    let mut expected = BencodeValue::Dict(vec![
        ("t".into(), BencodeValue::ByteString("123".into())),
        ("y".into(), BencodeValue::ByteString("r".into())),
        (
            "r".into(),
            BencodeValue::Dict(vec![(
                "id".into(),
                BencodeValue::ByteString(vec![0, 0, 0, 0, 0, 0, 0, 123].into()),
            )]),
        ),
    ]);
    bencoded.sort_keys();
    expected.sort_keys();
    assert_eq!(bencoded, expected);
}

#[test]
fn test_ping_response_from_bencoded() {
    let bencoded = BencodeValue::Dict(vec![
        ("t".into(), BencodeValue::ByteString("123".into())),
        ("y".into(), BencodeValue::ByteString("r".into())),
        (
            "r".into(),
            BencodeValue::Dict(vec![(
                "id".into(),
                BencodeValue::ByteString("12345678".into()),
            )]),
        ),
    ]);
    let response = Response::<MockNodeInfo, MockAddress>::try_from_ping_bencoded(&bencoded).unwrap();
    let expected = Response::new(
        "123".into(),
        ResponseType::Ping(PingResponse {
            id: MockNodeId::try_from_bytes(b"12345678".as_ref()).unwrap(),
        }),
    );
    assert!(response == expected);
}

#[test]
fn test_ping_response_from_spec_bencoded() {
    let bencoded_string = "d1:rd2:id8:12345678e1:t2:aa1:y1:re";
    let (_, bencoded) = bitcrawler_proto::bencode::decode(bencoded_string.as_bytes()).unwrap();
    let response = Response::<MockNodeInfo, MockAddress>::try_from_ping_bencoded(&bencoded).unwrap();
    let expected = Response::new(
        "aa".into(),
        ResponseType::Ping(PingResponse {
            id: MockNodeId::try_from_bytes(b"12345678".as_ref()).unwrap(),
        }),
    );
    assert!(response == expected);
}

#[test]
fn test_findpeer_response_to_bencoded() {
    let response = Response::<MockNodeInfo, MockAddress>::new(
        "123".into(),
        ResponseType::FindNode(FindNodeResponse {
            id: MockNodeId(123),
            nodes: vec![
                MockNodeInfo { node_id: MockNodeId(128), ip: [1, 2, 3, 4], port: 1234 },
                MockNodeInfo { node_id: MockNodeId(129), ip: [5, 6, 7, 8], port: 5678 },
            ],
        }),
    );
    let mut bencoded = response.to_bencoded();
    let mut expected = BencodeValue::Dict(vec![
        ("t".into(), BencodeValue::ByteString("123".into())),
        ("y".into(), BencodeValue::ByteString("r".into())),
        (
            "r".into(),
            BencodeValue::Dict(vec![
                (
                    "id".into(),
                    BencodeValue::ByteString(vec![0, 0, 0, 0, 0, 0, 0, 123].into()),
                ),
                (
                    "nodes".into(),
                    BencodeValue::ByteString(
                        vec![
                            0, 0, 0, 0, 0, 0, 0, 128, 1, 2, 3, 4, 4, 210, 0, 0, 0, 0, 0, 0, 0,
                            129, 5, 6, 7, 8, 22, 46,
                        ]
                        .into(),
                    ),
                ),
            ]),
        ),
    ]);
    bencoded.sort_keys();
    expected.sort_keys();
    assert_eq!(bencoded, expected);
}

#[test]
fn test_get_peers_from_bencoded() {
    let bencoded = BencodeValue::Dict(vec![
        ("t".into(), BencodeValue::ByteString("123".into())),
        ("y".into(), BencodeValue::ByteString("r".into())),
        (
            "r".into(),
            BencodeValue::Dict(vec![
                (
                    "id".into(),
                    BencodeValue::ByteString(vec![0, 0, 0, 0, 0, 0, 0, 123].into()),
                ),
                (
                    "token".into(),
                    BencodeValue::ByteString(vec![0, 1, 2, 3].into()),
                ),
                (
                    "nodes".into(),
                    BencodeValue::ByteString(
                        vec![
                            0, 0, 0, 0, 0, 0, 0, 128, 1, 2, 3, 4, 4, 210, 0, 0, 0, 0, 0, 0, 0,
                            129, 5, 6, 7, 8, 22, 46,
                        ]
                        .into(),
                    ),
                ),
                (
                    "values".into(),
                    BencodeValue::List(vec![
                        BencodeValue::ByteString(vec![1, 2, 3, 4, 4, 210].into()),
                        BencodeValue::ByteString(vec![5, 6, 7, 8, 22, 46].into()),
                    ]),
                ),
            ]),
        ),
    ]);
    let response =
        Response::<MockNodeInfo, MockAddress>::try_from_getpeers_bencoded(&bencoded).unwrap();
    let expected = Response::new(
        "123".into(),
        ResponseType::GetPeers(GetPeersResponse {
            id: MockNodeId(123),
            token: Some(BencodeString(vec![0, 1, 2, 3])),
            nodes: vec![
                MockNodeInfo { node_id: MockNodeId(128), ip: [1, 2, 3, 4], port: 1234 },
                MockNodeInfo { node_id: MockNodeId(129), ip: [5, 6, 7, 8], port: 5678 },
            ],
            peers: vec![
                MockAddress { ip: [1, 2, 3, 4], port: 1234 },
                MockAddress { ip: [5, 6, 7, 8], port: 5678 },
            ],
        }),
    );
    assert!(response == expected);
}

fn classify(r_pairs: Vec<(BencodeString, BencodeValue)>) -> Vec<u8> {
    let bencoded = BencodeValue::Dict(vec![
        ("t".into(), BencodeValue::ByteString("aa".into())),
        ("y".into(), BencodeValue::ByteString("r".into())),
        ("r".into(), BencodeValue::Dict(r_pairs)),
    ]);
    let (method, tid) =
        Response::<MockNodeInfo, MockAddress>::try_guess_type_from_bencoded(&bencoded).unwrap();
    assert_eq!(tid, BencodeString(b"aa".to_vec()));
    method
}

#[test]
fn classifier_values_dominates_nodes() {
    let method = classify(vec![
        ("id".into(), BencodeValue::ByteString("12345678".into())),
        ("nodes".into(), BencodeValue::ByteString(vec![].into())),
        ("values".into(), BencodeValue::List(vec![])),
    ]);
    assert_eq!(method, b"get_peers".to_vec());
}

#[test]
fn classifier_token_means_get_peers() {
    let method = classify(vec![
        ("id".into(), BencodeValue::ByteString("12345678".into())),
        ("token".into(), BencodeValue::ByteString("tok".into())),
    ]);
    assert_eq!(method, b"get_peers".to_vec());
}

#[test]
fn classifier_nodes_alone_means_find_node() {
    let method = classify(vec![
        ("id".into(), BencodeValue::ByteString("12345678".into())),
        ("nodes".into(), BencodeValue::ByteString(vec![].into())),
    ]);
    assert_eq!(method, b"find_node".to_vec());
}

#[test]
fn classifier_bare_reply_means_ping() {
    let method = classify(vec![
        ("id".into(), BencodeValue::ByteString("12345678".into())),
    ]);
    assert_eq!(method, b"ping".to_vec());
}

#[test]
fn classifier_is_deterministic() {
    let pairs = vec![
        ("id".into(), BencodeValue::ByteString("12345678".into())),
        ("values".into(), BencodeValue::List(vec![])),
        ("nodes".into(), BencodeValue::ByteString(vec![].into())),
    ];
    let pairs2 = pairs.clone();
    assert_eq!(classify(pairs), classify(pairs2));
}
