//! Round-trip and canonicalization behaviour of the codec on concrete
//! values: encode-then-decode, re-encoding after a decode, and the
//! idempotence of key sorting.

use bitcrawler_proto::bencode::BencodeValue;
use bitcrawler_proto::bencode::decode;
use bitcrawler_proto::bencode::encode;

#[test]
fn round_trip_canonical_value() {
    let v = BencodeValue::Dict(vec![
        ("alpha".into(), BencodeValue::Integer(-7)),
        (
            "beta".into(),
            BencodeValue::List(vec![
                BencodeValue::ByteString("x".into()),
                BencodeValue::Integer(0),
            ]),
        ),
    ]);
    let bytes = encode(&v);
    let (consumed, decoded) = decode(&bytes).unwrap();
    assert_eq!(consumed, bytes.len());
    assert_eq!(decoded, v);
}

#[test]
fn reencoding_a_decoded_value_is_canonical() {
    // Keys arrive out of order; decoding keeps that order.
    let input = b"d4:spam4:eggs3:cow3:mooe";
    let (_, mut v) = decode(input).unwrap();
    assert_eq!(
        v,
        BencodeValue::Dict(vec![
            ("spam".into(), BencodeValue::ByteString("eggs".into())),
            ("cow".into(), BencodeValue::ByteString("moo".into())),
        ])
    );
    // Sorting and re-encoding yields the canonical byte form, which
    // decodes back to the sorted tree.
    v.sort_keys();
    let bytes = encode(&v);
    assert_eq!(bytes, b"d3:cow3:moo4:spam4:eggse".to_vec());
    let (consumed, again) = decode(&bytes).unwrap();
    assert_eq!(consumed, bytes.len());
    assert_eq!(again, v);
}

#[test]
fn sort_keys_is_idempotent() {
    let mut v = BencodeValue::Dict(vec![
        ("b".into(), BencodeValue::Dict(vec![
            ("z".into(), BencodeValue::Integer(1)),
            ("a".into(), BencodeValue::Integer(2)),
        ])),
        ("a".into(), BencodeValue::Integer(3)),
    ]);
    v.sort_keys();
    let once = encode(&v);
    v.sort_keys();
    let twice = encode(&v);
    assert_eq!(once, twice);
    assert_eq!(once, b"d1:ai3e1:bd1:ai2e1:zi1eee".to_vec());
}

#[test]
fn dict_round_trip_preserves_exact_bytes() {
    let input = b"d3:cow3:moo4:spam4:eggse";
    let (consumed, v) = decode(input).unwrap();
    assert_eq!(consumed, input.len());
    assert_eq!(
        v,
        BencodeValue::Dict(vec![
            ("cow".into(), BencodeValue::ByteString("moo".into())),
            ("spam".into(), BencodeValue::ByteString("eggs".into())),
        ])
    );
    assert_eq!(encode(&v), input.to_vec());
}

#[test]
fn announce_peer_dict_canonicalizes_from_any_key_order() {
    // The same pairs as the canonical announce dictionary, deliberately
    // shuffled; the encoder must emit exactly the canonical bytes.
    let v = BencodeValue::Dict(vec![
        (
            "a".into(),
            BencodeValue::Dict(vec![
                ("token".into(), BencodeValue::ByteString("aoeusnth".into())),
                ("implied_port".into(), BencodeValue::Integer(1)),
                ("port".into(), BencodeValue::Integer(6881)),
                (
                    "info_hash".into(),
                    BencodeValue::ByteString("mnopqrstuvwxyz123456".into()),
                ),
                (
                    "id".into(),
                    BencodeValue::ByteString("abcdefghij0123456789".into()),
                ),
            ]),
        ),
        ("q".into(), BencodeValue::ByteString("announce_peer".into())),
        ("t".into(), BencodeValue::ByteString("aa".into())),
        ("y".into(), BencodeValue::ByteString("q".into())),
    ]);
    assert_eq!(
        encode(&v),
        b"d1:ad2:id20:abcdefghij012345678912:implied_porti1e9:info_hash20:mnopqrstuvwxyz1234564:porti6881e5:token8:aoeusnthe1:q13:announce_peer1:t2:aa1:y1:qe".to_vec()
    );
}

#[test]
fn binary_strings_survive_the_round_trip() {
    let v = BencodeValue::ByteString(bitcrawler_proto::bencode::BencodeString(vec![
        0, 255, 10, 13, 58, 101, 105, 108, 100,
    ]));
    let bytes = encode(&v);
    let (consumed, decoded) = decode(&bytes).unwrap();
    assert_eq!(consumed, bytes.len());
    assert_eq!(decoded, v);
}
