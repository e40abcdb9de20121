//! Encoder tests: strings, integers, containers, and the canonical key
//! order of emitted dictionaries.

use bitcrawler_proto::bencode::BencodeValue;
use bitcrawler_proto::bencode::encode;
use bitcrawler_proto::bencode::encode_string;
use bitcrawler_proto::bencode::write_integer;

#[test]
fn encode_string_empty() {
    let result = encode_string("".into());
    assert_eq!(result, b"0:");
}

#[test]
fn encode_string_hello() {
    let result = encode_string("hello".into());
    assert_eq!(result, b"5:hello");
}

#[test]
fn encode_string_unicode() {
    let result = encode_string("\u{1F980}".into());
    assert_eq!(result, b"4:\xF0\x9F\xA6\x80");
}

#[test]
fn encode_string_newline() {
    let result = encode_string("\n".into());
    assert_eq!(result, b"1:\n");
}

#[test]
fn encode_string_space() {
    let result = encode_string(" ".into());
    assert_eq!(result, b"1: ");
}

#[test]
fn encode_integer_zero() {
    let mut buffer = Vec::new();
    write_integer(0, &mut buffer);
    assert_eq!(buffer, b"i0e");
}

#[test]
fn encode_integer_positive() {
    let mut buffer = Vec::new();
    write_integer(42, &mut buffer);
    assert_eq!(buffer, b"i42e");
}

#[test]
fn encode_integer_negative() {
    let mut buffer = Vec::new();
    write_integer(-42, &mut buffer);
    assert_eq!(buffer, b"i-42e");
}

#[test]
fn encode_encode_test_string() {
    let result = encode(&BencodeValue::ByteString("hello".into()));
    assert_eq!(result, b"5:hello");
}

#[test]
fn encode_encode_test_integer() {
    let result = encode(&BencodeValue::Integer(42));
    assert_eq!(result, b"i42e");
}

#[test]
fn encode_encode_test_list() {
    let result = encode(&BencodeValue::List(vec![
        BencodeValue::ByteString("hello".into()),
        BencodeValue::Integer(42),
    ]));
    assert_eq!(result, b"l5:helloi42ee");
}

#[test]
fn encode_encode_test_dict() {
    let result = encode(&BencodeValue::Dict(vec![
        ("hello".into(), BencodeValue::ByteString("world".into())),
        ("world".into(), BencodeValue::Integer(42)),
    ]));
    assert_eq!(result, b"d5:hello5:world5:worldi42ee");
}

#[test]
fn encode_encode_test_nested_list() {
    let result = encode(&BencodeValue::List(vec![
        BencodeValue::ByteString("hello".into()),
        BencodeValue::List(vec![
            BencodeValue::ByteString("world".into()),
            BencodeValue::Integer(42),
        ]),
    ]));
    assert_eq!(result, b"l5:hellol5:worldi42eee");
}

#[test]
fn encode_encode_test_nested_dict() {
    let result = encode(&BencodeValue::Dict(vec![
        ("hello".into(), BencodeValue::ByteString("world".into())),
        (
            "world".into(),
            BencodeValue::Dict(vec![
                ("hello".into(), BencodeValue::ByteString("world".into())),
                ("world".into(), BencodeValue::Integer(42)),
            ]),
        ),
    ]));
    assert_eq!(result, b"d5:hello5:world5:worldd5:hello5:world5:worldi42eee");
}

#[test]
fn encode_encode_test_realworld_usecase_dht_announce_peer() {
    let result = encode(&BencodeValue::Dict(vec![
        ("t".into(), BencodeValue::ByteString("aa".into())),
        ("y".into(), BencodeValue::ByteString("q".into())),
        ("q".into(), BencodeValue::ByteString("announce_peer".into())),
        (
            "a".into(),
            BencodeValue::Dict(vec![
                (
                    "id".into(),
                    BencodeValue::ByteString("abcdefghij0123456789".into()),
                ),
                (
                    "info_hash".into(),
                    BencodeValue::ByteString("mnopqrstuvwxyz123456".into()),
                ),
                ("port".into(), BencodeValue::Integer(6881)),
                ("token".into(), BencodeValue::ByteString("aoeusnth".into())),
                ("implied_port".into(), BencodeValue::Integer(1)),
            ]),
        ),
    ]));
    assert_eq!(
        result,
        b"d1:ad2:id20:abcdefghij012345678912:implied_porti1e9:info_hash20:mnopqrstuvwxyz1234564:porti6881e5:token8:aoeusnthe1:q13:announce_peer1:t2:aa1:y1:qe".to_vec()
    );
}

#[test]
fn encode_emits_minimal_integer_form() {
    let (_, zeros) = bitcrawler_proto::bencode::decode(b"i000e").unwrap();
    assert_eq!(encode(&zeros), b"i0e");
    let (_, negzero) = bitcrawler_proto::bencode::decode(b"i-0e").unwrap();
    assert_eq!(encode(&negzero), b"i0e");
}
