//! Decoder tests: string and integer tokens, containers, and the error
//! cases of each.

use bitcrawler_proto::bencode::BencodeValue;
use bitcrawler_proto::bencode::Error;
use bitcrawler_proto::bencode::decode;
use bitcrawler_proto::bencode::decode_integer;
use bitcrawler_proto::bencode::decode_string;

#[test]
fn decode_test_valid_bencoded_string() {
    let input = b"4:spam";
    let result = decode_string(input);
    assert_eq!(result, Ok((6, "spam".into())));
}

#[test]
fn decode_test_invalid_missing_separator() {
    let input = b"4spam";
    let result = decode_string(input);
    assert!(matches!(result, Err(Error::InvalidString)));
}

#[test]
fn decode_test_invalid_non_digit_length() {
    let input = b"a:spam";
    let result = decode_string(input);
    assert!(matches!(result, Err(Error::InvalidString)));
}

#[test]
fn decode_test_invalid_negative_length() {
    let input = b"-1:spam";
    let result = decode_string(input);
    assert!(matches!(result, Err(Error::InvalidString)));
}

#[test]
fn decode_test_invalid_length_exceeds_remaining() {
    let input = b"10:spam";
    let result = decode_string(input);
    assert!(matches!(result, Err(Error::InvalidString)));
}

#[test]
fn decode_test_empty_bencoded_string() {
    let input = b"0:";
    let result = decode_string(input);
    assert_eq!(result, Ok((2, "".into())));
}

#[test]
fn decode_test_valid_bencoded_string_with_numbers() {
    let input = b"5:12345";
    let result = decode_string(input);
    assert_eq!(result, Ok((7, "12345".into())));
}

#[test]
fn decode_test_valid_bencoded_string_with_special_characters() {
    let input = b"6:!@#$%^";
    let result = decode_string(input);
    assert_eq!(result, Ok((8, "!@#$%^".into())));
}

#[test]
fn decode_test_valid_bencoded_string_with_whitespace() {
    let input = b"5:hello";
    let result = decode_string(input);
    assert_eq!(result, Ok((7, "hello".into())));
}

#[test]
fn decode_test_invalid_empty_input() {
    let input = b"";
    let result = decode_string(input);
    assert!(matches!(result, Err(Error::InvalidString)));
}

#[test]
fn decode_test_valid_bencoded_integer() {
    let input = b"i42e";
    let result = decode_integer(input);
    assert_eq!(result, Ok((4, 42)));
}

#[test]
fn decode_test_invalid_missing_start() {
    let input = b"42e";
    let result = decode_integer(input);
    assert!(matches!(result, Err(Error::InvalidInteger)));
}

#[test]
fn decode_test_invalid_missing_end() {
    let input = b"i42";
    let result = decode_integer(input);
    assert!(matches!(result, Err(Error::InvalidInteger)));
}

#[test]
fn decode_test_invalid_non_integer() {
    let input = b"i42a";
    let result = decode_integer(input);
    assert!(matches!(result, Err(Error::InvalidInteger)));
}

#[test]
fn decode_test_valid_negative_integer() {
    let input = b"i-42e";
    let result = decode_integer(input);
    assert!(matches!(result, Ok((5, -42))));
}

#[test]
fn decode_test_valid_bencoded_integer_with_zeros() {
    let input = b"i000e";
    let result = decode_integer(input);
    assert_eq!(result, Ok((5, 0)));
}

#[test]
fn decode_test_valid_bencoded_interger_zero() {
    let input = b"i0e";
    let result = decode_integer(input);
    assert_eq!(result, Ok((3, 0)));
}

#[test]
fn decode_test_valid_bencoded_list() {
    let input = b"l4:spam4:eggse";
    let result = decode(input);
    assert!(result.is_ok());
    let result = result.unwrap();
    assert_eq!(result.0, 14);
    assert!(matches!(result.1, BencodeValue::List(_)));
    let list = match result.1 {
        BencodeValue::List(list) => list,
        _ => panic!("Invalid value"),
    };
    assert_eq!(list.len(), 2);
    assert_eq!(list[0], BencodeValue::ByteString("spam".into()));
    assert_eq!(list[1], BencodeValue::ByteString("eggs".into()));
}

#[test]
fn decode_test_valid_bencoded_dict() {
    let input = b"d3:cow3:moo4:spam4:eggse";
    let result = decode(input);
    assert!(result.is_ok());
    let result = result.unwrap();
    assert_eq!(result.0, 24);
    assert!(matches!(result.1, BencodeValue::Dict(_)));
    let dict = match result.1 {
        BencodeValue::Dict(dict) => dict,
        _ => panic!("Invalid value"),
    };
    assert_eq!(dict.len(), 2);
    assert_eq!(dict[0], ("cow".into(), BencodeValue::ByteString("moo".into())));
    assert_eq!(dict[1], ("spam".into(), BencodeValue::ByteString("eggs".into())));
}

#[test]
fn decode_test_valid_bencoded_dict_with_list() {
    let input = b"d4:spamli4ei-4ei0eee";
    let result = decode(input);
    assert!(result.is_ok());
    let result = result.unwrap();
    assert_eq!(result.0, 20);
    assert!(matches!(result.1, BencodeValue::Dict(_)));
    let dict = match result.1 {
        BencodeValue::Dict(dict) => dict,
        _ => panic!("Invalid value"),
    };
    assert_eq!(dict.len(), 1);
    assert_eq!(
        dict[0],
        (
            "spam".into(),
            BencodeValue::List(vec![
                BencodeValue::Integer(4),
                BencodeValue::Integer(-4),
                BencodeValue::Integer(0),
            ])
        )
    );
}

#[test]
fn decode_test_valid_bencoded_list_in_list() {
    let input = b"lli4ei-4ei0eee";
    let result = decode(input);
    assert!(result.is_ok());
    let result = result.unwrap();
    assert_eq!(result.0, 14);
    assert!(matches!(result.1, BencodeValue::List(_)));
    let list = match result.1 {
        BencodeValue::List(list) => list,
        _ => panic!("Invalid value"),
    };
    assert_eq!(list.len(), 1);
    assert!(matches!(list[0], BencodeValue::List(_)));
    let inner_list = match &list[0] {
        BencodeValue::List(list) => list,
        _ => panic!("Invalid value"),
    };
    assert_eq!(inner_list.len(), 3);
    assert_eq!(inner_list[0], BencodeValue::Integer(4));
    assert_eq!(inner_list[1], BencodeValue::Integer(-4));
    assert_eq!(inner_list[2], BencodeValue::Integer(0));
}

#[test]
fn decode_test_valid_bencoded_dict_in_dict() {
    let input = b"d3:cowd3:moo4:spamee";
    let result = decode(input);
    assert!(result.is_ok());
    let result = result.unwrap();
    assert_eq!(result.0, 20);
    assert!(matches!(result.1, BencodeValue::Dict(_)));
    let dict = match result.1 {
        BencodeValue::Dict(dict) => dict,
        _ => panic!("Invalid value"),
    };
    assert_eq!(dict.len(), 1);
    assert_eq!(
        dict[0],
        (
            "cow".into(),
            BencodeValue::Dict(vec![("moo".into(), BencodeValue::ByteString("spam".into())),])
        )
    );
}

#[test]
fn decode_unmatched_container_end_is_invalid_value() {
    assert!(matches!(decode(b"e"), Err(Error::InvalidValue)));
}

#[test]
fn decode_truncated_list_is_invalid_value() {
    assert!(matches!(decode(b"l4:spam"), Err(Error::InvalidValue)));
}

#[test]
fn decode_dangling_dict_key_is_invalid_value() {
    assert!(matches!(decode(b"d3:cowe"), Err(Error::InvalidValue)));
}

#[test]
fn decode_leaves_trailing_bytes_unread() {
    let result = decode(b"i1exyz");
    assert_eq!(result, Ok((3, BencodeValue::Integer(1))));
}

#[test]
fn decode_integer_at_i128_bounds() {
    let max = b"i170141183460469231731687303715884105727e";
    assert_eq!(decode_integer(max), Ok((max.len(), i128::MAX)));
    let min = b"i-170141183460469231731687303715884105728e";
    assert_eq!(decode_integer(min), Ok((min.len(), i128::MIN)));
    let over = b"i170141183460469231731687303715884105728e";
    assert!(matches!(decode_integer(over), Err(Error::InvalidInteger)));
    let under = b"i-170141183460469231731687303715884105729e";
    assert!(matches!(decode_integer(under), Err(Error::InvalidInteger)));
}

#[test]
fn error_kinds_have_short_messages() {
    assert_eq!(Error::InvalidString.message(), "Invalid string");
    assert_eq!(Error::InvalidInteger.message(), "Invalid integer");
    assert_eq!(Error::InvalidValue.message(), "Invalid value");
}
