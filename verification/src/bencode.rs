//! Bencode: BitTorrent's self-delimiting, binary-safe serialization format.
//!
//! The codec works on a tagged value tree ([`BencodeValue`]) with four kinds
//! of values: byte strings, integers, lists and dictionaries.  Dictionaries
//! are ordered sequences of pairs, not keyed maps, so that the exact on-wire
//! key order of decoded data is preserved; [`BencodeValue::sort_keys`]
//! canonicalizes a tree by sorting every dictionary's keys.

pub mod common;
pub mod decode;
pub mod encode;
pub mod laws;

pub use common::BencodeDict;
pub use common::BencodeList;
pub use common::BencodeString;
pub use common::BencodeValue;
pub use common::Error;
pub use decode::decode;
pub use decode::decode_integer;
pub use decode::decode_string;
pub use encode::encode;
pub use encode::encode_string;
pub use encode::write_integer;
pub use encode::write_string;
