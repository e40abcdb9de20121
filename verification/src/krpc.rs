//! The KRPC message layer: typed queries, responses and errors carried as
//! bencode dictionaries over UDP.
//!
//! Every message is a dictionary with a `y` key naming its kind (`q`, `r`
//! or `e`) and a `t` key carrying an opaque transaction id.  Queries add
//! `q` (method name) and `a` (arguments); responses add `r` (return
//! values); errors add `e` (a two-element list of code and text).
//! Responses are untagged on the wire, so a shape-based classifier
//! recovers the method from the `r` dictionary's keys.

use vstd::prelude::*;

use crate::bencode::common::BencodeDict;
use crate::bencode::common::BencodeValue;
use crate::bencode::common::SpecValue;
use crate::bencode::common::dict_model;
use crate::kademlia::NodeId;

pub mod error;
pub mod node_info;
pub mod peer_info;
pub mod query;
pub mod response;

pub use error::ErrorCode;
pub use error::ErrorMessage;
pub use query::Query;
pub use query::QueryType;
pub use response::Response;
pub use response::ResponseType;

verus! {

/// The value of the first pair whose key matches, if any: the lookup the
/// query and response parsers use.
pub open spec fn dict_find_first(d: Seq<(Seq<u8>, SpecValue)>, key: Seq<u8>) -> Option<SpecValue>
    decreases d.len(),
{
    if d.len() == 0 {
        None
    } else if d[0].0 == key {
        Some(d[0].1)
    } else {
        dict_find_first(d.subrange(1, d.len() as int), key)
    }
}

/// Finds the value of the first pair of the dictionary whose key equals
/// the given bytes, if any.
#[verifier::loop_isolation(false)]
pub(crate) fn find_first<'a>(dict: &'a BencodeDict, key: &[u8]) -> (r: Option<&'a BencodeValue>)
    ensures
        match r {
            Some(v) => dict_find_first(dict_model(dict@), key@) == Some(v@),
            None => dict_find_first(dict_model(dict@), key@) is None,
        },
{
    let ghost dm = dict_model(dict@);
    proof {
        assert(dm.subrange(0, dm.len() as int) =~= dm);
    }
    let mut i: usize = 0;
    while i < dict.len()
        invariant
            i <= dict@.len(),
            dict_find_first(dm.subrange(i as int, dm.len() as int), key@) == dict_find_first(
                dm,
                key@,
            ),
        decreases dict@.len() - i,
    {
        let ghost pre = dm.subrange(i as int, dm.len() as int);
        if bytes_eq(&dict[i].0.0, key) {
            proof {
                assert(pre[0] == dm[i as int]);
                assert(dict_find_first(pre, key@) == Some(dm[i as int].1));
            }
            return Some(&dict[i].1);
        }
        proof {
            assert(pre[0] == dm[i as int]);
            assert(pre.subrange(1, pre.len() as int) =~= dm.subrange(
                i + 1,
                dm.len() as int,
            ));
        }
        i = i + 1;
    }
    proof {
        assert(dm.subrange(i as int, dm.len() as int).len() == 0);
    }
    None
}

/// Compares two byte strings for equality.
#[verifier::loop_isolation(false)]
pub(crate) fn bytes_eq(a: &Vec<u8>, b: &[u8]) -> (r: bool)
    ensures
        r == (a@ == b@),
{
    if a.len() != b.len() {
        proof {
            assert(a@.len() != b@.len());
        }
        return false;
    }
    let mut i: usize = 0;
    while i < a.len()
        invariant
            i <= a@.len(),
            a@.len() == b@.len(),
            forall|k: int| 0 <= k < i ==> a@[k] == b@[k],
        decreases a@.len() - i,
    {
        if a[i] != *vstd::slice::slice_index_get(b, i) {
            return false;
        }
        i = i + 1;
    }
    proof {
        assert(a@ =~= b@);
    }
    true
}


/// The wire bytes of the `t` key.
pub(crate) fn t_key() -> (r: Vec<u8>)
    ensures
        r@ == seq![116u8],
{
    let mut v: Vec<u8> = Vec::new();
    v.push(116);
    proof {
        assert(v@ =~= seq![116u8]);
    }
    v
}

/// The wire bytes of the `y` key.
pub(crate) fn y_key() -> (r: Vec<u8>)
    ensures
        r@ == seq![121u8],
{
    let mut v: Vec<u8> = Vec::new();
    v.push(121);
    proof {
        assert(v@ =~= seq![121u8]);
    }
    v
}

/// The wire bytes of the `q` key.
pub(crate) fn q_key() -> (r: Vec<u8>)
    ensures
        r@ == seq![113u8],
{
    let mut v: Vec<u8> = Vec::new();
    v.push(113);
    proof {
        assert(v@ =~= seq![113u8]);
    }
    v
}

/// The wire bytes of the `e` key.
pub(crate) fn e_key() -> (r: Vec<u8>)
    ensures
        r@ == seq![101u8],
{
    let mut v: Vec<u8> = Vec::new();
    v.push(101);
    proof {
        assert(v@ =~= seq![101u8]);
    }
    v
}

/// The wire bytes of the `r` key.
pub(crate) fn r_key() -> (r: Vec<u8>)
    ensures
        r@ == seq![114u8],
{
    let mut v: Vec<u8> = Vec::new();
    v.push(114);
    proof {
        assert(v@ =~= seq![114u8]);
    }
    v
}

/// The wire bytes of the `a` key.
pub(crate) fn a_key() -> (r: Vec<u8>)
    ensures
        r@ == seq![97u8],
{
    let mut v: Vec<u8> = Vec::new();
    v.push(97);
    proof {
        assert(v@ =~= seq![97u8]);
    }
    v
}

/// The wire bytes of the `id` key.
pub(crate) fn id_key() -> (r: Vec<u8>)
    ensures
        r@ == seq![105u8, 100u8],
{
    let mut v: Vec<u8> = Vec::new();
    v.push(105);
    v.push(100);
    proof {
        assert(v@ =~= seq![105u8, 100u8]);
    }
    v
}

/// The wire bytes of the `target` key.
pub(crate) fn target_key() -> (r: Vec<u8>)
    ensures
        r@ == seq![116u8, 97u8, 114u8, 103u8, 101u8, 116u8],
{
    let mut v: Vec<u8> = Vec::new();
    v.push(116);
    v.push(97);
    v.push(114);
    v.push(103);
    v.push(101);
    v.push(116);
    proof {
        assert(v@ =~= seq![116u8, 97u8, 114u8, 103u8, 101u8, 116u8]);
    }
    v
}

/// The wire bytes of the `info_hash` key.
pub(crate) fn info_hash_key() -> (r: Vec<u8>)
    ensures
        r@ == seq![105u8, 110u8, 102u8, 111u8, 95u8, 104u8, 97u8, 115u8, 104u8],
{
    let mut v: Vec<u8> = Vec::new();
    v.push(105);
    v.push(110);
    v.push(102);
    v.push(111);
    v.push(95);
    v.push(104);
    v.push(97);
    v.push(115);
    v.push(104);
    proof {
        assert(v@ =~= seq![105u8, 110u8, 102u8, 111u8, 95u8, 104u8, 97u8, 115u8, 104u8]);
    }
    v
}

/// The wire bytes of the `port` key.
pub(crate) fn port_key() -> (r: Vec<u8>)
    ensures
        r@ == seq![112u8, 111u8, 114u8, 116u8],
{
    let mut v: Vec<u8> = Vec::new();
    v.push(112);
    v.push(111);
    v.push(114);
    v.push(116);
    proof {
        assert(v@ =~= seq![112u8, 111u8, 114u8, 116u8]);
    }
    v
}

/// The wire bytes of the `token` key.
pub(crate) fn token_key() -> (r: Vec<u8>)
    ensures
        r@ == seq![116u8, 111u8, 107u8, 101u8, 110u8],
{
    let mut v: Vec<u8> = Vec::new();
    v.push(116);
    v.push(111);
    v.push(107);
    v.push(101);
    v.push(110);
    proof {
        assert(v@ =~= seq![116u8, 111u8, 107u8, 101u8, 110u8]);
    }
    v
}

/// The wire bytes of the `nodes` key.
pub(crate) fn nodes_key() -> (r: Vec<u8>)
    ensures
        r@ == seq![110u8, 111u8, 100u8, 101u8, 115u8],
{
    let mut v: Vec<u8> = Vec::new();
    v.push(110);
    v.push(111);
    v.push(100);
    v.push(101);
    v.push(115);
    proof {
        assert(v@ =~= seq![110u8, 111u8, 100u8, 101u8, 115u8]);
    }
    v
}

/// The wire bytes of the `values` key.
pub(crate) fn values_key() -> (r: Vec<u8>)
    ensures
        r@ == seq![118u8, 97u8, 108u8, 117u8, 101u8, 115u8],
{
    let mut v: Vec<u8> = Vec::new();
    v.push(118);
    v.push(97);
    v.push(108);
    v.push(117);
    v.push(101);
    v.push(115);
    proof {
        assert(v@ =~= seq![118u8, 97u8, 108u8, 117u8, 101u8, 115u8]);
    }
    v
}

/// The wire bytes of the `ping` method name.
pub(crate) fn ping_name() -> (r: Vec<u8>)
    ensures
        r@ == seq![112u8, 105u8, 110u8, 103u8],
{
    let mut v: Vec<u8> = Vec::new();
    v.push(112);
    v.push(105);
    v.push(110);
    v.push(103);
    proof {
        assert(v@ =~= seq![112u8, 105u8, 110u8, 103u8]);
    }
    v
}

/// The wire bytes of the `find_node` method name.
pub(crate) fn find_node_name() -> (r: Vec<u8>)
    ensures
        r@ == seq![102u8, 105u8, 110u8, 100u8, 95u8, 110u8, 111u8, 100u8, 101u8],
{
    let mut v: Vec<u8> = Vec::new();
    v.push(102);
    v.push(105);
    v.push(110);
    v.push(100);
    v.push(95);
    v.push(110);
    v.push(111);
    v.push(100);
    v.push(101);
    proof {
        assert(v@ =~= seq![102u8, 105u8, 110u8, 100u8, 95u8, 110u8, 111u8, 100u8, 101u8]);
    }
    v
}

/// The wire bytes of the `get_peers` method name.
pub(crate) fn get_peers_name() -> (r: Vec<u8>)
    ensures
        r@ == seq![103u8, 101u8, 116u8, 95u8, 112u8, 101u8, 101u8, 114u8, 115u8],
{
    let mut v: Vec<u8> = Vec::new();
    v.push(103);
    v.push(101);
    v.push(116);
    v.push(95);
    v.push(112);
    v.push(101);
    v.push(101);
    v.push(114);
    v.push(115);
    proof {
        assert(v@ =~= seq![103u8, 101u8, 116u8, 95u8, 112u8, 101u8, 101u8, 114u8, 115u8]);
    }
    v
}

/// The wire bytes of the `announce_peer` method name.
pub(crate) fn announce_peer_name() -> (r: Vec<u8>)
    ensures
        r@ == seq![97u8, 110u8, 110u8, 111u8, 117u8, 110u8, 99u8, 101u8, 95u8, 112u8, 101u8, 101u8, 114u8],
{
    let mut v: Vec<u8> = Vec::new();
    v.push(97);
    v.push(110);
    v.push(110);
    v.push(111);
    v.push(117);
    v.push(110);
    v.push(99);
    v.push(101);
    v.push(95);
    v.push(112);
    v.push(101);
    v.push(101);
    v.push(114);
    proof {
        assert(v@ =~= seq![97u8, 110u8, 110u8, 111u8, 117u8, 110u8, 99u8, 101u8, 95u8, 112u8, 101u8, 101u8, 114u8]);
    }
    v
}

/// A KRPC message from the wire: a query or an error.  Responses are
/// untagged by method and go through [`Response`]'s per-method parsers.
#[derive(Debug, PartialEq, Eq, Clone)]
pub enum Message<N: NodeId> {
    Query(query::Query<N>),
    Error(error::ErrorMessage),
}

/// Conversion between a message and its bencode value tree.
pub trait BencodedMessage {
    /// The bencode value tree of the message.
    fn to_bencoded(&self) -> BencodeValue;

    /// Parses a message from a bencode value tree.
    fn try_from_bencoded(input: &BencodeValue) -> Result<Self, &'static str> where Self: Sized;
}

/// Conversion of a method's payload into KRPC argument pairs.
pub trait ToArguments {
    /// The argument pairs of the payload, in emission order.
    fn to_arguments(&self) -> BencodeDict;
}

/// The error type the argument and message parsers report: a short opaque
/// text identifying the missing or invalid field.
pub type TryFromArgumentsError = &'static str;

/// Conversion of KRPC argument pairs into a method's payload.
pub trait TryFromArguments {
    /// Parses the payload from argument pairs.
    fn try_from_arguments(arguments: &BencodeDict) -> Result<Self, TryFromArgumentsError> where
        Self: Sized;
}

/// The message kind on the wire: the value of the first `y` key, when the
/// input is a dictionary and that value is a byte string.
pub open spec fn message_kind(v: SpecValue) -> Option<Seq<u8>> {
    match v {
        SpecValue::Dict(d) => match dict_find_first(d, seq![121u8]) {
            Some(SpecValue::ByteString(y)) => Some(y),
            _ => None,
        },
        _ => None,
    }
}

/// Whether a bencode tree parses as a message: kind `q` with a parsing
/// query, or kind `e` with a parsing error message.
pub open spec fn message_parses<N: NodeId>(v: SpecValue) -> bool {
    match message_kind(v) {
        Some(y) => {
            if y == seq![113u8] {
                query::query_parses::<N>(v)
            } else if y == seq![101u8] {
                error::error_parses(v)
            } else {
                false
            }
        },
        None => false,
    }
}

impl<N: NodeId> Message<N> {
    /// The bencode tree of the message, by its kind.
    pub fn to_bencoded(&self) -> (r: BencodeValue)
        ensures
            match self {
                Message::Query(q) => r@ == query::query_bencoded_spec(*q),
                Message::Error(e) => r@ == error::error_bencoded_spec(*e),
            },
    {
        match self {
            Message::Query(q) => q.to_bencoded(),
            Message::Error(e) => e.to_bencoded(),
        }
    }

    /// Parses a message from a bencode tree, dispatching on the `y` key:
    /// `q` parses as a query, `e` as an error, anything else is rejected.
    pub fn try_from_bencoded(input: &BencodeValue) -> (r: Result<Self, &'static str>)
        ensures
            match r {
                Ok(m) => message_parses::<N>(input@) && match m {
                    Message::Query(q) => message_kind(input@) == Some(seq![113u8])
                        && query::query_parsed(input@, q),
                    Message::Error(e) => message_kind(input@) == Some(seq![101u8])
                        && error::error_parsed(input@, e),
                },
                Err(_) => !message_parses::<N>(input@),
            },
    {
        let dict = match input {
            BencodeValue::Dict(d) => d,
            _ => {
                return Err("Invalid message format");
            },
        };
        let y = match find_first(dict, crate::krpc::y_key().as_slice()) {
            Some(BencodeValue::ByteString(y)) => y,
            _ => {
                return Err("Missing 'y' key");
            },
        };
        if bytes_eq(&y.0, crate::krpc::q_key().as_slice()) {
            match query::Query::try_from_bencoded(input) {
                Ok(q) => Ok(Message::Query(q)),
                Err(e) => Err(e),
            }
        } else if bytes_eq(&y.0, crate::krpc::e_key().as_slice()) {
            match error::ErrorMessage::try_from_bencoded(input) {
                Ok(e) => Ok(Message::Error(e)),
                Err(e) => Err(e),
            }
        } else {
            Err("Invalid message type")
        }
    }
}

impl<N: NodeId> BencodedMessage for Message<N> {
    fn to_bencoded(&self) -> BencodeValue {
        Message::to_bencoded(self)
    }

    fn try_from_bencoded(input: &BencodeValue) -> Result<Self, &'static str> {
        Message::try_from_bencoded(input)
    }
}

} // verus!
