//! KRPC queries: `ping`, `find_node`, `get_peers` and `announce_peer`,
//! with their argument (de)serialization over bencode.

use vstd::prelude::*;

use crate::bencode::common::BencodeDict;
use crate::bencode::common::BencodeString;
use crate::bencode::common::BencodeValue;
use crate::bencode::common::SpecValue;
use crate::bencode::common::dict_model;
use crate::kademlia::NodeId;
use crate::krpc::ToArguments;
use crate::krpc::TryFromArguments;
use crate::krpc::TryFromArgumentsError;
use crate::krpc::bytes_eq;
use crate::krpc::dict_find_first;
use crate::krpc::find_first;

verus! {

/// The bytes of the `ping` method name.
pub open spec fn method_ping() -> Seq<u8> {
    seq![112u8, 105u8, 110u8, 103u8]
}

/// The bytes of the `find_node` method name.
pub open spec fn method_find_node() -> Seq<u8> {
    seq![102u8, 105u8, 110u8, 100u8, 95u8, 110u8, 111u8, 100u8, 101u8]
}

/// The bytes of the `get_peers` method name.
pub open spec fn method_get_peers() -> Seq<u8> {
    seq![103u8, 101u8, 116u8, 95u8, 112u8, 101u8, 101u8, 114u8, 115u8]
}

/// The bytes of the `announce_peer` method name.
pub open spec fn method_announce_peer() -> Seq<u8> {
    seq![97u8, 110u8, 110u8, 111u8, 117u8, 110u8, 99u8, 101u8, 95u8, 112u8, 101u8, 101u8, 114u8]
}

/// The bytes of the `id` argument key.
pub open spec fn key_id() -> Seq<u8> {
    seq![105u8, 100u8]
}

/// The bytes of the `target` argument key.
pub open spec fn key_target() -> Seq<u8> {
    seq![116u8, 97u8, 114u8, 103u8, 101u8, 116u8]
}

/// The bytes of the `info_hash` argument key.
pub open spec fn key_info_hash() -> Seq<u8> {
    seq![105u8, 110u8, 102u8, 111u8, 95u8, 104u8, 97u8, 115u8, 104u8]
}

/// The bytes of the `port` argument key.
pub open spec fn key_port() -> Seq<u8> {
    seq![112u8, 111u8, 114u8, 116u8]
}

/// The bytes of the `token` argument key.
pub open spec fn key_token() -> Seq<u8> {
    seq![116u8, 111u8, 107u8, 101u8, 110u8]
}

/// A query: a transaction id and one of the four methods with its
/// arguments.
#[derive(Debug, PartialEq, Eq, Clone)]
pub struct Query<N: NodeId> {
    pub transaction_id: BencodeString,
    pub query: QueryType<N>,
}

/// One of the four supported query methods.
#[derive(Debug, PartialEq, Eq, Clone)]
pub enum QueryType<N: NodeId> {
    /// A `ping` query.
    Ping(Ping<N>),
    /// A `find_node` query.
    FindNode(FindNode<N>),
    /// A `get_peers` query.
    GetPeers(GetPeers<N>),
    /// An `announce_peer` query.
    AnnouncePeer(AnnouncePeer<N>),
}

/// A `ping` query: only the querier's id.
#[derive(Debug, PartialEq, Eq, Clone)]
pub struct Ping<N: NodeId> {
    pub id: N,
}

/// A `find_node` query: the querier's id and the target id whose
/// neighbours are sought.
#[derive(Debug, PartialEq, Eq, Clone)]
pub struct FindNode<N: NodeId> {
    pub id: N,
    pub target: N,
}

/// A `get_peers` query: the querier's id and the torrent's info-hash.
#[derive(Debug, PartialEq, Eq, Clone)]
pub struct GetPeers<N: NodeId> {
    pub id: N,
    pub info_hash: N,
}

/// An `announce_peer` query: the querier's id, the torrent's info-hash,
/// the port being announced, and the token from an earlier `get_peers`.
#[derive(Debug, PartialEq, Eq, Clone)]
pub struct AnnouncePeer<N: NodeId> {
    pub id: N,
    pub info_hash: N,
    pub port: u16,
    pub token: BencodeString,
}

/// The argument pairs each method emits, in emission order.
pub open spec fn args_spec<N: NodeId>(q: QueryType<N>) -> Seq<(Seq<u8>, SpecValue)> {
    match q {
        QueryType::Ping(p) => seq![(key_id(), SpecValue::ByteString(p.id.id_bytes()))],
        QueryType::FindNode(f) => seq![
            (key_id(), SpecValue::ByteString(f.id.id_bytes())),
            (key_target(), SpecValue::ByteString(f.target.id_bytes())),
        ],
        QueryType::GetPeers(g) => seq![
            (key_id(), SpecValue::ByteString(g.id.id_bytes())),
            (key_info_hash(), SpecValue::ByteString(g.info_hash.id_bytes())),
        ],
        QueryType::AnnouncePeer(a) => seq![
            (key_id(), SpecValue::ByteString(a.id.id_bytes())),
            (key_info_hash(), SpecValue::ByteString(a.info_hash.id_bytes())),
            (key_port(), SpecValue::Integer(a.port as int)),
            (key_token(), SpecValue::ByteString(a.token@)),
        ],
    }
}

/// The method name each kind carries in the `q` key.
pub open spec fn query_name_spec<N: NodeId>(q: QueryType<N>) -> Seq<u8> {
    match q {
        QueryType::Ping(_) => method_ping(),
        QueryType::FindNode(_) => method_find_node(),
        QueryType::GetPeers(_) => method_get_peers(),
        QueryType::AnnouncePeer(_) => method_announce_peer(),
    }
}

/// The bencode tree a query is emitted as: `t`, `y = "q"`, the method
/// name under `q`, and the arguments under `a`, in that pair order.
pub open spec fn query_bencoded_spec<N: NodeId>(q: Query<N>) -> SpecValue {
    SpecValue::Dict(
        seq![
            (seq![116u8], SpecValue::ByteString(q.transaction_id@)),
            (seq![121u8], SpecValue::ByteString(seq![113u8])),
            (seq![113u8], SpecValue::ByteString(query_name_spec(q.query))),
            (seq![97u8], SpecValue::Dict(args_spec(q.query))),
        ],
    )
}

/// What parsing `ping` arguments comes to: the first `id` pair must be a
/// byte string holding a valid node id.
pub open spec fn parse_ping_args<N: NodeId>(d: Seq<(Seq<u8>, SpecValue)>) -> Option<N> {
    match dict_find_first(d, key_id()) {
        Some(SpecValue::ByteString(b)) => if N::valid_id_bytes(b) {
            Some(N::id_of_bytes(b))
        } else {
            None
        },
        _ => None,
    }
}

/// What parsing `find_node` arguments comes to: valid `id` and `target`.
pub open spec fn parse_find_node_args<N: NodeId>(d: Seq<(Seq<u8>, SpecValue)>) -> Option<(N, N)> {
    match (dict_find_first(d, key_id()), dict_find_first(d, key_target())) {
        (Some(SpecValue::ByteString(b1)), Some(SpecValue::ByteString(b2))) => if N::valid_id_bytes(
            b1,
        ) && N::valid_id_bytes(b2) {
            Some((N::id_of_bytes(b1), N::id_of_bytes(b2)))
        } else {
            None
        },
        _ => None,
    }
}

/// What parsing `get_peers` arguments comes to: valid `id` and
/// `info_hash`.
pub open spec fn parse_get_peers_args<N: NodeId>(d: Seq<(Seq<u8>, SpecValue)>) -> Option<(N, N)> {
    match (dict_find_first(d, key_id()), dict_find_first(d, key_info_hash())) {
        (Some(SpecValue::ByteString(b1)), Some(SpecValue::ByteString(b2))) => if N::valid_id_bytes(
            b1,
        ) && N::valid_id_bytes(b2) {
            Some((N::id_of_bytes(b1), N::id_of_bytes(b2)))
        } else {
            None
        },
        _ => None,
    }
}

/// One step of the scan over `announce_peer` arguments: each recognized
/// key must have the right shape (a valid id, a port within 0..=65535, a
/// byte-string token), later occurrences overwriting earlier ones; other
/// keys are ignored.  The parse succeeds when all four parts were seen.
pub open spec fn scan_announce_pairs<N: NodeId>(
    d: Seq<(Seq<u8>, SpecValue)>,
    id: Option<N>,
    info_hash: Option<N>,
    port: Option<int>,
    token: Option<Seq<u8>>,
) -> Option<(N, N, int, Seq<u8>)>
    decreases d.len(),
{
    if d.len() == 0 {
        match (id, info_hash, port, token) {
            (Some(a), Some(b), Some(p), Some(t)) => Some((a, b, p, t)),
            _ => None,
        }
    } else {
        let rest = d.subrange(1, d.len() as int);
        if d[0].0 == key_id() {
            match d[0].1 {
                SpecValue::ByteString(b) => if N::valid_id_bytes(b) {
                    scan_announce_pairs(rest, Some(N::id_of_bytes(b)), info_hash, port, token)
                } else {
                    None
                },
                _ => None,
            }
        } else if d[0].0 == key_info_hash() {
            match d[0].1 {
                SpecValue::ByteString(b) => if N::valid_id_bytes(b) {
                    scan_announce_pairs(rest, id, Some(N::id_of_bytes(b)), port, token)
                } else {
                    None
                },
                _ => None,
            }
        } else if d[0].0 == key_port() {
            match d[0].1 {
                SpecValue::Integer(p) => if 0 <= p <= 65535 {
                    scan_announce_pairs(rest, id, info_hash, Some(p), token)
                } else {
                    None
                },
                _ => None,
            }
        } else if d[0].0 == key_token() {
            match d[0].1 {
                SpecValue::ByteString(t) => scan_announce_pairs(rest, id, info_hash, port, Some(t)),
                _ => None,
            }
        } else {
            scan_announce_pairs(rest, id, info_hash, port, token)
        }
    }
}

/// Whether a bencode tree parses as a query: a dictionary with a
/// byte-string `t`, a known method name under `q`, and arguments under
/// `a` that parse for that method.
pub open spec fn query_parses<N: NodeId>(v: SpecValue) -> bool {
    match v {
        SpecValue::Dict(d) => {
            &&& dict_find_first(d, seq![116u8]) matches Some(SpecValue::ByteString(_))
            &&& match dict_find_first(d, seq![113u8]) {
                Some(SpecValue::ByteString(name)) => match dict_find_first(d, seq![97u8]) {
                    Some(SpecValue::Dict(args)) => {
                        if name == method_ping() {
                            parse_ping_args::<N>(args) is Some
                        } else if name == method_find_node() {
                            parse_find_node_args::<N>(args) is Some
                        } else if name == method_get_peers() {
                            parse_get_peers_args::<N>(args) is Some
                        } else if name == method_announce_peer() {
                            scan_announce_pairs::<N>(args, None, None, None, None) is Some
                        } else {
                            false
                        }
                    },
                    _ => false,
                },
                _ => false,
            }
        },
        _ => false,
    }
}

/// The query `q` is what parsing the tree `v` yields.
pub open spec fn query_parsed<N: NodeId>(v: SpecValue, q: Query<N>) -> bool {
    &&& v matches SpecValue::Dict(d)
    &&& dict_find_first(d, seq![116u8]) matches Some(SpecValue::ByteString(t))
    &&& q.transaction_id@ == t
    &&& dict_find_first(d, seq![113u8]) matches Some(SpecValue::ByteString(name))
    &&& dict_find_first(d, seq![97u8]) matches Some(SpecValue::Dict(args))
    &&& match q.query {
        QueryType::Ping(p) => name == method_ping() && parse_ping_args::<N>(args) == Some(p.id),
        QueryType::FindNode(f) => name == method_find_node() && parse_find_node_args::<N>(args)
            == Some((f.id, f.target)),
        QueryType::GetPeers(g) => name == method_get_peers() && parse_get_peers_args::<N>(args)
            == Some((g.id, g.info_hash)),
        QueryType::AnnouncePeer(a) => name == method_announce_peer() && (scan_announce_pairs::<
            N,
        >(args, None, None, None, None) matches Some((i1, i2, p1, t2)) && a.id == i1
            && a.info_hash == i2 && a.port as int == p1 && a.token@ == t2),
    }
}

impl<N: NodeId> Query<N> {
    /// Builds a query from a transaction id and a method payload.
    pub fn new(transaction_id: BencodeString, query: QueryType<N>) -> (r: Self)
        ensures
            r.transaction_id == transaction_id,
            r.query == query,
    {
        Query { transaction_id, query }
    }

    /// The bencode tree of the query: `t`, `y = "q"`, the method name
    /// under `q`, and the arguments under `a`.
    pub fn to_bencoded(&self) -> (r: BencodeValue)
        ensures
            r@ == query_bencoded_spec(*self),
    {
        let mut dict: Vec<(BencodeString, BencodeValue)> = Vec::new();
        dict.push(
            (
                BencodeString(crate::krpc::t_key()),
                BencodeValue::ByteString(self.transaction_id.clone()),
            ),
        );
        dict.push(
            (
                BencodeString(crate::krpc::y_key()),
                BencodeValue::ByteString(BencodeString(crate::krpc::q_key())),
            ),
        );
        dict.push(
            (
                BencodeString(crate::krpc::q_key()),
                BencodeValue::ByteString(BencodeString(self.query.get_query_type())),
            ),
        );
        let args = self.query.to_arguments();
        dict.push(
            (BencodeString(crate::krpc::a_key()), BencodeValue::Dict(args)),
        );
        let ghost d0 = dict@;
        let r = BencodeValue::Dict(dict);
        proof {
            let dm = dict_model(d0);
            let goal = query_bencoded_spec(*self)->Dict_0;
            assert(dm.len() == 4 && goal.len() == 4);
            assert(dm[0] == goal[0]);
            assert(dm[1] == goal[1]);
            assert(dm[2] == goal[2]);
            assert(dm[3] == goal[3]);
            assert(dm =~= goal);
        }
        r
    }

    /// Parses a query from a bencode tree.  Succeeds exactly when the
    /// tree is a dictionary with a byte-string `t`, a known method name
    /// under `q`, and arguments under `a` that parse for that method.
    pub fn try_from_bencoded(input: &BencodeValue) -> (r: Result<Self, TryFromArgumentsError>)
        ensures
            match r {
                Ok(q) => query_parsed(input@, q),
                Err(_) => !query_parses::<N>(input@),
            },
    {
        let dict = match input {
            BencodeValue::Dict(d) => d,
            _ => {
                return Err("Invalid query - not a dictionary");
            },
        };
        let transaction_id = match find_first(dict, crate::krpc::t_key().as_slice()) {
            Some(BencodeValue::ByteString(t)) => t.clone(),
            _ => {
                return Err("Missing 't' field");
            },
        };
        let query_type = match find_first(dict, crate::krpc::q_key().as_slice()) {
            Some(BencodeValue::ByteString(qt)) => qt,
            _ => {
                return Err("Missing 'q' field");
            },
        };
        let arguments = match find_first(dict, crate::krpc::a_key().as_slice()) {
            Some(BencodeValue::Dict(a)) => a,
            _ => {
                return Err("Missing 'a' field");
            },
        };
        let query = if bytes_eq(&query_type.0, crate::krpc::ping_name().as_slice()) {
            match Ping::try_from_arguments_inner(arguments) {
                Ok(p) => QueryType::Ping(p),
                Err(e) => {
                    return Err(e);
                },
            }
        } else if bytes_eq(&query_type.0, crate::krpc::find_node_name().as_slice()) {
            match FindNode::try_from_arguments_inner(arguments) {
                Ok(p) => QueryType::FindNode(p),
                Err(e) => {
                    return Err(e);
                },
            }
        } else if bytes_eq(&query_type.0, crate::krpc::get_peers_name().as_slice()) {
            match GetPeers::try_from_arguments_inner(arguments) {
                Ok(p) => QueryType::GetPeers(p),
                Err(e) => {
                    return Err(e);
                },
            }
        } else if bytes_eq(&query_type.0, crate::krpc::announce_peer_name().as_slice()) {
            match AnnouncePeer::try_from_arguments_inner(arguments) {
                Ok(p) => QueryType::AnnouncePeer(p),
                Err(e) => {
                    return Err(e);
                },
            }
        } else {
            return Err("Invalid query type");
        };
        Ok(Query { transaction_id, query })
    }
}

impl<N: NodeId> QueryType<N> {
    /// The argument pairs of this query's method, in emission order.
    pub fn to_arguments(&self) -> (r: BencodeDict)
        ensures
            dict_model(r@) == args_spec(*self),
    {
        match self {
            QueryType::Ping(p) => p.to_arguments_inner(),
            QueryType::FindNode(f) => f.to_arguments_inner(),
            QueryType::GetPeers(g) => g.to_arguments_inner(),
            QueryType::AnnouncePeer(a) => a.to_arguments_inner(),
        }
    }

    /// The method name this query is sent under, as its raw bytes.
    pub fn get_query_type(&self) -> (r: Vec<u8>)
        ensures
            r@ == query_name_spec(*self),
    {
        match self {
            QueryType::Ping(_) => crate::krpc::ping_name(),
            QueryType::FindNode(_) => crate::krpc::find_node_name(),
            QueryType::GetPeers(_) => crate::krpc::get_peers_name(),
            QueryType::AnnouncePeer(_) => crate::krpc::announce_peer_name(),
        }
    }
}

/// Builds the `(key, id bytes)` pair for an id-valued argument.
fn id_pair<N: NodeId>(key: &[u8], id: &N) -> (r: (BencodeString, BencodeValue))
    ensures
        r.0@ == key@,
        r.1@ == SpecValue::ByteString(id.id_bytes()),
{
    (
        BencodeString(vstd::slice::slice_to_vec(key)),
        BencodeValue::ByteString(BencodeString(id.to_bytes())),
    )
}

impl<N: NodeId> Ping<N> {
    /// The `ping` arguments: the querier's id.
    pub fn to_arguments_inner(&self) -> (r: BencodeDict)
        ensures
            dict_model(r@) == args_spec(QueryType::Ping(*self)),
    {
        let mut args: Vec<(BencodeString, BencodeValue)> = Vec::new();
        args.push(id_pair(crate::krpc::id_key().as_slice(), &self.id));
        proof {
            assert(dict_model(args@) =~~= args_spec(QueryType::Ping(*self)));
        }
        args
    }

    /// Parses `ping` arguments: the first `id` pair must be a byte string
    /// holding a valid node id.
    pub fn try_from_arguments_inner(arguments: &BencodeDict) -> (r: Result<
        Self,
        TryFromArgumentsError,
    >)
        ensures
            match r {
                Ok(p) => parse_ping_args::<N>(dict_model(arguments@)) == Some(p.id),
                Err(_) => parse_ping_args::<N>(dict_model(arguments@)) is None,
            },
    {
        let id_value = match find_first(arguments, crate::krpc::id_key().as_slice()) {
            Some(BencodeValue::ByteString(b)) => b,
            _ => {
                return Err("Missing 'id' field");
            },
        };
        match N::try_from_bytes(id_value.0.as_slice()) {
            Ok(id) => Ok(Ping { id }),
            Err(_) => Err("Invalid NodeId"),
        }
    }
}

impl<N: NodeId> FindNode<N> {
    /// The `find_node` arguments: the querier's id and the target.
    pub fn to_arguments_inner(&self) -> (r: BencodeDict)
        ensures
            dict_model(r@) == args_spec(QueryType::FindNode(*self)),
    {
        let mut args: Vec<(BencodeString, BencodeValue)> = Vec::new();
        args.push(id_pair(crate::krpc::id_key().as_slice(), &self.id));
        args.push(id_pair(crate::krpc::target_key().as_slice(), &self.target));
        proof {
            assert(dict_model(args@) =~~= args_spec(QueryType::FindNode(*self)));
        }
        args
    }

    /// Parses `find_node` arguments: valid `id` and `target`.
    pub fn try_from_arguments_inner(arguments: &BencodeDict) -> (r: Result<
        Self,
        TryFromArgumentsError,
    >)
        ensures
            match r {
                Ok(p) => parse_find_node_args::<N>(dict_model(arguments@)) == Some(
                    (p.id, p.target),
                ),
                Err(_) => parse_find_node_args::<N>(dict_model(arguments@)) is None,
            },
    {
        let id_value = match find_first(arguments, crate::krpc::id_key().as_slice()) {
            Some(BencodeValue::ByteString(b)) => b,
            _ => {
                return Err("Missing 'id' field");
            },
        };
        let target_value = match find_first(arguments, crate::krpc::target_key().as_slice()) {
            Some(BencodeValue::ByteString(b)) => b,
            _ => {
                return Err("Missing 'target' field");
            },
        };
        let id = match N::try_from_bytes(id_value.0.as_slice()) {
            Ok(id) => id,
            Err(_) => {
                return Err("Invalid NodeId");
            },
        };
        let target = match N::try_from_bytes(target_value.0.as_slice()) {
            Ok(t) => t,
            Err(_) => {
                return Err("Invalid NodeId");
            },
        };
        Ok(FindNode { id, target })
    }
}

impl<N: NodeId> GetPeers<N> {
    /// The `get_peers` arguments: the querier's id and the info-hash.
    pub fn to_arguments_inner(&self) -> (r: BencodeDict)
        ensures
            dict_model(r@) == args_spec(QueryType::GetPeers(*self)),
    {
        let mut args: Vec<(BencodeString, BencodeValue)> = Vec::new();
        args.push(id_pair(crate::krpc::id_key().as_slice(), &self.id));
        args.push(id_pair(crate::krpc::info_hash_key().as_slice(), &self.info_hash));
        proof {
            assert(dict_model(args@) =~~= args_spec(QueryType::GetPeers(*self)));
        }
        args
    }

    /// Parses `get_peers` arguments: valid `id` and `info_hash`.
    pub fn try_from_arguments_inner(arguments: &BencodeDict) -> (r: Result<
        Self,
        TryFromArgumentsError,
    >)
        ensures
            match r {
                Ok(p) => parse_get_peers_args::<N>(dict_model(arguments@)) == Some(
                    (p.id, p.info_hash),
                ),
                Err(_) => parse_get_peers_args::<N>(dict_model(arguments@)) is None,
            },
    {
        let id_value = match find_first(arguments, crate::krpc::id_key().as_slice()) {
            Some(BencodeValue::ByteString(b)) => b,
            _ => {
                return Err("Missing 'id' field");
            },
        };
        let hash_value = match find_first(arguments, crate::krpc::info_hash_key().as_slice()) {
            Some(BencodeValue::ByteString(b)) => b,
            _ => {
                return Err("Missing 'info_hash' field");
            },
        };
        let id = match N::try_from_bytes(id_value.0.as_slice()) {
            Ok(id) => id,
            Err(_) => {
                return Err("Invalid NodeId");
            },
        };
        let info_hash = match N::try_from_bytes(hash_value.0.as_slice()) {
            Ok(h) => h,
            Err(_) => {
                return Err("Invalid NodeId/InfoHash");
            },
        };
        Ok(GetPeers { id, info_hash })
    }
}

impl<N: NodeId> AnnouncePeer<N> {
    /// The `announce_peer` arguments: id, info-hash, port and token.
    pub fn to_arguments_inner(&self) -> (r: BencodeDict)
        ensures
            dict_model(r@) == args_spec(QueryType::AnnouncePeer(*self)),
    {
        let mut args: Vec<(BencodeString, BencodeValue)> = Vec::new();
        args.push(id_pair(crate::krpc::id_key().as_slice(), &self.id));
        args.push(id_pair(crate::krpc::info_hash_key().as_slice(), &self.info_hash));
        args.push(
            (
                BencodeString(crate::krpc::port_key()),
                BencodeValue::Integer(self.port as i128),
            ),
        );
        args.push(
            (
                BencodeString(crate::krpc::token_key()),
                BencodeValue::ByteString(self.token.clone()),
            ),
        );
        proof {
            assert(dict_model(args@) =~~= args_spec(QueryType::AnnouncePeer(*self)));
        }
        args
    }

    /// Parses `announce_peer` arguments by scanning all pairs: each
    /// recognized key must be well-shaped (valid ids, a port within
    /// 0..=65535, a byte-string token), later occurrences overwriting
    /// earlier ones; the parse succeeds when all four parts were seen.
    #[verifier::loop_isolation(false)]
    pub fn try_from_arguments_inner(arguments: &BencodeDict) -> (r: Result<
        Self,
        TryFromArgumentsError,
    >)
        ensures
            match r {
                Ok(p) => scan_announce_pairs::<N>(dict_model(arguments@), None, None, None, None)
                    matches Some((a, b, c, t2)) && p.id == a && p.info_hash == b && p.port as int
                    == c && p.token@ == t2,
                Err(_) => scan_announce_pairs::<N>(
                    dict_model(arguments@),
                    None,
                    None,
                    None,
                    None,
                ) is None,
            },
    {
        let ghost dm = dict_model(arguments@);
        let mut id: Option<N> = None;
        let mut info_hash: Option<N> = None;
        let mut port: Option<u16> = None;
        let mut token: Option<BencodeString> = None;
        proof {
            assert(dm.subrange(0, dm.len() as int) =~= dm);
        }
        let mut i: usize = 0;
        while i < arguments.len()
            invariant
                i <= arguments@.len(),
                scan_announce_pairs::<N>(
                    dm.subrange(i as int, dm.len() as int),
                    id,
                    info_hash,
                    match port {
                        Some(p) => Some(p as int),
                        None => None,
                    },
                    match token {
                        Some(t) => Some(t@),
                        None => None,
                    },
                ) == scan_announce_pairs::<N>(dm, None, None, None, None),
            decreases arguments@.len() - i,
        {
            let ghost pre = dm.subrange(i as int, dm.len() as int);
            proof {
                assert(pre[0] == dm[i as int]);
                assert(pre.subrange(1, pre.len() as int) =~= dm.subrange(i + 1, dm.len() as int));
            }
            let (key, value) = &arguments[i];
            proof {
                assert(pre[0].1 == crate::bencode::common::value_model(arguments@[i as int].1));
            }
            if bytes_eq(&key.0, crate::krpc::id_key().as_slice()) {
                match value {
                    BencodeValue::ByteString(b) => {
                        match N::try_from_bytes(b.0.as_slice()) {
                            Ok(parsed) => {
                                id = Some(parsed);
                            },
                            Err(_) => {
                                return Err("Invalid NodeId");
                            },
                        }
                    },
                    _ => {
                        return Err("Invalid 'id' field");
                    },
                }
            } else if bytes_eq(&key.0, crate::krpc::info_hash_key().as_slice()) {
                match value {
                    BencodeValue::ByteString(b) => {
                        match N::try_from_bytes(b.0.as_slice()) {
                            Ok(parsed) => {
                                info_hash = Some(parsed);
                            },
                            Err(_) => {
                                return Err("Invalid InfoHash");
                            },
                        }
                    },
                    _ => {
                        return Err("Invalid 'info_hash' field");
                    },
                }
            } else if bytes_eq(&key.0, crate::krpc::port_key().as_slice()) {
                match value {
                    BencodeValue::Integer(p) => {
                        if *p < 0 || *p > 65535 {
                            return Err("Invalid 'port' field");
                        }
                        port = Some(*p as u16);
                    },
                    _ => {
                        return Err("Invalid 'port' field");
                    },
                }
            } else if bytes_eq(&key.0, crate::krpc::token_key().as_slice()) {
                match value {
                    BencodeValue::ByteString(t) => {
                        token = Some(t.clone());
                    },
                    _ => {
                        return Err("Invalid 'token' field");
                    },
                }
            }
            i = i + 1;
        }
        proof {
            assert(dm.subrange(i as int, dm.len() as int).len() == 0);
        }
        match (id, info_hash, port, token) {
            (Some(id), Some(info_hash), Some(port), Some(token)) => Ok(
                AnnouncePeer { id, info_hash, port, token },
            ),
            _ => Err("Missing required field(s)"),
        }
    }
}

impl<N: NodeId> ToArguments for Ping<N> {
    fn to_arguments(&self) -> BencodeDict {
        self.to_arguments_inner()
    }
}

impl<N: NodeId> ToArguments for FindNode<N> {
    fn to_arguments(&self) -> BencodeDict {
        self.to_arguments_inner()
    }
}

impl<N: NodeId> ToArguments for GetPeers<N> {
    fn to_arguments(&self) -> BencodeDict {
        self.to_arguments_inner()
    }
}

impl<N: NodeId> ToArguments for AnnouncePeer<N> {
    fn to_arguments(&self) -> BencodeDict {
        self.to_arguments_inner()
    }
}

impl<N: NodeId> TryFromArguments for Ping<N> {
    fn try_from_arguments(arguments: &BencodeDict) -> Result<Self, TryFromArgumentsError> {
        Self::try_from_arguments_inner(arguments)
    }
}

impl<N: NodeId> TryFromArguments for FindNode<N> {
    fn try_from_arguments(arguments: &BencodeDict) -> Result<Self, TryFromArgumentsError> {
        Self::try_from_arguments_inner(arguments)
    }
}

impl<N: NodeId> TryFromArguments for GetPeers<N> {
    fn try_from_arguments(arguments: &BencodeDict) -> Result<Self, TryFromArgumentsError> {
        Self::try_from_arguments_inner(arguments)
    }
}

impl<N: NodeId> TryFromArguments for AnnouncePeer<N> {
    fn try_from_arguments(arguments: &BencodeDict) -> Result<Self, TryFromArgumentsError> {
        Self::try_from_arguments_inner(arguments)
    }
}

} // verus!
