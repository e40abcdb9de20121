//! KRPC responses: `y = "r"`, untagged by method on the wire, with
//! per-method parsers and a shape-based classifier over the `r`
//! dictionary's keys.

use vstd::prelude::*;

use crate::bencode::common::BencodeDict;
use crate::bencode::common::BencodeString;
use crate::bencode::common::BencodeValue;
use crate::bencode::common::SpecValue;
use crate::bencode::common::dict_model;
use crate::bencode::common::list_model;
use crate::kademlia::NodeId;
use crate::krpc::ToArguments;
use crate::krpc::TryFromArgumentsError;
use crate::krpc::bytes_eq;
use crate::krpc::dict_find_first;
use crate::krpc::find_first;
use crate::krpc::node_info::CompactNodeInfo;
use crate::krpc::peer_info::CompactPeerInfo;
use crate::krpc::query::key_id;
use crate::krpc::query::key_token;
use crate::krpc::query::method_find_node;
use crate::krpc::query::method_get_peers;
use crate::krpc::query::method_ping;
use crate::krpc::query::parse_ping_args;

verus! {

/// The bytes of the `nodes` return key.
pub open spec fn key_nodes() -> Seq<u8> {
    seq![110u8, 111u8, 100u8, 101u8, 115u8]
}

/// The bytes of the `values` return key.
pub open spec fn key_values() -> Seq<u8> {
    seq![118u8, 97u8, 108u8, 117u8, 101u8, 115u8]
}

/// A response: a transaction id and one of the method payloads.
#[derive(PartialEq, Eq)]
pub struct Response<I: CompactNodeInfo, P: CompactPeerInfo> {
    pub transaction_id: BencodeString,
    pub response: ResponseType<I, P>,
}

/// The method payload of a response.
#[derive(PartialEq, Eq)]
pub enum ResponseType<I: CompactNodeInfo, P: CompactPeerInfo> {
    /// A `ping` response.
    Ping(Ping<I::NodeId>),
    /// A `find_node` response.
    FindNode(FindNode<I>),
    /// A `get_peers` response.
    GetPeers(GetPeers<I, P>),
}

/// A `ping` response: the responder's id.
#[derive(Debug, PartialEq, Eq, Clone)]
pub struct Ping<N: NodeId> {
    pub id: N,
}

/// A `find_node` response: the responder's id and the closest nodes,
/// carried concatenated in one byte string.
#[derive(PartialEq, Eq)]
pub struct FindNode<I: CompactNodeInfo> {
    pub id: I::NodeId,
    pub nodes: Vec<I>,
}

/// A `get_peers` response: the responder's id, an optional announce
/// token, closer nodes, and the peers downloading the torrent.
#[derive(PartialEq, Eq)]
pub struct GetPeers<I: CompactNodeInfo, P: CompactPeerInfo> {
    pub id: I::NodeId,
    pub token: Option<BencodeString>,
    pub nodes: Vec<I>,
    pub peers: Vec<P>,
}

/// The concatenated compact bytes of a run of node infos.
pub open spec fn nodes_bytes<I: CompactNodeInfo>(ns: Seq<I>) -> Seq<u8>
    decreases ns.len(),
{
    if ns.len() == 0 {
        Seq::empty()
    } else {
        ns[0].compact_bytes() + nodes_bytes(ns.subrange(1, ns.len() as int))
    }
}

/// The list of compact byte strings of a run of peers, one element each.
pub open spec fn peers_values<P: CompactPeerInfo>(ps: Seq<P>) -> Seq<SpecValue> {
    Seq::new(ps.len(), |i: int| SpecValue::ByteString(ps[i].compact_bytes()))
}

/// The return pairs each response payload emits, in emission order; a
/// `get_peers` without a token omits the `token` pair.
pub open spec fn resp_args_spec<I: CompactNodeInfo, P: CompactPeerInfo>(
    rt: ResponseType<I, P>,
) -> Seq<(Seq<u8>, SpecValue)> {
    match rt {
        ResponseType::Ping(p) => seq![(key_id(), SpecValue::ByteString(p.id.id_bytes()))],
        ResponseType::FindNode(f) => seq![
            (key_id(), SpecValue::ByteString(f.id.id_bytes())),
            (key_nodes(), SpecValue::ByteString(nodes_bytes(f.nodes@))),
        ],
        ResponseType::GetPeers(g) => {
            let head = seq![(key_id(), SpecValue::ByteString(g.id.id_bytes()))];
            let tok: Seq<(Seq<u8>, SpecValue)> = match g.token {
                Some(t) => seq![(key_token(), SpecValue::ByteString(t@))],
                None => Seq::empty(),
            };
            head + tok + seq![
                (key_nodes(), SpecValue::ByteString(nodes_bytes(g.nodes@))),
                (key_values(), SpecValue::List(peers_values(g.peers@))),
            ]
        },
    }
}

/// The bencode tree a response is emitted as: `t`, `y = "r"`, and the
/// return pairs under `r`, in that order.
pub open spec fn response_bencoded_spec<I: CompactNodeInfo, P: CompactPeerInfo>(
    resp: Response<I, P>,
) -> SpecValue {
    SpecValue::Dict(
        seq![
            (seq![116u8], SpecValue::ByteString(resp.transaction_id@)),
            (seq![121u8], SpecValue::ByteString(seq![114u8])),
            (seq![114u8], SpecValue::Dict(resp_args_spec(resp.response))),
        ],
    )
}

/// The shared envelope of every response: a dictionary whose first `y` is
/// the byte string `r`, with a byte-string `t` and a dictionary `r`.
/// Yields the transaction id and the return pairs.
pub open spec fn resp_internal_spec(v: SpecValue) -> Option<
    (Seq<u8>, Seq<(Seq<u8>, SpecValue)>),
> {
    match v {
        SpecValue::Dict(d) => match dict_find_first(d, seq![121u8]) {
            Some(SpecValue::ByteString(y)) => {
                if y != seq![114u8] {
                    None
                } else {
                    match (dict_find_first(d, seq![116u8]), dict_find_first(d, seq![114u8])) {
                        (Some(SpecValue::ByteString(t)), Some(SpecValue::Dict(rd))) => Some(
                            (t, rd),
                        ),
                        _ => None,
                    }
                }
            },
            _ => None,
        },
        _ => None,
    }
}

/// Parsing a concatenation of compact node infos from position `i`: each
/// step consumes exactly the fixed width; leftover bytes shorter than one
/// info reject the whole run.
pub open spec fn parse_nodes_at<I: CompactNodeInfo>(b: Seq<u8>, i: int) -> Option<Seq<I>>
    decreases b.len() - i,
{
    if i >= b.len() {
        Some(Seq::empty())
    } else if I::compact_len() < 1 || b.len() - i < I::compact_len() {
        None
    } else {
        match parse_nodes_at::<I>(b, i + I::compact_len()) {
            Some(rest) => Some(
                seq![I::compact_of_bytes(b.subrange(i, i + I::compact_len()))] + rest,
            ),
            None => None,
        }
    }
}

/// Parsing a `values` list: every element must be a byte string of at
/// least one compact peer info; each yields the peer its first bytes
/// denote.
pub open spec fn parse_peers_at<P: CompactPeerInfo>(l: Seq<SpecValue>, i: int) -> Option<Seq<P>>
    decreases l.len() - i,
{
    if i >= l.len() {
        Some(Seq::empty())
    } else {
        match l[i] {
            SpecValue::ByteString(b) => {
                if b.len() < P::compact_len() {
                    None
                } else {
                    match parse_peers_at::<P>(l, i + 1) {
                        Some(rest) => Some(
                            seq![P::compact_of_bytes(b.subrange(0, P::compact_len()))] + rest,
                        ),
                        None => None,
                    }
                }
            },
            _ => None,
        }
    }
}

/// What parsing `find_node` return pairs comes to: a valid `id` and a
/// byte-string `nodes` holding a whole number of compact infos.
pub open spec fn parse_find_node_resp<I: CompactNodeInfo>(d: Seq<(Seq<u8>, SpecValue)>) -> Option<
    (<I as crate::krpc::node_info::NodeInfo>::NodeId, Seq<I>),
> {
    match (dict_find_first(d, key_id()), dict_find_first(d, key_nodes())) {
        (Some(SpecValue::ByteString(idb)), Some(SpecValue::ByteString(nb))) => {
            if <I as crate::krpc::node_info::NodeInfo>::NodeId::valid_id_bytes(idb) {
                match parse_nodes_at::<I>(nb, 0) {
                    Some(ns) => Some(
                        (<I as crate::krpc::node_info::NodeInfo>::NodeId::id_of_bytes(idb), ns),
                    ),
                    None => None,
                }
            } else {
                None
            }
        },
        _ => None,
    }
}

/// What parsing `get_peers` return pairs comes to: a valid `id`; an
/// optional byte-string `token`; optional `nodes` and `values`, each
/// well-formed when present and empty when absent.
pub open spec fn parse_get_peers_resp<I: CompactNodeInfo, P: CompactPeerInfo>(
    d: Seq<(Seq<u8>, SpecValue)>,
) -> Option<(<I as crate::krpc::node_info::NodeInfo>::NodeId, Option<Seq<u8>>, Seq<I>, Seq<P>)> {
    match dict_find_first(d, key_id()) {
        Some(SpecValue::ByteString(idb)) => {
            if !<I as crate::krpc::node_info::NodeInfo>::NodeId::valid_id_bytes(idb) {
                None
            } else {
                let tok: Option<Option<Seq<u8>>> = match dict_find_first(d, key_token()) {
                    Some(SpecValue::ByteString(t)) => Some(Some(t)),
                    Some(_) => None,
                    None => Some(None),
                };
                let ns: Option<Seq<I>> = match dict_find_first(d, key_nodes()) {
                    Some(SpecValue::ByteString(nb)) => parse_nodes_at::<I>(nb, 0),
                    Some(_) => None,
                    None => Some(Seq::empty()),
                };
                let ps: Option<Seq<P>> = match dict_find_first(d, key_values()) {
                    Some(SpecValue::List(l)) => parse_peers_at::<P>(l, 0),
                    Some(_) => None,
                    None => Some(Seq::empty()),
                };
                match (tok, ns, ps) {
                    (Some(t), Some(n), Some(p)) => Some(
                        (<I as crate::krpc::node_info::NodeInfo>::NodeId::id_of_bytes(idb), t, n, p),
                    ),
                    _ => None,
                }
            }
        },
        _ => None,
    }
}

/// Whether a pair with the given key occurs in the dictionary.
pub open spec fn dict_has_key(d: Seq<(Seq<u8>, SpecValue)>, key: Seq<u8>) -> bool {
    exists|i: int| 0 <= i < d.len() && (#[trigger] d[i]).0 == key
}

/// What the classifier answers for a response's return pairs: `values`
/// means `get_peers`; otherwise `token` means `get_peers` (only
/// `get_peers` replies carry tokens); otherwise `nodes` means
/// `find_node`; otherwise `ping`.
pub open spec fn classify_spec(rd: Seq<(Seq<u8>, SpecValue)>) -> Seq<u8> {
    if dict_has_key(rd, key_values()) {
        method_get_peers()
    } else if dict_has_key(rd, key_token()) {
        method_get_peers()
    } else if dict_has_key(rd, key_nodes()) {
        method_find_node()
    } else {
        method_ping()
    }
}

/// Classifying the same return pairs twice answers the same method: the
/// classifier's answer is a function of the pairs alone.
pub proof fn lemma_classifier_deterministic(
    rd: Seq<(Seq<u8>, SpecValue)>,
    m1: Seq<u8>,
    m2: Seq<u8>,
)
    requires
        m1 == classify_spec(rd),
        m2 == classify_spec(rd),
    ensures
        m1 == m2,
{
}

/// Clones a dictionary pair-by-pair; the copy has the same model.
#[verifier::loop_isolation(false)]
fn clone_dict(d: &BencodeDict) -> (r: BencodeDict)
    ensures
        dict_model(r@) == dict_model(d@),
{
    let mut out: Vec<(BencodeString, BencodeValue)> = Vec::new();
    let mut i: usize = 0;
    while i < d.len()
        invariant
            i <= d@.len(),
            out@.len() == i,
            forall|k: int|
                0 <= k < i ==> (#[trigger] out@[k]).0@ == d@[k].0@ && crate::bencode::common::value_model(
                    out@[k].1,
                ) == crate::bencode::common::value_model(d@[k].1),
        decreases d@.len() - i,
    {
        let key = d[i].0.clone();
        let value = d[i].1.clone();
        out.push((key, value));
        i = i + 1;
    }
    proof {
        assert(dict_model(out@) =~= dict_model(d@));
    }
    out
}

impl<I: CompactNodeInfo, P: CompactPeerInfo> Response<I, P> {
    /// Builds a response from a transaction id and a method payload.
    pub fn new(transaction_id: BencodeString, response: ResponseType<I, P>) -> (r: Self)
        ensures
            r.transaction_id == transaction_id,
            r.response == response,
    {
        Response { transaction_id, response }
    }

    /// The bencode tree of the response: `t`, `y = "r"`, and the return
    /// pairs under `r`.
    pub fn to_bencoded(&self) -> (r: BencodeValue)
        ensures
            r@ == response_bencoded_spec(*self),
    {
        let mut dict: Vec<(BencodeString, BencodeValue)> = Vec::new();
        dict.push(
            (
                BencodeString(crate::krpc::t_key()),
                BencodeValue::ByteString(self.transaction_id.clone()),
            ),
        );
        dict.push(
            (
                BencodeString(crate::krpc::y_key()),
                BencodeValue::ByteString(BencodeString(crate::krpc::r_key())),
            ),
        );
        let args = self.response.to_arguments();
        dict.push(
            (BencodeString(crate::krpc::r_key()), BencodeValue::Dict(args)),
        );
        let ghost d0 = dict@;
        let r = BencodeValue::Dict(dict);
        proof {
            let dm = dict_model(d0);
            let goal = response_bencoded_spec(*self)->Dict_0;
            assert(dm.len() == 3 && goal.len() == 3);
            assert(dm[0] == goal[0]);
            assert(dm[1] == goal[1]);
            assert(dm[2] == goal[2]);
            assert(dm =~= goal);
        }
        r
    }

    /// Parses the shared envelope: the first `y` must be the byte string
    /// `r`, `t` a byte string, `r` a dictionary.  Hands back the
    /// transaction id and a copy of the return pairs.
    fn try_from_bencoded_internal(bencoded: &BencodeValue) -> (r: Result<
        (BencodeString, BencodeDict),
        TryFromArgumentsError,
    >)
        ensures
            match r {
                Ok((t, rd)) => resp_internal_spec(bencoded@) matches Some((ts, rs)) && t@ == ts
                    && dict_model(rd@) == rs,
                Err(_) => resp_internal_spec(bencoded@) is None,
            },
    {
        let dict = match bencoded {
            BencodeValue::Dict(d) => d,
            _ => {
                return Err("Invalid response format");
            },
        };
        let message_type = match find_first(dict, crate::krpc::y_key().as_slice()) {
            Some(BencodeValue::ByteString(y)) => y,
            Some(_) => {
                return Err("Invalid 'y' field");
            },
            None => {
                return Err("Missing 'y' field");
            },
        };
        if !bytes_eq(&message_type.0, crate::krpc::r_key().as_slice()) {
            return Err("Invalid message type");
        }
        let transaction_id = match find_first(dict, crate::krpc::t_key().as_slice()) {
            Some(BencodeValue::ByteString(t)) => t.clone(),
            Some(_) => {
                return Err("Invalid 't' field");
            },
            None => {
                return Err("Missing 't' field");
            },
        };
        let response = match find_first(dict, crate::krpc::r_key().as_slice()) {
            Some(BencodeValue::Dict(rd)) => clone_dict(rd),
            Some(_) => {
                return Err("Invalid 'r' field");
            },
            None => {
                return Err("Missing 'r' field");
            },
        };
        Ok((transaction_id, response))
    }

    /// Classifies a response by the shape of its return pairs, handing
    /// back the guessed method name and the transaction id: `values`
    /// dominates, then `token` (always a `get_peers` reply), then
    /// `nodes` (a `find_node` reply), and a bare reply is a `ping`.
    /// The same tree always classifies the same way.
    #[verifier::loop_isolation(false)]
    pub fn try_guess_type_from_bencoded(bencoded: &BencodeValue) -> (r: Result<
        (Vec<u8>, BencodeString),
        TryFromArgumentsError,
    >)
        ensures
            match r {
                Ok((m, t)) => resp_internal_spec(bencoded@) matches Some((ts, rs)) && t@ == ts
                    && m@ == classify_spec(rs),
                Err(_) => resp_internal_spec(bencoded@) is None,
            },
    {
        let (transaction_id, response) = match Self::try_from_bencoded_internal(bencoded) {
            Ok(p) => p,
            Err(e) => {
                return Err(e);
            },
        };
        let ghost rm = dict_model(response@);
        let mut has_values_field = false;
        let mut has_token_field = false;
        let mut has_nodes_field = false;
        proof {
            assert(rm.subrange(0, 0) =~= Seq::<(Seq<u8>, SpecValue)>::empty());
            assert(!dict_has_key(rm.subrange(0, 0), key_values()));
            assert(!dict_has_key(rm.subrange(0, 0), key_token()));
            assert(!dict_has_key(rm.subrange(0, 0), key_nodes()));
        }
        let mut i: usize = 0;
        while i < response.len()
            invariant
                i <= response@.len(),
                has_values_field == dict_has_key(rm.subrange(0, i as int), key_values()),
                has_token_field == dict_has_key(rm.subrange(0, i as int), key_token()),
                has_nodes_field == dict_has_key(rm.subrange(0, i as int), key_nodes()),
            decreases response@.len() - i,
        {
            let ghost prev = rm.subrange(0, i as int);
            let ghost cur = rm.subrange(0, i + 1);
            proof {
                assert(cur.drop_last() =~= prev);
                assert(cur.last() == rm[i as int]);
                assert forall|key: Seq<u8>| dict_has_key(cur, key) == (dict_has_key(prev, key)
                    || rm[i as int].0 == key) by {
                    if dict_has_key(prev, key) {
                        let w = choose|k: int| 0 <= k < prev.len() && (#[trigger] prev[k]).0 == key;
                        assert(cur[w].0 == key);
                    }
                    if rm[i as int].0 == key {
                        assert(cur[cur.len() - 1].0 == key);
                    }
                    if dict_has_key(cur, key) {
                        let w = choose|k: int| 0 <= k < cur.len() && (#[trigger] cur[k]).0 == key;
                        if w < prev.len() {
                            assert(prev[w].0 == key);
                        }
                    }
                }
            }
            let (key, _) = &response[i];
            if bytes_eq(&key.0, crate::krpc::values_key().as_slice()) {
                has_values_field = true;
            } else if bytes_eq(&key.0, crate::krpc::token_key().as_slice()) {
                has_token_field = true;
            } else if bytes_eq(&key.0, crate::krpc::nodes_key().as_slice()) {
                has_nodes_field = true;
            }
            i = i + 1;
        }
        proof {
            assert(rm.subrange(0, rm.len() as int) =~= rm);
        }
        if has_values_field {
            Ok((crate::krpc::get_peers_name(), transaction_id))
        } else if has_token_field {
            Ok((crate::krpc::get_peers_name(), transaction_id))
        } else if has_nodes_field {
            Ok((crate::krpc::find_node_name(), transaction_id))
        } else {
            Ok((crate::krpc::ping_name(), transaction_id))
        }
    }

    /// Parses a `ping` response: the envelope plus a valid `id`.
    pub fn try_from_ping_bencoded(bencoded: &BencodeValue) -> (r: Result<
        Self,
        TryFromArgumentsError,
    >)
        ensures
            match r {
                Ok(resp) => {
                    &&& resp_internal_spec(bencoded@) matches Some((ts, rs))
                    &&& resp.transaction_id@ == ts
                    &&& resp.response matches ResponseType::Ping(p)
                    &&& parse_ping_args::<<I as crate::krpc::node_info::NodeInfo>::NodeId>(rs)
                        == Some(p.id)
                },
                Err(_) => match resp_internal_spec(bencoded@) {
                    Some((ts, rs)) => parse_ping_args::<
                        <I as crate::krpc::node_info::NodeInfo>::NodeId,
                    >(rs) is None,
                    None => true,
                },
            },
    {
        let (transaction_id, response) = match Self::try_from_bencoded_internal(bencoded) {
            Ok(p) => p,
            Err(e) => {
                return Err(e);
            },
        };
        match Ping::try_from_arguments_inner(&response) {
            Ok(p) => Ok(Response { transaction_id, response: ResponseType::Ping(p) }),
            Err(e) => Err(e),
        }
    }

    /// Parses a `find_node` response: the envelope plus a valid `id` and
    /// a byte-string `nodes` holding a whole number of compact infos.
    pub fn try_from_findpeer_bencoded(bencoded: &BencodeValue) -> (r: Result<
        Self,
        TryFromArgumentsError,
    >)
        ensures
            match r {
                Ok(resp) => {
                    &&& resp_internal_spec(bencoded@) matches Some((ts, rs))
                    &&& resp.transaction_id@ == ts
                    &&& resp.response matches ResponseType::FindNode(f)
                    &&& parse_find_node_resp::<I>(rs) == Some((f.id, f.nodes@))
                },
                Err(_) => match resp_internal_spec(bencoded@) {
                    Some((ts, rs)) => parse_find_node_resp::<I>(rs) is None,
                    None => true,
                },
            },
    {
        let (transaction_id, response) = match Self::try_from_bencoded_internal(bencoded) {
            Ok(p) => p,
            Err(e) => {
                return Err(e);
            },
        };
        match FindNode::try_from_arguments_inner(&response) {
            Ok(f) => Ok(Response { transaction_id, response: ResponseType::FindNode(f) }),
            Err(e) => Err(e),
        }
    }

    /// Parses a `get_peers` response: the envelope plus a valid `id`, an
    /// optional token, and optional `nodes` and `values` runs.
    pub fn try_from_getpeers_bencoded(bencoded: &BencodeValue) -> (r: Result<
        Self,
        TryFromArgumentsError,
    >)
        ensures
            match r {
                Ok(resp) => {
                    &&& resp_internal_spec(bencoded@) matches Some((ts, rs))
                    &&& resp.transaction_id@ == ts
                    &&& resp.response matches ResponseType::GetPeers(g)
                    &&& parse_get_peers_resp::<I, P>(rs) matches Some((gid, tok, ns, ps))
                    &&& g.id == gid
                    &&& g.nodes@ == ns
                    &&& g.peers@ == ps
                    &&& (match (g.token, tok) {
                        (Some(tb), Some(tsq)) => tb@ == tsq,
                        (None, None) => true,
                        _ => false,
                    })
                },
                Err(_) => match resp_internal_spec(bencoded@) {
                    Some((ts, rs)) => parse_get_peers_resp::<I, P>(rs) is None,
                    None => true,
                },
            },
    {
        let (transaction_id, response) = match Self::try_from_bencoded_internal(bencoded) {
            Ok(p) => p,
            Err(e) => {
                return Err(e);
            },
        };
        match GetPeers::try_from_arguments_inner(&response) {
            Ok(g) => Ok(Response { transaction_id, response: ResponseType::GetPeers(g) }),
            Err(e) => Err(e),
        }
    }

    /// The transaction id of the response.
    pub fn get_transaction_id(&self) -> (r: &BencodeString)
        ensures
            r == &self.transaction_id,
    {
        &self.transaction_id
    }

    /// The method payload of the response.
    pub fn get_response_type(&self) -> (r: &ResponseType<I, P>)
        ensures
            r == &self.response,
    {
        &self.response
    }
}

/// Reads a concatenation of compact node infos, whole infos only.
#[verifier::loop_isolation(false)]
fn read_compact_nodes<I: CompactNodeInfo>(bytes: &Vec<u8>) -> (r: Result<
    Vec<I>,
    TryFromArgumentsError,
>)
    ensures
        match r {
            Ok(ns) => parse_nodes_at::<I>(bytes@, 0) == Some(ns@),
            Err(_) => parse_nodes_at::<I>(bytes@, 0) is None,
        },
{
    let mut nodes: Vec<I> = Vec::new();
    let mut i: usize = 0;
    while i < bytes.len()
        invariant
            i <= bytes@.len(),
            match parse_nodes_at::<I>(bytes@, i as int) {
                Some(rest) => parse_nodes_at::<I>(bytes@, 0) == Some(nodes@ + rest),
                None => parse_nodes_at::<I>(bytes@, 0) is None,
            },
        decreases bytes@.len() - i,
    {
        let rem = vstd::slice::slice_subrange(bytes.as_slice(), i, bytes.len());
        match I::try_read_compact_node_info(rem) {
            Ok((bytes_read, node)) => {
                proof {
                    I::lemma_compact_roundtrip(&node);
                    assert(rem@.subrange(0, I::compact_len()) =~= bytes@.subrange(
                        i as int,
                        i + I::compact_len(),
                    ));
                }
                let ghost old_nodes = nodes@;
                nodes.push(node);
                proof {
                    match parse_nodes_at::<I>(bytes@, i + bytes_read) {
                        Some(rest) => {
                            assert(nodes@ + rest =~= old_nodes + (seq![node] + rest));
                        },
                        None => {},
                    }
                }
                i = i + bytes_read;
            },
            Err(_) => {
                return Err("Invalid node info");
            },
        }
    }
    proof {
        assert(parse_nodes_at::<I>(bytes@, i as int) == Some(Seq::<I>::empty()));
        assert(nodes@ + Seq::<I>::empty() =~= nodes@);
    }
    Ok(nodes)
}

/// Reads a `values` list of compact peer infos, one per byte string.
#[verifier::loop_isolation(false)]
fn read_compact_peers<P: CompactPeerInfo>(list: &Vec<BencodeValue>) -> (r: Result<
    Vec<P>,
    TryFromArgumentsError,
>)
    ensures
        match r {
            Ok(ps) => parse_peers_at::<P>(list_model(list@), 0) == Some(ps@),
            Err(_) => parse_peers_at::<P>(list_model(list@), 0) is None,
        },
{
    let ghost lm = list_model(list@);
    let mut peers: Vec<P> = Vec::new();
    let mut i: usize = 0;
    while i < list.len()
        invariant
            i <= list@.len(),
            match parse_peers_at::<P>(lm, i as int) {
                Some(rest) => parse_peers_at::<P>(lm, 0) == Some(peers@ + rest),
                None => parse_peers_at::<P>(lm, 0) is None,
            },
        decreases list@.len() - i,
    {
        match &list[i] {
            BencodeValue::ByteString(b) => {
                match P::try_read_compact_peer_info(b.0.as_slice()) {
                    Ok((_, peer)) => {
                        let ghost old_peers = peers@;
                        peers.push(peer);
                        proof {
                            assert(lm[i as int] == SpecValue::ByteString(b@));
                            match parse_peers_at::<P>(lm, i + 1) {
                                Some(rest) => {
                                    assert(peers@ + rest =~= old_peers + (seq![peer] + rest));
                                },
                                None => {},
                            }
                        }
                        i = i + 1;
                    },
                    Err(_) => {
                        proof {
                            assert(lm[i as int] == SpecValue::ByteString(b@));
                        }
                        return Err("Invalid peer info");
                    },
                }
            },
            _ => {
                proof {
                    assert(!(lm[i as int] is ByteString));
                }
                return Err("Invalid peer info");
            },
        }
    }
    proof {
        assert(parse_peers_at::<P>(lm, i as int) == Some(Seq::<P>::empty()));
        assert(peers@ + Seq::<P>::empty() =~= peers@);
    }
    Ok(peers)
}

impl<I: CompactNodeInfo, P: CompactPeerInfo> ResponseType<I, P> {
    /// The return pairs of this response's method, in emission order.
    pub fn to_arguments(&self) -> (r: BencodeDict)
        ensures
            dict_model(r@) == resp_args_spec(*self),
    {
        match self {
            ResponseType::Ping(p) => {
                let mut args: Vec<(BencodeString, BencodeValue)> = Vec::new();
                args.push(
                    (
                        BencodeString(crate::krpc::id_key()),
                        BencodeValue::ByteString(BencodeString(p.id.to_bytes())),
                    ),
                );
                proof {
                    assert(dict_model(args@) =~~= resp_args_spec(*self));
                }
                args
            },
            ResponseType::FindNode(f) => {
                let mut args: Vec<(BencodeString, BencodeValue)> = Vec::new();
                args.push(
                    (
                        BencodeString(crate::krpc::id_key()),
                        BencodeValue::ByteString(BencodeString(f.id.to_bytes())),
                    ),
                );
                let nodes = write_compact_nodes(&f.nodes);
                args.push(
                    (
                        BencodeString(crate::krpc::nodes_key()),
                        BencodeValue::ByteString(BencodeString(nodes)),
                    ),
                );
                proof {
                    assert(dict_model(args@) =~~= resp_args_spec(*self));
                }
                args
            },
            ResponseType::GetPeers(g) => {
                let mut args: Vec<(BencodeString, BencodeValue)> = Vec::new();
                args.push(
                    (
                        BencodeString(crate::krpc::id_key()),
                        BencodeValue::ByteString(BencodeString(g.id.to_bytes())),
                    ),
                );
                match &g.token {
                    Some(t) => {
                        args.push(
                            (
                                BencodeString(crate::krpc::token_key()),
                                BencodeValue::ByteString(t.clone()),
                            ),
                        );
                    },
                    None => {},
                }
                let nodes = write_compact_nodes(&g.nodes);
                args.push(
                    (
                        BencodeString(crate::krpc::nodes_key()),
                        BencodeValue::ByteString(BencodeString(nodes)),
                    ),
                );
                let values = write_peer_values(&g.peers);
                args.push(
                    (
                        BencodeString(crate::krpc::values_key()),
                        BencodeValue::List(values),
                    ),
                );
                proof {
                    assert(dict_model(args@) =~~= resp_args_spec(*self));
                }
                args
            },
        }
    }

    /// The method name the driver should treat this payload as; as the
    /// crawler stands, a `get_peers` payload also answers `find_node`.
    pub fn get_query_type(&self) -> (r: Vec<u8>)
        ensures
            match self {
                ResponseType::Ping(_) => r@ == method_ping(),
                ResponseType::FindNode(_) => r@ == method_find_node(),
                ResponseType::GetPeers(_) => r@ == method_find_node(),
            },
    {
        match self {
            ResponseType::Ping(_) => crate::krpc::ping_name(),
            ResponseType::FindNode(_) => crate::krpc::find_node_name(),
            ResponseType::GetPeers(_) => crate::krpc::find_node_name(),
        }
    }
}

/// Concatenates the compact bytes of a run of node infos.
#[verifier::loop_isolation(false)]
fn write_compact_nodes<I: CompactNodeInfo>(nodes: &Vec<I>) -> (r: Vec<u8>)
    ensures
        r@ == nodes_bytes(nodes@),
{
    let mut out: Vec<u8> = Vec::new();
    proof {
        assert(nodes@.subrange(0, nodes@.len() as int) =~= nodes@);
        assert(Seq::<u8>::empty() + nodes_bytes(nodes@) =~= nodes_bytes(nodes@));
    }
    let mut i: usize = 0;
    while i < nodes.len()
        invariant
            i <= nodes@.len(),
            out@ + nodes_bytes(nodes@.subrange(i as int, nodes@.len() as int)) == nodes_bytes(
                nodes@,
            ),
        decreases nodes@.len() - i,
    {
        let ghost pre = nodes@.subrange(i as int, nodes@.len() as int);
        proof {
            assert(pre[0] == nodes@[i as int]);
            assert(pre.subrange(1, pre.len() as int) =~= nodes@.subrange(
                i + 1,
                nodes@.len() as int,
            ));
        }
        let mut piece = nodes[i].write_compact_node_info();
        out.append(&mut piece);
        i = i + 1;
    }
    proof {
        assert(nodes_bytes(nodes@.subrange(i as int, nodes@.len() as int)) =~= Seq::<u8>::empty());
        assert(out@ =~= out@ + Seq::<u8>::empty());
    }
    out
}

/// The `values` list: one byte string per peer.
#[verifier::loop_isolation(false)]
fn write_peer_values<P: CompactPeerInfo>(peers: &Vec<P>) -> (r: Vec<BencodeValue>)
    ensures
        list_model(r@) == peers_values(peers@),
{
    let mut out: Vec<BencodeValue> = Vec::new();
    let mut i: usize = 0;
    while i < peers.len()
        invariant
            i <= peers@.len(),
            out@.len() == i,
            forall|k: int|
                0 <= k < i ==> crate::bencode::common::value_model(#[trigger] out@[k])
                    == SpecValue::ByteString(peers@[k].compact_bytes()),
        decreases peers@.len() - i,
    {
        let piece = peers[i].write_compact_peer_info();
        out.push(BencodeValue::ByteString(BencodeString(piece)));
        i = i + 1;
    }
    proof {
        assert(list_model(out@) =~~= peers_values(peers@));
    }
    out
}

impl<N: NodeId> Ping<N> {
    /// The responder's id.
    pub fn get_id(&self) -> (r: &N)
        ensures
            r == &self.id,
    {
        &self.id
    }
}

impl<I: CompactNodeInfo, P: CompactPeerInfo> GetPeers<I, P> {
    /// The responder's id.
    pub fn get_id(&self) -> (r: &<I as crate::krpc::node_info::NodeInfo>::NodeId)
        ensures
            r == &self.id,
    {
        &self.id
    }

    /// The announce token, if the responder issued one.
    pub fn get_token(&self) -> (r: &Option<BencodeString>)
        ensures
            r == &self.token,
    {
        &self.token
    }

    /// The closer nodes the responder offered.
    pub fn get_nodes(&self) -> (r: &[I])
        ensures
            r@ == self.nodes@,
    {
        self.nodes.as_slice()
    }

    /// The peers the responder knows for the info-hash.
    pub fn get_peers(&self) -> (r: &[P])
        ensures
            r@ == self.peers@,
    {
        self.peers.as_slice()
    }
}


impl<N: NodeId> Ping<N> {
    /// Parses a `ping` response's return pairs: a valid `id`.
    pub fn try_from_arguments_inner(arguments: &BencodeDict) -> (r: Result<
        Self,
        TryFromArgumentsError,
    >)
        ensures
            match r {
                Ok(p) => parse_ping_args::<N>(dict_model(arguments@)) == Some(p.id),
                Err(_) => parse_ping_args::<N>(dict_model(arguments@)) is None,
            },
    {
        let id_value = match find_first(arguments, crate::krpc::id_key().as_slice()) {
            Some(BencodeValue::ByteString(b)) => b,
            _ => {
                return Err("Missing 'id' field");
            },
        };
        match N::try_from_bytes(id_value.0.as_slice()) {
            Ok(id) => Ok(Ping { id }),
            Err(_) => Err("Invalid NodeId"),
        }
    }
}

impl<I: CompactNodeInfo> FindNode<I> {
    /// Parses a `find_node` response's return pairs: a valid `id` and a
    /// byte-string `nodes` holding a whole number of compact infos.
    pub fn try_from_arguments_inner(arguments: &BencodeDict) -> (r: Result<
        Self,
        TryFromArgumentsError,
    >)
        ensures
            match r {
                Ok(f) => parse_find_node_resp::<I>(dict_model(arguments@)) == Some(
                    (f.id, f.nodes@),
                ),
                Err(_) => parse_find_node_resp::<I>(dict_model(arguments@)) is None,
            },
    {
        let id_value = match find_first(arguments, crate::krpc::id_key().as_slice()) {
            Some(BencodeValue::ByteString(b)) => b,
            _ => {
                return Err("Missing 'id' field");
            },
        };
        let node_list = match find_first(arguments, crate::krpc::nodes_key().as_slice()) {
            Some(BencodeValue::ByteString(b)) => b,
            _ => {
                return Err("Missing 'nodes' field");
            },
        };
        let nodes = match read_compact_nodes(&node_list.0) {
            Ok(ns) => ns,
            Err(e) => {
                return Err(e);
            },
        };
        match <I as crate::krpc::node_info::NodeInfo>::NodeId::try_from_bytes(
            id_value.0.as_slice(),
        ) {
            Ok(id) => Ok(FindNode { id, nodes }),
            Err(_) => Err("Invalid NodeId"),
        }
    }
}

impl<I: CompactNodeInfo, P: CompactPeerInfo> GetPeers<I, P> {
    /// Parses a `get_peers` response's return pairs: a valid `id`, an
    /// optional token, and optional `nodes` and `values` runs.
    pub fn try_from_arguments_inner(arguments: &BencodeDict) -> (r: Result<
        Self,
        TryFromArgumentsError,
    >)
        ensures
            match r {
                Ok(g) => {
                    &&& parse_get_peers_resp::<I, P>(dict_model(arguments@)) matches Some(
                        (gid, tok, ns, ps),
                    )
                    &&& g.id == gid
                    &&& g.nodes@ == ns
                    &&& g.peers@ == ps
                    &&& (match (g.token, tok) {
                        (Some(tb), Some(tsq)) => tb@ == tsq,
                        (None, None) => true,
                        _ => false,
                    })
                },
                Err(_) => parse_get_peers_resp::<I, P>(dict_model(arguments@)) is None,
            },
    {
        let id_value = match find_first(arguments, crate::krpc::id_key().as_slice()) {
            Some(BencodeValue::ByteString(b)) => b,
            _ => {
                return Err("Invalid 'id' field");
            },
        };
        let id = match <I as crate::krpc::node_info::NodeInfo>::NodeId::try_from_bytes(
            id_value.0.as_slice(),
        ) {
            Ok(id) => id,
            Err(_) => {
                return Err("Invalid NodeId/InfoHash");
            },
        };
        let token = match find_first(arguments, crate::krpc::token_key().as_slice()) {
            Some(BencodeValue::ByteString(t)) => Some(t.clone()),
            Some(_) => {
                return Err("Invalid 'token' field");
            },
            None => None,
        };
        let nodes = match find_first(arguments, crate::krpc::nodes_key().as_slice()) {
            Some(BencodeValue::ByteString(b)) => {
                match read_compact_nodes(&b.0) {
                    Ok(ns) => ns,
                    Err(e) => {
                        return Err(e);
                    },
                }
            },
            Some(_) => {
                return Err("Invalid 'nodes' field");
            },
            None => Vec::new(),
        };
        let peers = match find_first(arguments, crate::krpc::values_key().as_slice()) {
            Some(BencodeValue::List(l)) => {
                match read_compact_peers(l) {
                    Ok(ps) => ps,
                    Err(e) => {
                        return Err(e);
                    },
                }
            },
            Some(_) => {
                return Err("Invalid 'peers' field");
            },
            None => Vec::new(),
        };
        proof {
            assert(parse_nodes_at::<I>(Seq::<u8>::empty(), 0) == Some(Seq::<I>::empty()));
            assert(parse_peers_at::<P>(Seq::<SpecValue>::empty(), 0) == Some(Seq::<P>::empty()));
        }
        Ok(GetPeers { id, token, nodes, peers })
    }
}

impl<N: NodeId> crate::krpc::TryFromArguments for Ping<N> {
    fn try_from_arguments(arguments: &BencodeDict) -> Result<Self, TryFromArgumentsError> {
        Self::try_from_arguments_inner(arguments)
    }
}

impl<I: CompactNodeInfo> crate::krpc::TryFromArguments for FindNode<I> {
    fn try_from_arguments(arguments: &BencodeDict) -> Result<Self, TryFromArgumentsError> {
        Self::try_from_arguments_inner(arguments)
    }
}

impl<I: CompactNodeInfo, P: CompactPeerInfo> crate::krpc::TryFromArguments for GetPeers<I, P> {
    fn try_from_arguments(arguments: &BencodeDict) -> Result<Self, TryFromArgumentsError> {
        Self::try_from_arguments_inner(arguments)
    }
}

impl<I: CompactNodeInfo, P: CompactPeerInfo> ToArguments for ResponseType<I, P> {
    fn to_arguments(&self) -> BencodeDict {
        ResponseType::to_arguments(self)
    }
}

} // verus!
