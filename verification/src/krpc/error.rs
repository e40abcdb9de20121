//! KRPC error messages: `y = "e"`, with `e` a two-element list holding a
//! numeric code and a text.

use vstd::prelude::*;

use crate::bencode::common::BencodeString;
use crate::bencode::common::BencodeValue;
use crate::bencode::common::SpecValue;
use crate::bencode::common::dict_model;
use vstd::utf8::valid_first_scalar;
use vstd::utf8::valid_utf8;

verus! {

/// An error message: the transaction id of the offending request, a code,
/// and a short text.  Two error messages are equal when their codes are.
#[derive(Debug, Clone)]
pub struct ErrorMessage {
    /// The transaction id of the request that caused the error.
    pub transaction_id: BencodeString,
    /// The error code.
    pub code: ErrorCode,
    /// The error text.  It is held as raw bytes, but the parser only
    /// accepts, and the constructor only takes, well-formed UTF-8.
    pub message: BencodeString,
}

/// The four error codes the protocol names.  An unknown numeric code is
/// rejected when an error message is parsed.
#[derive(Debug, PartialEq, Eq, Clone, Copy)]
pub enum ErrorCode {
    /// A generic error (201 on the wire).
    GenericError,
    /// A server error (202 on the wire).
    ServerError,
    /// A protocol error, such as a malformed packet (203 on the wire).
    ProtocolError,
    /// The method is unknown (204 on the wire).
    MethodUnknown,
}

/// The number a code is carried as on the wire.
pub open spec fn code_value(c: ErrorCode) -> int {
    match c {
        ErrorCode::GenericError => 201,
        ErrorCode::ServerError => 202,
        ErrorCode::ProtocolError => 203,
        ErrorCode::MethodUnknown => 204,
    }
}

/// The code a number denotes, if it is one of the four known ones.
pub open spec fn code_of_value(v: int) -> Option<ErrorCode> {
    if v == 201 {
        Some(ErrorCode::GenericError)
    } else if v == 202 {
        Some(ErrorCode::ServerError)
    } else if v == 203 {
        Some(ErrorCode::ProtocolError)
    } else if v == 204 {
        Some(ErrorCode::MethodUnknown)
    } else {
        None
    }
}

impl ErrorCode {
    /// The number this code is carried as on the wire.
    pub fn as_wire_value(&self) -> (r: i128)
        ensures
            r as int == code_value(*self),
    {
        match self {
            ErrorCode::GenericError => 201,
            ErrorCode::ServerError => 202,
            ErrorCode::ProtocolError => 203,
            ErrorCode::MethodUnknown => 204,
        }
    }
}

impl TryFrom<i128> for ErrorCode {
    type Error = ();

    /// The code a wire number denotes; unknown numbers are rejected.
    fn try_from(value: i128) -> (r: Result<Self, ()>)
        ensures
            match r {
                Ok(c) => code_of_value(value as int) == Some(c),
                Err(_) => code_of_value(value as int) is None,
            },
    {
        if value == 201 {
            Ok(Self::GenericError)
        } else if value == 202 {
            Ok(Self::ServerError)
        } else if value == 203 {
            Ok(Self::ProtocolError)
        } else if value == 204 {
            Ok(Self::MethodUnknown)
        } else {
            Err(())
        }
    }
}

impl vstd::std_specs::convert::TryFromSpecImpl<i128> for ErrorCode {
    open spec fn obeys_try_from_spec() -> bool {
        true
    }

    open spec fn try_from_spec(value: i128) -> Result<Self, ()> {
        match code_of_value(value as int) {
            Some(c) => Ok(c),
            None => Err(()),
        }
    }
}

impl PartialEq for ErrorMessage {
    /// Error messages compare by code alone.
    fn eq(&self, other: &Self) -> (r: bool) {
        let a = matches!(
            (self.code, other.code),
            (ErrorCode::GenericError, ErrorCode::GenericError) | (
                ErrorCode::ServerError,
                ErrorCode::ServerError,
            ) | (ErrorCode::ProtocolError, ErrorCode::ProtocolError) | (
                ErrorCode::MethodUnknown,
                ErrorCode::MethodUnknown,
            )
        );
        a
    }
}

impl vstd::std_specs::cmp::PartialEqSpecImpl for ErrorMessage {
    open spec fn obeys_eq_spec() -> bool {
        true
    }

    open spec fn eq_spec(&self, other: &Self) -> bool {
        self.code == other.code
    }
}

impl Eq for ErrorMessage {

}


/// Checks that the bytes are a well-formed UTF-8 encoding: the shape an
/// error message's text must have.
#[verifier::loop_isolation(false)]
fn is_valid_utf8_bytes(bytes: &Vec<u8>) -> (r: bool)
    ensures
        r == valid_utf8(bytes@),
{
    let n = bytes.len();
    let mut i: usize = 0;
    proof {
        assert(bytes@.subrange(0, 0) =~= Seq::<u8>::empty());
        assert(vstd::utf8::partial_valid_utf8(bytes@, 0));
    }
    while i < n
        invariant
            i <= n,
            n == bytes@.len(),
            vstd::utf8::partial_valid_utf8(bytes@, i as int),
        decreases n - i,
    {
        let ghost suffix = bytes@.subrange(i as int, bytes@.len() as int);
        proof {
            assert(suffix.len() == n - i);
            assert forall|k: int| 0 <= k < suffix.len() implies suffix[k] == bytes@[i + k] by {}
        }
        let b0 = bytes[i];
        let width: usize;
        if b0 <= 0x7f {
            // A 1-byte scalar: the codepoint is the byte itself, below the
            // surrogate range.
            width = 1;
            proof {
                assert(valid_first_scalar(suffix));
            }
        } else if 0xc0 <= b0 && b0 <= 0xdf {
            if n - i < 2 {
                proof {
                    lemma_reject(bytes@, i as int);
                }
                return false;
            }
            let b1 = bytes[i + 1];
            if !(0x80 <= b1 && b1 <= 0xbf) {
                proof {
                    lemma_reject(bytes@, i as int);
                }
                return false;
            }
            let cp: u32 = (((b0 & 0x1f) as u32) << 6u32) | ((b1 & 0x3f) as u32);
            proof {
                assert(vstd::utf8::decode_first_codepoint(suffix) == cp);
            }
            if cp < 0x80 {
                // An overlong 2-byte encoding.
                proof {
                    lemma_reject(bytes@, i as int);
                }
                return false;
            }
            if 0xd800 <= cp && cp <= 0xdfff {
                proof {
                    lemma_reject(bytes@, i as int);
                }
                return false;
            }
            width = 2;
            proof {
                assert(valid_first_scalar(suffix));
            }
        } else if 0xe0 <= b0 && b0 <= 0xef {
            if n - i < 3 {
                proof {
                    lemma_reject(bytes@, i as int);
                }
                return false;
            }
            let b1 = bytes[i + 1];
            let b2 = bytes[i + 2];
            if !(0x80 <= b1 && b1 <= 0xbf) || !(0x80 <= b2 && b2 <= 0xbf) {
                proof {
                    lemma_reject(bytes@, i as int);
                }
                return false;
            }
            let cp: u32 = (((b0 & 0x0f) as u32) << 12u32) | (((b1 & 0x3f) as u32) << 6u32) | ((b2
                & 0x3f) as u32);
            proof {
                assert(vstd::utf8::decode_first_codepoint(suffix) == cp);
            }
            if cp < 0x800 {
                // An overlong 3-byte encoding.
                proof {
                    lemma_reject(bytes@, i as int);
                }
                return false;
            }
            if 0xd800 <= cp && cp <= 0xdfff {
                // The surrogate range encodes no scalar.
                proof {
                    lemma_reject(bytes@, i as int);
                }
                return false;
            }
            width = 3;
            proof {
                assert(valid_first_scalar(suffix));
            }
        } else if 0xf0 <= b0 && b0 <= 0xf7 {
            if n - i < 4 {
                proof {
                    lemma_reject(bytes@, i as int);
                }
                return false;
            }
            let b1 = bytes[i + 1];
            let b2 = bytes[i + 2];
            let b3 = bytes[i + 3];
            if !(0x80 <= b1 && b1 <= 0xbf) || !(0x80 <= b2 && b2 <= 0xbf) || !(0x80 <= b3 && b3
                <= 0xbf) {
                proof {
                    lemma_reject(bytes@, i as int);
                }
                return false;
            }
            let cp: u32 = (((b0 & 0x07) as u32) << 18u32) | (((b1 & 0x3f) as u32) << 12u32) | (((
            b2 & 0x3f) as u32) << 6u32) | ((b3 & 0x3f) as u32);
            proof {
                assert(vstd::utf8::decode_first_codepoint(suffix) == cp);
            }
            if cp < 0x10000 || cp > 0x10ffff {
                // Overlong, or past the last Unicode scalar.
                proof {
                    lemma_reject(bytes@, i as int);
                }
                return false;
            }
            if 0xd800 <= cp && cp <= 0xdfff {
                proof {
                    lemma_reject(bytes@, i as int);
                }
                return false;
            }
            width = 4;
            proof {
                assert(valid_first_scalar(suffix));
            }
        } else {
            // A stray continuation byte, or a byte no encoding uses.
            proof {
                lemma_reject(bytes@, i as int);
            }
            return false;
        }
        proof {
            assert(vstd::utf8::length_of_first_scalar(suffix) == width);
            vstd::utf8::partial_valid_utf8_extend(bytes@, i as int);
        }
        i = i + width;
    }
    proof {
        assert(bytes@.subrange(0, n as int) =~= bytes@);
    }
    true
}

/// When the scan's prefix is valid but no well-formed scalar starts at
/// `i`, the whole run is not valid UTF-8.
proof fn lemma_reject(bytes: Seq<u8>, i: int)
    requires
        0 <= i < bytes.len(),
        vstd::utf8::partial_valid_utf8(bytes, i),
        !valid_first_scalar(bytes.subrange(i, bytes.len() as int)),
    ensures
        !valid_utf8(bytes),
{
    let suffix = bytes.subrange(i, bytes.len() as int);
    assert(suffix.len() > 0);
    assert(!valid_utf8(suffix));
    vstd::utf8::partial_valid_partial_invalid_utf8(bytes, i);
}

/// The bencode tree an error message is emitted as: `t`, then `y = "e"`,
/// then `e = [code, text]`.
pub open spec fn error_bencoded_spec(e: ErrorMessage) -> SpecValue {
    SpecValue::Dict(
        seq![
            (seq![116u8], SpecValue::ByteString(e.transaction_id@)),
            (seq![121u8], SpecValue::ByteString(seq![101u8])),
            (
                seq![101u8],
                SpecValue::List(
                    seq![
                        SpecValue::Integer(code_value(e.code)),
                        SpecValue::ByteString(e.message@),
                    ],
                ),
            ),
        ],
    )
}

/// One step of the scan over an error dictionary's pairs: `t` must be a
/// byte string, each `e` a two-element list of a known code and a byte
/// string; later occurrences overwrite earlier ones; other keys are
/// ignored.  The parse succeeds when all three parts were seen and the
/// final message bytes are well-formed UTF-8 text.
pub open spec fn scan_error_pairs(
    d: Seq<(Seq<u8>, SpecValue)>,
    tid: Option<Seq<u8>>,
    code: Option<ErrorCode>,
    msg: Option<Seq<u8>>,
) -> Option<(Seq<u8>, ErrorCode, Seq<u8>)>
    decreases d.len(),
{
    if d.len() == 0 {
        match (tid, code, msg) {
            (Some(t), Some(c), Some(m)) => if valid_utf8(m) {
                Some((t, c, m))
            } else {
                None
            },
            _ => None,
        }
    } else {
        let rest = d.subrange(1, d.len() as int);
        if d[0].0 == seq![116u8] {
            match d[0].1 {
                SpecValue::ByteString(b) => scan_error_pairs(rest, Some(b), code, msg),
                _ => None,
            }
        } else if d[0].0 == seq![101u8] {
            match d[0].1 {
                SpecValue::List(l) => {
                    if l.len() != 2 {
                        None
                    } else {
                        match l[0] {
                            SpecValue::Integer(cv) => match code_of_value(cv) {
                                Some(c) => match l[1] {
                                    SpecValue::ByteString(m) => scan_error_pairs(
                                        rest,
                                        tid,
                                        Some(c),
                                        Some(m),
                                    ),
                                    _ => None,
                                },
                                None => None,
                            },
                            _ => None,
                        }
                    }
                },
                _ => None,
            }
        } else {
            scan_error_pairs(rest, tid, code, msg)
        }
    }
}

/// Whether a bencode tree parses as an error message: it must be a
/// dictionary whose pairs scan to a transaction id, a known code and a
/// text.
pub open spec fn error_parses(v: SpecValue) -> bool {
    v matches SpecValue::Dict(d) && scan_error_pairs(d, None, None, None) is Some
}

/// The message `e` is what parsing the tree `v` yields; its text is
/// well-formed UTF-8.
pub open spec fn error_parsed(v: SpecValue, e: ErrorMessage) -> bool {
    &&& v matches SpecValue::Dict(d)
    &&& scan_error_pairs(d, None, None, None) matches Some((t, c, m))
    &&& e.transaction_id@ == t
    &&& e.code == c
    &&& e.message@ == m
    &&& valid_utf8(e.message@)
}

impl ErrorMessage {
    /// Builds an error message from its parts; the message must be text,
    /// that is, well-formed UTF-8 bytes.
    pub fn new(transaction_id: BencodeString, code: ErrorCode, message: BencodeString) -> (r: Self)
        requires
            valid_utf8(message@),
        ensures
            r.transaction_id == transaction_id,
            r.code == code,
            r.message == message,
    {
        Self { transaction_id, code, message }
    }

    /// The bencode tree of the error message: a dictionary with `t`,
    /// `y = "e"` and `e = [code, text]`.
    pub fn to_bencoded(&self) -> (r: BencodeValue)
        ensures
            r@ == error_bencoded_spec(*self),
    {
        let mut dict: Vec<(BencodeString, BencodeValue)> = Vec::new();
        let tid = self.transaction_id.clone();
        dict.push((BencodeString(crate::krpc::t_key()), BencodeValue::ByteString(tid)));
        dict.push(
            (
                BencodeString(crate::krpc::y_key()),
                BencodeValue::ByteString(BencodeString(crate::krpc::e_key())),
            ),
        );
        let mut payload: Vec<BencodeValue> = Vec::new();
        payload.push(BencodeValue::Integer(self.code.as_wire_value()));
        payload.push(BencodeValue::ByteString(self.message.clone()));
        proof {
            assert(crate::bencode::common::list_model(payload@) =~= seq![
                SpecValue::Integer(code_value(self.code)),
                SpecValue::ByteString(self.message@),
            ]);
        }
        dict.push(
            (BencodeString(crate::krpc::e_key()), BencodeValue::List(payload)),
        );
        let ghost d0 = dict@;
        let r = BencodeValue::Dict(dict);
        proof {
            let dm = dict_model(d0);
            let goal = error_bencoded_spec(*self)->Dict_0;
            assert(dm.len() == 3 && goal.len() == 3);
            assert(dm[0] == goal[0]);
            assert(dm[1] == goal[1]);
            assert(dm[2] == goal[2]);
            assert(dm =~= goal);
        }
        r
    }

    /// Parses an error message from a bencode tree.  Succeeds exactly when
    /// the tree is a dictionary whose pairs scan to a transaction id, a
    /// known code and a text whose bytes are well-formed UTF-8; the parsed
    /// parts are the last such pairs.
    #[verifier::loop_isolation(false)]
    pub fn try_from_bencoded(input: &BencodeValue) -> (r: Result<Self, &'static str>)
        ensures
            match r {
                Ok(e) => error_parsed(input@, e),
                Err(_) => !error_parses(input@),
            },
    {
        let dict = match input {
            BencodeValue::Dict(d) => d,
            _ => {
                return Err("expected dictionary");
            },
        };
        let ghost dm = dict_model(dict@);
        let mut transaction_id: Option<BencodeString> = None;
        let mut code: Option<ErrorCode> = None;
        let mut message: Option<BencodeString> = None;
        proof {
            assert(dm.subrange(0, dm.len() as int) =~= dm);
        }
        let mut i: usize = 0;
        while i < dict.len()
            invariant
                i <= dict@.len(),
                scan_error_pairs(
                    dm.subrange(i as int, dm.len() as int),
                    match transaction_id {
                        Some(t) => Some(t@),
                        None => None,
                    },
                    code,
                    match message {
                        Some(m) => Some(m@),
                        None => None,
                    },
                ) == scan_error_pairs(dm, None, None, None),
            decreases dict@.len() - i,
        {
            let ghost pre = dm.subrange(i as int, dm.len() as int);
            proof {
                assert(pre[0] == dm[i as int]);
                assert(pre.subrange(1, pre.len() as int) =~= dm.subrange(i + 1, dm.len() as int));
            }
            let (key, value) = &dict[i];
            proof {
                assert(pre[0].1 == crate::bencode::common::value_model(dict@[i as int].1));
            }
            if crate::krpc::bytes_eq(&key.0, crate::krpc::t_key().as_slice()) {
                match value {
                    BencodeValue::ByteString(s) => {
                        transaction_id = Some(s.clone());
                    },
                    _ => {
                        return Err("expected string");
                    },
                }
            } else if crate::krpc::bytes_eq(&key.0, crate::krpc::e_key().as_slice()) {
                match value {
                    BencodeValue::List(list) => {
                        proof {
                            assert(pre[0].1 == SpecValue::List(
                                crate::bencode::common::list_model(list@),
                            ));
                        }
                        if list.len() != 2 {
                            return Err("expected list of length 2");
                        }
                        let code_value_wire = match &list[0] {
                            BencodeValue::Integer(c) => *c,
                            _ => {
                                return Err("expected integer");
                            },
                        };
                        match ErrorCode::try_from(code_value_wire) {
                            Ok(c) => {
                                code = Some(c);
                            },
                            Err(_) => {
                                return Err("invalid error code");
                            },
                        }
                        match &list[1] {
                            BencodeValue::ByteString(s) => {
                                message = Some(s.clone());
                            },
                            _ => {
                                return Err("expected string");
                            },
                        }
                    },
                    _ => {
                        return Err("expected list");
                    },
                }
            }
            i = i + 1;
        }
        proof {
            assert(dm.subrange(i as int, dm.len() as int).len() == 0);
        }
        match (transaction_id, code, message) {
            (Some(t), Some(c), Some(m)) => {
                if !is_valid_utf8_bytes(&m.0) {
                    return Err("invalid error message");
                }
                Ok(Self { transaction_id: t, code: c, message: m })
            },
            _ => Err("missing field"),
        }
    }
}

} // verus!
