//! The bencode value tree, its mathematical model, and key canonicalization.
//!
//! A decoded dictionary is an ordered sequence of pairs rather than a keyed
//! map: the on-wire key order matters (re-encoding an `info` dictionary must
//! reproduce its exact bytes), so canonicalization is a separate, explicit
//! operation ([`BencodeValue::sort_keys`]).

use vstd::prelude::*;
use vstd::string::StrSliceExecFns;
use vstd::string::StringSliceAdditionalSpecFns;

verus! {

/// Mathematical model of a bencode value: byte strings are byte sequences,
/// integers are unbounded, and a dictionary is an ordered sequence of
/// (key, value) pairs whose keys are raw byte sequences.
#[verifier::ext_equal]
pub enum SpecValue {
    ByteString(Seq<u8>),
    Integer(int),
    List(Seq<SpecValue>),
    Dict(Seq<(Seq<u8>, SpecValue)>),
}

/// A bencoded byte string.  It usually carries binary data (node ids,
/// tokens, compact endpoints), not printable text.
#[derive(Debug, PartialEq, Eq, PartialOrd, Ord)]
pub struct BencodeString(pub Vec<u8>);

/// A bencoded value: one of the four kinds of the format.
///
/// Integers are held as `i128`; the wire format is unbounded, and the
/// decoder rejects integers outside the 128-bit signed range.
#[derive(Debug, PartialEq, Eq)]
pub enum BencodeValue {
    ByteString(BencodeString),
    Integer(i128),
    List(BencodeList),
    Dict(BencodeDict),
}

/// A bencoded dictionary: an ordered sequence of key-value pairs.
pub type BencodeDict = Vec<(BencodeString, BencodeValue)>;

/// A bencoded list: an ordered sequence of values.
pub type BencodeList = Vec<BencodeValue>;

/// Decoding errors, surfaced unchanged to the caller; the codec never
/// panics on malformed input.
#[derive(Debug, Clone, Copy, PartialEq, Eq)]
pub enum Error {
    InvalidString,
    InvalidInteger,
    InvalidValue,
}

/// The short text naming an error kind.
pub open spec fn error_message_spec(e: Error) -> Seq<char> {
    match e {
        Error::InvalidString => "Invalid string"@,
        Error::InvalidInteger => "Invalid integer"@,
        Error::InvalidValue => "Invalid value"@,
    }
}

impl Error {
    /// A short text naming the error kind, for reporting by a driver.
    pub fn message(&self) -> (r: &'static str)
        ensures
            r@ == error_message_spec(*self),
    {
        match self {
            Error::InvalidString => "Invalid string",
            Error::InvalidInteger => "Invalid integer",
            Error::InvalidValue => "Invalid value",
        }
    }
}

impl View for BencodeString {
    type V = Seq<u8>;

    open spec fn view(&self) -> Seq<u8> {
        self.0@
    }
}

/// The model of an executable value tree.
pub open spec fn value_model(v: BencodeValue) -> SpecValue
    decreases v,
{
    match v {
        BencodeValue::ByteString(s) => SpecValue::ByteString(s@),
        BencodeValue::Integer(i) => SpecValue::Integer(i as int),
        BencodeValue::List(l) => SpecValue::List(list_model(l@)),
        BencodeValue::Dict(d) => SpecValue::Dict(dict_model(d@)),
    }
}

/// The models of a sequence of values, element by element.
pub open spec fn list_model(l: Seq<BencodeValue>) -> Seq<SpecValue>
    decreases l,
{
    Seq::new(
        l.len(),
        |i: int|
            if 0 <= i < l.len() {
                value_model(l[i])
            } else {
                SpecValue::Integer(0)
            },
    )
}

/// The models of a sequence of pairs, element by element.
pub open spec fn dict_model(d: Seq<(BencodeString, BencodeValue)>) -> Seq<(Seq<u8>, SpecValue)>
    decreases d,
{
    Seq::new(
        d.len(),
        |i: int|
            if 0 <= i < d.len() {
                (d[i].0@, value_model(d[i].1))
            } else {
                (Seq::empty(), SpecValue::Integer(0))
            },
    )
}

impl View for BencodeValue {
    type V = SpecValue;

    open spec fn view(&self) -> SpecValue {
        value_model(*self)
    }
}

/// Lexicographic byte-wise "less than or equal" on raw key bytes; a shorter
/// key precedes every key it is a prefix of.
pub open spec fn bytes_le(a: Seq<u8>, b: Seq<u8>) -> bool
    decreases a.len(),
{
    if a.len() == 0 {
        true
    } else if b.len() == 0 {
        false
    } else if a[0] < b[0] {
        true
    } else if a[0] > b[0] {
        false
    } else {
        bytes_le(a.subrange(1, a.len() as int), b.subrange(1, b.len() as int))
    }
}

pub proof fn lemma_bytes_le_total(a: Seq<u8>, b: Seq<u8>)
    ensures
        bytes_le(a, b) || bytes_le(b, a),
    decreases a.len(),
{
    if a.len() > 0 && b.len() > 0 && a[0] == b[0] {
        lemma_bytes_le_total(a.subrange(1, a.len() as int), b.subrange(1, b.len() as int));
    }
}

pub proof fn lemma_bytes_le_antisymmetric(a: Seq<u8>, b: Seq<u8>)
    requires
        bytes_le(a, b),
        bytes_le(b, a),
    ensures
        a == b,
    decreases a.len(),
{
    if a.len() == 0 {
        assert(b.len() == 0);
        assert(a =~= b);
    } else {
        assert(b.len() > 0);
        assert(a[0] == b[0]);
        lemma_bytes_le_antisymmetric(
            a.subrange(1, a.len() as int),
            b.subrange(1, b.len() as int),
        );
        assert forall|i: int| 0 <= i < a.len() implies a[i] == b[i] by {
            if i > 0 {
                assert(a[i] == a.subrange(1, a.len() as int)[i - 1]);
                assert(b[i] == b.subrange(1, b.len() as int)[i - 1]);
            }
        }
        assert(a =~= b);
    }
}

pub proof fn lemma_bytes_le_transitive(a: Seq<u8>, b: Seq<u8>, c: Seq<u8>)
    requires
        bytes_le(a, b),
        bytes_le(b, c),
    ensures
        bytes_le(a, c),
    decreases a.len(),
{
    if a.len() > 0 && b.len() > 0 && c.len() > 0 && a[0] == b[0] && b[0] == c[0] {
        lemma_bytes_le_transitive(
            a.subrange(1, a.len() as int),
            b.subrange(1, b.len() as int),
            c.subrange(1, c.len() as int),
        );
    }
}

/// Compares two keys, returning whether `a` precedes or equals `b` in the
/// lexicographic byte order used for dictionary canonicalization.
pub fn key_le(a: &BencodeString, b: &BencodeString) -> (r: bool)
    ensures
        r == bytes_le(a@, b@),
{
    let alen = a.0.len();
    let blen = b.0.len();
    let mut i: usize = 0;
    proof {
        assert(a@.subrange(0, alen as int) =~= a@);
        assert(b@.subrange(0, blen as int) =~= b@);
    }
    loop
        invariant
            i <= alen,
            i <= blen,
            alen == a.0.len(),
            blen == b.0.len(),
            bytes_le(a@, b@) == bytes_le(
                a@.subrange(i as int, alen as int),
                b@.subrange(i as int, blen as int),
            ),
        decreases alen - i,
    {
        if i >= alen {
            proof {
                assert(a@.subrange(i as int, alen as int).len() == 0);
            }
            return true;
        }
        if i >= blen {
            proof {
                assert(b@.subrange(i as int, blen as int).len() == 0);
                assert(a@.subrange(i as int, alen as int).len() > 0);
            }
            return false;
        }
        let x = a.0[i];
        let y = b.0[i];
        proof {
            let sa = a@.subrange(i as int, alen as int);
            let sb = b@.subrange(i as int, blen as int);
            assert(sa[0] == a@[i as int]);
            assert(sb[0] == b@[i as int]);
            assert(sa.subrange(1, sa.len() as int) =~= a@.subrange(i + 1, alen as int));
            assert(sb.subrange(1, sb.len() as int) =~= b@.subrange(i + 1, blen as int));
        }
        if x < y {
            return true;
        }
        if x > y {
            return false;
        }
        i = i + 1;
    }
}

/// A pair sequence is key-sorted when keys are in ascending (non-strict)
/// lexicographic order.
pub open spec fn keys_sorted(d: Seq<(Seq<u8>, SpecValue)>) -> bool {
    forall|i: int, j: int|
        0 <= i < j < d.len() ==> bytes_le(#[trigger] d[i].0, #[trigger] d[j].0)
}

/// Stable insertion of a pair into a key-sorted pair sequence: the new pair
/// lands after every pair whose key is less than or equal to its own.
pub open spec fn insert_pair(
    s: Seq<(Seq<u8>, SpecValue)>,
    p: (Seq<u8>, SpecValue),
) -> Seq<(Seq<u8>, SpecValue)>
    decreases s.len(),
{
    if s.len() == 0 {
        seq![p]
    } else if bytes_le(s.last().0, p.0) {
        s.push(p)
    } else {
        insert_pair(s.drop_last(), p).push(s.last())
    }
}

/// Stable insertion sort of a pair sequence by key.
pub open spec fn sort_pairs(s: Seq<(Seq<u8>, SpecValue)>) -> Seq<(Seq<u8>, SpecValue)>
    decreases s.len(),
{
    if s.len() == 0 {
        s
    } else {
        insert_pair(sort_pairs(s.drop_last()), s.last())
    }
}

/// Recursive canonicalization of a value: every dictionary's pairs are
/// sorted by key, inner values first.
pub open spec fn deep_sort(v: SpecValue) -> SpecValue
    decreases v,
{
    match v {
        SpecValue::ByteString(s) => SpecValue::ByteString(s),
        SpecValue::Integer(i) => SpecValue::Integer(i),
        SpecValue::List(l) => SpecValue::List(deep_sort_seq(l)),
        SpecValue::Dict(d) => SpecValue::Dict(sort_pairs(deep_sort_values(d))),
    }
}

/// Canonicalizes each value of a sequence, keeping the order.
pub open spec fn deep_sort_seq(l: Seq<SpecValue>) -> Seq<SpecValue>
    decreases l,
{
    Seq::new(
        l.len(),
        |i: int|
            if 0 <= i < l.len() {
                deep_sort(l[i])
            } else {
                SpecValue::Integer(0)
            },
    )
}

/// Canonicalizes the value of each pair of a sequence, keeping keys and order.
pub open spec fn deep_sort_values(d: Seq<(Seq<u8>, SpecValue)>) -> Seq<(Seq<u8>, SpecValue)>
    decreases d,
{
    Seq::new(
        d.len(),
        |i: int|
            if 0 <= i < d.len() {
                (d[i].0, deep_sort(d[i].1))
            } else {
                (Seq::empty(), SpecValue::Integer(0))
            },
    )
}

/// A value is canonical when every dictionary in it is key-sorted.
pub open spec fn is_canonical(v: SpecValue) -> bool
    decreases v,
{
    match v {
        SpecValue::ByteString(_) => true,
        SpecValue::Integer(_) => true,
        SpecValue::List(l) => forall|i: int| 0 <= i < l.len() ==> is_canonical(#[trigger] l[i]),
        SpecValue::Dict(d) => keys_sorted(d) && forall|i: int|
            0 <= i < d.len() ==> is_canonical(#[trigger] d[i].1),
    }
}

pub proof fn lemma_insert_pair_sorted(s: Seq<(Seq<u8>, SpecValue)>, p: (Seq<u8>, SpecValue))
    requires
        keys_sorted(s),
    ensures
        keys_sorted(insert_pair(s, p)),
        insert_pair(s, p).len() == s.len() + 1,
        forall|k: int|
            0 <= k < insert_pair(s, p).len() ==> (#[trigger] insert_pair(s, p)[k] == p || exists|
                j: int,
            | 0 <= j < s.len() && insert_pair(s, p)[k] == s[j]),
    decreases s.len(),
{
    let r = insert_pair(s, p);
    if s.len() == 0 {
        assert(r =~= seq![p]);
    } else if bytes_le(s.last().0, p.0) {
        assert forall|i: int, j: int| 0 <= i < j < r.len() implies bytes_le(
            #[trigger] r[i].0,
            #[trigger] r[j].0,
        ) by {
            if j == r.len() - 1 {
                if i == s.len() - 1 {
                } else {
                    lemma_bytes_le_transitive(s[i].0, s.last().0, p.0);
                }
            }
        }
        assert forall|k: int| 0 <= k < r.len() implies (#[trigger] r[k] == p || exists|j: int|
            0 <= j < s.len() && r[k] == s[j]) by {
            if k < s.len() {
                assert(r[k] == s[k]);
            }
        }
    } else {
        let s0 = s.drop_last();
        assert(keys_sorted(s0));
        lemma_insert_pair_sorted(s0, p);
        let t = insert_pair(s0, p);
        lemma_bytes_le_total(s.last().0, p.0);
        assert(bytes_le(p.0, s.last().0));
        assert forall|k: int| 0 <= k < t.len() implies bytes_le(
            #[trigger] t[k].0,
            s.last().0,
        ) by {
            assert(t[k] == p || exists|j: int| 0 <= j < s0.len() && t[k] == s0[j]);
            if t[k] == p {
            } else {
                let j = choose|j: int| 0 <= j < s0.len() && t[k] == s0[j];
                assert(s0[j] == s[j]);
                assert(bytes_le(s[j].0, s.last().0));
            }
        }
        assert forall|i: int, j: int| 0 <= i < j < r.len() implies bytes_le(
            #[trigger] r[i].0,
            #[trigger] r[j].0,
        ) by {
            if j < r.len() - 1 {
                assert(r[i] == t[i] && r[j] == t[j]);
            } else {
                assert(r[i] == t[i]);
                assert(r[j] == s.last());
            }
        }
        assert forall|k: int| 0 <= k < r.len() implies (#[trigger] r[k] == p || exists|j: int|
            0 <= j < s.len() && r[k] == s[j]) by {
            if k < r.len() - 1 {
                assert(r[k] == t[k]);
                if t[k] != p {
                    let j = choose|j: int| 0 <= j < s0.len() && t[k] == s0[j];
                    assert(r[k] == s[j]);
                }
            } else {
                assert(r[k] == s[s.len() - 1]);
            }
        }
    }
}

pub proof fn lemma_sort_pairs_sorted(s: Seq<(Seq<u8>, SpecValue)>)
    ensures
        keys_sorted(sort_pairs(s)),
        sort_pairs(s).len() == s.len(),
    decreases s.len(),
{
    if s.len() > 0 {
        lemma_sort_pairs_sorted(s.drop_last());
        lemma_insert_pair_sorted(sort_pairs(s.drop_last()), s.last());
    }
}

/// Sorting a sequence that is already key-sorted leaves it unchanged.
pub proof fn lemma_sort_pairs_of_sorted(s: Seq<(Seq<u8>, SpecValue)>)
    requires
        keys_sorted(s),
    ensures
        sort_pairs(s) == s,
    decreases s.len(),
{
    if s.len() > 0 {
        let s0 = s.drop_last();
        assert(keys_sorted(s0));
        lemma_sort_pairs_of_sorted(s0);
        if s0.len() == 0 {
            assert(insert_pair(s0, s.last()) =~= s);
        } else {
            assert(s0.last() == s[s.len() - 2]);
            assert(bytes_le(s0.last().0, s.last().0));
            assert(insert_pair(s0, s.last()) =~= s);
        }
    }
}

/// Canonicalization is the identity on canonical values.
pub proof fn lemma_deep_sort_of_canonical(v: SpecValue)
    requires
        is_canonical(v),
    ensures
        deep_sort(v) == v,
    decreases v,
{
    match v {
        SpecValue::ByteString(_) => {},
        SpecValue::Integer(_) => {},
        SpecValue::List(l) => {
            assert forall|i: int| 0 <= i < l.len() implies #[trigger] deep_sort(l[i]) == l[i] by {
                assert(is_canonical(l[i]));
                lemma_deep_sort_of_canonical(l[i]);
            }
            assert forall|i: int| 0 <= i < l.len() implies deep_sort_seq(l)[i] == l[i] by {
                assert(deep_sort_seq(l)[i] == deep_sort(l[i]));
            }
            assert(deep_sort_seq(l) =~= l);
        },
        SpecValue::Dict(d) => {
            assert forall|i: int| 0 <= i < d.len() implies #[trigger] deep_sort(d[i].1)
                == d[i].1 by {
                assert(is_canonical(d[i].1));
                lemma_deep_sort_of_canonical(d[i].1);
            }
            assert forall|i: int| 0 <= i < d.len() implies deep_sort_values(d)[i] == d[i] by {
                assert(deep_sort_values(d)[i] == (d[i].0, deep_sort(d[i].1)));
                assert(d[i] == (d[i].0, d[i].1));
            }
            assert(deep_sort_values(d) =~= d);
            lemma_sort_pairs_of_sorted(d);
        },
    }
}

/// Canonicalization yields a canonical value.
pub proof fn lemma_deep_sort_canonical(v: SpecValue)
    ensures
        is_canonical(deep_sort(v)),
    decreases v,
{
    match v {
        SpecValue::ByteString(_) => {},
        SpecValue::Integer(_) => {},
        SpecValue::List(l) => {
            let m = deep_sort_seq(l);
            assert forall|i: int| 0 <= i < m.len() implies is_canonical(#[trigger] m[i]) by {
                lemma_deep_sort_canonical(l[i]);
            }
        },
        SpecValue::Dict(d) => {
            let m = deep_sort_values(d);
            lemma_sort_pairs_sorted(m);
            let r = sort_pairs(m);
            assert forall|k: int| 0 <= k < r.len() implies is_canonical(#[trigger] r[k].1) by {
                lemma_sort_pairs_elements(m, k);
                let j = choose|j: int| 0 <= j < m.len() && r[k] == m[j];
                lemma_deep_sort_canonical(d[j].1);
            }
        },
    }
}

/// Every pair of a sorted sequence comes from the unsorted input.
pub proof fn lemma_sort_pairs_elements(s: Seq<(Seq<u8>, SpecValue)>, k: int)
    requires
        0 <= k < sort_pairs(s).len(),
    ensures
        exists|j: int| 0 <= j < s.len() && sort_pairs(s)[k] == s[j],
    decreases s.len(),
{
    lemma_sort_pairs_sorted(s);
    if s.len() > 0 {
        let s0 = s.drop_last();
        lemma_sort_pairs_sorted(s0);
        lemma_insert_pair_sorted(sort_pairs(s0), s.last());
        let r = sort_pairs(s);
        if r[k] == s.last() {
            assert(r[k] == s[s.len() - 1]);
        } else {
            assert(exists|j: int| 0 <= j < sort_pairs(s0).len() && r[k] == sort_pairs(s0)[j]);
            let j0 = choose|j: int| 0 <= j < sort_pairs(s0).len() && r[k] == sort_pairs(s0)[j];
            lemma_sort_pairs_elements(s0, j0);
            let j = choose|j: int| 0 <= j < s0.len() && sort_pairs(s0)[j0] == s0[j];
            assert(r[k] == s[j]);
        }
    }
}

/// Canonicalization is idempotent.
pub proof fn lemma_deep_sort_idempotent(v: SpecValue)
    ensures
        deep_sort(deep_sort(v)) == deep_sort(v),
{
    lemma_deep_sort_canonical(v);
    lemma_deep_sort_of_canonical(deep_sort(v));
}

/// Inserting at the position found by a backwards scan over a sorted
/// sequence is the same as the stable insertion `insert_pair`.
pub proof fn lemma_insert_pair_at(s: Seq<(Seq<u8>, SpecValue)>, p: (Seq<u8>, SpecValue), j: int)
    requires
        0 <= j <= s.len(),
        forall|k: int| j <= k < s.len() ==> !bytes_le(#[trigger] s[k].0, p.0),
        j > 0 ==> bytes_le(s[j - 1].0, p.0),
    ensures
        insert_pair(s, p) == s.insert(j, p),
    decreases s.len(),
{
    s.insert_ensures(j, p);
    if s.len() == 0 {
        assert(insert_pair(s, p) =~= s.insert(0, p));
    } else if j == s.len() {
        assert(bytes_le(s.last().0, p.0));
        assert(s.push(p) =~= s.insert(j, p));
    } else {
        assert(!bytes_le(s.last().0, p.0));
        let s0 = s.drop_last();
        assert(forall|k: int| j <= k < s0.len() ==> !bytes_le(#[trigger] s0[k].0, p.0));
        lemma_insert_pair_at(s0, p, j);
        s0.insert_ensures(j, p);
        assert(insert_pair(s0, p).push(s.last()) =~= s.insert(j, p));
    }
}

impl Clone for BencodeString {
    /// Clones the byte string; the copy holds the same bytes.
    #[verifier::loop_isolation(false)]
    fn clone(&self) -> (r: Self)
        ensures
            r@ == self@,
    {
        let mut out: Vec<u8> = Vec::new();
        let mut i: usize = 0;
        while i < self.0.len()
            invariant
                i <= self.0.len(),
                out@ == self.0@.subrange(0, i as int),
            decreases self.0.len() - i,
        {
            out.push(self.0[i]);
            proof {
                assert(out@ =~= self.0@.subrange(0, i + 1));
            }
            i = i + 1;
        }
        proof {
            assert(out@ =~= self.0@);
        }
        BencodeString(out)
    }
}

impl Clone for BencodeValue {
    /// Clones the value tree; the copy has the same model.
    #[verifier::loop_isolation(false)]
    fn clone(&self) -> (r: Self)
        ensures
            r@ == self@,
        decreases *self,
    {
        match self {
            BencodeValue::ByteString(s) => BencodeValue::ByteString(s.clone()),
            BencodeValue::Integer(i) => BencodeValue::Integer(*i),
            BencodeValue::List(l) => {
                let mut out: Vec<BencodeValue> = Vec::new();
                let mut i: usize = 0;
                while i < l.len()
                    invariant
                        i <= l.len(),
                        out@.len() == i,
                        forall|k: int|
                            0 <= k < i ==> value_model(#[trigger] out@[k]) == value_model(l@[k]),
                    decreases l.len() - i,
                {
                    proof {
                        assert(decreases_to!(*self => *l));
                        assert(decreases_to!(*l => l@));
                        assert(decreases_to!(l@ => l@[i as int]));
                    }
                    out.push(l[i].clone());
                    i = i + 1;
                }
                proof {
                    assert(list_model(out@) =~= list_model(l@));
                }
                BencodeValue::List(out)
            },
            BencodeValue::Dict(d) => {
                let mut out: Vec<(BencodeString, BencodeValue)> = Vec::new();
                let mut i: usize = 0;
                while i < d.len()
                    invariant
                        i <= d.len(),
                        out@.len() == i,
                        forall|k: int|
                            0 <= k < i ==> (#[trigger] out@[k]).0@ == d@[k].0@ && value_model(
                                out@[k].1,
                            ) == value_model(d@[k].1),
                    decreases d.len() - i,
                {
                    proof {
                        assert(decreases_to!(*self => *d));
                        assert(decreases_to!(*d => d@));
                        assert(decreases_to!(d@ => d@[i as int]));
                        assert(decreases_to!(d@[i as int] => d@[i as int].1));
                    }
                    let key = d[i].0.clone();
                    let val = d[i].1.clone();
                    out.push((key, val));
                    i = i + 1;
                }
                proof {
                    assert(dict_model(out@) =~= dict_model(d@));
                }
                BencodeValue::Dict(out)
            },
        }
    }
}

impl From<Vec<u8>> for BencodeString {
    /// Wraps raw bytes as a bencoded byte string.
    fn from(input: Vec<u8>) -> (r: Self) {
        BencodeString(input)
    }
}

impl vstd::std_specs::convert::FromSpecImpl<Vec<u8>> for BencodeString {
    open spec fn obeys_from_spec() -> bool {
        true
    }

    open spec fn from_spec(input: Vec<u8>) -> Self {
        BencodeString(input)
    }
}

impl From<&str> for BencodeString {
    /// Copies a text literal's UTF-8 bytes into a byte string.
    fn from(input: &str) -> (r: Self)
        ensures
            r@ == input.spec_bytes(),
    {
        BencodeString(input.as_bytes_vec())
    }
}

impl vstd::std_specs::convert::FromSpecImpl<&str> for BencodeString {
    open spec fn obeys_from_spec() -> bool {
        false
    }

    open spec fn from_spec(input: &str) -> Self {
        arbitrary()
    }
}

impl From<String> for BencodeString {
    /// Takes a text value's UTF-8 bytes as a byte string.
    fn from(input: String) -> (r: Self)
        ensures
            r@ == vstd::utf8::encode_utf8(input@),
    {
        BencodeString(input.as_str().as_bytes_vec())
    }
}

impl vstd::std_specs::convert::FromSpecImpl<String> for BencodeString {
    open spec fn obeys_from_spec() -> bool {
        false
    }

    open spec fn from_spec(input: String) -> Self {
        arbitrary()
    }
}

impl From<BencodeString> for Vec<u8> {
    /// Unwraps the raw bytes of a byte string.
    fn from(input: BencodeString) -> (r: Self) {
        input.0
    }
}

impl vstd::std_specs::convert::FromSpecImpl<BencodeString> for Vec<u8> {
    open spec fn obeys_from_spec() -> bool {
        true
    }

    open spec fn from_spec(input: BencodeString) -> Self {
        input.0
    }
}

impl BencodeValue {
    /// Wraps a text value as a byte string, holding its UTF-8 bytes.
    pub fn from_string(input: String) -> (r: Self)
        ensures
            r@ == SpecValue::ByteString(vstd::utf8::encode_utf8(input@)),
    {
        BencodeValue::ByteString(BencodeString(input.as_str().as_bytes_vec()))
    }

    /// Wraps an integer as a bencode integer value.
    pub fn from_integer(input: i128) -> (r: Self)
        ensures
            r@ == SpecValue::Integer(input as int),
    {
        BencodeValue::Integer(input)
    }

    /// Wraps a vector of values as a bencode list.
    pub fn from_list(input: Vec<BencodeValue>) -> (r: Self)
        ensures
            r@ == SpecValue::List(list_model(input@)),
    {
        BencodeValue::List(input)
    }

    /// Wraps a vector of pairs as a bencode dictionary, order kept.
    pub fn from_dict(input: Vec<(BencodeString, BencodeValue)>) -> (r: Self)
        ensures
            r@ == SpecValue::Dict(dict_model(input@)),
    {
        BencodeValue::Dict(input)
    }

    /// Sorts the keys of every dictionary in the tree, so that a later
    /// encoding is canonical.  Leaves everything else unchanged.
    pub fn sort_keys(&mut self)
        ensures
            final(self)@ == deep_sort(old(self)@),
    {
        let mut tmp = BencodeValue::Integer(0);
        core::mem::swap(self, &mut tmp);
        *self = tmp.into_sorted();
    }

    /// Consumes the value and returns its canonicalized form.
    #[verifier::loop_isolation(false)]
    pub(crate) fn into_sorted(self) -> (r: Self)
        ensures
            r@ == deep_sort(self@),
        decreases self,
    {
        let ghost orig = self;
        match self {
            BencodeValue::ByteString(s) => BencodeValue::ByteString(s),
            BencodeValue::Integer(i) => BencodeValue::Integer(i),
            BencodeValue::List(l) => {
                let ghost lv = l;
                let ghost l0 = l@;
                let mut rest = l;
                let mut out: Vec<BencodeValue> = Vec::new();
                while rest.len() > 0
                    invariant
                        out@.len() + rest@.len() == l0.len(),
                        rest@ == l0.subrange(out@.len() as int, l0.len() as int),
                        forall|k: int|
                            0 <= k < out@.len() ==> value_model(#[trigger] out@[k]) == deep_sort(
                                value_model(l0[k]),
                            ),
                    decreases rest@.len(),
                {
                    let ghost n: int = out@.len() as int;
                    let ghost rest0 = rest@;
                    let item = rest.remove(0);
                    proof {
                        assert(rest0[0] == l0[n]);
                        assert(item == l0[n]);
                        assert(rest@ =~= l0.subrange(n + 1, l0.len() as int));
                        assert(orig == BencodeValue::List(lv));
                        assert(decreases_to!(orig => orig->List_0));
                        assert(orig->List_0 == lv);
                        assert(decreases_to!(lv => lv@));
                        assert(lv@ == l0);
                        assert(decreases_to!(l0 => l0[n]));
                    }
                    out.push(item.into_sorted());
                }
                proof {
                    assert(list_model(out@) =~= deep_sort_seq(list_model(l0)));
                }
                BencodeValue::List(out)
            },
            BencodeValue::Dict(d) => {
                let ghost dv = d;
                let ghost d0 = d@;
                let mut rest = d;
                let mut vals: Vec<(BencodeString, BencodeValue)> = Vec::new();
                while rest.len() > 0
                    invariant
                        vals@.len() + rest@.len() == d0.len(),
                        rest@ == d0.subrange(vals@.len() as int, d0.len() as int),
                        forall|k: int|
                            0 <= k < vals@.len() ==> (#[trigger] vals@[k]).0@ == d0[k].0@
                                && value_model(vals@[k].1) == deep_sort(value_model(d0[k].1)),
                    decreases rest@.len(),
                {
                    let ghost n: int = vals@.len() as int;
                    let ghost rest0 = rest@;
                    let pair = rest.remove(0);
                    proof {
                        assert(rest0[0] == d0[n]);
                        assert(pair == d0[n]);
                        assert(rest@ =~= d0.subrange(n + 1, d0.len() as int));
                        assert(orig == BencodeValue::Dict(dv));
                        assert(decreases_to!(orig => orig->Dict_0));
                        assert(orig->Dict_0 == dv);
                        assert(decreases_to!(dv => dv@));
                        assert(dv@ == d0);
                        assert(decreases_to!(d0 => d0[n]));
                        assert(decreases_to!(d0[n] => d0[n].1));
                    }
                    let sorted_value = pair.1.into_sorted();
                    vals.push((pair.0, sorted_value));
                }
                proof {
                    assert(dict_model(vals@) =~= deep_sort_values(dict_model(d0)));
                }
                let sorted = sort_dict_pairs(vals);
                BencodeValue::Dict(sorted)
            },
        }
    }
}

/// Finds the stable insertion position for `key` in a vector whose pairs
/// are scanned from the back: the first position after every key that is
/// less than or equal to `key`.
fn find_insert_pos(sorted: &Vec<(BencodeString, BencodeValue)>, key: &BencodeString) -> (j: usize)
    ensures
        j <= sorted@.len(),
        forall|k: int| j <= k < sorted@.len() ==> !bytes_le((#[trigger] sorted@[k]).0@, key@),
        j > 0 ==> bytes_le(sorted@[j - 1].0@, key@),
{
    let mut j: usize = sorted.len();
    loop
        invariant
            j <= sorted@.len(),
            forall|k: int| j <= k < sorted@.len() ==> !bytes_le((#[trigger] sorted@[k]).0@, key@),
        decreases j,
    {
        if j == 0 {
            return 0;
        }
        if key_le(&sorted[j - 1].0, key) {
            return j;
        }
        j = j - 1;
    }
}

/// Stable insertion sort of dictionary pairs by key, ascending.
#[verifier::loop_isolation(false)]
fn sort_dict_pairs(input: Vec<(BencodeString, BencodeValue)>) -> (r: Vec<
    (BencodeString, BencodeValue),
>)
    ensures
        dict_model(r@) == sort_pairs(dict_model(input@)),
{
    let ghost i0 = dict_model(input@);
    let mut rest = input;
    let mut sorted: Vec<(BencodeString, BencodeValue)> = Vec::new();
    proof {
        assert(dict_model(sorted@) =~= sort_pairs(i0.subrange(0, 0)));
        assert(dict_model(rest@) =~= i0.subrange(0, i0.len() as int));
    }
    while rest.len() > 0
        invariant
            sorted@.len() + rest@.len() == i0.len(),
            dict_model(rest@) == i0.subrange(sorted@.len() as int, i0.len() as int),
            dict_model(sorted@) == sort_pairs(i0.subrange(0, sorted@.len() as int)),
        decreases rest@.len(),
    {
        let ghost n: int = sorted@.len() as int;
        let ghost old_sorted = sorted@;
        let ghost rest0 = rest@;
        let pair = rest.remove(0);
        proof {
            assert(pair == rest0[0]);
            assert(dict_model(rest0)[0] == i0[n]);
            assert((pair.0@, value_model(pair.1)) == i0[n]);
            assert forall|k: int| 0 <= k < rest@.len() implies dict_model(rest@)[k] == i0[n + 1 + k] by {
                assert(rest@[k] == rest0[k + 1]);
                assert(dict_model(rest0)[k + 1] == i0[n + 1 + k]);
            }
            assert(dict_model(rest@) =~= i0.subrange(n + 1, i0.len() as int));
        }
        let j = find_insert_pos(&sorted, &pair.0);
        proof {
            let s = dict_model(old_sorted);
            assert(forall|k: int| j <= k < s.len() ==> !bytes_le(#[trigger] s[k].0, pair.0@));
            if j > 0 {
                assert(bytes_le(s[j as int - 1].0, pair.0@));
            }
            lemma_insert_pair_at(s, (pair.0@, value_model(pair.1)), j as int);
        }
        sorted.insert(j, pair);
        proof {
            let prev = i0.subrange(0, n);
            let cur = i0.subrange(0, n + 1);
            assert(cur.drop_last() =~= prev);
            assert(cur.last() == i0[n]);
            assert(sorted@.remove(j as int) =~= old_sorted);
            dict_model_insert(sorted@, j as int);
            assert(dict_model(old_sorted) == dict_model(sorted@.remove(j as int)));
            assert(sorted@[j as int] == pair);
            assert(dict_model(sorted@) == insert_pair(sort_pairs(prev), i0[n]));
            assert(dict_model(sorted@) == sort_pairs(cur));
        }
    }
    proof {
        assert(i0.subrange(0, i0.len() as int) =~= i0);
    }
    sorted
}

/// Taking the model commutes with inserting a pair.
proof fn dict_model_insert(d: Seq<(BencodeString, BencodeValue)>, j: int)
    requires
        0 <= j < d.len(),
    ensures
        dict_model(d) == dict_model(d.remove(j)).insert(j, (d[j].0@, value_model(d[j].1))),
{
    dict_model(d.remove(j)).insert_ensures(j, (d[j].0@, value_model(d[j].1)));
    assert(dict_model(d) =~= dict_model(d.remove(j)).insert(j, (d[j].0@, value_model(d[j].1))));
}

/// The decimal digits of a non-negative number, most significant first,
/// as ASCII bytes; the single digit `0` for zero.
pub open spec fn dec_digits(n: nat) -> Seq<u8>
    decreases n,
{
    if n < 10 {
        seq![(48 + n) as u8]
    } else {
        dec_digits(n / 10).push((48 + n % 10) as u8)
    }
}

/// The number denoted by a sequence of ASCII digits, read left to right;
/// an empty sequence denotes zero.
pub open spec fn digits_value(s: Seq<u8>) -> nat
    decreases s.len(),
{
    if s.len() == 0 {
        0
    } else {
        digits_value(s.drop_last()) * 10 + (s.last() - 48) as nat
    }
}

/// Whether every byte of the sequence is an ASCII decimal digit.
pub open spec fn all_digits(s: Seq<u8>) -> bool {
    forall|i: int| 0 <= i < s.len() ==> 48 <= #[trigger] s[i] <= 57
}

pub proof fn lemma_dec_digits_shape(n: nat)
    ensures
        dec_digits(n).len() >= 1,
        all_digits(dec_digits(n)),
        digits_value(dec_digits(n)) == n,
        n > 0 ==> dec_digits(n)[0] != 48,
        n < 10 ==> dec_digits(n).len() == 1,
    decreases n,
{
    if n < 10 {
        assert(dec_digits(n) =~= seq![(48 + n) as u8]);
        assert(dec_digits(n).drop_last() =~= Seq::<u8>::empty());
        assert(digits_value(Seq::<u8>::empty()) == 0);
        assert(digits_value(dec_digits(n)) == digits_value(dec_digits(n).drop_last()) * 10 + (
        dec_digits(n).last() - 48) as nat);
    } else {
        lemma_dec_digits_shape(n / 10);
        let d = dec_digits(n);
        let d0 = dec_digits(n / 10);
        assert(d == d0.push((48 + n % 10) as u8));
        assert(d.drop_last() =~= d0);
        assert(d[0] == d0[0]);
        assert(forall|i: int| 0 <= i < d.len() - 1 ==> d[i] == d0[i]);
        assert(d.last() == (48 + n % 10) as u8);
        assert((d.last() - 48) as nat == n % 10);
        assert(digits_value(d) == digits_value(d0) * 10 + n % 10);
        assert(n == n / 10 * 10 + n % 10);
    }
}

/// Appending a digit multiplies the value by ten and adds the digit.
pub proof fn lemma_digits_value_append(s: Seq<u8>, t: Seq<u8>)
    ensures
        digits_value(s) <= digits_value(s + t),
    decreases t.len(),
{
    if t.len() == 0 {
        assert(s + t =~= s);
    } else {
        lemma_digits_value_append(s, t.drop_last());
        assert((s + t).drop_last() =~= s + t.drop_last());
        assert(digits_value(s + t) == digits_value(s + t.drop_last()) * 10 + ((s + t).last()
            - 48) as nat);
        assert(digits_value(s + t.drop_last()) * 10 >= digits_value(s + t.drop_last()));
    }
}

/// Appending at least one digit multiplies the denoted value by at least ten.
pub proof fn lemma_digits_value_append_grows(s: Seq<u8>, t: Seq<u8>)
    requires
        t.len() >= 1,
    ensures
        digits_value(s + t) >= digits_value(s) * 10,
    decreases t.len(),
{
    if t.len() == 1 {
        assert((s + t).drop_last() =~= s);
        assert(digits_value(s + t) == digits_value(s) * 10 + ((s + t).last() - 48) as nat);
    } else {
        lemma_digits_value_append_grows(s, t.drop_last());
        assert((s + t).drop_last() =~= s + t.drop_last());
        assert(digits_value(s + t) == digits_value(s + t.drop_last()) * 10 + ((s + t).last()
            - 48) as nat);
        assert(digits_value(s + t.drop_last()) * 10 >= digits_value(s) * 10);
    }
}
} // verus!
