//! Round-trip laws of the codec.
//!
//! The central result: running the decoder's machine over the raw encoding
//! of any value yields exactly that value, consuming exactly the encoding.
//! From it follow the two public round-trip laws: a canonical value decodes
//! from its own encoding unchanged, and any successfully decoded value,
//! re-encoded after canonicalization, decodes back to its canonical form.

use vstd::prelude::*;

use crate::bencode::common::BencodeValue;
use crate::bencode::common::SpecValue;
use crate::bencode::common::dec_digits;
use crate::bencode::common::deep_sort;
use crate::bencode::common::deep_sort_seq;
use crate::bencode::common::deep_sort_values;
use crate::bencode::common::dict_model;
use crate::bencode::common::is_canonical;
use crate::bencode::common::lemma_dec_digits_shape;
use crate::bencode::common::lemma_deep_sort_canonical;
use crate::bencode::common::lemma_deep_sort_idempotent;
use crate::bencode::common::lemma_deep_sort_of_canonical;
use crate::bencode::common::lemma_sort_pairs_elements;
use crate::bencode::common::lemma_sort_pairs_sorted;
use crate::bencode::common::list_model;
use crate::bencode::common::sort_pairs;
use crate::bencode::common::value_model;
use crate::bencode::decode::Frame;
use crate::bencode::decode::close_frames;
use crate::bencode::decode::find_byte;
use crate::bencode::decode::int_digits_ok;
use crate::bencode::decode::int_digits_value;
use crate::bencode::decode::int_token;
use crate::bencode::decode::is_item;
use crate::bencode::decode::items_suffix_len;
use crate::bencode::decode::lemma_items_suffix_len_eq;
use crate::bencode::decode::list_of_items;
use crate::bencode::decode::machine;
use crate::bencode::decode::pairs_of_items;
use crate::bencode::decode::push_string_frame;
use crate::bencode::decode::push_value;
use crate::bencode::decode::str_token;
use crate::bencode::encode::enc_int;
use crate::bencode::encode::enc_str;
use crate::bencode::encode::int_literal;
use crate::bencode::encode::raw_encode;
use crate::bencode::encode::raw_encode_pairs;
use crate::bencode::encode::raw_encode_seq;

verus! {

/// Every integer of the value lies in the 128-bit signed range; all values
/// built by this crate's executable types satisfy it.
pub open spec fn value_in_range(v: SpecValue) -> bool
    decreases v,
{
    match v {
        SpecValue::ByteString(_) => true,
        SpecValue::Integer(n) => i128::MIN as int <= n <= i128::MAX as int,
        SpecValue::List(l) => forall|i: int|
            0 <= i < l.len() ==> value_in_range(#[trigger] l[i]),
        SpecValue::Dict(d) => forall|i: int|
            0 <= i < d.len() ==> value_in_range(#[trigger] d[i].1),
    }
}

/// The model of an executable value always lies in range.
pub proof fn lemma_value_model_in_range(v: BencodeValue)
    ensures
        value_in_range(value_model(v)),
    decreases v,
{
    match v {
        BencodeValue::ByteString(_) => {},
        BencodeValue::Integer(_) => {},
        BencodeValue::List(l) => {
            let m = list_model(l@);
            assert forall|i: int| 0 <= i < m.len() implies value_in_range(#[trigger] m[i]) by {
                assert(decreases_to!(v => l));
                assert(decreases_to!(l => l@));
                assert(decreases_to!(l@ => l@[i]));
                lemma_value_model_in_range(l@[i]);
            }
        },
        BencodeValue::Dict(d) => {
            let m = dict_model(d@);
            assert forall|i: int| 0 <= i < m.len() implies value_in_range(#[trigger] m[i].1) by {
                assert(decreases_to!(v => d));
                assert(decreases_to!(d => d@));
                assert(decreases_to!(d@ => d@[i]));
                assert(decreases_to!(d@[i] => d@[i].1));
                lemma_value_model_in_range(d@[i].1);
            }
        },
    }
}

/// Canonicalization does not change which integers a value holds.
pub proof fn lemma_deep_sort_in_range(v: SpecValue)
    requires
        value_in_range(v),
    ensures
        value_in_range(deep_sort(v)),
    decreases v,
{
    match v {
        SpecValue::ByteString(_) => {},
        SpecValue::Integer(_) => {},
        SpecValue::List(l) => {
            let m = deep_sort_seq(l);
            assert forall|i: int| 0 <= i < m.len() implies value_in_range(#[trigger] m[i]) by {
                assert(value_in_range(l[i]));
                lemma_deep_sort_in_range(l[i]);
            }
        },
        SpecValue::Dict(d) => {
            let m = deep_sort_values(d);
            lemma_sort_pairs_sorted(m);
            let r = sort_pairs(m);
            assert forall|k: int| 0 <= k < r.len() implies value_in_range(#[trigger] r[k].1) by {
                lemma_sort_pairs_elements(m, k);
                let j = choose|j: int| 0 <= j < m.len() && r[k] == m[j];
                assert(value_in_range(d[j].1));
                lemma_deep_sort_in_range(d[j].1);
            }
        },
    }
}

pub proof fn lemma_find_byte_exact(s: Seq<u8>, i: int, c: u8, j: int)
    requires
        0 <= i <= j < s.len(),
        s[j] == c,
        forall|k: int| i <= k < j ==> s[k] != c,
    ensures
        find_byte(s, i, c) == Some(j),
    decreases j - i,
{
    if i < j {
        lemma_find_byte_exact(s, i + 1, c, j);
    }
}

/// A byte string's encoding parses back as a string token: same bytes,
/// whole encoding consumed.
pub proof fn lemma_str_token_of_enc(s: Seq<u8>, i: int, b: Seq<u8>)
    requires
        0 <= i,
        i + enc_str(b).len() <= s.len(),
        s.subrange(i, i + enc_str(b).len()) == enc_str(b),
    ensures
        str_token(s, i) == Ok::<(int, Seq<u8>), crate::bencode::common::Error>(
            (enc_str(b).len() as int, b),
        ),
{
    let enc = enc_str(b);
    let digits = dec_digits(b.len());
    let dl = digits.len() as int;
    lemma_dec_digits_shape(b.len());
    assert forall|k: int| 0 <= k < enc.len() implies s[i + k] == enc[k] by {
        assert(s.subrange(i, i + enc.len()) == enc);
        assert(s.subrange(i, i + enc.len())[k] == s[i + k]);
    }
    assert forall|k: int| i <= k < i + dl implies s[k] != 58 by {
        assert(enc[k - i] == digits[k - i]);
        assert(48 <= digits[k - i] <= 57);
    }
    assert(enc[dl] == 58);
    assert(s[i + dl] == 58);
    lemma_find_byte_exact(s, i, 58, i + dl);
    assert(s.subrange(i, i + dl) =~= digits);
    let n = crate::bencode::common::digits_value(digits) as int;
    assert(n == b.len());
    if b.len() == 0 {
        assert(str_token(s, i) == Ok::<(int, Seq<u8>), crate::bencode::common::Error>(
            (dl + 1, Seq::<u8>::empty()),
        ));
        assert(b =~= Seq::<u8>::empty());
        assert(enc.len() == dl + 1);
    } else {
        assert(n <= s.len() - (i + dl) - 1);
        assert forall|q: int| 0 <= q < n implies s.subrange(i + dl + 1, i + dl + 1 + n)[q]
            == b[q] by {
            assert(s[i + dl + 1 + q] == enc[dl + 1 + q]);
            assert(enc[dl + 1 + q] == b[q]);
        }
        assert(s.subrange(i + dl + 1, i + dl + 1 + n) =~= b);
        assert(enc.len() == dl + 1 + n);
    }
}

/// An integer's encoding parses back as an integer token: same value,
/// whole encoding consumed.
pub proof fn lemma_int_token_of_enc(s: Seq<u8>, i: int, n: int)
    requires
        0 <= i,
        i128::MIN as int <= n <= i128::MAX as int,
        i + enc_int(n).len() <= s.len(),
        s.subrange(i, i + enc_int(n).len()) == enc_int(n),
    ensures
        int_token(s, i) == Ok::<(int, int), crate::bencode::common::Error>(
            (enc_int(n).len() as int, n),
        ),
{
    let enc = enc_int(n);
    let lit = int_literal(n);
    let mag: nat = if n < 0 {
        (-n) as nat
    } else {
        n as nat
    };
    lemma_dec_digits_shape(mag);
    assert forall|k: int| 0 <= k < enc.len() implies s[i + k] == enc[k] by {
        assert(s.subrange(i, i + enc.len()) == enc);
        assert(s.subrange(i, i + enc.len())[k] == s[i + k]);
    }
    assert(enc[0] == 105);
    assert(s[i] == 105);
    let ll = lit.len() as int;
    assert forall|k: int| i + 1 <= k < i + 1 + ll implies s[k] != 101 by {
        let q = k - i - 1;
        assert(enc[k - i] == lit[q]);
        if n < 0 {
            if q == 0 {
                assert(lit[0] == 45);
            } else {
                assert(lit[q] == dec_digits(mag)[q - 1]);
                assert(48 <= lit[q] <= 57);
            }
        } else {
            assert(lit[q] == dec_digits(mag)[q]);
            assert(48 <= lit[q] <= 57);
        }
    }
    assert(enc[1 + ll] == 101);
    assert(s[i + 1 + ll] == 101);
    lemma_find_byte_exact(s, i + 1, 101, i + 1 + ll);
    let d = s.subrange(i + 1, i + 1 + ll);
    assert forall|q: int| 0 <= q < ll implies d[q] == lit[q] by {
        assert(s[i + 1 + q] == enc[1 + q]);
        assert(enc[1 + q] == lit[q]);
    }
    assert(d =~= lit);
    if n < 0 {
        assert(lit[0] == 45);
        assert(lit.subrange(1, ll) =~= dec_digits(mag));
        assert(int_digits_ok(lit));
        assert(int_digits_value(lit) == -(crate::bencode::common::digits_value(
            dec_digits(mag),
        ) as int));
        assert(int_digits_value(lit) == n);
    } else {
        assert(lit =~= dec_digits(mag));
        assert(48 <= lit[0] <= 57);
        assert(int_digits_ok(lit));
        assert(int_digits_value(lit) == n);
    }
    assert(enc.len() == 2 + ll);
}

/// The value frames for a run of list elements.
pub open spec fn value_frames(l: Seq<SpecValue>) -> Seq<Frame> {
    Seq::new(l.len(), |i: int| Frame::Value(l[i]))
}

/// The entry frames for a run of dictionary pairs.
pub open spec fn entry_frames(d: Seq<(Seq<u8>, SpecValue)>) -> Seq<Frame> {
    Seq::new(d.len(), |i: int| Frame::DictEntry(d[i].0, d[i].1))
}

/// Running the machine over the encoding of one value, in any state whose
/// top frame can accept a value, pushes exactly that value and continues.
pub proof fn lemma_machine_encode(st: Seq<Frame>, s: Seq<u8>, i: int, w: SpecValue)
    requires
        st.len() >= 1,
        !(st.last() is DictStart),
        !(st.last() is DictEntry),
        !(st.len() == 2 && st[0] is Start && st[1] is Value),
        value_in_range(w),
        0 <= i,
        i + raw_encode(w).len() <= s.len(),
        s.subrange(i, i + raw_encode(w).len()) == raw_encode(w),
    ensures
        machine(st, s, i) == machine(push_value(st, w), s, i + raw_encode(w).len()),
    decreases w, 3int,
{
    let enc = raw_encode(w);
    assert forall|k: int| 0 <= k < enc.len() implies s[i + k] == enc[k] by {
        assert(s.subrange(i, i + enc.len())[k] == s[i + k]);
    }
    match w {
        SpecValue::Integer(n) => {
            lemma_int_token_of_enc(s, i, n);
            assert(s[i] == 105);
            assert(machine(st, s, i) == machine(push_value(st, SpecValue::Integer(n)), s, i
                + enc.len()));
        },
        SpecValue::ByteString(b) => {
            lemma_str_token_of_enc(s, i, b);
            lemma_dec_digits_shape(b.len());
            assert(enc[0] == dec_digits(b.len())[0]);
            assert(48 <= s[i] <= 57);
            assert(push_string_frame(st, b) == push_value(st, w));
            assert(machine(st, s, i) == machine(push_string_frame(st, b), s, i + enc.len()));
        },
        SpecValue::List(l) => {
            lemma_machine_encode_list(st, s, i, l);
        },
        SpecValue::Dict(d) => {
            lemma_machine_encode_dict(st, s, i, d);
        },
    }
}

/// The list case of [`lemma_machine_encode`]: open, elements, close.
proof fn lemma_machine_encode_list(st: Seq<Frame>, s: Seq<u8>, i: int, l: Seq<SpecValue>)
    requires
        st.len() >= 1,
        !(st.last() is DictStart),
        !(st.last() is DictEntry),
        !(st.len() == 2 && st[0] is Start && st[1] is Value),
        value_in_range(SpecValue::List(l)),
        0 <= i,
        i + raw_encode(SpecValue::List(l)).len() <= s.len(),
        s.subrange(i, i + raw_encode(SpecValue::List(l)).len()) == raw_encode(SpecValue::List(l)),
    ensures
        machine(st, s, i) == machine(
            push_value(st, SpecValue::List(l)),
            s,
            i + raw_encode(SpecValue::List(l)).len(),
        ),
    decreases SpecValue::List(l), 2int,
{
    let w = SpecValue::List(l);
    let enc = raw_encode(w);
    assert forall|k: int| 0 <= k < enc.len() implies s[i + k] == enc[k] by {
        assert(s.subrange(i, i + enc.len())[k] == s[i + k]);
    }
    assert(enc[0] == 108);
    assert(s[i] == 108);
    let st1 = st.push(Frame::ListStart);
    assert(machine(st, s, i) == machine(st1, s, i + 1));
    let body = raw_encode_seq(l);
    assert forall|k: int| 0 <= k < body.len() implies s.subrange(i + 1, i + 1 + body.len())[k]
        == body[k] by {
        assert(s[i + 1 + k] == enc[1 + k]);
        assert(enc[1 + k] == body[k]);
    }
    assert(s.subrange(i + 1, i + 1 + body.len()) =~= body);
    assert(decreases_to!(w => l));
    lemma_machine_encode_items(st1, s, i + 1, l);
    let st2 = st1 + value_frames(l);
    let e_pos = i + 1 + body.len();
    assert(enc[enc.len() - 1] == 101);
    assert(s[e_pos] == 101);
    assert(st2.len() >= 2);
    assert(!(st2.len() == 2 && st2[0] is Start && st2[1] is Value)) by {
        if st2.len() == 2 {
            assert(l.len() == 0 && st.len() == 1);
            assert(st2[1] == Frame::ListStart);
        }
    }
    // Closing at the `e`: the value frames become the list.
    assert forall|k: int| st2.len() - l.len() <= k < st2.len() implies is_item(
        #[trigger] st2[k],
    ) by {
        assert(st2[k] == value_frames(l)[k - st1.len()]);
    }
    assert(st2[st2.len() - l.len() - 1] == Frame::ListStart);
    lemma_items_suffix_len_eq(st2, l.len() as int);
    let items = st2.subrange(st2.len() - l.len(), st2.len() as int);
    assert(items =~= value_frames(l));
    let rest = st2.subrange(0, st2.len() - l.len());
    assert(rest =~= st1);
    assert forall|q: int| 0 <= q < items.len() implies (#[trigger] items[q]) is Value by {
        assert(items[q] == value_frames(l)[q]);
    }
    assert(list_of_items(value_frames(l)) =~= l);
    assert(rest.drop_last() =~= st);
    assert(close_frames(st2) == Ok::<Seq<Frame>, crate::bencode::common::Error>(
        push_value(st, SpecValue::List(l)),
    ));
    assert(machine(st2, s, e_pos) == machine(push_value(st, w), s, e_pos + 1));
    assert(e_pos + 1 == i + enc.len());
}

/// The dictionary case of [`lemma_machine_encode`]: open, pairs, close.
proof fn lemma_machine_encode_dict(st: Seq<Frame>, s: Seq<u8>, i: int, d: Seq<(Seq<u8>, SpecValue)>)
    requires
        st.len() >= 1,
        !(st.last() is DictStart),
        !(st.last() is DictEntry),
        !(st.len() == 2 && st[0] is Start && st[1] is Value),
        value_in_range(SpecValue::Dict(d)),
        0 <= i,
        i + raw_encode(SpecValue::Dict(d)).len() <= s.len(),
        s.subrange(i, i + raw_encode(SpecValue::Dict(d)).len()) == raw_encode(SpecValue::Dict(d)),
    ensures
        machine(st, s, i) == machine(
            push_value(st, SpecValue::Dict(d)),
            s,
            i + raw_encode(SpecValue::Dict(d)).len(),
        ),
    decreases SpecValue::Dict(d), 2int,
{
    let w = SpecValue::Dict(d);
    let enc = raw_encode(w);
    assert forall|k: int| 0 <= k < enc.len() implies s[i + k] == enc[k] by {
        assert(s.subrange(i, i + enc.len())[k] == s[i + k]);
    }
    assert(enc[0] == 100);
    assert(s[i] == 100);
    let st1 = st.push(Frame::DictStart);
    assert(machine(st, s, i) == machine(st1, s, i + 1));
    let body = raw_encode_pairs(d);
    assert forall|k: int| 0 <= k < body.len() implies s.subrange(i + 1, i + 1 + body.len())[k]
        == body[k] by {
        assert(s[i + 1 + k] == enc[1 + k]);
        assert(enc[1 + k] == body[k]);
    }
    assert(s.subrange(i + 1, i + 1 + body.len()) =~= body);
    assert(decreases_to!(w => d));
    lemma_machine_encode_pairs(st1, s, i + 1, d);
    let st2 = st1 + entry_frames(d);
    let e_pos = i + 1 + body.len();
    assert(enc[enc.len() - 1] == 101);
    assert(s[e_pos] == 101);
    assert(st2.len() >= 2);
    assert(!(st2.len() == 2 && st2[0] is Start && st2[1] is Value)) by {
        if st2.len() == 2 {
            assert(d.len() == 0 && st.len() == 1);
            assert(st2[1] == Frame::DictStart);
        }
    }
    assert forall|k: int| st2.len() - d.len() <= k < st2.len() implies is_item(
        #[trigger] st2[k],
    ) by {
        assert(st2[k] == entry_frames(d)[k - st1.len()]);
    }
    assert(st2[st2.len() - d.len() - 1] == Frame::DictStart);
    lemma_items_suffix_len_eq(st2, d.len() as int);
    let items = st2.subrange(st2.len() - d.len(), st2.len() as int);
    assert(items =~= entry_frames(d));
    let rest = st2.subrange(0, st2.len() - d.len());
    assert(rest =~= st1);
    assert forall|q: int| 0 <= q < items.len() implies (#[trigger] items[q]) is DictEntry by {
        assert(items[q] == entry_frames(d)[q]);
    }
    assert(pairs_of_items(entry_frames(d)) =~= d);
    assert(rest.drop_last() =~= st);
    assert(close_frames(st2) == Ok::<Seq<Frame>, crate::bencode::common::Error>(
        push_value(st, SpecValue::Dict(d)),
    ));
    assert(machine(st2, s, e_pos) == machine(push_value(st, w), s, e_pos + 1));
    assert(e_pos + 1 == i + enc.len());
}

/// Running the machine over the encodings of a run of list elements pushes
/// one value frame per element.
pub proof fn lemma_machine_encode_items(st: Seq<Frame>, s: Seq<u8>, i: int, elems: Seq<SpecValue>)
    requires
        st.len() >= 2,
        st.last() is ListStart || st.last() is Value,
        !(st.len() == 2 && st[0] is Start && st[1] is Value),
        forall|k: int| 0 <= k < elems.len() ==> value_in_range(#[trigger] elems[k]),
        0 <= i,
        i + raw_encode_seq(elems).len() <= s.len(),
        s.subrange(i, i + raw_encode_seq(elems).len()) == raw_encode_seq(elems),
    ensures
        machine(st, s, i) == machine(st + value_frames(elems), s, i + raw_encode_seq(elems).len()),
    decreases elems, 1int,
{
    if elems.len() == 0 {
        assert(st + value_frames(elems) =~= st);
    } else {
        let e0 = elems[0];
        let rest = elems.subrange(1, elems.len() as int);
        let enc0 = raw_encode(e0);
        assert(raw_encode_seq(elems) == enc0 + raw_encode_seq(rest));
        assert(s.subrange(i, i + enc0.len()) =~= enc0) by {
            assert forall|k: int| 0 <= k < enc0.len() implies s.subrange(i, i + enc0.len())[k]
                == enc0[k] by {
                assert(s.subrange(i, i + raw_encode_seq(elems).len())[k] == s[i + k]);
                assert(raw_encode_seq(elems)[k] == enc0[k]);
            }
        }
        assert(!(st.len() == 2 && st[0] is Start && st[1] is Value));
        lemma_machine_encode(st, s, i, e0);
        assert(push_value(st, e0) == st.push(Frame::Value(e0)));
        let st1 = st.push(Frame::Value(e0));
        assert(s.subrange(i + enc0.len(), i + enc0.len() + raw_encode_seq(rest).len())
            =~= raw_encode_seq(rest)) by {
            assert forall|k: int| 0 <= k < raw_encode_seq(rest).len() implies s.subrange(
                i + enc0.len(),
                i + enc0.len() + raw_encode_seq(rest).len(),
            )[k] == raw_encode_seq(rest)[k] by {
                assert(s.subrange(i, i + raw_encode_seq(elems).len())[enc0.len() + k] == s[i
                    + enc0.len() + k]);
                assert(raw_encode_seq(elems)[enc0.len() + k] == raw_encode_seq(rest)[k]);
            }
        }
        assert(decreases_to!(elems => rest));
        lemma_machine_encode_items(st1, s, i + enc0.len(), rest);
        assert(st1 + value_frames(rest) =~= st + value_frames(elems)) by {
            assert(value_frames(elems).len() == 1 + value_frames(rest).len());
            assert forall|k: int| 0 <= k < (st + value_frames(elems)).len() implies (st1
                + value_frames(rest))[k] == (st + value_frames(elems))[k] by {
                if k < st.len() {
                } else if k == st.len() {
                    assert(value_frames(elems)[0] == Frame::Value(e0));
                } else {
                    assert(value_frames(rest)[k - st.len() - 1] == Frame::Value(
                        rest[k - st.len() - 1],
                    ));
                    assert(value_frames(elems)[k - st.len()] == Frame::Value(
                        elems[k - st.len()],
                    ));
                    assert(rest[k - st.len() - 1] == elems[k - st.len()]);
                }
            }
        }
    }
}

/// Running the machine over the encodings of a run of dictionary pairs
/// pushes one entry frame per pair: first the key as a pending key frame,
/// then the value completing it.
pub proof fn lemma_machine_encode_pairs(
    st: Seq<Frame>,
    s: Seq<u8>,
    i: int,
    pairs: Seq<(Seq<u8>, SpecValue)>,
)
    requires
        st.len() >= 2,
        st.last() is DictStart || st.last() is DictEntry,
        forall|k: int| 0 <= k < pairs.len() ==> value_in_range(#[trigger] pairs[k].1),
        0 <= i,
        i + raw_encode_pairs(pairs).len() <= s.len(),
        s.subrange(i, i + raw_encode_pairs(pairs).len()) == raw_encode_pairs(pairs),
    ensures
        machine(st, s, i) == machine(
            st + entry_frames(pairs),
            s,
            i + raw_encode_pairs(pairs).len(),
        ),
    decreases pairs, 1int,
{
    if pairs.len() == 0 {
        assert(st + entry_frames(pairs) =~= st);
    } else {
        let p0 = pairs[0];
        let rest = pairs.subrange(1, pairs.len() as int);
        let kenc = enc_str(p0.0);
        let venc = raw_encode(p0.1);
        let penc = raw_encode_pairs(pairs);
        assert(penc == kenc + venc + raw_encode_pairs(rest));
        assert forall|k: int| 0 <= k < penc.len() implies s[i + k] == penc[k] by {
            assert(s.subrange(i, i + penc.len())[k] == s[i + k]);
        }
        // The key: a string token in dictionary context becomes a key frame.
        assert(s.subrange(i, i + kenc.len()) =~= kenc);
        lemma_str_token_of_enc(s, i, p0.0);
        lemma_dec_digits_shape(p0.0.len());
        assert(kenc[0] == dec_digits(p0.0.len())[0]);
        assert(48 <= s[i] <= 57);
        assert(!(st.len() == 2 && st[0] is Start && st[1] is Value));
        let st1 = st.push(Frame::DictKey(p0.0));
        assert(push_string_frame(st, p0.0) == st1);
        assert(machine(st, s, i) == machine(st1, s, i + kenc.len()));
        // The value: completes the pending key into an entry.
        assert(s.subrange(i + kenc.len(), i + kenc.len() + venc.len()) =~= venc) by {
            assert forall|k: int| 0 <= k < venc.len() implies s.subrange(
                i + kenc.len(),
                i + kenc.len() + venc.len(),
            )[k] == venc[k] by {
                assert(s[i + kenc.len() + k] == penc[kenc.len() + k]);
                assert(penc[kenc.len() + k] == venc[k]);
            }
        }
        assert(decreases_to!(pairs => pairs[0]));
        assert(decreases_to!(pairs[0] => pairs[0].1));
        lemma_machine_encode(st1, s, i + kenc.len(), p0.1);
        let st2 = st.push(Frame::DictEntry(p0.0, p0.1));
        assert(push_value(st1, p0.1) == st2) by {
            assert(st1.last() is DictKey);
            assert(st1.drop_last() =~= st);
        }
        // The remaining pairs.
        let roff = i + kenc.len() + venc.len();
        assert(s.subrange(roff, roff + raw_encode_pairs(rest).len()) =~= raw_encode_pairs(rest))
            by {
            assert forall|k: int| 0 <= k < raw_encode_pairs(rest).len() implies s.subrange(
                roff,
                roff + raw_encode_pairs(rest).len(),
            )[k] == raw_encode_pairs(rest)[k] by {
                assert(s[roff + k] == penc[kenc.len() + venc.len() + k]);
                assert(penc[kenc.len() + venc.len() + k] == raw_encode_pairs(rest)[k]);
            }
        }
        assert(decreases_to!(pairs => rest));
        lemma_machine_encode_pairs(st2, s, roff, rest);
        assert(st2 + entry_frames(rest) =~= st + entry_frames(pairs)) by {
            assert forall|k: int| 0 <= k < (st + entry_frames(pairs)).len() implies (st2
                + entry_frames(rest))[k] == (st + entry_frames(pairs))[k] by {
                if k < st.len() {
                } else if k == st.len() {
                    assert(entry_frames(pairs)[0] == Frame::DictEntry(p0.0, p0.1));
                } else {
                    assert(entry_frames(rest)[k - st.len() - 1] == Frame::DictEntry(
                        rest[k - st.len() - 1].0,
                        rest[k - st.len() - 1].1,
                    ));
                    assert(entry_frames(pairs)[k - st.len()] == Frame::DictEntry(
                        pairs[k - st.len()].0,
                        pairs[k - st.len()].1,
                    ));
                    assert(rest[k - st.len() - 1] == pairs[k - st.len()]);
                }
            }
        }
    }
}


/// A frame's finished values lie in the 128-bit integer range.
pub open spec fn frame_in_range(f: Frame) -> bool {
    match f {
        Frame::Value(v) => value_in_range(v),
        Frame::DictEntry(_, v) => value_in_range(v),
        _ => true,
    }
}

/// The machine only ever finishes values within the 128-bit integer
/// range: integer tokens are range-checked, and containers only gather
/// finished values.
pub proof fn lemma_machine_in_range(st: Seq<Frame>, s: Seq<u8>, i: int)
    requires
        forall|k: int| 0 <= k < st.len() ==> frame_in_range(#[trigger] st[k]),
        0 <= i,
    ensures
        machine(st, s, i) matches Ok((n, v)) ==> value_in_range(v),
    decreases s.len() - i,
{
    if st.len() == 2 && st[0] is Start && st[1] is Value {
        assert(frame_in_range(st[1]));
    } else if i >= s.len() {
    } else if s[i] == 105 {
        match int_token(s, i) {
            Err(_) => {},
            Ok((n, val)) => {
                if !(n < 1 || i + n > s.len()) {
                    let st2 = push_value(st, SpecValue::Integer(val));
                    lemma_push_value_in_range(st, SpecValue::Integer(val));
                    lemma_machine_in_range(st2, s, i + n);
                }
            },
        }
    } else if s[i] == 108 {
        let st2 = st.push(Frame::ListStart);
        assert forall|k: int| 0 <= k < st2.len() implies frame_in_range(#[trigger] st2[k]) by {
            if k < st.len() {
                assert(st2[k] == st[k]);
            }
        }
        lemma_machine_in_range(st2, s, i + 1);
    } else if s[i] == 100 {
        let st2 = st.push(Frame::DictStart);
        assert forall|k: int| 0 <= k < st2.len() implies frame_in_range(#[trigger] st2[k]) by {
            if k < st.len() {
                assert(st2[k] == st[k]);
            }
        }
        lemma_machine_in_range(st2, s, i + 1);
    } else if s[i] == 101 {
        match close_frames(st) {
            Err(_) => {},
            Ok(st2) => {
                lemma_close_frames_in_range(st);
                lemma_machine_in_range(st2, s, i + 1);
            },
        }
    } else {
        match str_token(s, i) {
            Err(_) => {},
            Ok((n, b)) => {
                if !(n < 1 || i + n > s.len()) {
                    let st2 = push_string_frame(st, b);
                    lemma_push_string_in_range(st, b);
                    lemma_machine_in_range(st2, s, i + n);
                }
            },
        }
    }
}

/// Pushing an in-range value keeps every frame in range.
proof fn lemma_push_value_in_range(st: Seq<Frame>, v: SpecValue)
    requires
        forall|k: int| 0 <= k < st.len() ==> frame_in_range(#[trigger] st[k]),
        value_in_range(v),
    ensures
        forall|k: int|
            0 <= k < push_value(st, v).len() ==> frame_in_range(#[trigger] push_value(st, v)[k]),
{
    let st2 = push_value(st, v);
    assert forall|k: int| 0 <= k < st2.len() implies frame_in_range(#[trigger] st2[k]) by {
        if k < st2.len() - 1 {
            assert(st2[k] == st[k]);
        }
    }
}

/// Pushing a byte string keeps every frame in range.
proof fn lemma_push_string_in_range(st: Seq<Frame>, b: Seq<u8>)
    requires
        forall|k: int| 0 <= k < st.len() ==> frame_in_range(#[trigger] st[k]),
    ensures
        forall|k: int|
            0 <= k < push_string_frame(st, b).len() ==> frame_in_range(
                #[trigger] push_string_frame(st, b)[k],
            ),
{
    let st2 = push_string_frame(st, b);
    assert forall|k: int| 0 <= k < st2.len() implies frame_in_range(#[trigger] st2[k]) by {
        if k < st2.len() - 1 {
            assert(st2[k] == st[k]);
        }
    }
}

/// Closing a container over in-range items yields an in-range container.
proof fn lemma_close_frames_in_range(st: Seq<Frame>)
    requires
        forall|k: int| 0 <= k < st.len() ==> frame_in_range(#[trigger] st[k]),
    ensures
        close_frames(st) matches Ok(st2) ==> forall|k: int|
            0 <= k < st2.len() ==> frame_in_range(#[trigger] st2[k]),
{
    crate::bencode::decode::lemma_items_suffix(st);
    let m = items_suffix_len(st);
    let items = st.subrange(st.len() - m, st.len() as int);
    let rest = st.subrange(0, st.len() - m);
    if rest.len() > 0 && rest.last() is ListStart && (forall|q: int|
        0 <= q < items.len() ==> (#[trigger] items[q]) is Value) {
        let l = list_of_items(items);
        assert forall|q: int| 0 <= q < l.len() implies value_in_range(#[trigger] l[q]) by {
            assert(items[q] == st[st.len() - m + q]);
            assert(frame_in_range(items[q]));
        }
        assert(value_in_range(SpecValue::List(l)));
        assert forall|k: int| 0 <= k < rest.drop_last().len() implies frame_in_range(
            #[trigger] rest.drop_last()[k],
        ) by {
            assert(rest.drop_last()[k] == st[k]);
        }
        lemma_push_value_in_range(rest.drop_last(), SpecValue::List(l));
    } else if rest.len() > 0 && rest.last() is DictStart && (forall|q: int|
        0 <= q < items.len() ==> (#[trigger] items[q]) is DictEntry) {
        let d = pairs_of_items(items);
        assert forall|q: int| 0 <= q < d.len() implies value_in_range(#[trigger] d[q].1) by {
            assert(items[q] == st[st.len() - m + q]);
            assert(frame_in_range(items[q]));
        }
        assert(value_in_range(SpecValue::Dict(d)));
        assert forall|k: int| 0 <= k < rest.drop_last().len() implies frame_in_range(
            #[trigger] rest.drop_last()[k],
        ) by {
            assert(rest.drop_last()[k] == st[k]);
        }
        lemma_push_value_in_range(rest.drop_last(), SpecValue::Dict(d));
    }
}

/// Decoding the raw encoding of a value yields exactly that value, with
/// the whole encoding consumed.
pub proof fn lemma_machine_of_raw_encode(w: SpecValue)
    requires
        value_in_range(w),
    ensures
        machine(seq![Frame::Start], raw_encode(w), 0) == Ok::<
            (int, SpecValue),
            crate::bencode::common::Error,
        >((raw_encode(w).len() as int, w)),
{
    let s = raw_encode(w);
    let st: Seq<Frame> = seq![Frame::Start];
    assert(s.subrange(0, s.len() as int) =~= s);
    lemma_machine_encode(st, s, 0, w);
    let st2 = push_value(st, w);
    assert(st2 =~= seq![Frame::Start, Frame::Value(w)]);
    assert(st2.len() == 2 && st2[0] is Start && st2[1] is Value);
    assert(machine(st2, s, s.len() as int) == Ok::<
        (int, SpecValue),
        crate::bencode::common::Error,
    >((s.len() as int, w)));
}

/// Decoding an encoding.  For every canonical value `v`, the encoder's
/// output for `v` is its raw encoding, and decoding it returns
/// `(len, v)` exactly: `decode(encode(v)) == (len(encode(v)), v)`.
pub proof fn lemma_decode_encode_canonical(v: SpecValue)
    requires
        value_in_range(v),
        is_canonical(v),
    ensures
        raw_encode(deep_sort(v)) == raw_encode(v),
        machine(seq![Frame::Start], raw_encode(v), 0) == Ok::<
            (int, SpecValue),
            crate::bencode::common::Error,
        >((raw_encode(v).len() as int, v)),
{
    lemma_deep_sort_of_canonical(v);
    lemma_machine_of_raw_encode(v);
}

/// Re-encoding after a decode.  If an input decodes to `v`, then encoding
/// `v` after sorting its keys produces a canonical tree, and decoding that
/// encoding yields the sorted `v` back, whole.
pub proof fn lemma_reencode_after_decode(b: Seq<u8>, n: int, v: SpecValue)
    requires
        machine(seq![Frame::Start], b, 0) == Ok::<(int, SpecValue), crate::bencode::common::Error>(
            (n, v),
        ),
    ensures
        value_in_range(v),
        is_canonical(deep_sort(v)),
        machine(seq![Frame::Start], raw_encode(deep_sort(v)), 0) == Ok::<
            (int, SpecValue),
            crate::bencode::common::Error,
        >((raw_encode(deep_sort(v)).len() as int, deep_sort(v))),
        raw_encode(deep_sort(deep_sort(v))) == raw_encode(deep_sort(v)),
{
    lemma_machine_in_range(seq![Frame::Start], b, 0);
    lemma_deep_sort_canonical(v);
    lemma_deep_sort_in_range(v);
    lemma_machine_of_raw_encode(deep_sort(v));
    lemma_deep_sort_idempotent(v);
}

} // verus!
