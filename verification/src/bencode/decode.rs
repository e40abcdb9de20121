//! The bencode decoder.
//!
//! [`decode`] is single-pass and non-recursive: it drives an explicit work
//! stack of partial container frames, so that malformed, deeply nested
//! inputs cannot exhaust native stack space.  Its meaning is given by the
//! spec-level machine [`machine`], which consumes exactly one value and
//! leaves trailing bytes unread.

use vstd::prelude::*;

use crate::bencode::common::BencodeString;
use crate::bencode::common::BencodeValue;
use crate::bencode::common::Error;
use crate::bencode::common::SpecValue;
use crate::bencode::common::all_digits;
use crate::bencode::common::digits_value;
use crate::bencode::common::lemma_digits_value_append;
use crate::bencode::common::lemma_digits_value_append_grows;
use crate::bencode::common::value_model;

verus! {

/// The first position at or after `i` holding byte `c`, if any.
pub open spec fn find_byte(s: Seq<u8>, i: int, c: u8) -> Option<int>
    decreases s.len() - i,
{
    if i < 0 || i >= s.len() {
        None
    } else if s[i] == c {
        Some(i)
    } else {
        find_byte(s, i + 1, c)
    }
}

pub proof fn lemma_find_byte(s: Seq<u8>, i: int, c: u8)
    requires
        0 <= i,
    ensures
        match find_byte(s, i, c) {
            Option::None => forall|k: int| i <= k < s.len() ==> s[k] != c,
            Option::Some(j) => i <= j < s.len() && s[j] == c && forall|k: int|
                i <= k < j ==> s[k] != c,
        },
    decreases s.len() - i,
{
    if i < s.len() && s[i] != c {
        lemma_find_byte(s, i + 1, c);
    }
}

/// The string token at position `i`: a decimal length, a `:` separator and
/// exactly that many raw bytes.  Returns the bytes consumed and the string.
pub open spec fn str_token(s: Seq<u8>, i: int) -> Result<(int, Seq<u8>), Error> {
    match find_byte(s, i, 58) {
        Option::None => Err(Error::InvalidString),
        Option::Some(j) => {
            if !all_digits(s.subrange(i, j)) {
                Err(Error::InvalidString)
            } else {
                let n = digits_value(s.subrange(i, j)) as int;
                if n == 0 {
                    Ok((j - i + 1, Seq::empty()))
                } else if n > s.len() - j - 1 {
                    Err(Error::InvalidString)
                } else {
                    Ok((j - i + 1 + n, s.subrange(j + 1, j + 1 + n)))
                }
            }
        },
    }
}

/// Whether a decimal literal (optional sign, then digits) is well-formed.
pub open spec fn int_digits_ok(d: Seq<u8>) -> bool {
    if d.len() == 0 {
        false
    } else if d[0] == 43 || d[0] == 45 {
        d.len() >= 2 && all_digits(d.subrange(1, d.len() as int))
    } else {
        all_digits(d)
    }
}

/// The value a well-formed decimal literal denotes.
pub open spec fn int_digits_value(d: Seq<u8>) -> int {
    if d.len() > 0 && d[0] == 45 {
        -(digits_value(d.subrange(1, d.len() as int)) as int)
    } else if d.len() > 0 && d[0] == 43 {
        digits_value(d.subrange(1, d.len() as int)) as int
    } else {
        digits_value(d) as int
    }
}

/// The integer token at position `i`: `i<literal>e`.  The literal must be a
/// signed decimal within the 128-bit signed range; leading zeros and `-0`
/// are accepted.  Returns the bytes consumed and the value.
pub open spec fn int_token(s: Seq<u8>, i: int) -> Result<(int, int), Error> {
    if i < 0 || i >= s.len() || s[i] != 105 {
        Err(Error::InvalidInteger)
    } else {
        match find_byte(s, i + 1, 101) {
            Option::None => Err(Error::InvalidInteger),
            Option::Some(j) => {
                if !int_digits_ok(s.subrange(i + 1, j)) {
                    Err(Error::InvalidInteger)
                } else {
                    let v = int_digits_value(s.subrange(i + 1, j));
                    if v < i128::MIN as int || v > i128::MAX as int {
                        Err(Error::InvalidInteger)
                    } else {
                        Ok((j - i + 1, v))
                    }
                }
            },
        }
    }
}

/// Decodes a bencoded byte string from the start of `input`.
///
/// Succeeds exactly on inputs that begin `<digits>:<at least that many
/// bytes>`; a non-digit in the length, a missing `:`, or a length past the
/// end of the input gives `Error::InvalidString`.
#[verifier::loop_isolation(false)]
pub fn decode_string(input: &[u8]) -> (r: Result<(usize, BencodeString), Error>)
    ensures
        match r {
            Ok((n, b)) => str_token(input@, 0) == Ok::<(int, Seq<u8>), Error>((n as int, b@)) && 1
                <= n <= input@.len(),
            Err(e) => str_token(input@, 0) == Err::<(int, Seq<u8>), Error>(e),
        },
{
    proof {
        lemma_find_byte(input@, 0, 58);
    }
    // Find the separator; every byte before it must be a decimal digit.
    let mut j: usize = 0;
    loop
        invariant
            j <= input@.len(),
            forall|k: int| 0 <= k < j ==> input@[k] != 58,
            forall|k: int| 0 <= k < j ==> 48 <= #[trigger] input@[k] <= 57,
        decreases input@.len() - j,
    {
        if j >= input.len() {
            proof {
                assert(find_byte(input@, 0, 58) is None);
            }
            return Err(Error::InvalidString);
        }
        let c = input[j];
        if c == 58 {
            break ;
        }
        if c < 48 || c > 57 {
            proof {
                match find_byte(input@, 0, 58) {
                    Option::None => {},
                    Option::Some(sep) => {
                        assert(sep > j);
                        assert(input@.subrange(0, sep)[j as int] == input@[j as int]);
                        assert(!all_digits(input@.subrange(0, sep)));
                    },
                }
            }
            return Err(Error::InvalidString);
        }
        j = j + 1;
    }
    proof {
        assert(find_byte(input@, 0, 58) == Some(j as int));
        assert(all_digits(input@.subrange(0, j as int)));
    }
    // Parse the length, giving up as soon as it exceeds the input length:
    // the token then certainly overruns the input.
    let ghost digits = input@.subrange(0, j as int);
    let mut n: u128 = 0;
    let mut k: usize = 0;
    while k < j
        invariant
            k <= j,
            n == digits_value(input@.subrange(0, k as int)),
            n <= input@.len(),
        decreases j - k,
    {
        let d = input[k];
        proof {
            assert(input@.subrange(0, k + 1).drop_last() =~= input@.subrange(0, k as int));
        }
        n = n * 10 + ((d - 48) as u128);
        k = k + 1;
        if n > input.len() as u128 {
            proof {
                let pre = input@.subrange(0, k as int);
                let rest = input@.subrange(k as int, j as int);
                assert(pre + rest =~= digits);
                lemma_digits_value_append(pre, rest);
                assert(digits_value(digits) >= n);
            }
            return Err(Error::InvalidString);
        }
    }
    proof {
        assert(input@.subrange(0, j as int) =~= digits);
        assert(n == digits_value(digits));
    }
    if n == 0 {
        return Ok((j + 1, BencodeString(Vec::new())));
    }
    let len: usize = n as usize;
    if len > input.len() - j - 1 {
        return Err(Error::InvalidString);
    }
    let bytes = vstd::slice::slice_subrange(input, j + 1, j + 1 + len);
    let out = vstd::slice::slice_to_vec(bytes);
    Ok((j + 1 + len, BencodeString(out)))
}

/// Decodes a bencoded integer from the start of `input`.
///
/// Succeeds exactly on inputs that begin `i<literal>e` with a signed
/// decimal literal in the 128-bit signed range; leading zeros and `-0` are
/// accepted.  Everything else gives `Error::InvalidInteger`.
#[verifier::loop_isolation(false)]
pub fn decode_integer(input: &[u8]) -> (r: Result<(usize, i128), Error>)
    ensures
        match r {
            Ok((n, v)) => int_token(input@, 0) == Ok::<(int, int), Error>((n as int, v as int))
                && 2 <= n <= input@.len(),
            Err(e) => int_token(input@, 0) == Err::<(int, int), Error>(e),
        },
{
    if input.len() == 0 || input[0] != 105 {
        return Err(Error::InvalidInteger);
    }
    proof {
        lemma_find_byte(input@, 1, 101);
    }
    let mut j: usize = 1;
    loop
        invariant
            1 <= j <= input@.len(),
            forall|k: int| 1 <= k < j ==> input@[k] != 101,
        decreases input@.len() - j,
    {
        if j >= input.len() {
            proof {
                assert(find_byte(input@, 1, 101) is None);
            }
            return Err(Error::InvalidInteger);
        }
        if input[j] == 101 {
            break ;
        }
        j = j + 1;
    }
    proof {
        assert(find_byte(input@, 1, 101) == Some(j as int));
    }
    let ghost d = input@.subrange(1, j as int);
    let start: usize;
    if j > 1 && (input[1] == 43 || input[1] == 45) {
        start = 2;
    } else {
        start = 1;
    }
    if start >= j {
        proof {
            assert(!int_digits_ok(d));
        }
        return Err(Error::InvalidInteger);
    }
    let ghost mag_digits = input@.subrange(start as int, j as int);
    proof {
        if start == 2 {
            assert(mag_digits =~= d.subrange(1, d.len() as int));
        } else {
            assert(mag_digits =~= d);
        }
    }
    // Accumulate the magnitude as a negative number, so that the most
    // negative 128-bit value is still representable.
    let mut acc: i128 = 0;
    let mut k: usize = start;
    while k < j
        invariant
            start <= k <= j,
            forall|m: int| start <= m < k ==> 48 <= #[trigger] input@[m] <= 57,
            acc <= 0,
            -(acc as int) == digits_value(input@.subrange(start as int, k as int)),
        decreases j - k,
    {
        let c = input[k];
        if c < 48 || c > 57 {
            proof {
                assert(48 <= mag_digits[k - start] <= 57 ==> false);
                assert(!int_digits_ok(d));
            }
            return Err(Error::InvalidInteger);
        }
        let dv = (c - 48) as i128;
        proof {
            assert(input@.subrange(start as int, k + 1).drop_last() =~= input@.subrange(
                start as int,
                k as int,
            ));
        }
        if acc < -17014118346046923173168730371588410572i128 {
            proof {
                let pre = input@.subrange(start as int, k as int);
                let rest = input@.subrange(k as int, j as int);
                assert(pre + rest =~= mag_digits);
                lemma_digits_value_append_grows(pre, rest);
                assert(digits_value(mag_digits) > i128::MAX as int + 1);
                lemma_int_token_magnitude_err(input@, start as int, j as int, d);
            }
            return Err(Error::InvalidInteger);
        }
        let acc10 = acc * 10;
        if acc10 < i128::MIN + dv {
            proof {
                let pre = input@.subrange(start as int, k + 1);
                let rest = input@.subrange(k + 1, j as int);
                assert(digits_value(pre) == -(acc10 as int - dv as int));
                assert(pre + rest =~= mag_digits);
                lemma_digits_value_append(pre, rest);
                assert(digits_value(mag_digits) > i128::MAX as int + 1);
                lemma_int_token_magnitude_err(input@, start as int, j as int, d);
            }
            return Err(Error::InvalidInteger);
        }
        acc = acc10 - dv;
        k = k + 1;
    }
    proof {
        assert(input@.subrange(start as int, j as int) =~= mag_digits);
        assert(all_digits(mag_digits));
        assert(int_digits_ok(d));
    }
    let neg = input[1] == 45;
    if neg {
        proof {
            assert(int_digits_value(d) == acc as int);
        }
        Ok((j + 1, acc))
    } else {
        if acc == i128::MIN {
            proof {
                assert(int_digits_value(d) > i128::MAX as int);
            }
            return Err(Error::InvalidInteger);
        }
        proof {
            assert(int_digits_value(d) == -(acc as int));
        }
        Ok((j + 1, -acc))
    }
}

/// A literal whose magnitude exceeds the 128-bit signed range denotes a
/// value out of range for either sign.
proof fn lemma_int_token_magnitude_err(s: Seq<u8>, start: int, j: int, d: Seq<u8>)
    requires
        0 <= start <= j <= s.len(),
        start == 1 || start == 2,
        d == s.subrange(1, j),
        start == 2 ==> d.len() >= 1 && (d[0] == 43 || d[0] == 45),
        start == 1 ==> (j <= 1 || (s[1] != 43 && s[1] != 45)),
        digits_value(s.subrange(start, j)) > i128::MAX as int + 1,
    ensures
        int_digits_ok(d) ==> int_digits_value(d) < i128::MIN as int || int_digits_value(d)
            > i128::MAX as int,
{
    if int_digits_ok(d) {
        if start == 2 {
            assert(d.subrange(1, d.len() as int) =~= s.subrange(2, j));
            let mag = digits_value(s.subrange(2, j)) as int;
            assert(mag > i128::MAX as int + 1);
            if d[0] == 45 {
                assert(int_digits_value(d) == -mag);
                assert(-mag < i128::MIN as int);
            } else {
                assert(int_digits_value(d) == mag);
            }
        } else {
            assert(d =~= s.subrange(1, j));
            assert(d.len() > 0);
            assert(j > 1);
            assert(d[0] == s[1]);
            assert(d[0] != 43 && d[0] != 45);
            assert(int_digits_value(d) == digits_value(s.subrange(1, j)));
        }
    }
}

/// A frame of the decoder's work stack.
pub enum Frame {
    Start,
    Value(SpecValue),
    ListStart,
    DictStart,
    DictKey(Seq<u8>),
    DictEntry(Seq<u8>, SpecValue),
}

/// Whether a frame is a finished item: a value, or a dictionary entry.
pub open spec fn is_item(f: Frame) -> bool {
    f is Value || f is DictEntry
}

/// Pushing a finished value: it completes a pending dictionary key into an
/// entry, or stands as a value frame of its own.
pub open spec fn push_value(st: Seq<Frame>, v: SpecValue) -> Seq<Frame> {
    if st.len() > 0 && st.last() is DictKey {
        st.drop_last().push(Frame::DictEntry(st.last()->DictKey_0, v))
    } else {
        st.push(Frame::Value(v))
    }
}

/// Pushing a decoded byte string: in a dictionary context it starts a new
/// key; after a pending key it completes the entry; otherwise it is a value.
pub open spec fn push_string_frame(st: Seq<Frame>, b: Seq<u8>) -> Seq<Frame> {
    if st.len() > 0 && st.last() is DictKey {
        st.drop_last().push(Frame::DictEntry(st.last()->DictKey_0, SpecValue::ByteString(b)))
    } else if st.len() > 0 && (st.last() is DictStart || st.last() is DictEntry) {
        st.push(Frame::DictKey(b))
    } else {
        st.push(Frame::Value(SpecValue::ByteString(b)))
    }
}

/// The number of finished items on top of the stack.
pub open spec fn items_suffix_len(st: Seq<Frame>) -> int
    decreases st.len(),
{
    if st.len() == 0 {
        0
    } else if is_item(st.last()) {
        1 + items_suffix_len(st.drop_last())
    } else {
        0
    }
}

pub proof fn lemma_items_suffix(st: Seq<Frame>)
    ensures
        0 <= items_suffix_len(st) <= st.len(),
        forall|k: int| st.len() - items_suffix_len(st) <= k < st.len() ==> is_item(#[trigger] st[k]),
        items_suffix_len(st) < st.len() ==> !is_item(st[st.len() - items_suffix_len(st) - 1]),
    decreases st.len(),
{
    let m = items_suffix_len(st);
    if st.len() > 0 && is_item(st.last()) {
        let st0 = st.drop_last();
        lemma_items_suffix(st0);
        assert(m == 1 + items_suffix_len(st0));
        assert forall|k: int| st.len() - m <= k < st.len() implies is_item(#[trigger] st[k]) by {
            if k < st.len() - 1 {
                assert(st[k] == st0[k]);
                assert(is_item(st0[k]));
            }
        }
        if m < st.len() {
            assert(st[st.len() - m - 1] == st0[st0.len() - items_suffix_len(st0) - 1]);
        }
    }
}

/// A suffix of items bounded below by a non-item determines the suffix length.
pub proof fn lemma_items_suffix_len_eq(st: Seq<Frame>, m: int)
    requires
        0 <= m <= st.len(),
        forall|k: int| st.len() - m <= k < st.len() ==> is_item(#[trigger] st[k]),
        m < st.len() ==> !is_item(st[st.len() - m - 1]),
    ensures
        items_suffix_len(st) == m,
    decreases st.len(),
{
    if m == 0 {
        if st.len() > 0 {
            assert(!is_item(st.last()));
        }
    } else {
        assert(is_item(st.last()));
        let st0 = st.drop_last();
        assert(forall|k: int| st0.len() - (m - 1) <= k < st0.len() ==> is_item(#[trigger] st0[k]));
        lemma_items_suffix_len_eq(st0, m - 1);
    }
}

/// The values held by a run of value frames, in stack order.
pub open spec fn list_of_items(items: Seq<Frame>) -> Seq<SpecValue> {
    Seq::new(items.len(), |i: int| items[i]->Value_0)
}

/// The pairs held by a run of entry frames, in stack order.
pub open spec fn pairs_of_items(items: Seq<Frame>) -> Seq<(Seq<u8>, SpecValue)> {
    Seq::new(items.len(), |i: int| (items[i]->DictEntry_0, items[i]->DictEntry_1))
}

/// Closing a container at an `e` byte: the items on top of the stack become
/// a list or a dictionary, depending on the opener below them.  A dangling
/// key, a bare `e`, or a key that is not a byte string leaves the stack in
/// a shape this rejects as `Error::InvalidValue`.
pub open spec fn close_frames(st: Seq<Frame>) -> Result<Seq<Frame>, Error> {
    let k = items_suffix_len(st);
    let items = st.subrange(st.len() - k, st.len() as int);
    let rest = st.subrange(0, st.len() - k);
    if rest.len() == 0 {
        Err(Error::InvalidValue)
    } else if rest.last() is ListStart {
        if forall|i: int| 0 <= i < items.len() ==> (#[trigger] items[i]) is Value {
            Ok(push_value(rest.drop_last(), SpecValue::List(list_of_items(items))))
        } else {
            Err(Error::InvalidValue)
        }
    } else if rest.last() is DictStart {
        if forall|i: int| 0 <= i < items.len() ==> (#[trigger] items[i]) is DictEntry {
            Ok(push_value(rest.drop_last(), SpecValue::Dict(pairs_of_items(items))))
        } else {
            Err(Error::InvalidValue)
        }
    } else {
        Err(Error::InvalidValue)
    }
}

/// The decoder's meaning: a small-step machine over the input bytes from
/// position `i` with work stack `st`.  It stops as soon as a single
/// top-level value is complete, reporting the position reached; trailing
/// bytes are not consumed.  Exhausting the input first, or closing a
/// container that is not open, is `Error::InvalidValue`.
pub open spec fn machine(st: Seq<Frame>, s: Seq<u8>, i: int) -> Result<(int, SpecValue), Error>
    decreases s.len() - i,
{
    if st.len() == 2 && st[0] is Start && st[1] is Value {
        Ok((i, st[1]->Value_0))
    } else if i < 0 || i >= s.len() {
        Err(Error::InvalidValue)
    } else if s[i] == 105 {
        match int_token(s, i) {
            Err(e) => Err(e),
            Ok((n, v)) => if n < 1 || i + n > s.len() {
                Err(Error::InvalidValue)
            } else {
                machine(push_value(st, SpecValue::Integer(v)), s, i + n)
            },
        }
    } else if s[i] == 108 {
        machine(st.push(Frame::ListStart), s, i + 1)
    } else if s[i] == 100 {
        machine(st.push(Frame::DictStart), s, i + 1)
    } else if s[i] == 101 {
        match close_frames(st) {
            Err(e) => Err(e),
            Ok(st2) => machine(st2, s, i + 1),
        }
    } else {
        match str_token(s, i) {
            Err(e) => Err(e),
            Ok((n, b)) => if n < 1 || i + n > s.len() {
                Err(Error::InvalidValue)
            } else {
                machine(push_string_frame(st, b), s, i + n)
            },
        }
    }
}

pub proof fn lemma_find_byte_shift(s: Seq<u8>, i: int, c: u8)
    requires
        0 <= i <= s.len(),
    ensures
        ({
            let sub = s.subrange(i, s.len() as int);
            match find_byte(s, i, c) {
                Option::None => find_byte(sub, 0, c) is None,
                Option::Some(j) => find_byte(sub, 0, c) == Some(j - i),
            }
        }),
{
    let sub = s.subrange(i, s.len() as int);
    lemma_find_byte(s, i, c);
    lemma_find_byte(sub, 0, c);
    match find_byte(s, i, c) {
        Option::None => {
            match find_byte(sub, 0, c) {
                Option::None => {},
                Option::Some(j2) => {
                    assert(s[i + j2] == c);
                    assert(false);
                },
            }
        },
        Option::Some(j) => {
            assert(sub[j - i] == c);
            match find_byte(sub, 0, c) {
                Option::None => {
                    assert(false);
                },
                Option::Some(j2) => {
                    if j2 < j - i {
                        assert(s[i + j2] == c);
                        assert(false);
                    }
                    if j2 > j - i {
                        assert(sub[j - i] != c);
                        assert(false);
                    }
                },
            }
        },
    }
}

/// A string token is the same wherever the remaining input begins.
pub proof fn lemma_str_token_shift(s: Seq<u8>, i: int)
    requires
        0 <= i <= s.len(),
    ensures
        str_token(s, i) == str_token(s.subrange(i, s.len() as int), 0),
{
    let sub = s.subrange(i, s.len() as int);
    lemma_find_byte_shift(s, i, 58);
    match find_byte(s, i, 58) {
        Option::None => {},
        Option::Some(j) => {
            lemma_find_byte(s, i, 58);
            assert(s.subrange(i, j) =~= sub.subrange(0, j - i));
            if all_digits(s.subrange(i, j)) {
                let n = digits_value(s.subrange(i, j)) as int;
                if n != 0 && n <= s.len() - j - 1 {
                    assert(s.subrange(j + 1, j + 1 + n) =~= sub.subrange(j - i + 1, j - i + 1 + n));
                }
            }
        },
    }
}

/// An integer token is the same wherever the remaining input begins.
pub proof fn lemma_int_token_shift(s: Seq<u8>, i: int)
    requires
        0 <= i <= s.len(),
    ensures
        int_token(s, i) == int_token(s.subrange(i, s.len() as int), 0),
{
    let sub = s.subrange(i, s.len() as int);
    if i < s.len() && s[i] == 105 {
        lemma_find_byte_shift(s, i + 1, 101);
        let subtail = s.subrange(i + 1, s.len() as int);
        lemma_find_byte(s, i + 1, 101);
        lemma_find_byte(sub, 1, 101);
        assert forall|j2: int| 1 <= j2 < sub.len() implies sub[j2] == s[i + j2] by {}
        match find_byte(s, i + 1, 101) {
            Option::None => {
                match find_byte(sub, 1, 101) {
                    Option::None => {},
                    Option::Some(j2) => {
                        assert(s[i + j2] == 101);
                        assert(false);
                    },
                }
            },
            Option::Some(j) => {
                match find_byte(sub, 1, 101) {
                    Option::None => {
                        assert(sub[j - i] == 101);
                        assert(false);
                    },
                    Option::Some(j2) => {
                        if j2 < j - i {
                            assert(s[i + j2] == 101);
                            assert(false);
                        }
                        if j2 > j - i {
                            assert(sub[j - i] == 101);
                            assert(false);
                        }
                        assert(s.subrange(i + 1, j) =~= sub.subrange(1, j - i));
                    },
                }
            },
        }
    }
}

/// A frame of the executable work stack, mirroring [`Frame`].
enum DecodeState {
    Start,
    Value(BencodeValue),
    ListStart,
    DictStart,
    DictKey(BencodeString),
    DictEntry(BencodeString, BencodeValue),
}

spec fn state_model(f: DecodeState) -> Frame {
    match f {
        DecodeState::Start => Frame::Start,
        DecodeState::Value(v) => Frame::Value(value_model(v)),
        DecodeState::ListStart => Frame::ListStart,
        DecodeState::DictStart => Frame::DictStart,
        DecodeState::DictKey(k) => Frame::DictKey(k@),
        DecodeState::DictEntry(k, v) => Frame::DictEntry(k@, value_model(v)),
    }
}

spec fn stack_model(st: Seq<DecodeState>) -> Seq<Frame> {
    Seq::new(st.len(), |i: int| state_model(st[i]))
}

/// Pushes a finished value onto the work stack, completing a pending
/// dictionary key if one is on top.
fn push_value_state(stack: &mut Vec<DecodeState>, v: BencodeValue)
    requires
        old(stack)@.len() >= 1,
        state_model(old(stack)@[0]) is Start,
    ensures
        stack_model(final(stack)@) == push_value(stack_model(old(stack)@), value_model(v)),
        final(stack)@.len() >= 1,
        state_model(final(stack)@[0]) is Start,
{
    let ghost st0 = stack_model(old(stack)@);
    let top = stack.pop().unwrap();
    match top {
        DecodeState::DictKey(k) => {
            stack.push(DecodeState::DictEntry(k, v));
            proof {
                assert(stack_model(stack@) =~= push_value(st0, value_model(v)));
            }
        },
        _ => {
            stack.push(top);
            stack.push(DecodeState::Value(v));
            proof {
                assert(stack@.len() == old(stack)@.len() + 1);
                assert(forall|k: int|
                    0 <= k < old(stack)@.len() ==> stack@[k] == old(stack)@[k]);
                assert(stack_model(stack@) =~= push_value(st0, value_model(v)));
            }
        },
    }
}

/// Pushes a decoded byte string onto the work stack: a key in dictionary
/// context, the value of a pending key, or a plain value.
fn push_string_state(stack: &mut Vec<DecodeState>, b: BencodeString)
    requires
        old(stack)@.len() >= 1,
        state_model(old(stack)@[0]) is Start,
    ensures
        stack_model(final(stack)@) == push_string_frame(stack_model(old(stack)@), b@),
        final(stack)@.len() >= 1,
        state_model(final(stack)@[0]) is Start,
{
    let ghost st0 = stack_model(old(stack)@);
    let top = stack.pop().unwrap();
    match top {
        DecodeState::DictKey(k) => {
            stack.push(DecodeState::DictEntry(k, BencodeValue::ByteString(b)));
            proof {
                assert(stack_model(stack@) =~= push_string_frame(st0, b@));
            }
        },
        DecodeState::DictStart => {
            stack.push(DecodeState::DictStart);
            stack.push(DecodeState::DictKey(b));
            proof {
                assert(forall|k: int|
                    0 <= k < old(stack)@.len() ==> stack@[k] == old(stack)@[k]);
                assert(stack_model(stack@) =~= push_string_frame(st0, b@));
            }
        },
        DecodeState::DictEntry(k, v) => {
            stack.push(DecodeState::DictEntry(k, v));
            stack.push(DecodeState::DictKey(b));
            proof {
                assert(stack@[old(stack)@.len() - 1] == old(stack)@[old(stack)@.len() - 1]);
                assert(forall|k: int|
                    0 <= k < old(stack)@.len() ==> stack@[k] == old(stack)@[k]);
                assert(stack_model(stack@) =~= push_string_frame(st0, b@));
            }
        },
        _ => {
            stack.push(top);
            stack.push(DecodeState::Value(BencodeValue::ByteString(b)));
            proof {
                assert(forall|k: int|
                    0 <= k < old(stack)@.len() ==> stack@[k] == old(stack)@[k]);
                assert(stack_model(stack@) =~= push_string_frame(st0, b@));
            }
        },
    }
}

/// Decodes one bencoded value from the start of `input`.
///
/// On success, the value and the number of bytes it occupied are returned;
/// bytes past that one value are not consumed.  The decoder drives an
/// explicit work stack, so its native stack use does not grow with the
/// input's nesting depth.  Its exact meaning, including every error case,
/// is the spec machine [`machine`] started on an empty stack.
#[verifier::loop_isolation(false)]
pub fn decode(input: &[u8]) -> (r: Result<(usize, BencodeValue), Error>)
    ensures
        match r {
            Ok((n, v)) => machine(seq![Frame::Start], input@, 0) == Ok::<(int, SpecValue), Error>(
                (n as int, v@),
            ) && n <= input@.len(),
            Err(e) => machine(seq![Frame::Start], input@, 0) == Err::<(int, SpecValue), Error>(e),
        },
{
    let ghost target = machine(seq![Frame::Start], input@, 0);
    let mut stack: Vec<DecodeState> = Vec::new();
    stack.push(DecodeState::Start);
    let mut cursor: usize = 0;
    proof {
        assert(stack_model(stack@) =~= seq![Frame::Start]);
    }
    loop
        invariant
            cursor <= input@.len(),
            stack@.len() >= 1,
            state_model(stack@[0]) is Start,
            machine(stack_model(stack@), input@, cursor as int) == target,
        decreases input@.len() - cursor,
    {
        let ghost st = stack_model(stack@);
        let ghost stack0 = stack@;
        // A single finished top-level value ends the decode here; trailing
        // bytes stay unread.
        if stack.len() == 2 {
            let top = stack.pop().unwrap();
            match top {
                DecodeState::Value(v) => {
                    proof {
                        assert(st.len() == 2 && st[0] is Start && st[1] is Value);
                        assert(st[1]->Value_0 == value_model(v));
                        assert(machine(st, input@, cursor as int) == Ok::<(int, SpecValue), Error>(
                            (cursor as int, value_model(v)),
                        ));
                    }
                    return Ok((cursor, v));
                },
                _ => {
                    stack.push(top);
                    proof {
                        assert(stack@ =~= stack0);
                        assert(st[1] == state_model(top));
                    }
                },
            }
        }
        proof {
            assert(!(st.len() == 2 && st[0] is Start && st[1] is Value));
        }
        if cursor >= input.len() {
            proof {
                assert(machine(st, input@, cursor as int) == Err::<(int, SpecValue), Error>(
                    Error::InvalidValue,
                ));
            }
            return Err(Error::InvalidValue);
        }
        let c = input[cursor];
        if c == 105 {
            let rem = vstd::slice::slice_subrange(input, cursor, input.len());
            proof {
                lemma_int_token_shift(input@, cursor as int);
            }
            match decode_integer(rem) {
                Err(e) => {
                    return Err(e);
                },
                Ok((n, v)) => {
                    push_value_state(&mut stack, BencodeValue::Integer(v));
                    cursor = cursor + n;
                },
            }
        } else if c == 108 {
            stack.push(DecodeState::ListStart);
            cursor = cursor + 1;
            proof {
                assert(stack_model(stack@) =~= st.push(Frame::ListStart));
            }
        } else if c == 100 {
            stack.push(DecodeState::DictStart);
            cursor = cursor + 1;
            proof {
                assert(stack_model(stack@) =~= st.push(Frame::DictStart));
            }
        } else if c == 101 {
            cursor = cursor + 1;
            proof {
                lemma_items_suffix(st);
            }
            // Gather the finished items on top of the stack.
            let mut items: Vec<DecodeState> = Vec::new();
            let mut at_boundary = false;
            while !at_boundary && stack.len() > 0
                invariant
                    stack@.len() + items@.len() == st.len(),
                    stack_model(stack@) =~= st.subrange(0, stack@.len() as int),
                    forall|k: int|
                        0 <= k < items@.len() ==> state_model(#[trigger] items@[k]) == st[st.len()
                            - 1 - k] && is_item(st[st.len() - 1 - k]),
                    at_boundary ==> stack@.len() >= 1 && !is_item(st[stack@.len() - 1]),
                decreases stack@.len() + 1 - (if at_boundary { 1int } else { 0int }),
            {
                let ghost pre = stack@;
                let top = stack.pop().unwrap();
                let ghost before = stack@.len() as int;
                let keep = matches!(top, DecodeState::Value(_) | DecodeState::DictEntry(_, _));
                if keep {
                    items.push(top);
                    proof {
                        assert(top == pre[before]);
                        assert(state_model(top) == stack_model(pre)[before]);
                        assert(stack_model(pre)[before] == st.subrange(0, pre.len() as int)[before]);
                        assert(state_model(top) == st[before]);
                        assert(is_item(st[before]));
                        assert(stack_model(stack@) =~= st.subrange(0, stack@.len() as int));
                    }
                } else {
                    stack.push(top);
                    at_boundary = true;
                    proof {
                        assert(stack@ =~= pre);
                        assert(stack_model(stack@) =~= st.subrange(0, stack@.len() as int));
                        assert(top == pre[before]);
                        assert(state_model(top) == stack_model(pre)[before]);
                        assert(stack_model(pre)[before] == st.subrange(0, pre.len() as int)[before]);
                        assert(state_model(top) == st[stack@.len() - 1]);
                        assert(!is_item(st[stack@.len() - 1]));
                    }
                }
            }
            proof {
                if stack@.len() == 0 {
                    let kx = st.len() - 1;
                    assert(state_model(items@[kx]) == st[st.len() - 1 - kx]);
                    assert(is_item(st[0]));
                    assert(st[0] == state_model(stack0[0]));
                    assert(false);
                }
            }
            if stack.len() == 0 {
                // Unreachable: the bottom frame is never an item.
                return Err(Error::InvalidValue);
            }
            let ghost kk = items@.len() as int;
            proof {
                assert forall|k: int| st.len() - kk <= k < st.len() implies is_item(
                    #[trigger] st[k],
                ) by {
                    let q = st.len() - 1 - k;
                    assert(state_model(items@[q]) == st[st.len() - 1 - q]);
                }
                if kk < st.len() {
                    assert(stack_model(stack@)[stack@.len() - 1] == st[st.len() - kk - 1]);
                    assert(at_boundary);
                    assert(!is_item(st[st.len() - kk - 1]));
                }
                lemma_items_suffix_len_eq(st, kk);
            }
            let ghost spec_items = st.subrange(st.len() - kk, st.len() as int);
            let ghost rest = st.subrange(0, st.len() - kk);
            proof {
                assert(rest =~= stack_model(stack@));
            }
            let ghost pre_open = stack@;
            let opener = stack.pop().unwrap();
            proof {
                assert(opener == pre_open[pre_open.len() - 1]);
                assert(state_model(opener) == stack_model(pre_open)[pre_open.len() - 1]);
                assert(state_model(opener) == rest.last());
                assert(rest[0] == st[0]);
                if rest.len() >= 2 {
                    assert(stack_model(stack@) =~= rest.drop_last());
                    assert(stack_model(stack@)[0] == rest[0]);
                }
            }
            match opener {
                DecodeState::ListStart => {
                    let mut list: Vec<BencodeValue> = Vec::new();
                    while items.len() > 0
                        invariant
                            list@.len() + items@.len() == kk,
                            forall|k: int|
                                0 <= k < items@.len() ==> state_model(#[trigger] items@[k])
                                    == spec_items[kk - 1 - k] && is_item(spec_items[kk - 1 - k]),
                            forall|k: int|
                                0 <= k < list@.len() ==> spec_items[k] is Value && value_model(
                                    #[trigger] list@[k],
                                ) == spec_items[k]->Value_0,
                        decreases items@.len(),
                    {
                        let f = items.pop().unwrap();
                        match f {
                            DecodeState::Value(v) => {
                                list.push(v);
                            },
                            _ => {
                                proof {
                                    assert(spec_items[list@.len() as int] is DictEntry);
                                    assert(close_frames(st) == Err::<Seq<Frame>, Error>(
                                        Error::InvalidValue,
                                    ));
                                }
                                return Err(Error::InvalidValue);
                            },
                        }
                    }
                    proof {
                        if rest.len() == 1 {
                            assert(rest.last() == rest[0]);
                            assert(false);
                        }
                        assert(list@.len() == spec_items.len());
                        assert forall|i: int|
                            0 <= i < spec_items.len() implies (#[trigger] spec_items[i]) is Value by {
                            assert(value_model(list@[i]) == spec_items[i]->Value_0);
                        }
                        assert forall|q: int| 0 <= q < spec_items.len() implies list_of_items(
                            spec_items,
                        )[q] == crate::bencode::common::list_model(list@)[q] by {
                            assert(value_model(list@[q]) == spec_items[q]->Value_0);
                        }
                        assert(list_of_items(spec_items) =~= crate::bencode::common::list_model(
                            list@,
                        ));
                        assert(close_frames(st) == Ok::<Seq<Frame>, Error>(
                            push_value(rest.drop_last(), SpecValue::List(list_of_items(spec_items))),
                        ));
                        assert(stack_model(stack@) =~= rest.drop_last());
                    }
                    push_value_state(&mut stack, BencodeValue::List(list));
                },
                DecodeState::DictStart => {
                    let mut dict: Vec<(BencodeString, BencodeValue)> = Vec::new();
                    while items.len() > 0
                        invariant
                            dict@.len() + items@.len() == kk,
                            forall|k: int|
                                0 <= k < items@.len() ==> state_model(#[trigger] items@[k])
                                    == spec_items[kk - 1 - k] && is_item(spec_items[kk - 1 - k]),
                            forall|k: int|
                                0 <= k < dict@.len() ==> spec_items[k] is DictEntry && (
                                #[trigger] dict@[k]).0@ == spec_items[k]->DictEntry_0
                                    && value_model(dict@[k].1) == spec_items[k]->DictEntry_1,
                        decreases items@.len(),
                    {
                        let f = items.pop().unwrap();
                        match f {
                            DecodeState::DictEntry(k, v) => {
                                dict.push((k, v));
                            },
                            _ => {
                                proof {
                                    assert(spec_items[dict@.len() as int] is Value);
                                    assert(close_frames(st) == Err::<Seq<Frame>, Error>(
                                        Error::InvalidValue,
                                    ));
                                }
                                return Err(Error::InvalidValue);
                            },
                        }
                    }
                    proof {
                        if rest.len() == 1 {
                            assert(rest.last() == rest[0]);
                            assert(false);
                        }
                        assert(dict@.len() == spec_items.len());
                        assert forall|i: int|
                            0 <= i < spec_items.len() implies (#[trigger] spec_items[i]) is DictEntry by {
                            assert(value_model(dict@[i].1) == spec_items[i]->DictEntry_1);
                        }
                        assert forall|q: int| 0 <= q < spec_items.len() implies pairs_of_items(
                            spec_items,
                        )[q] == crate::bencode::common::dict_model(dict@)[q] by {
                            assert((dict@[q]).0@ == spec_items[q]->DictEntry_0);
                            assert(value_model(dict@[q].1) == spec_items[q]->DictEntry_1);
                        }
                        assert(pairs_of_items(spec_items) =~= crate::bencode::common::dict_model(
                            dict@,
                        ));
                        assert(close_frames(st) == Ok::<Seq<Frame>, Error>(
                            push_value(
                                rest.drop_last(),
                                SpecValue::Dict(pairs_of_items(spec_items)),
                            ),
                        ));
                        assert(stack_model(stack@) =~= rest.drop_last());
                    }
                    push_value_state(&mut stack, BencodeValue::Dict(dict));
                },
                _ => {
                    proof {
                        assert(rest.last() == state_model(opener));
                        assert(close_frames(st) == Err::<Seq<Frame>, Error>(Error::InvalidValue));
                    }
                    return Err(Error::InvalidValue);
                },
            }
        } else {
            let rem = vstd::slice::slice_subrange(input, cursor, input.len());
            proof {
                lemma_str_token_shift(input@, cursor as int);
            }
            match decode_string(rem) {
                Err(e) => {
                    return Err(e);
                },
                Ok((n, b)) => {
                    push_string_state(&mut stack, b);
                    cursor = cursor + n;
                },
            }
        }
    }
}

} // verus!
