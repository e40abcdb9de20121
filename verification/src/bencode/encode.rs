//! The bencode encoder.
//!
//! [`encode`] is total and canonical: every dictionary's keys are sorted
//! ascending before emission, integers are written in their minimal decimal
//! form, and byte strings are written with an exact decimal length prefix.

use vstd::prelude::*;

use crate::bencode::common::BencodeString;
use crate::bencode::common::BencodeValue;
use crate::bencode::common::SpecValue;
use crate::bencode::common::dec_digits;
use crate::bencode::common::deep_sort;
use crate::bencode::common::value_model;

verus! {

/// The decimal literal of an integer: a minus sign for negative numbers,
/// then the digits of the magnitude with no leading zero.
pub open spec fn int_literal(n: int) -> Seq<u8> {
    if n < 0 {
        seq![45u8] + dec_digits((-n) as nat)
    } else {
        dec_digits(n as nat)
    }
}

/// The encoding of an integer: `i<literal>e`.
pub open spec fn enc_int(n: int) -> Seq<u8> {
    seq![105u8] + int_literal(n) + seq![101u8]
}

/// The encoding of a byte string: `<decimal length>:<bytes>`.
pub open spec fn enc_str(b: Seq<u8>) -> Seq<u8> {
    dec_digits(b.len()) + seq![58u8] + b
}

/// The raw encoding of a value tree, dictionaries emitted in the key order
/// they hold.  The encoder itself always emits [`deep_sort`]ed trees.
pub open spec fn raw_encode(v: SpecValue) -> Seq<u8>
    decreases v,
{
    match v {
        SpecValue::ByteString(b) => enc_str(b),
        SpecValue::Integer(n) => enc_int(n),
        SpecValue::List(l) => seq![108u8] + raw_encode_seq(l) + seq![101u8],
        SpecValue::Dict(d) => seq![100u8] + raw_encode_pairs(d) + seq![101u8],
    }
}

/// The concatenated encodings of a sequence of values, no separator.
pub open spec fn raw_encode_seq(l: Seq<SpecValue>) -> Seq<u8>
    decreases l,
{
    if l.len() == 0 {
        Seq::empty()
    } else {
        raw_encode(l[0]) + raw_encode_seq(l.subrange(1, l.len() as int))
    }
}

/// The concatenated encodings of dictionary pairs: each key as a byte
/// string, then its value, no separator.
pub open spec fn raw_encode_pairs(d: Seq<(Seq<u8>, SpecValue)>) -> Seq<u8>
    decreases d,
{
    if d.len() == 0 {
        Seq::empty()
    } else {
        enc_str(d[0].0) + raw_encode(d[0].1) + raw_encode_pairs(d.subrange(1, d.len() as int))
    }
}

pub proof fn lemma_raw_encode_seq_push(s: Seq<SpecValue>, x: SpecValue)
    ensures
        raw_encode_seq(s.push(x)) == raw_encode_seq(s) + raw_encode(x),
    decreases s.len(),
{
    let t = s.push(x);
    if s.len() == 0 {
        assert(t[0] == x);
        assert(t.subrange(1, t.len() as int) =~= Seq::<SpecValue>::empty());
        assert(raw_encode_seq(Seq::<SpecValue>::empty()) == Seq::<u8>::empty());
        assert(raw_encode_seq(t) == raw_encode(x) + raw_encode_seq(t.subrange(1, t.len() as int)));
        assert(raw_encode_seq(t) =~= raw_encode_seq(s) + raw_encode(x));
    } else {
        assert(t[0] == s[0]);
        assert(t.subrange(1, t.len() as int) =~= s.subrange(1, s.len() as int).push(x));
        lemma_raw_encode_seq_push(s.subrange(1, s.len() as int), x);
        assert(raw_encode_seq(t) =~= raw_encode_seq(s) + raw_encode(x));
    }
}

pub proof fn lemma_raw_encode_pairs_push(s: Seq<(Seq<u8>, SpecValue)>, x: (Seq<u8>, SpecValue))
    ensures
        raw_encode_pairs(s.push(x)) == raw_encode_pairs(s) + enc_str(x.0) + raw_encode(x.1),
    decreases s.len(),
{
    let t = s.push(x);
    if s.len() == 0 {
        assert(t[0] == x);
        assert(t.subrange(1, t.len() as int) =~= Seq::<(Seq<u8>, SpecValue)>::empty());
        assert(raw_encode_pairs(Seq::<(Seq<u8>, SpecValue)>::empty()) == Seq::<u8>::empty());
        assert(raw_encode_pairs(t) == enc_str(x.0) + raw_encode(x.1) + raw_encode_pairs(
        t.subrange(1, t.len() as int)));
        assert(raw_encode_pairs(t) =~= raw_encode_pairs(s) + enc_str(x.0) + raw_encode(x.1));
    } else {
        assert(t[0] == s[0]);
        assert(t.subrange(1, t.len() as int) =~= s.subrange(1, s.len() as int).push(x));
        lemma_raw_encode_pairs_push(s.subrange(1, s.len() as int), x);
        assert(raw_encode_pairs(t) =~= raw_encode_pairs(s) + enc_str(x.0) + raw_encode(x.1));
    }
}

/// Appends the decimal digits of `n`, most significant first.
#[verifier::loop_isolation(false)]
fn push_decimal(n: u128, out: &mut Vec<u8>)
    ensures
        final(out)@ == old(out)@ + dec_digits(n as nat),
    decreases n,
{
    if n < 10 {
        out.push(48 + n as u8);
        proof {
            assert(final(out)@ =~= old(out)@ + dec_digits(n as nat));
        }
    } else {
        push_decimal(n / 10, out);
        out.push(48 + (n % 10) as u8);
        proof {
            assert(dec_digits(n as nat) == dec_digits(n as nat / 10).push(
                (48 + n as nat % 10) as u8,
            ));
            assert(final(out)@ =~= old(out)@ + dec_digits(n as nat));
        }
    }
}

/// Writes a byte string in bencode form (`<length>:<bytes>`) to the output.
#[verifier::loop_isolation(false)]
pub fn write_string(input: &BencodeString, output: &mut Vec<u8>)
    ensures
        final(output)@ == old(output)@ + enc_str(input@),
{
    push_decimal(input.0.len() as u128, output);
    output.push(58);
    let mut i: usize = 0;
    let ghost base = output@;
    while i < input.0.len()
        invariant
            i <= input.0.len(),
            output@ == base + input@.subrange(0, i as int),
        decreases input.0.len() - i,
    {
        output.push(input.0[i]);
        proof {
            assert(output@ =~= base + input@.subrange(0, i + 1));
        }
        i = i + 1;
    }
    proof {
        assert(input@.subrange(0, input@.len() as int) =~= input@);
        assert(final(output)@ =~= old(output)@ + enc_str(input@));
    }
}

/// Writes an integer in bencode form (`i<literal>e`) to the output; the
/// literal is minimal: no leading zeros, `-` only for negative numbers.
pub fn write_integer(input: i128, output: &mut Vec<u8>)
    ensures
        final(output)@ == old(output)@ + enc_int(input as int),
{
    output.push(105);
    let mag: u128;
    if input >= 0 {
        mag = input as u128;
    } else {
        output.push(45);
        mag = ((-1 - input) as u128) + 1;
    }
    proof {
        assert(mag as nat == if input as int >= 0 {
            input as nat
        } else {
            (-(input as int)) as nat
        });
    }
    push_decimal(mag, output);
    output.push(101);
    proof {
        assert(final(output)@ =~= old(output)@ + enc_int(input as int));
    }
}

/// Encodes a single byte string as bencode bytes.
pub fn encode_string(input: BencodeString) -> (r: Vec<u8>)
    ensures
        r@ == enc_str(input@),
{
    let mut out: Vec<u8> = Vec::new();
    write_string(&input, &mut out);
    proof {
        assert(out@ =~= enc_str(input@));
    }
    out
}

/// Appends the raw encoding of a value tree as it stands, without sorting.
#[verifier::loop_isolation(false)]
fn emit(v: &BencodeValue, out: &mut Vec<u8>)
    ensures
        final(out)@ == old(out)@ + raw_encode(v@),
    decreases *v,
{
    match v {
        BencodeValue::ByteString(s) => {
            write_string(s, out);
        },
        BencodeValue::Integer(i) => {
            write_integer(*i, out);
        },
        BencodeValue::List(l) => {
            let ghost m = crate::bencode::common::list_model(l@);
            out.push(108);
            let ghost base = out@;
            let mut i: usize = 0;
            proof {
                assert(m.subrange(0, 0) =~= Seq::<SpecValue>::empty());
            }
            while i < l.len()
                invariant
                    i <= l.len(),
                    out@ == base + raw_encode_seq(m.subrange(0, i as int)),
                decreases l.len() - i,
            {
                proof {
                    assert(decreases_to!(*v => *l));
                    assert(decreases_to!(*l => l@));
                    assert(decreases_to!(l@ => l@[i as int]));
                }
                emit(&l[i], out);
                proof {
                    assert(m.subrange(0, i + 1) =~= m.subrange(0, i as int).push(m[i as int]));
                    lemma_raw_encode_seq_push(m.subrange(0, i as int), m[i as int]);
                    assert(out@ =~= base + raw_encode_seq(m.subrange(0, i + 1)));
                }
                i = i + 1;
            }
            out.push(101);
            proof {
                assert(m.subrange(0, m.len() as int) =~= m);
                assert(final(out)@ =~= old(out)@ + raw_encode(v@));
            }
        },
        BencodeValue::Dict(d) => {
            let ghost m = crate::bencode::common::dict_model(d@);
            out.push(100);
            let ghost base = out@;
            let mut i: usize = 0;
            proof {
                assert(m.subrange(0, 0) =~= Seq::<(Seq<u8>, SpecValue)>::empty());
            }
            while i < d.len()
                invariant
                    i <= d.len(),
                    out@ == base + raw_encode_pairs(m.subrange(0, i as int)),
                decreases d.len() - i,
            {
                proof {
                    assert(decreases_to!(*v => *d));
                    assert(decreases_to!(*d => d@));
                    assert(decreases_to!(d@ => d@[i as int]));
                    assert(decreases_to!(d@[i as int] => d@[i as int].1));
                }
                write_string(&d[i].0, out);
                emit(&d[i].1, out);
                proof {
                    assert(m.subrange(0, i + 1) =~= m.subrange(0, i as int).push(m[i as int]));
                    lemma_raw_encode_pairs_push(m.subrange(0, i as int), m[i as int]);
                    assert(out@ =~= base + raw_encode_pairs(m.subrange(0, i + 1)));
                }
                i = i + 1;
            }
            out.push(101);
            proof {
                assert(m.subrange(0, m.len() as int) =~= m);
                assert(final(out)@ =~= old(out)@ + raw_encode(v@));
            }
        },
    }
}

/// Encodes a value tree as bencode bytes.  The output is canonical: every
/// dictionary is emitted with its keys sorted ascending, whatever order the
/// input held.
pub fn encode(input: &BencodeValue) -> (r: Vec<u8>)
    ensures
        r@ == raw_encode(deep_sort(input@)),
{
    let sorted = input.clone().into_sorted();
    let mut out: Vec<u8> = Vec::new();
    emit(&sorted, &mut out);
    out
}

} // verus!
