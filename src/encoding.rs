//! The canonical bencode encoding of a value model, and the laws that tie it
//! to the grammar.

use vstd::prelude::*;
use crate::decode::MAX_DEPTH;
use crate::error::DecodeError;
use crate::grammar::{
    all_digits, digits_value, find_byte, integer_value, is_digit, parse_bytes, parse_dict,
    parse_integer, parse_list, parse_value,
};
use crate::value::{entries_view, lemma_dict_view, lemma_list_view, values_view, BencodeValue, Bval};

verus! {

broadcast use vstd::seq::group_seq_axioms, vstd::seq::axiom_seq_subrange_decreases,
    vstd::std_specs::vec::axiom_vec_index_decreases;

/// The decimal digits of `n`, without leading zeros.
pub open spec fn decimal(n: nat) -> Seq<u8>
    decreases n,
{
    if n < 10 {
        seq![(48 + n) as u8]
    } else {
        decimal(n / 10).push((48 + n % 10) as u8)
    }
}

/// The bytes of an integer's body: an optional `-`, then its digits.
pub open spec fn integer_body(n: int) -> Seq<u8> {
    if n < 0 {
        seq![45u8] + decimal((-n) as nat)
    } else {
        decimal(n as nat)
    }
}

/// `<length>:<bytes>`.
pub open spec fn encode_bytes(b: Seq<u8>) -> Seq<u8> {
    decimal(b.len()) + seq![58u8] + b
}

/// The canonical encoding of a value.
pub open spec fn encode(v: Bval) -> Seq<u8>
    decreases v,
{
    match v {
        Bval::Int(n) => seq![105u8] + integer_body(n) + seq![101u8],
        Bval::Bytes(b) => encode_bytes(b),
        Bval::List(vs) => seq![108u8] + encode_items(vs) + seq![101u8],
        Bval::Dict(es) => seq![100u8] + encode_entries(es) + seq![101u8],
    }
}

/// The encodings of `vs`, one after another.
pub open spec fn encode_items(vs: Seq<Bval>) -> Seq<u8>
    decreases vs,
{
    if vs.len() == 0 {
        Seq::empty()
    } else {
        encode(vs[0]) + encode_items(vs.subrange(1, vs.len() as int))
    }
}

/// Each key's encoding followed by its value's, one entry after another.
pub open spec fn encode_entries(es: Seq<(Seq<u8>, Bval)>) -> Seq<u8>
    decreases es,
{
    if es.len() == 0 {
        Seq::empty()
    } else {
        encode_bytes(es[0].0) + encode(es[0].1) + encode_entries(es.subrange(1, es.len() as int))
    }
}

/// Every integer fits in an `i64` and lists and dictionaries nest at most
/// `depth` deep.
pub open spec fn fits(v: Bval, depth: nat) -> bool
    decreases v,
{
    match v {
        Bval::Int(n) => i64::MIN <= n <= i64::MAX,
        Bval::Bytes(_) => true,
        Bval::List(vs) => depth > 0 && forall|i: int| 0 <= i < vs.len() ==> fits(#[trigger] vs[i], (depth - 1) as nat),
        Bval::Dict(es) => depth > 0 && forall|i: int| 0 <= i < es.len() ==> fits(#[trigger] es[i].1, (depth - 1) as nat),
    }
}

/// `e` occurs in `s` at `pos`.
pub open spec fn holds_at(s: Seq<u8>, pos: int, e: Seq<u8>) -> bool {
    0 <= pos && pos + e.len() <= s.len() && s.subrange(pos, pos + e.len()) == e
}

proof fn lemma_holds_at_index(s: Seq<u8>, pos: int, e: Seq<u8>, k: int)
    requires
        holds_at(s, pos, e),
        0 <= k < e.len(),
    ensures
        s[pos + k] == e[k],
{
    assert(s.subrange(pos, pos + e.len())[k] == s[pos + k]);
}

proof fn lemma_holds_at_split(s: Seq<u8>, pos: int, a: Seq<u8>, b: Seq<u8>)
    requires
        holds_at(s, pos, a + b),
    ensures
        holds_at(s, pos, a),
        holds_at(s, pos + a.len(), b),
{
    assert(s.subrange(pos, pos + a.len()) =~= (a + b).subrange(0, a.len() as int));
    assert((a + b).subrange(0, a.len() as int) =~= a);
    assert(s.subrange(pos + a.len(), pos + a.len() + b.len()) =~= (a + b).subrange(
        a.len() as int,
        (a.len() + b.len()) as int,
    ));
    assert((a + b).subrange(a.len() as int, (a.len() + b.len()) as int) =~= b);
}

proof fn lemma_decimal(n: nat)
    ensures
        decimal(n).len() >= 1,
        all_digits(decimal(n)),
        digits_value(decimal(n)) == n,
    decreases n,
{
    if n >= 10 {
        lemma_decimal(n / 10);
        let d = decimal(n);
        assert(d.drop_last() =~= decimal(n / 10));
        assert(forall|i: int| 0 <= i < d.len() - 1 ==> d[i] == decimal(n / 10)[i]);
        assert(d.last() as int == 48 + n % 10);
        assert(n / 10 * 10 + n % 10 == n) by (nonlinear_arith);
        assert(digits_value(d) == digits_value(decimal(n / 10)) * 10 + (d.last() - 48) as nat);
        assert(digits_value(d) == n);
    } else {
        let d = decimal(n);
        assert(d.drop_last() =~= Seq::<u8>::empty());
        assert(d.last() as int == 48 + n);
        assert(digits_value(d.drop_last()) == 0);
    }
}

proof fn lemma_find(s: Seq<u8>, from: int, j: int, b: u8)
    requires
        0 <= from <= j < s.len(),
        s[j] == b,
        forall|k: int| from <= k < j ==> s[k] != b,
    ensures
        find_byte(s, from, b) == Some(j),
    decreases j - from,
{
    if from < j {
        lemma_find(s, from + 1, j, b);
    }
}

proof fn lemma_bytes_round_trip(s: Seq<u8>, pos: int, b: Seq<u8>)
    requires
        holds_at(s, pos, encode_bytes(b)),
    ensures
        parse_bytes(s, pos) == Ok::<(Seq<u8>, int), DecodeError>((b, pos + encode_bytes(b).len())),
        is_digit(s[pos]),
{
    let d = decimal(b.len());
    lemma_decimal(b.len());
    lemma_holds_at_split(s, pos, d + seq![58u8], b);
    lemma_holds_at_split(s, pos, d, seq![58u8]);
    let j = pos + d.len();
    lemma_holds_at_index(s, pos + d.len(), seq![58u8], 0);
    assert forall|k: int| pos <= k < j implies s[k] != 58u8 by {
        lemma_holds_at_index(s, pos, d, k - pos);
        assert(is_digit(d[k - pos]));
    }
    lemma_find(s, pos, j, 58u8);
    lemma_holds_at_index(s, pos, d, 0);
    assert(is_digit(d[0]));
}

proof fn lemma_integer_round_trip(s: Seq<u8>, pos: int, n: int)
    requires
        holds_at(s, pos, integer_body(n) + seq![101u8]),
        i64::MIN <= n <= i64::MAX,
    ensures
        parse_integer(s, pos) == Ok::<(Bval, int), DecodeError>(
            (Bval::Int(n), pos + integer_body(n).len() + 1),
        ),
{
    let body = integer_body(n);
    lemma_holds_at_split(s, pos, body, seq![101u8]);
    let j = pos + body.len();
    lemma_holds_at_index(s, j, seq![101u8], 0);
    if n < 0 {
        let m = decimal((-n) as nat);
        lemma_decimal((-n) as nat);
        assert(body.subrange(1, body.len() as int) =~= m);
        assert forall|k: int| pos <= k < j implies s[k] != 101u8 by {
            lemma_holds_at_index(s, pos, body, k - pos);
            if k > pos {
                assert(body[k - pos] == m[k - pos - 1]);
                assert(is_digit(m[k - pos - 1]));
            }
        }
        lemma_find(s, pos, j, 101u8);
        assert(integer_value(body) == Some(n));
    } else {
        lemma_decimal(n as nat);
        assert forall|k: int| pos <= k < j implies s[k] != 101u8 by {
            lemma_holds_at_index(s, pos, body, k - pos);
            assert(is_digit(body[k - pos]));
        }
        lemma_find(s, pos, j, 101u8);
        assert(is_digit(body[0]));
        assert(integer_value(body) == Some(n));
    }
}

proof fn lemma_encode_starts(v: Bval)
    ensures
        encode(v).len() >= 1,
        encode(v)[0] != 101u8,
{
    match v {
        Bval::Bytes(b) => {
            lemma_decimal(b.len());
            assert(encode(v)[0] == decimal(b.len())[0]);
        },
        _ => {},
    }
}

proof fn lemma_value_round_trip(s: Seq<u8>, pos: int, v: Bval, depth: nat)
    requires
        fits(v, depth),
        holds_at(s, pos, encode(v)),
    ensures
        parse_value(s, pos, depth) == Ok::<(Bval, int), DecodeError>((v, pos + encode(v).len())),
    decreases v,
{
    lemma_encode_starts(v);
    lemma_holds_at_index(s, pos, encode(v), 0);
    match v {
        Bval::Int(n) => {
            assert(encode(v) =~= seq![105u8] + (integer_body(n) + seq![101u8]));
            lemma_holds_at_split(s, pos, seq![105u8], integer_body(n) + seq![101u8]);
            lemma_integer_round_trip(s, pos + 1, n);
        },
        Bval::Bytes(b) => {
            lemma_bytes_round_trip(s, pos, b);
        },
        Bval::List(vs) => {
            assert(encode(v) =~= seq![108u8] + (encode_items(vs) + seq![101u8]));
            lemma_holds_at_split(s, pos, seq![108u8], encode_items(vs) + seq![101u8]);
            lemma_items_round_trip(s, pos + 1, vs, (depth - 1) as nat);
        },
        Bval::Dict(es) => {
            assert(encode(v) =~= seq![100u8] + (encode_entries(es) + seq![101u8]));
            lemma_holds_at_split(s, pos, seq![100u8], encode_entries(es) + seq![101u8]);
            lemma_entries_round_trip(s, pos + 1, es, (depth - 1) as nat);
        },
    }
}

proof fn lemma_items_round_trip(s: Seq<u8>, pos: int, vs: Seq<Bval>, depth: nat)
    requires
        forall|i: int| 0 <= i < vs.len() ==> fits(#[trigger] vs[i], depth),
        holds_at(s, pos, encode_items(vs) + seq![101u8]),
    ensures
        parse_list(s, pos, depth) == Ok::<(Seq<Bval>, int), DecodeError>(
            (vs, pos + encode_items(vs).len() + 1),
        ),
    decreases vs,
{
    if vs.len() == 0 {
        lemma_holds_at_index(s, pos, encode_items(vs) + seq![101u8], 0);
        assert(vs =~= Seq::<Bval>::empty());
    } else {
        let rest = vs.subrange(1, vs.len() as int);
        let head = encode(vs[0]);
        assert(encode_items(vs) + seq![101u8] =~= head + (encode_items(rest) + seq![101u8]));
        lemma_holds_at_split(s, pos, head, encode_items(rest) + seq![101u8]);
        lemma_encode_starts(vs[0]);
        lemma_holds_at_index(s, pos, head, 0);
        lemma_value_round_trip(s, pos, vs[0], depth);
        assert forall|i: int| 0 <= i < rest.len() implies fits(#[trigger] rest[i], depth) by {
            assert(rest[i] == vs[i + 1]);
        }
        lemma_items_round_trip(s, pos + head.len(), rest, depth);
        assert(seq![vs[0]] + rest =~= vs);
    }
}

proof fn lemma_entries_round_trip(s: Seq<u8>, pos: int, es: Seq<(Seq<u8>, Bval)>, depth: nat)
    requires
        forall|i: int| 0 <= i < es.len() ==> fits(#[trigger] es[i].1, depth),
        holds_at(s, pos, encode_entries(es) + seq![101u8]),
    ensures
        parse_dict(s, pos, depth) == Ok::<(Seq<(Seq<u8>, Bval)>, int), DecodeError>(
            (es, pos + encode_entries(es).len() + 1),
        ),
    decreases es,
{
    if es.len() == 0 {
        lemma_holds_at_index(s, pos, encode_entries(es) + seq![101u8], 0);
        assert(es =~= Seq::<(Seq<u8>, Bval)>::empty());
    } else {
        let rest = es.subrange(1, es.len() as int);
        let key = encode_bytes(es[0].0);
        let val = encode(es[0].1);
        assert(encode_entries(es) + seq![101u8] =~= key + (val + (encode_entries(rest) + seq![101u8])));
        lemma_holds_at_split(s, pos, key, val + (encode_entries(rest) + seq![101u8]));
        lemma_holds_at_split(s, pos + key.len(), val, encode_entries(rest) + seq![101u8]);
        lemma_bytes_round_trip(s, pos, es[0].0);
        lemma_decimal(es[0].0.len());
        lemma_value_round_trip(s, pos + key.len(), es[0].1, depth);
        lemma_encode_starts(es[0].1);
        assert forall|i: int| 0 <= i < rest.len() implies fits(#[trigger] rest[i].1, depth) by {
            assert(rest[i] == es[i + 1]);
        }
        lemma_entries_round_trip(s, pos + key.len() + val.len(), rest, depth);
        assert(seq![es[0]] + rest =~= es);
    }
}

/// Decoding the canonical encoding of a value, with any bytes after it,
/// gives back that value and stops right after its encoding.
pub proof fn lemma_decode_encode(v: Bval, rest: Seq<u8>)
    requires
        fits(v, MAX_DEPTH as nat),
    ensures
        parse_value(encode(v) + rest, 0, MAX_DEPTH as nat) == Ok::<(Bval, int), DecodeError>(
            (v, encode(v).len() as int),
        ),
{
    let s = encode(v) + rest;
    assert(s.subrange(0, encode(v).len() as int) =~= encode(v));
    lemma_value_round_trip(s, 0, v, MAX_DEPTH as nat);
}

/// A byte string of any length, encoded on its own, decodes to exactly its
/// bytes and consumes the whole input.
pub proof fn lemma_decode_byte_string(b: Seq<u8>)
    ensures
        parse_value(encode_bytes(b), 0, MAX_DEPTH as nat) == Ok::<(Bval, int), DecodeError>(
            (Bval::Bytes(b), encode_bytes(b).len() as int),
        ),
{
    let s = encode_bytes(b);
    assert(s.subrange(0, s.len() as int) =~= s);
    lemma_bytes_round_trip(s, 0, b);
}

proof fn lemma_encode_items_push(vs: Seq<Bval>, x: Bval)
    ensures
        encode_items(vs.push(x)) == encode_items(vs) + encode(x),
    decreases vs.len(),
{
    let w = vs.push(x);
    if vs.len() == 0 {
        assert(w.subrange(1, w.len() as int) =~= Seq::<Bval>::empty());
        assert(encode_items(Seq::<Bval>::empty()) == Seq::<u8>::empty());
        assert(w[0] == x);
        assert(encode_items(w) =~= encode_items(vs) + encode(x));
    } else {
        let rest = vs.subrange(1, vs.len() as int);
        assert(w.subrange(1, w.len() as int) =~= rest.push(x));
        lemma_encode_items_push(rest, x);
        assert(encode_items(w) =~= encode_items(vs) + encode(x));
    }
}

proof fn lemma_encode_entries_push(es: Seq<(Seq<u8>, Bval)>, x: (Seq<u8>, Bval))
    ensures
        encode_entries(es.push(x)) == encode_entries(es) + (encode_bytes(x.0) + encode(x.1)),
    decreases es.len(),
{
    let w = es.push(x);
    if es.len() == 0 {
        assert(w.subrange(1, w.len() as int) =~= Seq::<(Seq<u8>, Bval)>::empty());
        assert(encode_entries(Seq::<(Seq<u8>, Bval)>::empty()) == Seq::<u8>::empty());
        assert(w[0] == x);
        assert(encode_entries(w) =~= encode_entries(es) + (encode_bytes(x.0) + encode(x.1)));
    } else {
        let rest = es.subrange(1, es.len() as int);
        assert(w.subrange(1, w.len() as int) =~= rest.push(x));
        lemma_encode_entries_push(rest, x);
        assert(encode_entries(w) =~= encode_entries(es) + (encode_bytes(x.0) + encode(x.1)));
    }
}

fn push_decimal(out: &mut Vec<u8>, n: u64)
    ensures
        final(out)@ == old(out)@ + decimal(n as nat),
    decreases n,
{
    if n >= 10 {
        push_decimal(out, n / 10);
    }
    out.push(48 + (n % 10) as u8);
    proof {
        if n >= 10 {
            assert(old(out)@ + decimal(n as nat) =~= old(out)@ + decimal((n / 10) as nat) + seq![(48 + n % 10) as u8]);
        } else {
            assert(old(out)@ + decimal(n as nat) =~= old(out)@ + seq![(48 + n) as u8]);
        }
    }
}

fn push_bytes(out: &mut Vec<u8>, b: &Vec<u8>)
    ensures
        final(out)@ == old(out)@ + encode_bytes(b@),
{
    push_decimal(out, b.len() as u64);
    out.push(58);
    let mut i: usize = 0;
    let ghost start = out@;
    while i < b.len()
        invariant
            i <= b.len(),
            out@ == start + b@.take(i as int),
        decreases b.len() - i,
    {
        out.push(b[i]);
        i = i + 1;
        proof {
            assert(out@ =~= start + b@.take(i as int));
        }
    }
    proof {
        assert(b@.take(b.len() as int) =~= b@);
        assert(old(out)@ + encode_bytes(b@) =~= start + b@);
    }
}

fn push_value(out: &mut Vec<u8>, v: &BencodeValue)
    ensures
        final(out)@ == old(out)@ + encode(v@),
    decreases v,
{
    match v {
        BencodeValue::Integer(n) => {
            out.push(105);
            if *n < 0 {
                out.push(45);
                push_decimal(out, (-(*n as i128)) as u64);
            } else {
                push_decimal(out, *n as u64);
            }
            out.push(101);
            proof {
                assert(old(out)@ + encode(v@) =~= final(out)@);
            }
        },
        BencodeValue::ByteString(b) => {
            push_bytes(out, b);
        },
        BencodeValue::List(items) => {
            proof {
                lemma_list_view(*items);
            }
            let ghost vs = values_view(items@);
            out.push(108);
            let ghost start = out@;
            let mut i: usize = 0;
            proof {
                assert(vs.take(0) =~= Seq::<Bval>::empty());
                assert(start + encode_items(vs.take(0)) =~= start);
            }
            while i < items.len()
                invariant
                    i <= items.len(),
                    vs == values_view(items@),
                    v@ == Bval::List(vs),
                    *v == BencodeValue::List(*items),
                    out@ == start + encode_items(vs.take(i as int)),
                decreases items.len() - i,
            {
                proof {
                    assert(vs.take(i + 1) =~= vs.take(i as int).push(items@[i as int]@));
                    lemma_encode_items_push(vs.take(i as int), items@[i as int]@);
                }
                proof {
                    assert(decreases_to!(items => items[i as int]));
                }
                push_value(out, &items[i]);
                i = i + 1;
            }
            out.push(101);
            proof {
                assert(vs.take(vs.len() as int) =~= vs);
                assert(old(out)@ + encode(v@) =~= final(out)@);
            }
        },
        BencodeValue::Dictionary(entries) => {
            proof {
                lemma_dict_view(*entries);
            }
            let ghost es = entries_view(entries@);
            out.push(100);
            let ghost start = out@;
            let mut i: usize = 0;
            proof {
                assert(es.take(0) =~= Seq::<(Seq<u8>, Bval)>::empty());
                assert(start + encode_entries(es.take(0)) =~= start);
            }
            while i < entries.len()
                invariant
                    i <= entries.len(),
                    es == entries_view(entries@),
                    v@ == Bval::Dict(es),
                    *v == BencodeValue::Dictionary(*entries),
                    out@ == start + encode_entries(es.take(i as int)),
                decreases entries.len() - i,
            {
                proof {
                    assert(es.take(i + 1) =~= es.take(i as int).push(es[i as int]));
                    lemma_encode_entries_push(es.take(i as int), es[i as int]);
                }
                push_bytes(out, &entries[i].0);
                proof {
                    assert(decreases_to!(entries => entries[i as int]));
                }
                push_value(out, &entries[i].1);
                proof {
                    assert(out@ =~= start + encode_entries(es.take(i + 1)));
                }
                i = i + 1;
            }
            out.push(101);
            proof {
                assert(es.take(es.len() as int) =~= es);
                assert(old(out)@ + encode(v@) =~= final(out)@);
            }
        },
    }
}

impl BencodeValue {
    /// The canonical encoding of the value: integers without leading zeros,
    /// entries in the order held.
    pub fn to_bytes(&self) -> (r: Vec<u8>)
        ensures
            r@ == encode(self@),
    {
        let mut out: Vec<u8> = Vec::new();
        push_value(&mut out, self);
        proof {
            assert(out@ =~= encode(self@));
        }
        out
    }
}

} // verus!
