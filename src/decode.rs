//! The recursive-descent bencode decoder.

use vstd::prelude::*;
use vstd::slice::{slice_subrange, slice_to_vec};
use crate::error::DecodeError;
use crate::grammar::{
    all_digits, digits_value, find_byte, is_digit, parse_bytes, parse_dict, parse_integer, parse_list,
    parse_value,
};
use crate::value::{entries_view, lemma_dict_view, lemma_list_view, values_view, BencodeValue, Bval};

verus! {

/// How many lists and dictionaries may be nested inside one another.
pub const MAX_DEPTH: usize = 64;

/// An executable result agrees with a result of the grammar.
pub open spec fn agrees(r: Result<(BencodeValue, usize), DecodeError>, m: Result<(Bval, int), DecodeError>) -> bool {
    match r {
        Ok((v, p)) => m == Ok::<(Bval, int), DecodeError>((v@, p as int)),
        Err(e) => m == Err::<(Bval, int), DecodeError>(e),
    }
}

/// The first position at or after `from` that holds `b`.
fn find(s: &[u8], from: usize, b: u8) -> (r: Option<usize>)
    requires
        from <= s.len(),
    ensures
        match r {
            Some(j) => find_byte(s@, from as int, b) == Some(j as int) && from <= j < s.len(),
            None => find_byte(s@, from as int, b) is None,
        },
{
    let mut j = from;
    while j < s.len()
        invariant
            from <= j <= s.len(),
            find_byte(s@, from as int, b) == find_byte(s@, j as int, b),
        decreases s.len() - j,
    {
        if s[j] == b {
            return Some(j);
        }
        j = j + 1;
    }
    None
}

/// Reads the digits of `s[lo..hi]`. The result is exact up to `cap`; above
/// `cap` it only says that the number exceeds `cap`.
fn read_digits(s: &[u8], lo: usize, hi: usize, cap: u128) -> (r: Option<u128>)
    requires
        lo <= hi <= s.len(),
        cap <= 0xffff_ffff_ffff_ffff,
    ensures
        r is Some <==> all_digits(s@.subrange(lo as int, hi as int)),
        r matches Some(v) ==> {
            &&& v <= cap ==> v == digits_value(s@.subrange(lo as int, hi as int))
            &&& v > cap ==> digits_value(s@.subrange(lo as int, hi as int)) > cap
        },
{
    let mut acc: u128 = 0;
    let mut j = lo;
    proof {
        assert(s@.subrange(lo as int, lo as int) =~= Seq::<u8>::empty());
    }
    while j < hi
        invariant
            lo <= j <= hi <= s.len(),
            cap <= 0xffff_ffff_ffff_ffff,
            all_digits(s@.subrange(lo as int, j as int)),
            acc <= cap ==> acc == digits_value(s@.subrange(lo as int, j as int)),
            acc > cap ==> digits_value(s@.subrange(lo as int, j as int)) > cap,
            acc <= cap * 10 + 9,
        decreases hi - j,
    {
        let c = s[j];
        if c < 48 || c > 57 {
            proof {
                assert(!is_digit(s@.subrange(lo as int, hi as int)[j - lo]));
            }
            return None;
        }
        let ghost prev = s@.subrange(lo as int, j as int);
        let ghost next = s@.subrange(lo as int, j + 1);
        proof {
            assert(next.drop_last() =~= prev);
            assert(digits_value(next) == digits_value(prev) * 10 + (c - 48) as nat);
            assert(digits_value(prev) * 10 >= digits_value(prev)) by (nonlinear_arith);
            assert forall|i: int| 0 <= i < next.len() implies is_digit(#[trigger] next[i]) by {
                if i < prev.len() {
                    assert(next[i] == prev[i]);
                }
            }
        }
        if acc <= cap {
            acc = acc * 10 + (c - 48) as u128;
        }
        j = j + 1;
    }
    Some(acc)
}

/// The body of an integer, from just past its `i`.
fn decode_integer(s: &[u8], pos: usize) -> (r: Result<(BencodeValue, usize), DecodeError>)
    requires
        pos <= s.len(),
    ensures
        agrees(r, parse_integer(s@, pos as int)),
        r matches Ok((_, p)) ==> pos < p <= s.len(),
{
    match find(s, pos, 101) {
        None => Err(DecodeError::MalformedInteger),
        Some(j) => {
            let ghost d = s@.subrange(pos as int, j as int);
            let neg = j > pos && s[pos] == 45;
            let start = if neg { pos + 1 } else { pos };
            if start >= j {
                return Err(DecodeError::MalformedInteger);
            }
            proof {
                if neg {
                    assert(d.subrange(1, d.len() as int) =~= s@.subrange(start as int, j as int));
                } else {
                    assert(d =~= s@.subrange(start as int, j as int));
                }
            }
            let cap: u128 = if neg { 9223372036854775808 } else { 9223372036854775807 };
            match read_digits(s, start, j, cap) {
                None => Err(DecodeError::MalformedInteger),
                Some(m) => {
                    if m > cap {
                        Err(DecodeError::MalformedInteger)
                    } else {
                        let n: i64 = if neg {
                            if m == 9223372036854775808 {
                                i64::MIN
                            } else {
                                -(m as i64)
                            }
                        } else {
                            m as i64
                        };
                        Ok((BencodeValue::Integer(n), j + 1))
                    }
                },
            }
        },
    }
}

/// A byte string `<length>:<bytes>` starting at `pos`.
fn decode_bytes(s: &[u8], pos: usize) -> (r: Result<(Vec<u8>, usize), DecodeError>)
    requires
        pos <= s.len(),
    ensures
        match r {
            Ok((b, p)) => parse_bytes(s@, pos as int) == Ok::<(Seq<u8>, int), DecodeError>((b@, p as int)),
            Err(e) => parse_bytes(s@, pos as int) == Err::<(Seq<u8>, int), DecodeError>(e),
        },
        r matches Ok((_, p)) ==> pos < p <= s.len(),
{
    match find(s, pos, 58) {
        None => Err(DecodeError::MalformedLength),
        Some(j) => {
            if j == pos {
                return Err(DecodeError::MalformedLength);
            }
            let room = s.len() - (j + 1);
            match read_digits(s, pos, j, room as u128) {
                None => Err(DecodeError::MalformedLength),
                Some(n) => {
                    if n > room as u128 {
                        Err(DecodeError::TruncatedString)
                    } else {
                        let start = j + 1;
                        let end = start + n as usize;
                        let out = slice_to_vec(slice_subrange(s, start, end));
                        Ok((out, end))
                    }
                },
            }
        },
    }
}

/// One value starting at `pos`, with at most `depth` more levels of nesting.
fn decode_value(s: &[u8], pos: usize, depth: usize) -> (r: Result<(BencodeValue, usize), DecodeError>)
    requires
        pos <= s.len(),
    ensures
        agrees(r, parse_value(s@, pos as int, depth as nat)),
        r matches Ok((_, p)) ==> pos < p <= s.len(),
    decreases depth, 0int,
{
    if pos >= s.len() {
        return Err(DecodeError::UnrecognizedToken);
    }
    let c = s[pos];
    if c == 105 {
        decode_integer(s, pos + 1)
    } else if 48 <= c && c <= 57 {
        match decode_bytes(s, pos) {
            Ok((b, p)) => Ok((BencodeValue::ByteString(b), p)),
            Err(e) => Err(e),
        }
    } else if c == 108 {
        if depth == 0 {
            return Err(DecodeError::NestingTooDeep);
        }
        match decode_list(s, pos + 1, depth - 1) {
            Ok((items, p)) => {
                proof {
                    lemma_list_view(items);
                }
                Ok((BencodeValue::List(items), p))
            },
            Err(e) => Err(e),
        }
    } else if c == 100 {
        if depth == 0 {
            return Err(DecodeError::NestingTooDeep);
        }
        match decode_dict(s, pos + 1, depth - 1) {
            Ok((entries, p)) => {
                proof {
                    lemma_dict_view(entries);
                }
                Ok((BencodeValue::Dictionary(entries), p))
            },
            Err(e) => Err(e),
        }
    } else {
        Err(DecodeError::UnrecognizedToken)
    }
}

/// The elements of a list from `pos` through its closing `e`.
fn decode_list(s: &[u8], pos: usize, depth: usize) -> (r: Result<(Vec<BencodeValue>, usize), DecodeError>)
    requires
        pos <= s.len(),
    ensures
        match r {
            Ok((items, p)) => parse_list(s@, pos as int, depth as nat)
                == Ok::<(Seq<Bval>, int), DecodeError>((values_view(items@), p as int)),
            Err(e) => parse_list(s@, pos as int, depth as nat) == Err::<(Seq<Bval>, int), DecodeError>(e),
        },
        r matches Ok((_, p)) ==> pos < p <= s.len(),
    decreases depth, 1int,
{
    let mut items: Vec<BencodeValue> = Vec::new();
    let mut cur = pos;
    let ghost whole = parse_list(s@, pos as int, depth as nat);
    while cur < s.len() && s[cur] != 101
        invariant
            pos <= cur <= s.len(),
            whole == parse_list(s@, pos as int, depth as nat),
            match parse_list(s@, cur as int, depth as nat) {
                Ok((vs, q)) => whole == Ok::<(Seq<Bval>, int), DecodeError>((values_view(items@) + vs, q)),
                Err(e) => whole == Err::<(Seq<Bval>, int), DecodeError>(e),
            },
        decreases s.len() - cur,
    {
        match decode_value(s, cur, depth) {
            Err(e) => {
                return Err(e);
            },
            Ok((v, p)) => {
                let ghost before = items@;
                items.push(v);
                proof {
                    assert(values_view(items@) =~= values_view(before).push(v@));
                    match parse_list(s@, p as int, depth as nat) {
                        Ok((vs, q)) => {
                            assert(values_view(items@) + vs =~= values_view(before) + (seq![v@] + vs));
                        },
                        Err(e) => {},
                    }
                }
                cur = p;
            },
        }
    }
    if cur >= s.len() {
        return Err(DecodeError::UnterminatedCollection);
    }
    proof {
        assert(values_view(items@) + Seq::<Bval>::empty() =~= values_view(items@));
    }
    Ok((items, cur + 1))
}

/// The entries of a dictionary from `pos` through its closing `e`.
fn decode_dict(s: &[u8], pos: usize, depth: usize) -> (r: Result<(Vec<(Vec<u8>, BencodeValue)>, usize), DecodeError>)
    requires
        pos <= s.len(),
    ensures
        match r {
            Ok((entries, p)) => parse_dict(s@, pos as int, depth as nat)
                == Ok::<(Seq<(Seq<u8>, Bval)>, int), DecodeError>((entries_view(entries@), p as int)),
            Err(e) => parse_dict(s@, pos as int, depth as nat)
                == Err::<(Seq<(Seq<u8>, Bval)>, int), DecodeError>(e),
        },
        r matches Ok((_, p)) ==> pos < p <= s.len(),
    decreases depth, 1int,
{
    let mut entries: Vec<(Vec<u8>, BencodeValue)> = Vec::new();
    let mut cur = pos;
    let ghost whole = parse_dict(s@, pos as int, depth as nat);
    while cur < s.len() && s[cur] != 101
        invariant
            pos <= cur <= s.len(),
            whole == parse_dict(s@, pos as int, depth as nat),
            match parse_dict(s@, cur as int, depth as nat) {
                Ok((es, q)) => whole
                    == Ok::<(Seq<(Seq<u8>, Bval)>, int), DecodeError>((entries_view(entries@) + es, q)),
                Err(e) => whole == Err::<(Seq<(Seq<u8>, Bval)>, int), DecodeError>(e),
            },
        decreases s.len() - cur,
    {
        let c = s[cur];
        if c < 48 || c > 57 {
            return Err(DecodeError::NonStringKey);
        }
        let (key, p) = match decode_bytes(s, cur) {
            Err(e) => {
                return Err(e);
            },
            Ok(kp) => kp,
        };
        match decode_value(s, p, depth) {
            Err(e) => {
                return Err(e);
            },
            Ok((v, q)) => {
                let ghost before = entries@;
                let ghost kv = key@;
                let ghost vv = v@;
                entries.push((key, v));
                proof {
                    assert(entries_view(entries@) =~= entries_view(before).push((kv, vv)));
                    match parse_dict(s@, q as int, depth as nat) {
                        Ok((es, r)) => {
                            assert(entries_view(entries@) + es =~= entries_view(before) + (seq![(kv, vv)] + es));
                        },
                        Err(e) => {},
                    }
                }
                cur = q;
            },
        }
    }
    if cur >= s.len() {
        return Err(DecodeError::UnterminatedCollection);
    }
    proof {
        assert(entries_view(entries@) + Seq::<(Seq<u8>, Bval)>::empty() =~= entries_view(entries@));
    }
    Ok((entries, cur + 1))
}

/// Decodes the value at the start of `bytes` and hands back the bytes that
/// follow it.
pub fn decode(bytes: &[u8]) -> (r: Result<(BencodeValue, &[u8]), DecodeError>)
    ensures
        match r {
            Ok((v, rest)) => {
                &&& rest.len() <= bytes.len()
                &&& parse_value(bytes@, 0, MAX_DEPTH as nat)
                    == Ok::<(Bval, int), DecodeError>((v@, bytes.len() - rest.len()))
                &&& rest@ == bytes@.subrange(bytes.len() - rest.len(), bytes.len() as int)
            },
            Err(e) => parse_value(bytes@, 0, MAX_DEPTH as nat) == Err::<(Bval, int), DecodeError>(e),
        },
{
    match decode_value(bytes, 0, MAX_DEPTH) {
        Err(e) => Err(e),
        Ok((v, p)) => {
            Ok((v, slice_subrange(bytes, p, bytes.len())))
        },
    }
}

} // verus!
