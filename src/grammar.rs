//! The bencode grammar, stated as spec functions over a byte sequence.
//!
//! Each function reads from position `pos` of `s` and yields the decoded
//! value together with the position just past it, or the error that stops
//! the decode.

use vstd::prelude::*;
use crate::error::DecodeError;
use crate::value::Bval;

verus! {

pub open spec fn is_digit(b: u8) -> bool {
    48 <= b <= 57
}

pub open spec fn all_digits(d: Seq<u8>) -> bool {
    forall|i: int| 0 <= i < d.len() ==> is_digit(#[trigger] d[i])
}

/// The number written by a run of decimal digits.
pub open spec fn digits_value(d: Seq<u8>) -> nat
    decreases d.len(),
{
    if d.len() == 0 {
        0
    } else {
        digits_value(d.drop_last()) * 10 + (d.last() - 48) as nat
    }
}

/// The first position at or after `from` that holds `b`.
pub open spec fn find_byte(s: Seq<u8>, from: int, b: u8) -> Option<int>
    decreases s.len() - from,
{
    if from < 0 || from >= s.len() {
        None
    } else if s[from] == b {
        Some(from)
    } else {
        find_byte(s, from + 1, b)
    }
}

/// An optional `-` followed by at least one decimal digit.
pub open spec fn integer_value(d: Seq<u8>) -> Option<int> {
    if d.len() > 0 && d[0] == 45 {
        let m = d.subrange(1, d.len() as int);
        if m.len() > 0 && all_digits(m) {
            Some(-digits_value(m))
        } else {
            None
        }
    } else if d.len() > 0 && all_digits(d) {
        Some(digits_value(d) as int)
    } else {
        None
    }
}

/// The body of an integer: `pos` is just past the `i`, the body runs to the next `e`.
pub open spec fn parse_integer(s: Seq<u8>, pos: int) -> Result<(Bval, int), DecodeError> {
    match find_byte(s, pos, 101) {
        None => Err(DecodeError::MalformedInteger),
        Some(j) => match integer_value(s.subrange(pos, j)) {
            Some(n) => if i64::MIN <= n <= i64::MAX {
                Ok((Bval::Int(n), j + 1))
            } else {
                Err(DecodeError::MalformedInteger)
            },
            None => Err(DecodeError::MalformedInteger),
        },
    }
}

/// A byte string `<length>:<bytes>` starting at `pos`.
pub open spec fn parse_bytes(s: Seq<u8>, pos: int) -> Result<(Seq<u8>, int), DecodeError> {
    match find_byte(s, pos, 58) {
        None => Err(DecodeError::MalformedLength),
        Some(j) => {
            let d = s.subrange(pos, j);
            if d.len() == 0 || !all_digits(d) {
                Err(DecodeError::MalformedLength)
            } else if digits_value(d) > s.len() - (j + 1) {
                Err(DecodeError::TruncatedString)
            } else {
                let end = j + 1 + digits_value(d);
                Ok((s.subrange(j + 1, end), end))
            }
        },
    }
}

/// One value starting at `pos`; `depth` is how many more lists or
/// dictionaries may be opened.
pub open spec fn parse_value(s: Seq<u8>, pos: int, depth: nat) -> Result<(Bval, int), DecodeError>
    decreases depth, s.len() - pos, 0int,
{
    if pos < 0 || pos >= s.len() {
        Err(DecodeError::UnrecognizedToken)
    } else if s[pos] == 105 {
        parse_integer(s, pos + 1)
    } else if is_digit(s[pos]) {
        match parse_bytes(s, pos) {
            Ok((b, p)) => Ok((Bval::Bytes(b), p)),
            Err(e) => Err(e),
        }
    } else if s[pos] == 108 {
        if depth == 0 {
            Err(DecodeError::NestingTooDeep)
        } else {
            match parse_list(s, pos + 1, (depth - 1) as nat) {
                Ok((vs, p)) => Ok((Bval::List(vs), p)),
                Err(e) => Err(e),
            }
        }
    } else if s[pos] == 100 {
        if depth == 0 {
            Err(DecodeError::NestingTooDeep)
        } else {
            match parse_dict(s, pos + 1, (depth - 1) as nat) {
                Ok((es, p)) => Ok((Bval::Dict(es), p)),
                Err(e) => Err(e),
            }
        }
    } else {
        Err(DecodeError::UnrecognizedToken)
    }
}

/// The elements of a list from `pos` up to and including its closing `e`.
///
/// A value always ends past where it starts and within `s`; the test on
/// `p` states that much so that the definition is well founded.
pub open spec fn parse_list(s: Seq<u8>, pos: int, depth: nat) -> Result<(Seq<Bval>, int), DecodeError>
    decreases depth, s.len() - pos, 1int,
{
    if pos < 0 || pos >= s.len() {
        Err(DecodeError::UnterminatedCollection)
    } else if s[pos] == 101 {
        Ok((Seq::empty(), pos + 1))
    } else {
        match parse_value(s, pos, depth) {
            Err(e) => Err(e),
            Ok((v, p)) => if p <= pos || p > s.len() {
                Err(DecodeError::UnterminatedCollection)
            } else {
                match parse_list(s, p, depth) {
                    Err(e) => Err(e),
                    Ok((vs, q)) => Ok((seq![v] + vs, q)),
                }
            },
        }
    }
}

/// The entries of a dictionary from `pos` up to and including its closing `e`.
pub open spec fn parse_dict(s: Seq<u8>, pos: int, depth: nat) -> Result<(Seq<(Seq<u8>, Bval)>, int), DecodeError>
    decreases depth, s.len() - pos, 1int,
{
    if pos < 0 || pos >= s.len() {
        Err(DecodeError::UnterminatedCollection)
    } else if s[pos] == 101 {
        Ok((Seq::empty(), pos + 1))
    } else if !is_digit(s[pos]) {
        Err(DecodeError::NonStringKey)
    } else {
        match parse_bytes(s, pos) {
            Err(e) => Err(e),
            Ok((k, p)) => if p <= pos || p > s.len() {
                Err(DecodeError::UnterminatedCollection)
            } else {
                match parse_value(s, p, depth) {
                    Err(e) => Err(e),
                    Ok((v, q)) => if q <= p || q > s.len() {
                        Err(DecodeError::UnterminatedCollection)
                    } else {
                        match parse_dict(s, q, depth) {
                            Err(e) => Err(e),
                            Ok((es, r)) => Ok((seq![(k, v)] + es, r)),
                        }
                    },
                }
            },
        }
    }
}

} // verus!
