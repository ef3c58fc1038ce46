//! Mathematical models of what the string operations compute.
//!
//! A `str` is modelled by its characters (`s@`) and by their UTF-8 bytes
//! (`s.spec_bytes()`, which is `encode_utf8(s@)`).
use vstd::prelude::*;
use vstd::utf8::*;

verus! {

/// The UTF-8 bytes of a single character.
pub open spec fn char_bytes(c: char) -> Seq<u8> {
    encode_utf8(seq![c])
}

/// What `trim_start_matches` leaves of `s`: every leading occurrence of the
/// pattern `p` is removed, one after another.  An empty pattern removes nothing.
pub open spec fn trim_start_matches_spec(s: Seq<char>, p: Seq<char>) -> Seq<char>
    decreases s.len(),
{
    if p.len() > 0 && p.is_prefix_of(s) {
        trim_start_matches_spec(s.skip(p.len() as int), p)
    } else {
        s
    }
}

/// `k` copies of `p`, one after another.
pub open spec fn repeat_chars(p: Seq<char>, k: nat) -> Seq<char>
    decreases k,
{
    if k == 0 {
        Seq::empty()
    } else {
        p + repeat_chars(p, (k - 1) as nat)
    }
}

/// The number of leading bytes of `b` that are taken up by whole repetitions of `p`.
pub open spec fn repeated_prefix_len(b: Seq<u8>, p: Seq<u8>) -> nat
    decreases b.len(),
{
    if p.len() > 0 && p.is_prefix_of(b) {
        p.len() + repeated_prefix_len(b.skip(p.len() as int), p)
    } else {
        0
    }
}

/// `p` occurs in `b` starting at byte `i`.
pub open spec fn matches_at(b: Seq<u8>, p: Seq<u8>, i: int) -> bool {
    &&& 0 <= i
    &&& i + p.len() <= b.len()
    &&& b.subrange(i, i + p.len()) == p
}

/// `r` is what `find` answers when looking for `p` in `b`: the byte index of
/// the first occurrence, or `None` when there is none.
pub open spec fn is_first_match(b: Seq<u8>, p: Seq<u8>, r: Option<usize>) -> bool {
    match r {
        Some(i) => matches_at(b, p, i as int) && forall|j: int| 0 <= j < i ==> !matches_at(b, p, j),
        None => forall|j: int| !matches_at(b, p, j),
    }
}

/// Byte `b` is an ASCII decimal digit.
pub open spec fn is_digit(b: u8) -> bool {
    48 <= b <= 57
}

/// The errors that parsing an integer can report; they name the same
/// conditions as `std::num::IntErrorKind`.
#[derive(Debug, Clone, Copy, PartialEq, Eq, Structural)]
pub enum ParseIntError {
    /// The text is empty.
    Empty,
    /// The text holds a byte that is not a decimal digit where one is needed.
    InvalidDigit,
    /// The value is larger than the type can hold.
    PosOverflow,
    /// The value is smaller than the type can hold.
    NegOverflow,
}

/// `10` to the power `n`.
pub open spec fn pow10(n: nat) -> nat
    decreases n,
{
    if n == 0 {
        1
    } else {
        10 * pow10((n - 1) as nat)
    }
}

/// Every byte of `ds` is a decimal digit.
pub open spec fn all_digits(ds: Seq<u8>) -> bool {
    forall|k: int| 0 <= k < ds.len() ==> is_digit(#[trigger] ds[k])
}

/// The value of the decimal digits `ds` written after the value `acc`.
pub open spec fn fold_digits(ds: Seq<u8>, acc: nat) -> nat
    decreases ds.len(),
{
    if ds.len() == 0 {
        acc
    } else {
        fold_digits(ds.drop_first(), acc * 10 + (ds[0] - 48) as nat)
    }
}

/// Reads the decimal digits `ds` from left to right onto the value `acc`.
/// The first byte that is not a digit is an `InvalidDigit` error; the first
/// digit after which the magnitude exceeds `limit` is an overflow error, on the
/// side that `negative` names.
pub open spec fn accumulate_digits(ds: Seq<u8>, acc: nat, limit: nat, negative: bool) -> Result<
    nat,
    ParseIntError,
>
    decreases ds.len(),
{
    if ds.len() == 0 {
        Ok(acc)
    } else if !is_digit(ds[0]) {
        Err(ParseIntError::InvalidDigit)
    } else {
        let m = acc * 10 + (ds[0] - 48) as nat;
        if m > limit {
            Err(
                if negative {
                    ParseIntError::NegOverflow
                } else {
                    ParseIntError::PosOverflow
                },
            )
        } else {
            accumulate_digits(ds.drop_first(), m, limit, negative)
        }
    }
}

/// Decimal parsing of the text `b` into a sign and a magnitude: an optional
/// `+`, or a `-` where `signed` allows one, followed by at least one digit.
/// Positive magnitudes may reach `pos_limit`, negative ones `neg_limit`.
pub open spec fn parse_decimal_spec(b: Seq<u8>, signed: bool, pos_limit: nat, neg_limit: nat) -> Result<
    (bool, nat),
    ParseIntError,
> {
    if b.len() == 0 {
        Err(ParseIntError::Empty)
    } else if b.len() == 1 && (b[0] == 43 || b[0] == 45) {
        Err(ParseIntError::InvalidDigit)
    } else if b[0] == 43 {
        match accumulate_digits(b.drop_first(), 0, pos_limit, false) {
            Ok(m) => Ok((false, m)),
            Err(e) => Err(e),
        }
    } else if b[0] == 45 && signed {
        match accumulate_digits(b.drop_first(), 0, neg_limit, true) {
            Ok(m) => Ok((true, m)),
            Err(e) => Err(e),
        }
    } else {
        match accumulate_digits(b, 0, pos_limit, false) {
            Ok(m) => Ok((false, m)),
            Err(e) => Err(e),
        }
    }
}

/// The integer that `parse_decimal_spec` describes, as a mathematical integer.
pub open spec fn parse_int_spec(b: Seq<u8>, signed: bool, pos_limit: nat, neg_limit: nat) -> Result<
    int,
    ParseIntError,
> {
    match parse_decimal_spec(b, signed, pos_limit, neg_limit) {
        Ok((negative, m)) => Ok(
            if negative {
                -(m as int)
            } else {
                m as int
            },
        ),
        Err(e) => Err(e),
    }
}

/// The decimal digits of `n`, without leading zeros, as the standard library
/// writes them.
pub open spec fn decimal_bytes(n: nat) -> Seq<u8>
    decreases n,
{
    if n < 10 {
        seq![(48 + n) as u8]
    } else {
        decimal_bytes(n / 10).push((48 + n % 10) as u8)
    }
}

} // verus!
