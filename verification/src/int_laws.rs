//! What reading each integer type gives: the value of its digits, the
//! overflow past its bounds, and the meaning of a leading sign.
use vstd::prelude::*;
use crate::from::FromSimdString;
use crate::laws::{
    law_parse_digits, law_parse_errors, law_parse_negative_digits, law_parse_ok_shape,
    law_unsigned_rejects_minus,
};
use crate::model::{all_digits, fold_digits, is_digit, ParseIntError};
use crate::simd_string::FromSimdStr;

verus! {

/// Reading a `u8`: a run of digits gives its value when that is at most
/// `u8::MAX` and a positive overflow otherwise, and a `+` in front of the
/// digits changes nothing.
pub proof fn law_u8_digits(d: Seq<u8>)
    requires
        d.len() > 0,
        all_digits(d),
    ensures
        <u8 as FromSimdString>::parse_spec(d) == (if fold_digits(d, 0) <= u8::MAX {
            Ok::<u8, ParseIntError>(fold_digits(d, 0) as u8)
        } else {
            Err(ParseIntError::PosOverflow)
        }),
        <u8 as FromSimdString>::parse_spec(seq![43u8] + d) == <u8 as FromSimdString>::parse_spec(d),
{
    law_parse_digits(d, false, u8::MAX as nat, 0);
}

/// Reading a `u8` reports empty text exactly when the text is empty,
/// reads a single byte that is not a digit as an invalid digit, and succeeds
/// only on a digit or `+` followed by digits.
pub proof fn law_u8_text(b: Seq<u8>)
    ensures
        <u8 as FromSimdString>::parse_spec(b)
            == Err::<u8, ParseIntError>(ParseIntError::Empty) <==> b.len() == 0,
        b.len() == 1 && !is_digit(b[0]) ==> <u8 as FromSimdString>::parse_spec(b)
            == Err::<u8, ParseIntError>(ParseIntError::InvalidDigit),
        <u8 as FromSimdString>::parse_spec(b) is Ok ==> {
            &&& b.len() > 0
            &&& (is_digit(b[0]) || b[0] == 43u8)
            &&& forall|j: int| 1 <= j < b.len() ==> is_digit(#[trigger] b[j])
        },
{
    law_parse_errors(b, false, u8::MAX as nat, 0);
    law_parse_ok_shape(b, false, u8::MAX as nat, 0);
    if b.len() > 0 && b[0] == 45u8 {
        law_unsigned_rejects_minus(b, u8::MAX as nat, 0);
    }
}

/// A `u8` is never read from text that starts with `-`, whatever follows.
pub proof fn law_u8_rejects_minus(b: Seq<u8>)
    ensures
        <u8 as FromSimdString>::parse_spec(seq![45u8] + b)
            == Err::<u8, ParseIntError>(ParseIntError::InvalidDigit),
{
    law_unsigned_rejects_minus(seq![45u8] + b, u8::MAX as nat, 0);
}

/// Reading a `u16`: a run of digits gives its value when that is at most
/// `u16::MAX` and a positive overflow otherwise, and a `+` in front of the
/// digits changes nothing.
pub proof fn law_u16_digits(d: Seq<u8>)
    requires
        d.len() > 0,
        all_digits(d),
    ensures
        <u16 as FromSimdString>::parse_spec(d) == (if fold_digits(d, 0) <= u16::MAX {
            Ok::<u16, ParseIntError>(fold_digits(d, 0) as u16)
        } else {
            Err(ParseIntError::PosOverflow)
        }),
        <u16 as FromSimdString>::parse_spec(seq![43u8] + d)
            == <u16 as FromSimdString>::parse_spec(d),
{
    law_parse_digits(d, false, u16::MAX as nat, 0);
}

/// Reading a `u16` reports empty text exactly when the text is empty,
/// reads a single byte that is not a digit as an invalid digit, and succeeds
/// only on a digit or `+` followed by digits.
pub proof fn law_u16_text(b: Seq<u8>)
    ensures
        <u16 as FromSimdString>::parse_spec(b)
            == Err::<u16, ParseIntError>(ParseIntError::Empty) <==> b.len() == 0,
        b.len() == 1 && !is_digit(b[0]) ==> <u16 as FromSimdString>::parse_spec(b)
            == Err::<u16, ParseIntError>(ParseIntError::InvalidDigit),
        <u16 as FromSimdString>::parse_spec(b) is Ok ==> {
            &&& b.len() > 0
            &&& (is_digit(b[0]) || b[0] == 43u8)
            &&& forall|j: int| 1 <= j < b.len() ==> is_digit(#[trigger] b[j])
        },
{
    law_parse_errors(b, false, u16::MAX as nat, 0);
    law_parse_ok_shape(b, false, u16::MAX as nat, 0);
    if b.len() > 0 && b[0] == 45u8 {
        law_unsigned_rejects_minus(b, u16::MAX as nat, 0);
    }
}

/// A `u16` is never read from text that starts with `-`, whatever follows.
pub proof fn law_u16_rejects_minus(b: Seq<u8>)
    ensures
        <u16 as FromSimdString>::parse_spec(seq![45u8] + b)
            == Err::<u16, ParseIntError>(ParseIntError::InvalidDigit),
{
    law_unsigned_rejects_minus(seq![45u8] + b, u16::MAX as nat, 0);
}

/// Reading a `u32`: a run of digits gives its value when that is at most
/// `u32::MAX` and a positive overflow otherwise, and a `+` in front of the
/// digits changes nothing.
pub proof fn law_u32_digits(d: Seq<u8>)
    requires
        d.len() > 0,
        all_digits(d),
    ensures
        <u32 as FromSimdString>::parse_spec(d) == (if fold_digits(d, 0) <= u32::MAX {
            Ok::<u32, ParseIntError>(fold_digits(d, 0) as u32)
        } else {
            Err(ParseIntError::PosOverflow)
        }),
        <u32 as FromSimdString>::parse_spec(seq![43u8] + d)
            == <u32 as FromSimdString>::parse_spec(d),
{
    law_parse_digits(d, false, u32::MAX as nat, 0);
}

/// Reading a `u32` reports empty text exactly when the text is empty,
/// reads a single byte that is not a digit as an invalid digit, and succeeds
/// only on a digit or `+` followed by digits.
pub proof fn law_u32_text(b: Seq<u8>)
    ensures
        <u32 as FromSimdString>::parse_spec(b)
            == Err::<u32, ParseIntError>(ParseIntError::Empty) <==> b.len() == 0,
        b.len() == 1 && !is_digit(b[0]) ==> <u32 as FromSimdString>::parse_spec(b)
            == Err::<u32, ParseIntError>(ParseIntError::InvalidDigit),
        <u32 as FromSimdString>::parse_spec(b) is Ok ==> {
            &&& b.len() > 0
            &&& (is_digit(b[0]) || b[0] == 43u8)
            &&& forall|j: int| 1 <= j < b.len() ==> is_digit(#[trigger] b[j])
        },
{
    law_parse_errors(b, false, u32::MAX as nat, 0);
    law_parse_ok_shape(b, false, u32::MAX as nat, 0);
    if b.len() > 0 && b[0] == 45u8 {
        law_unsigned_rejects_minus(b, u32::MAX as nat, 0);
    }
}

/// A `u32` is never read from text that starts with `-`, whatever follows.
pub proof fn law_u32_rejects_minus(b: Seq<u8>)
    ensures
        <u32 as FromSimdString>::parse_spec(seq![45u8] + b)
            == Err::<u32, ParseIntError>(ParseIntError::InvalidDigit),
{
    law_unsigned_rejects_minus(seq![45u8] + b, u32::MAX as nat, 0);
}

/// Reading a `u64`: a run of digits gives its value when that is at most
/// `u64::MAX` and a positive overflow otherwise, and a `+` in front of the
/// digits changes nothing.
pub proof fn law_u64_digits(d: Seq<u8>)
    requires
        d.len() > 0,
        all_digits(d),
    ensures
        <u64 as FromSimdString>::parse_spec(d) == (if fold_digits(d, 0) <= u64::MAX {
            Ok::<u64, ParseIntError>(fold_digits(d, 0) as u64)
        } else {
            Err(ParseIntError::PosOverflow)
        }),
        <u64 as FromSimdString>::parse_spec(seq![43u8] + d)
            == <u64 as FromSimdString>::parse_spec(d),
{
    law_parse_digits(d, false, u64::MAX as nat, 0);
}

/// Reading a `u64` reports empty text exactly when the text is empty,
/// reads a single byte that is not a digit as an invalid digit, and succeeds
/// only on a digit or `+` followed by digits.
pub proof fn law_u64_text(b: Seq<u8>)
    ensures
        <u64 as FromSimdString>::parse_spec(b)
            == Err::<u64, ParseIntError>(ParseIntError::Empty) <==> b.len() == 0,
        b.len() == 1 && !is_digit(b[0]) ==> <u64 as FromSimdString>::parse_spec(b)
            == Err::<u64, ParseIntError>(ParseIntError::InvalidDigit),
        <u64 as FromSimdString>::parse_spec(b) is Ok ==> {
            &&& b.len() > 0
            &&& (is_digit(b[0]) || b[0] == 43u8)
            &&& forall|j: int| 1 <= j < b.len() ==> is_digit(#[trigger] b[j])
        },
{
    law_parse_errors(b, false, u64::MAX as nat, 0);
    law_parse_ok_shape(b, false, u64::MAX as nat, 0);
    if b.len() > 0 && b[0] == 45u8 {
        law_unsigned_rejects_minus(b, u64::MAX as nat, 0);
    }
}

/// A `u64` is never read from text that starts with `-`, whatever follows.
pub proof fn law_u64_rejects_minus(b: Seq<u8>)
    ensures
        <u64 as FromSimdString>::parse_spec(seq![45u8] + b)
            == Err::<u64, ParseIntError>(ParseIntError::InvalidDigit),
{
    law_unsigned_rejects_minus(seq![45u8] + b, u64::MAX as nat, 0);
}

/// Reading a `u128`: a run of digits gives its value when that is at most
/// `u128::MAX` and a positive overflow otherwise, and a `+` in front of the
/// digits changes nothing.
pub proof fn law_u128_digits(d: Seq<u8>)
    requires
        d.len() > 0,
        all_digits(d),
    ensures
        <u128 as FromSimdString>::parse_spec(d) == (if fold_digits(d, 0) <= u128::MAX {
            Ok::<u128, ParseIntError>(fold_digits(d, 0) as u128)
        } else {
            Err(ParseIntError::PosOverflow)
        }),
        <u128 as FromSimdString>::parse_spec(seq![43u8] + d)
            == <u128 as FromSimdString>::parse_spec(d),
{
    law_parse_digits(d, false, u128::MAX as nat, 0);
}

/// Reading a `u128` reports empty text exactly when the text is empty,
/// reads a single byte that is not a digit as an invalid digit, and succeeds
/// only on a digit or `+` followed by digits.
pub proof fn law_u128_text(b: Seq<u8>)
    ensures
        <u128 as FromSimdString>::parse_spec(b)
            == Err::<u128, ParseIntError>(ParseIntError::Empty) <==> b.len() == 0,
        b.len() == 1 && !is_digit(b[0]) ==> <u128 as FromSimdString>::parse_spec(b)
            == Err::<u128, ParseIntError>(ParseIntError::InvalidDigit),
        <u128 as FromSimdString>::parse_spec(b) is Ok ==> {
            &&& b.len() > 0
            &&& (is_digit(b[0]) || b[0] == 43u8)
            &&& forall|j: int| 1 <= j < b.len() ==> is_digit(#[trigger] b[j])
        },
{
    law_parse_errors(b, false, u128::MAX as nat, 0);
    law_parse_ok_shape(b, false, u128::MAX as nat, 0);
    if b.len() > 0 && b[0] == 45u8 {
        law_unsigned_rejects_minus(b, u128::MAX as nat, 0);
    }
}

/// A `u128` is never read from text that starts with `-`, whatever follows.
pub proof fn law_u128_rejects_minus(b: Seq<u8>)
    ensures
        <u128 as FromSimdString>::parse_spec(seq![45u8] + b)
            == Err::<u128, ParseIntError>(ParseIntError::InvalidDigit),
{
    law_unsigned_rejects_minus(seq![45u8] + b, u128::MAX as nat, 0);
}

/// Reading a `usize`: a run of digits gives its value when that is at most
/// `usize::MAX` and a positive overflow otherwise, and a `+` in front of the
/// digits changes nothing.
pub proof fn law_usize_digits(d: Seq<u8>)
    requires
        d.len() > 0,
        all_digits(d),
    ensures
        <usize as FromSimdString>::parse_spec(d) == (if fold_digits(d, 0) <= usize::MAX {
            Ok::<usize, ParseIntError>(fold_digits(d, 0) as usize)
        } else {
            Err(ParseIntError::PosOverflow)
        }),
        <usize as FromSimdString>::parse_spec(seq![43u8] + d)
            == <usize as FromSimdString>::parse_spec(d),
{
    law_parse_digits(d, false, usize::MAX as nat, 0);
}

/// Reading a `usize` reports empty text exactly when the text is empty,
/// reads a single byte that is not a digit as an invalid digit, and succeeds
/// only on a digit or `+` followed by digits.
pub proof fn law_usize_text(b: Seq<u8>)
    ensures
        <usize as FromSimdString>::parse_spec(b)
            == Err::<usize, ParseIntError>(ParseIntError::Empty) <==> b.len() == 0,
        b.len() == 1 && !is_digit(b[0]) ==> <usize as FromSimdString>::parse_spec(b)
            == Err::<usize, ParseIntError>(ParseIntError::InvalidDigit),
        <usize as FromSimdString>::parse_spec(b) is Ok ==> {
            &&& b.len() > 0
            &&& (is_digit(b[0]) || b[0] == 43u8)
            &&& forall|j: int| 1 <= j < b.len() ==> is_digit(#[trigger] b[j])
        },
{
    law_parse_errors(b, false, usize::MAX as nat, 0);
    law_parse_ok_shape(b, false, usize::MAX as nat, 0);
    if b.len() > 0 && b[0] == 45u8 {
        law_unsigned_rejects_minus(b, usize::MAX as nat, 0);
    }
}

/// A `usize` is never read from text that starts with `-`, whatever follows.
pub proof fn law_usize_rejects_minus(b: Seq<u8>)
    ensures
        <usize as FromSimdString>::parse_spec(seq![45u8] + b)
            == Err::<usize, ParseIntError>(ParseIntError::InvalidDigit),
{
    law_unsigned_rejects_minus(seq![45u8] + b, usize::MAX as nat, 0);
}

/// Reading an `i8`: a run of digits gives its value when that is at most
/// `i8::MAX` and a positive overflow otherwise; a `+` in front changes
/// nothing; a `-` in front gives the negated value when it is at least
/// `i8::MIN` and a negative overflow otherwise.
pub proof fn law_i8_digits(d: Seq<u8>)
    requires
        d.len() > 0,
        all_digits(d),
    ensures
        <i8 as FromSimdString>::parse_spec(d) == (if fold_digits(d, 0) <= i8::MAX {
            Ok::<i8, ParseIntError>(fold_digits(d, 0) as i8)
        } else {
            Err(ParseIntError::PosOverflow)
        }),
        <i8 as FromSimdString>::parse_spec(seq![43u8] + d) == <i8 as FromSimdString>::parse_spec(d),
        <i8 as FromSimdString>::parse_spec(seq![45u8] + d)
            == (if -(fold_digits(d, 0) as int) >= i8::MIN {
            Ok::<i8, ParseIntError>((-(fold_digits(d, 0) as int)) as i8)
        } else {
            Err(ParseIntError::NegOverflow)
        }),
{
    law_parse_digits(d, true, i8::MAX as nat, (i8::MAX as nat + 1) as nat);
    law_parse_negative_digits(d, i8::MAX as nat, (i8::MAX as nat + 1) as nat);
}

/// Reading an `i8` reports empty text exactly when the text is empty,
/// reads a single byte that is not a digit as an invalid digit, and succeeds
/// only on a digit, `+` or `-` followed by digits.
pub proof fn law_i8_text(b: Seq<u8>)
    ensures
        <i8 as FromSimdString>::parse_spec(b)
            == Err::<i8, ParseIntError>(ParseIntError::Empty) <==> b.len() == 0,
        b.len() == 1 && !is_digit(b[0]) ==> <i8 as FromSimdString>::parse_spec(b)
            == Err::<i8, ParseIntError>(ParseIntError::InvalidDigit),
        <i8 as FromSimdString>::parse_spec(b) is Ok ==> {
            &&& b.len() > 0
            &&& (is_digit(b[0]) || b[0] == 43u8 || b[0] == 45u8)
            &&& forall|j: int| 1 <= j < b.len() ==> is_digit(#[trigger] b[j])
        },
{
    law_parse_errors(b, true, i8::MAX as nat, (i8::MAX as nat + 1) as nat);
    law_parse_ok_shape(b, true, i8::MAX as nat, (i8::MAX as nat + 1) as nat);
}

/// Reading an `i16`: a run of digits gives its value when that is at most
/// `i16::MAX` and a positive overflow otherwise; a `+` in front changes
/// nothing; a `-` in front gives the negated value when it is at least
/// `i16::MIN` and a negative overflow otherwise.
pub proof fn law_i16_digits(d: Seq<u8>)
    requires
        d.len() > 0,
        all_digits(d),
    ensures
        <i16 as FromSimdString>::parse_spec(d) == (if fold_digits(d, 0) <= i16::MAX {
            Ok::<i16, ParseIntError>(fold_digits(d, 0) as i16)
        } else {
            Err(ParseIntError::PosOverflow)
        }),
        <i16 as FromSimdString>::parse_spec(seq![43u8] + d)
            == <i16 as FromSimdString>::parse_spec(d),
        <i16 as FromSimdString>::parse_spec(seq![45u8] + d)
            == (if -(fold_digits(d, 0) as int) >= i16::MIN {
            Ok::<i16, ParseIntError>((-(fold_digits(d, 0) as int)) as i16)
        } else {
            Err(ParseIntError::NegOverflow)
        }),
{
    law_parse_digits(d, true, i16::MAX as nat, (i16::MAX as nat + 1) as nat);
    law_parse_negative_digits(d, i16::MAX as nat, (i16::MAX as nat + 1) as nat);
}

/// Reading an `i16` reports empty text exactly when the text is empty,
/// reads a single byte that is not a digit as an invalid digit, and succeeds
/// only on a digit, `+` or `-` followed by digits.
pub proof fn law_i16_text(b: Seq<u8>)
    ensures
        <i16 as FromSimdString>::parse_spec(b)
            == Err::<i16, ParseIntError>(ParseIntError::Empty) <==> b.len() == 0,
        b.len() == 1 && !is_digit(b[0]) ==> <i16 as FromSimdString>::parse_spec(b)
            == Err::<i16, ParseIntError>(ParseIntError::InvalidDigit),
        <i16 as FromSimdString>::parse_spec(b) is Ok ==> {
            &&& b.len() > 0
            &&& (is_digit(b[0]) || b[0] == 43u8 || b[0] == 45u8)
            &&& forall|j: int| 1 <= j < b.len() ==> is_digit(#[trigger] b[j])
        },
{
    law_parse_errors(b, true, i16::MAX as nat, (i16::MAX as nat + 1) as nat);
    law_parse_ok_shape(b, true, i16::MAX as nat, (i16::MAX as nat + 1) as nat);
}

/// Reading an `i32`: a run of digits gives its value when that is at most
/// `i32::MAX` and a positive overflow otherwise; a `+` in front changes
/// nothing; a `-` in front gives the negated value when it is at least
/// `i32::MIN` and a negative overflow otherwise.
pub proof fn law_i32_digits(d: Seq<u8>)
    requires
        d.len() > 0,
        all_digits(d),
    ensures
        <i32 as FromSimdString>::parse_spec(d) == (if fold_digits(d, 0) <= i32::MAX {
            Ok::<i32, ParseIntError>(fold_digits(d, 0) as i32)
        } else {
            Err(ParseIntError::PosOverflow)
        }),
        <i32 as FromSimdString>::parse_spec(seq![43u8] + d)
            == <i32 as FromSimdString>::parse_spec(d),
        <i32 as FromSimdString>::parse_spec(seq![45u8] + d)
            == (if -(fold_digits(d, 0) as int) >= i32::MIN {
            Ok::<i32, ParseIntError>((-(fold_digits(d, 0) as int)) as i32)
        } else {
            Err(ParseIntError::NegOverflow)
        }),
{
    law_parse_digits(d, true, i32::MAX as nat, (i32::MAX as nat + 1) as nat);
    law_parse_negative_digits(d, i32::MAX as nat, (i32::MAX as nat + 1) as nat);
}

/// Reading an `i32` reports empty text exactly when the text is empty,
/// reads a single byte that is not a digit as an invalid digit, and succeeds
/// only on a digit, `+` or `-` followed by digits.
pub proof fn law_i32_text(b: Seq<u8>)
    ensures
        <i32 as FromSimdString>::parse_spec(b)
            == Err::<i32, ParseIntError>(ParseIntError::Empty) <==> b.len() == 0,
        b.len() == 1 && !is_digit(b[0]) ==> <i32 as FromSimdString>::parse_spec(b)
            == Err::<i32, ParseIntError>(ParseIntError::InvalidDigit),
        <i32 as FromSimdString>::parse_spec(b) is Ok ==> {
            &&& b.len() > 0
            &&& (is_digit(b[0]) || b[0] == 43u8 || b[0] == 45u8)
            &&& forall|j: int| 1 <= j < b.len() ==> is_digit(#[trigger] b[j])
        },
{
    law_parse_errors(b, true, i32::MAX as nat, (i32::MAX as nat + 1) as nat);
    law_parse_ok_shape(b, true, i32::MAX as nat, (i32::MAX as nat + 1) as nat);
}

/// Reading an `i64`: a run of digits gives its value when that is at most
/// `i64::MAX` and a positive overflow otherwise; a `+` in front changes
/// nothing; a `-` in front gives the negated value when it is at least
/// `i64::MIN` and a negative overflow otherwise.
pub proof fn law_i64_digits(d: Seq<u8>)
    requires
        d.len() > 0,
        all_digits(d),
    ensures
        <i64 as FromSimdString>::parse_spec(d) == (if fold_digits(d, 0) <= i64::MAX {
            Ok::<i64, ParseIntError>(fold_digits(d, 0) as i64)
        } else {
            Err(ParseIntError::PosOverflow)
        }),
        <i64 as FromSimdString>::parse_spec(seq![43u8] + d)
            == <i64 as FromSimdString>::parse_spec(d),
        <i64 as FromSimdString>::parse_spec(seq![45u8] + d)
            == (if -(fold_digits(d, 0) as int) >= i64::MIN {
            Ok::<i64, ParseIntError>((-(fold_digits(d, 0) as int)) as i64)
        } else {
            Err(ParseIntError::NegOverflow)
        }),
{
    law_parse_digits(d, true, i64::MAX as nat, (i64::MAX as nat + 1) as nat);
    law_parse_negative_digits(d, i64::MAX as nat, (i64::MAX as nat + 1) as nat);
}

/// Reading an `i64` reports empty text exactly when the text is empty,
/// reads a single byte that is not a digit as an invalid digit, and succeeds
/// only on a digit, `+` or `-` followed by digits.
pub proof fn law_i64_text(b: Seq<u8>)
    ensures
        <i64 as FromSimdString>::parse_spec(b)
            == Err::<i64, ParseIntError>(ParseIntError::Empty) <==> b.len() == 0,
        b.len() == 1 && !is_digit(b[0]) ==> <i64 as FromSimdString>::parse_spec(b)
            == Err::<i64, ParseIntError>(ParseIntError::InvalidDigit),
        <i64 as FromSimdString>::parse_spec(b) is Ok ==> {
            &&& b.len() > 0
            &&& (is_digit(b[0]) || b[0] == 43u8 || b[0] == 45u8)
            &&& forall|j: int| 1 <= j < b.len() ==> is_digit(#[trigger] b[j])
        },
{
    law_parse_errors(b, true, i64::MAX as nat, (i64::MAX as nat + 1) as nat);
    law_parse_ok_shape(b, true, i64::MAX as nat, (i64::MAX as nat + 1) as nat);
}

/// Reading an `i128`: a run of digits gives its value when that is at most
/// `i128::MAX` and a positive overflow otherwise; a `+` in front changes
/// nothing; a `-` in front gives the negated value when it is at least
/// `i128::MIN` and a negative overflow otherwise.
pub proof fn law_i128_digits(d: Seq<u8>)
    requires
        d.len() > 0,
        all_digits(d),
    ensures
        <i128 as FromSimdString>::parse_spec(d) == (if fold_digits(d, 0) <= i128::MAX {
            Ok::<i128, ParseIntError>(fold_digits(d, 0) as i128)
        } else {
            Err(ParseIntError::PosOverflow)
        }),
        <i128 as FromSimdString>::parse_spec(seq![43u8] + d)
            == <i128 as FromSimdString>::parse_spec(d),
        <i128 as FromSimdString>::parse_spec(seq![45u8] + d)
            == (if -(fold_digits(d, 0) as int) >= i128::MIN {
            Ok::<i128, ParseIntError>((-(fold_digits(d, 0) as int)) as i128)
        } else {
            Err(ParseIntError::NegOverflow)
        }),
{
    law_parse_digits(d, true, i128::MAX as nat, (i128::MAX as nat + 1) as nat);
    law_parse_negative_digits(d, i128::MAX as nat, (i128::MAX as nat + 1) as nat);
}

/// Reading an `i128` reports empty text exactly when the text is empty,
/// reads a single byte that is not a digit as an invalid digit, and succeeds
/// only on a digit, `+` or `-` followed by digits.
pub proof fn law_i128_text(b: Seq<u8>)
    ensures
        <i128 as FromSimdString>::parse_spec(b)
            == Err::<i128, ParseIntError>(ParseIntError::Empty) <==> b.len() == 0,
        b.len() == 1 && !is_digit(b[0]) ==> <i128 as FromSimdString>::parse_spec(b)
            == Err::<i128, ParseIntError>(ParseIntError::InvalidDigit),
        <i128 as FromSimdString>::parse_spec(b) is Ok ==> {
            &&& b.len() > 0
            &&& (is_digit(b[0]) || b[0] == 43u8 || b[0] == 45u8)
            &&& forall|j: int| 1 <= j < b.len() ==> is_digit(#[trigger] b[j])
        },
{
    law_parse_errors(b, true, i128::MAX as nat, (i128::MAX as nat + 1) as nat);
    law_parse_ok_shape(b, true, i128::MAX as nat, (i128::MAX as nat + 1) as nat);
}

/// Reading an `isize`: a run of digits gives its value when that is at most
/// `isize::MAX` and a positive overflow otherwise; a `+` in front changes
/// nothing; a `-` in front gives the negated value when it is at least
/// `isize::MIN` and a negative overflow otherwise.
pub proof fn law_isize_digits(d: Seq<u8>)
    requires
        d.len() > 0,
        all_digits(d),
    ensures
        <isize as FromSimdString>::parse_spec(d) == (if fold_digits(d, 0) <= isize::MAX {
            Ok::<isize, ParseIntError>(fold_digits(d, 0) as isize)
        } else {
            Err(ParseIntError::PosOverflow)
        }),
        <isize as FromSimdString>::parse_spec(seq![43u8] + d)
            == <isize as FromSimdString>::parse_spec(d),
        <isize as FromSimdString>::parse_spec(seq![45u8] + d)
            == (if -(fold_digits(d, 0) as int) >= isize::MIN {
            Ok::<isize, ParseIntError>((-(fold_digits(d, 0) as int)) as isize)
        } else {
            Err(ParseIntError::NegOverflow)
        }),
{
    law_parse_digits(d, true, isize::MAX as nat, (isize::MAX as nat + 1) as nat);
    law_parse_negative_digits(d, isize::MAX as nat, (isize::MAX as nat + 1) as nat);
}

/// Reading an `isize` reports empty text exactly when the text is empty,
/// reads a single byte that is not a digit as an invalid digit, and succeeds
/// only on a digit, `+` or `-` followed by digits.
pub proof fn law_isize_text(b: Seq<u8>)
    ensures
        <isize as FromSimdString>::parse_spec(b)
            == Err::<isize, ParseIntError>(ParseIntError::Empty) <==> b.len() == 0,
        b.len() == 1 && !is_digit(b[0]) ==> <isize as FromSimdString>::parse_spec(b)
            == Err::<isize, ParseIntError>(ParseIntError::InvalidDigit),
        <isize as FromSimdString>::parse_spec(b) is Ok ==> {
            &&& b.len() > 0
            &&& (is_digit(b[0]) || b[0] == 43u8 || b[0] == 45u8)
            &&& forall|j: int| 1 <= j < b.len() ==> is_digit(#[trigger] b[j])
        },
{
    law_parse_errors(b, true, isize::MAX as nat, (isize::MAX as nat + 1) as nat);
    law_parse_ok_shape(b, true, isize::MAX as nat, (isize::MAX as nat + 1) as nat);
}

/// Reading an `i32` from a `SimdString` follows the same rules: digits give
/// their value up to `i32::MAX`, a `+` in front changes nothing, and a `-` in
/// front gives the negated value down to `i32::MIN`; beyond them it overflows.
pub proof fn law_simd_string_i32_digits(d: Seq<u8>)
    requires
        d.len() > 0,
        all_digits(d),
    ensures
        <i32 as FromSimdStr>::parse_spec(d) == (if fold_digits(d, 0) <= i32::MAX {
            Ok::<i32, ParseIntError>(fold_digits(d, 0) as i32)
        } else {
            Err(ParseIntError::PosOverflow)
        }),
        <i32 as FromSimdStr>::parse_spec(seq![43u8] + d) == <i32 as FromSimdStr>::parse_spec(d),
        <i32 as FromSimdStr>::parse_spec(seq![45u8] + d)
            == (if -(fold_digits(d, 0) as int) >= i32::MIN {
            Ok::<i32, ParseIntError>((-(fold_digits(d, 0) as int)) as i32)
        } else {
            Err(ParseIntError::NegOverflow)
        }),
{
    law_i32_digits(d);
}

} // verus!
