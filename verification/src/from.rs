//! Decimal integer parsing with the results of the standard library's `parse`.
use vstd::prelude::*;
use vstd::string::StringSliceAdditionalSpecFns;
use crate::lemmas::{
    chunk_value, lemma_accumulate_block, lemma_block_step, lemma_chunk_bound, lemma_chunk_combine,
    lemma_chunk_digit, lemma_digit_step, lemma_fold_shift,
};
use crate::model::{
    accumulate_digits, all_digits, fold_digits, is_digit, parse_decimal_spec, parse_int_spec, pow10,
    ParseIntError,
};

verus! {

/// Types that can be read from decimal text.
pub trait FromSimdString: Sized {
    /// The error reported for text that is not a number of the type.
    type Err;

    /// What reading the text with bytes `b` gives.
    spec fn parse_spec(b: Seq<u8>) -> Result<Self, Self::Err>;

    /// Reads the number that `s` spells.
    fn from_str(s: &str) -> (r: Result<Self, Self::Err>)
        ensures
            r == Self::parse_spec(s.spec_bytes()),
    ;
}

/// Checks that the sixteen bytes of `src` at `i` are all digits, and gives the
/// value they spell.  The digits are combined in pairs, then the pairs in
/// fours, the fours in eights and the eights into one value.
fn block_value(src: &[u8], i: usize) -> (r: Option<u64>)
    requires
        i + 16 <= src@.len(),
    ensures
        r matches Some(v) ==> all_digits(src@.subrange(i as int, i + 16)) && v == fold_digits(
            src@.subrange(i as int, i + 16),
            0,
        ),
        r is None ==> !all_digits(src@.subrange(i as int, i + 16)),
{
    let ghost blk = src@.subrange(i as int, i + 16);
    /* Every byte must be a digit. */
    let mut k: usize = 0;
    while k < 16
        invariant
            i + 16 <= src.len(),
            blk == src@.subrange(i as int, i + 16),
            k <= 16,
            forall|j: int| 0 <= j < k ==> is_digit(#[trigger] blk[j]),
        decreases 16 - k,
    {
        let b = src[i + k];
        proof {
            assert(blk[k as int] == b);
        }
        if b < 48 || b > 57 {
            proof {
                assert(!is_digit(blk[k as int]));
            }
            return None;
        }
        k += 1;
    }
    proof {
        reveal_with_fuel(pow10, 9);
    }
    /* Pairs of digits. */
    let mut pairs = [0u64; 8];
    let mut j: usize = 0;
    while j < 8
        invariant
            i + 16 <= src.len(),
            blk == src@.subrange(i as int, i + 16),
            all_digits(blk),
            j <= 8,
            pow10(1) == 10,
            forall|m: int| 0 <= m < j ==> #[trigger] pairs@[m] == chunk_value(blk, 2 * m, 2),
        decreases 8 - j,
    {
        proof {
            assert(blk[2 * j as int] == src@[i + 2 * j]);
            assert(blk[2 * j + 1] == src@[i + 2 * j + 1]);
            assert(is_digit(blk[2 * j as int]));
            assert(is_digit(blk[2 * j + 1]));
            lemma_chunk_digit(blk, 2 * j as int);
            lemma_chunk_digit(blk, 2 * j + 1);
            lemma_chunk_combine(blk, 2 * j as int, 1);
        }
        let hi = src[i + 2 * j] - 48;
        let lo = src[i + 2 * j + 1] - 48;
        let h: u64 = hi as u64;
        let l: u64 = lo as u64;
        assert(h <= 9 && l <= 9);
        assert(h * 10 <= 90) by (nonlinear_arith)
            requires
                h <= 9,
        ;
        let val: u64 = h * 10 + l;
        pairs[j] = val;
        j += 1;
    }
    /* Fours. */
    let mut fours = [0u64; 4];
    let mut j: usize = 0;
    while j < 4
        invariant
            all_digits(blk),
            blk.len() == 16,
            j <= 4,
            pow10(2) == 100,
            forall|m: int| 0 <= m < 8 ==> #[trigger] pairs@[m] == chunk_value(blk, 2 * m, 2),
            forall|m: int| 0 <= m < j ==> #[trigger] fours@[m] == chunk_value(blk, 4 * m, 4),
        decreases 4 - j,
    {
        let hi = pairs[2 * j];
        let lo = pairs[2 * j + 1];
        proof {
            lemma_chunk_combine(blk, 4 * j as int, 2);
            lemma_chunk_bound(blk, 4 * j as int, 2);
            lemma_chunk_bound(blk, 4 * j + 2, 2);
        }
        fours[j] = hi * 100 + lo;
        j += 1;
    }
    /* Eights. */
    let mut eights = [0u64; 2];
    let mut j: usize = 0;
    while j < 2
        invariant
            all_digits(blk),
            blk.len() == 16,
            j <= 2,
            pow10(4) == 10000,
            forall|m: int| 0 <= m < 4 ==> #[trigger] fours@[m] == chunk_value(blk, 4 * m, 4),
            forall|m: int| 0 <= m < j ==> #[trigger] eights@[m] == chunk_value(blk, 8 * m, 8),
        decreases 2 - j,
    {
        let hi = fours[2 * j];
        let lo = fours[2 * j + 1];
        proof {
            lemma_chunk_combine(blk, 8 * j as int, 4);
            lemma_chunk_bound(blk, 8 * j as int, 4);
            lemma_chunk_bound(blk, 8 * j + 4, 4);
        }
        eights[j] = hi * 10000 + lo;
        j += 1;
    }
    proof {
        lemma_chunk_combine(blk, 0, 8);
        lemma_chunk_bound(blk, 0, 8);
        lemma_chunk_bound(blk, 8, 8);
        assert(pow10(8) == 100000000);
        assert(blk.subrange(0, 16) =~= blk);
    }
    Some(eights[0] * 100000000 + eights[1])
}

/// Reads the digits of `src` from byte `start` on into a magnitude that may not
/// exceed `limit`: whole blocks of sixteen digits at a time while they fit,
/// then digit by digit.
fn accumulate(src: &[u8], start: usize, limit: u128, negative: bool) -> (r: Result<
    u128,
    ParseIntError,
>)
    requires
        start <= src@.len(),
    ensures
        accumulate_digits(src@.skip(start as int), 0, limit as nat, negative) == (match r {
            Ok(m) => Ok(m as nat),
            Err(e) => Err(e),
        }),
        r matches Ok(m) ==> m <= limit,
{
    let len = src.len();
    let mut acc: u128 = 0;
    let mut i = start;
    let block_base: u128 = 10000000000000000;
    proof {
        reveal_with_fuel(pow10, 17);
    }
    while i <= len && len - i >= 16
        invariant
            len == src@.len(),
            start <= i <= len,
            acc <= limit,
            block_base == pow10(16),
            block_base == 10000000000000000,
            accumulate_digits(src@.skip(start as int), 0, limit as nat, negative)
                == accumulate_digits(src@.skip(i as int), acc as nat, limit as nat, negative),
        decreases len - i,
    {
        let v = match block_value(src, i) {
            Some(v) => v as u128,
            None => break,
        };
        if v > limit || acc > (limit - v) / block_base {
            break;
        }
        proof {
            let block = src@.subrange(i as int, i + 16);
            lemma_block_step(acc as int, v as int, block_base as int, limit as int);
            lemma_fold_shift(block, acc as nat);
            assert(block.len() == 16);
            lemma_accumulate_block(block, src@.skip(i + 16), acc as nat, limit as nat, negative);
            assert(src@.skip(i as int) =~= block + src@.skip(i + 16));
        }
        acc = acc * block_base + v;
        i += 16;
    }
    while i < len
        invariant
            len == src@.len(),
            start <= i <= len,
            acc <= limit,
            accumulate_digits(src@.skip(start as int), 0, limit as nat, negative)
                == accumulate_digits(src@.skip(i as int), acc as nat, limit as nat, negative),
        decreases len - i,
    {
        let b = src[i];
        proof {
            assert(src@.skip(i as int)[0] == b);
            assert(src@.skip(i as int).drop_first() =~= src@.skip(i + 1));
        }
        if b < 48 || b > 57 {
            return Err(ParseIntError::InvalidDigit);
        }
        let d = (b - 48) as u128;
        proof {
            if d <= limit {
                lemma_digit_step(acc as int, d as int, limit as int);
            }
        }
        if d > limit || acc > (limit - d) / 10 {
            return Err(
                if negative {
                    ParseIntError::NegOverflow
                } else {
                    ParseIntError::PosOverflow
                },
            );
        }
        acc = acc * 10 + d;
        i += 1;
    }
    proof {
        assert(src@.skip(i as int).len() == 0);
    }
    Ok(acc)
}

/// Reads a sign and a decimal magnitude: an optional `+`, or a `-` where
/// `signed` allows one, then at least one digit.  Positive magnitudes may
/// reach `pos_limit`, negative ones `neg_limit`.  Only base 10 is supported.
fn from_simd_str_radix(s: &str, radix: u32, signed: bool, pos_limit: u128, neg_limit: u128) -> (r:
    Result<(bool, u128), ParseIntError>)
    requires
        radix == 10,
    ensures
        parse_decimal_spec(s.spec_bytes(), signed, pos_limit as nat, neg_limit as nat) == (match r {
            Ok((negative, m)) => Ok((negative, m as nat)),
            Err(e) => Err(e),
        }),
        r matches Ok((negative, m)) ==> (negative ==> signed) && m <= (if negative {
            neg_limit
        } else {
            pos_limit
        }),
{
    let src: &[u8] = s.as_bytes();
    let len = src.len();
    if len == 0 {
        return Err(ParseIntError::Empty);
    }
    let first = src[0];
    if len == 1 && (first == 43 || first == 45) {
        return Err(ParseIntError::InvalidDigit);
    }
    proof {
        assert(src@.skip(1) =~= src@.drop_first());
        assert(src@.skip(0) =~= src@);
    }
    if first == 43 {
        match accumulate(src, 1, pos_limit, false) {
            Ok(m) => Ok((false, m)),
            Err(e) => Err(e),
        }
    } else if first == 45 && signed {
        match accumulate(src, 1, neg_limit, true) {
            Ok(m) => Ok((true, m)),
            Err(e) => Err(e),
        }
    } else {
        match accumulate(src, 0, pos_limit, false) {
            Ok(m) => Ok((false, m)),
            Err(e) => Err(e),
        }
    }
}

/// Reads an unsigned number of at most `max`.
fn parse_unsigned(s: &str, max: u128) -> (r: Result<u128, ParseIntError>)
    ensures
        parse_int_spec(s.spec_bytes(), false, max as nat, 0) == (match r {
            Ok(v) => Ok(v as int),
            Err(e) => Err(e),
        }),
        r matches Ok(v) ==> v <= max,
{
    match from_simd_str_radix(s, 10, false, max, 0) {
        Ok((_, m)) => Ok(m),
        Err(e) => Err(e),
    }
}

/// Reads a signed number between `-max - 1` and `max`.
fn parse_signed(s: &str, max: u128) -> (r: Result<i128, ParseIntError>)
    requires
        max <= i128::MAX,
    ensures
        parse_int_spec(s.spec_bytes(), true, max as nat, (max + 1) as nat) == (match r {
            Ok(v) => Ok(v as int),
            Err(e) => Err(e),
        }),
        r matches Ok(v) ==> -max - 1 <= v <= max,
{
    match from_simd_str_radix(s, 10, true, max, max + 1) {
        Ok((negative, m)) => {
            if !negative {
                Ok(m as i128)
            } else if m == 0 {
                Ok(0)
            } else {
                let v = (m - 1) as i128;
                Ok(-v - 1)
            }
        },
        Err(e) => Err(e),
    }
}

impl FromSimdString for u8 {
    type Err = ParseIntError;

    open spec fn parse_spec(b: Seq<u8>) -> Result<u8, ParseIntError> {
        match parse_int_spec(b, false, u8::MAX as nat, 0) {
            Ok(v) => Ok(v as u8),
            Err(e) => Err(e),
        }
    }

    fn from_str(s: &str) -> (r: Result<u8, ParseIntError>) {
        match parse_unsigned(s, u8::MAX as u128) {
            Ok(v) => Ok(v as u8),
            Err(e) => Err(e),
        }
    }
}

impl FromSimdString for u16 {
    type Err = ParseIntError;

    open spec fn parse_spec(b: Seq<u8>) -> Result<u16, ParseIntError> {
        match parse_int_spec(b, false, u16::MAX as nat, 0) {
            Ok(v) => Ok(v as u16),
            Err(e) => Err(e),
        }
    }

    fn from_str(s: &str) -> (r: Result<u16, ParseIntError>) {
        match parse_unsigned(s, u16::MAX as u128) {
            Ok(v) => Ok(v as u16),
            Err(e) => Err(e),
        }
    }
}

impl FromSimdString for u32 {
    type Err = ParseIntError;

    open spec fn parse_spec(b: Seq<u8>) -> Result<u32, ParseIntError> {
        match parse_int_spec(b, false, u32::MAX as nat, 0) {
            Ok(v) => Ok(v as u32),
            Err(e) => Err(e),
        }
    }

    fn from_str(s: &str) -> (r: Result<u32, ParseIntError>) {
        match parse_unsigned(s, u32::MAX as u128) {
            Ok(v) => Ok(v as u32),
            Err(e) => Err(e),
        }
    }
}

impl FromSimdString for u64 {
    type Err = ParseIntError;

    open spec fn parse_spec(b: Seq<u8>) -> Result<u64, ParseIntError> {
        match parse_int_spec(b, false, u64::MAX as nat, 0) {
            Ok(v) => Ok(v as u64),
            Err(e) => Err(e),
        }
    }

    fn from_str(s: &str) -> (r: Result<u64, ParseIntError>) {
        match parse_unsigned(s, u64::MAX as u128) {
            Ok(v) => Ok(v as u64),
            Err(e) => Err(e),
        }
    }
}

impl FromSimdString for u128 {
    type Err = ParseIntError;

    open spec fn parse_spec(b: Seq<u8>) -> Result<u128, ParseIntError> {
        match parse_int_spec(b, false, u128::MAX as nat, 0) {
            Ok(v) => Ok(v as u128),
            Err(e) => Err(e),
        }
    }

    fn from_str(s: &str) -> (r: Result<u128, ParseIntError>) {
        match parse_unsigned(s, u128::MAX as u128) {
            Ok(v) => Ok(v as u128),
            Err(e) => Err(e),
        }
    }
}

impl FromSimdString for usize {
    type Err = ParseIntError;

    open spec fn parse_spec(b: Seq<u8>) -> Result<usize, ParseIntError> {
        match parse_int_spec(b, false, usize::MAX as nat, 0) {
            Ok(v) => Ok(v as usize),
            Err(e) => Err(e),
        }
    }

    fn from_str(s: &str) -> (r: Result<usize, ParseIntError>) {
        match parse_unsigned(s, usize::MAX as u128) {
            Ok(v) => Ok(v as usize),
            Err(e) => Err(e),
        }
    }
}

impl FromSimdString for i8 {
    type Err = ParseIntError;

    open spec fn parse_spec(b: Seq<u8>) -> Result<i8, ParseIntError> {
        match parse_int_spec(b, true, i8::MAX as nat, (i8::MAX as nat + 1) as nat) {
            Ok(v) => Ok(v as i8),
            Err(e) => Err(e),
        }
    }

    fn from_str(s: &str) -> (r: Result<i8, ParseIntError>) {
        match parse_signed(s, i8::MAX as u128) {
            Ok(v) => Ok(v as i8),
            Err(e) => Err(e),
        }
    }
}

impl FromSimdString for i16 {
    type Err = ParseIntError;

    open spec fn parse_spec(b: Seq<u8>) -> Result<i16, ParseIntError> {
        match parse_int_spec(b, true, i16::MAX as nat, (i16::MAX as nat + 1) as nat) {
            Ok(v) => Ok(v as i16),
            Err(e) => Err(e),
        }
    }

    fn from_str(s: &str) -> (r: Result<i16, ParseIntError>) {
        match parse_signed(s, i16::MAX as u128) {
            Ok(v) => Ok(v as i16),
            Err(e) => Err(e),
        }
    }
}

impl FromSimdString for i32 {
    type Err = ParseIntError;

    open spec fn parse_spec(b: Seq<u8>) -> Result<i32, ParseIntError> {
        match parse_int_spec(b, true, i32::MAX as nat, (i32::MAX as nat + 1) as nat) {
            Ok(v) => Ok(v as i32),
            Err(e) => Err(e),
        }
    }

    fn from_str(s: &str) -> (r: Result<i32, ParseIntError>) {
        match parse_signed(s, i32::MAX as u128) {
            Ok(v) => Ok(v as i32),
            Err(e) => Err(e),
        }
    }
}

impl FromSimdString for i64 {
    type Err = ParseIntError;

    open spec fn parse_spec(b: Seq<u8>) -> Result<i64, ParseIntError> {
        match parse_int_spec(b, true, i64::MAX as nat, (i64::MAX as nat + 1) as nat) {
            Ok(v) => Ok(v as i64),
            Err(e) => Err(e),
        }
    }

    fn from_str(s: &str) -> (r: Result<i64, ParseIntError>) {
        match parse_signed(s, i64::MAX as u128) {
            Ok(v) => Ok(v as i64),
            Err(e) => Err(e),
        }
    }
}

impl FromSimdString for i128 {
    type Err = ParseIntError;

    open spec fn parse_spec(b: Seq<u8>) -> Result<i128, ParseIntError> {
        match parse_int_spec(b, true, i128::MAX as nat, (i128::MAX as nat + 1) as nat) {
            Ok(v) => Ok(v as i128),
            Err(e) => Err(e),
        }
    }

    fn from_str(s: &str) -> (r: Result<i128, ParseIntError>) {
        match parse_signed(s, i128::MAX as u128) {
            Ok(v) => Ok(v as i128),
            Err(e) => Err(e),
        }
    }
}

impl FromSimdString for isize {
    type Err = ParseIntError;

    open spec fn parse_spec(b: Seq<u8>) -> Result<isize, ParseIntError> {
        match parse_int_spec(b, true, isize::MAX as nat, (isize::MAX as nat + 1) as nat) {
            Ok(v) => Ok(v as isize),
            Err(e) => Err(e),
        }
    }

    fn from_str(s: &str) -> (r: Result<isize, ParseIntError>) {
        match parse_signed(s, isize::MAX as u128) {
            Ok(v) => Ok(v as isize),
            Err(e) => Err(e),
        }
    }
}

} // verus!
