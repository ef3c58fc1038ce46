//! Properties of the operations as a whole, stated over the models that their
//! contracts use.
use vstd::prelude::*;
use vstd::utf8::encode_utf8;
use crate::from::FromSimdString;
use crate::lemmas::{
    lemma_fold_grows, lemma_accumulate_block, lemma_boundary_index, lemma_encode_prefix, lemma_fold_push,
    lemma_match_on_boundary, lemma_prefix_boundary, lemma_prefix_encoding_grows, lemma_prefix_match,
    lemma_encode_empty,
};
use crate::model::{
    accumulate_digits, all_digits, char_bytes, decimal_bytes, fold_digits, is_digit,
    is_first_match, matches_at, parse_int_spec, repeat_chars, trim_start_matches_spec,
    ParseIntError,
};

verus! {

/// Trimming removes whole copies of the pattern from the front and nothing
/// else, and what is left does not start with another copy.
pub proof fn law_trim_removes_whole_copies(s: Seq<char>, p: Seq<char>) -> (k: nat)
    ensures
        s == repeat_chars(p, k) + trim_start_matches_spec(s, p),
        p.len() > 0 ==> !p.is_prefix_of(trim_start_matches_spec(s, p)),
    decreases s.len(),
{
    if p.len() > 0 && p.is_prefix_of(s) {
        let rest = s.skip(p.len() as int);
        let k2 = law_trim_removes_whole_copies(rest, p);
        assert(s =~= p + rest);
        assert(repeat_chars(p, k2 + 1) == p + repeat_chars(p, k2));
        assert(s =~= repeat_chars(p, k2 + 1) + trim_start_matches_spec(s, p));
        k2 + 1
    } else {
        assert(repeat_chars(p, 0) + s =~= s);
        0
    }
}

/// Trimming twice with the same pattern gives what trimming once gives.
pub proof fn law_trim_idempotent(s: Seq<char>, p: Seq<char>)
    ensures
        trim_start_matches_spec(trim_start_matches_spec(s, p), p) == trim_start_matches_spec(s, p),
{
    law_trim_removes_whole_copies(s, p);
}

/// `find` answers with the byte offset of the first character position at
/// which the characters of the pattern occur, and with `None` when they occur
/// nowhere.
pub proof fn law_find_first_char_position(s: Seq<char>, p: Seq<char>, r: Option<usize>)
    requires
        is_first_match(encode_utf8(s), encode_utf8(p), r),
    ensures
        r matches Some(i) ==> exists|j: int|
            0 <= j <= s.len() && encode_utf8(s.take(j)).len() == i && #[trigger] p.is_prefix_of(
                s.skip(j),
            ) && forall|k: int| 0 <= k < j ==> !#[trigger] p.is_prefix_of(s.skip(k)),
        r is None ==> forall|j: int| 0 <= j <= s.len() ==> !#[trigger] p.is_prefix_of(s.skip(j)),
{
    let bs = encode_utf8(s);
    let bp = encode_utf8(p);
    match r {
        Some(i) => {
            let i = i as int;
            let j = if p.len() == 0 {
                assert(bp.len() == 0) by {
                    lemma_encode_empty(p);
                }
                if i > 0 {
                    assert(bs.subrange(0, 0) =~= bp);
                    assert(matches_at(bs, bp, 0));
                }
                assert(s.take(0) =~= Seq::<char>::empty());
                assert(encode_utf8(Seq::<char>::empty()) =~= Seq::<u8>::empty());
                assert(p =~= s.skip(0).subrange(0, 0));
                0
            } else {
                lemma_match_on_boundary(s, p, i);
                let j = lemma_boundary_index(s, i);
                lemma_prefix_boundary(s, j);
                let rest = encode_utf8(s.skip(j));
                assert(bp =~= rest.subrange(0, bp.len() as int)) by {
                    assert forall|k: int| 0 <= k < bp.len() implies bp[k] == rest[k] by {
                        assert(bs.subrange(i, i + bp.len())[k] == bs[i + k]);
                    }
                }
                lemma_encode_prefix(p, s.skip(j));
                j
            };
            assert forall|k: int| 0 <= k < j implies !#[trigger] p.is_prefix_of(s.skip(k)) by {
                if p.is_prefix_of(s.skip(k)) {
                    lemma_prefix_match(s, p, k);
                    lemma_prefix_encoding_grows(s, k, j);
                }
            }
            assert(p.is_prefix_of(s.skip(j)));
        },
        None => {
            assert forall|j: int| 0 <= j <= s.len() implies !#[trigger] p.is_prefix_of(s.skip(j)) by {
                if p.is_prefix_of(s.skip(j)) {
                    lemma_prefix_match(s, p, j);
                }
            }
        },
    }
}

/// Finding a character answers with the byte offset of its first occurrence.
pub proof fn law_find_char_position(s: Seq<char>, c: char, r: Option<usize>)
    requires
        is_first_match(encode_utf8(s), char_bytes(c), r),
    ensures
        r matches Some(i) ==> exists|j: int|
            0 <= j < s.len() && encode_utf8(s.take(j)).len() == i && #[trigger] s[j] == c
                && forall|k: int| 0 <= k < j ==> #[trigger] s[k] != c,
        r is None ==> forall|j: int| 0 <= j < s.len() ==> #[trigger] s[j] != c,
{
    law_find_first_char_position(s, seq![c], r);
    assert forall|j: int| 0 <= j < s.len() implies (seq![c].is_prefix_of(s.skip(j)) <==> s[j]
        == c) by {
        if s[j] == c {
            assert(seq![c] =~= s.skip(j).subrange(0, 1));
        }
        if seq![c].is_prefix_of(s.skip(j)) {
            assert(s.skip(j).subrange(0, 1)[0] == s[j]);
        }
    }
    if let Some(i) = r {
        let j = choose|j: int|
            0 <= j <= s.len() && encode_utf8(s.take(j)).len() == i && #[trigger] seq![c].is_prefix_of(
                s.skip(j),
            ) && forall|k: int| 0 <= k < j ==> !#[trigger] seq![c].is_prefix_of(s.skip(k));
        assert(j < s.len());
        assert(s[j] == c);
        assert forall|k: int| 0 <= k < j implies #[trigger] s[k] != c by {
            assert(!seq![c].is_prefix_of(s.skip(k)));
        }
    }
}

/// The decimal digits of a number are all digits, and they spell it.
proof fn lemma_decimal_digits(n: nat)
    ensures
        all_digits(decimal_bytes(n)),
        fold_digits(decimal_bytes(n), 0) == n,
        decimal_bytes(n).len() > 0,
        is_digit(decimal_bytes(n)[0]),
    decreases n,
{
    if n < 10 {
        let d = decimal_bytes(n);
        assert(d.drop_first() =~= Seq::<u8>::empty());
        assert(fold_digits(d.drop_first(), n) == n);
    } else {
        let head = decimal_bytes(n / 10);
        let x = (48 + n % 10) as u8;
        lemma_decimal_digits(n / 10);
        lemma_fold_push(head, 0, x);
        assert forall|k: int| 0 <= k < head.push(x).len() implies is_digit(
            #[trigger] head.push(x)[k],
        ) by {
            if k < head.len() {
                assert(head.push(x)[k] == head[k]);
            }
        }
        assert(head.push(x)[0] == head[0]);
    }
}

/// Reading the digits of a number within the limit gives the number back.
proof fn lemma_read_decimal(n: nat, limit: nat, negative: bool)
    requires
        n <= limit,
    ensures
        accumulate_digits(decimal_bytes(n), 0, limit, negative) == Ok::<nat, crate::model::ParseIntError>(n),
{
    lemma_decimal_digits(n);
    let e = Seq::<u8>::empty();
    assert(decimal_bytes(n) + e =~= decimal_bytes(n));
    lemma_accumulate_block(decimal_bytes(n), e, 0, limit, negative);
}

/// Parsing the decimal digits of a number that fits gives the number back; with
/// a `-` in front, where signs are allowed, it gives its negation.
pub proof fn law_parse_decimal_roundtrip(n: nat, signed: bool, pos_limit: nat, neg_limit: nat)
    ensures
        n <= pos_limit ==> parse_int_spec(decimal_bytes(n), signed, pos_limit, neg_limit) == Ok::<
            int,
            crate::model::ParseIntError,
        >(n as int),
        signed && n <= neg_limit ==> parse_int_spec(
            seq![45u8] + decimal_bytes(n),
            signed,
            pos_limit,
            neg_limit,
        ) == Ok::<int, crate::model::ParseIntError>(-(n as int)),
{
    lemma_decimal_digits(n);
    if n <= pos_limit {
        lemma_read_decimal(n, pos_limit, false);
    }
    if signed && n <= neg_limit {
        lemma_read_decimal(n, neg_limit, true);
        let b = seq![45u8] + decimal_bytes(n);
        assert(b.drop_first() =~= decimal_bytes(n));
        assert(b[0] == 45u8);
    }
}

/// Every `u64` is read back from its decimal text.
pub proof fn law_u64_roundtrip(n: u64)
    ensures
        <u64 as FromSimdString>::parse_spec(decimal_bytes(n as nat)) == Ok::<
            u64,
            crate::model::ParseIntError,
        >(n),
{
    law_parse_decimal_roundtrip(n as nat, false, u64::MAX as nat, 0);
}

/// Every `i64` is read back from its decimal text, with a `-` before the digits
/// of a negative number.
pub proof fn law_i64_roundtrip(n: i64)
    ensures
        n >= 0 ==> <i64 as FromSimdString>::parse_spec(decimal_bytes(n as nat)) == Ok::<
            i64,
            crate::model::ParseIntError,
        >(n),
        n < 0 ==> <i64 as FromSimdString>::parse_spec(
            seq![45u8] + decimal_bytes((-(n as int)) as nat),
        ) == Ok::<i64, crate::model::ParseIntError>(n),
{
    if n >= 0 {
        law_parse_decimal_roundtrip(n as nat, true, i64::MAX as nat, (i64::MAX as nat + 1) as nat);
    } else {
        law_parse_decimal_roundtrip(
            (-(n as int)) as nat,
            true,
            i64::MAX as nat,
            (i64::MAX as nat + 1) as nat,
        );
    }
}

/// Reading digits never reports empty text.
proof fn lemma_accumulate_not_empty(ds: Seq<u8>, acc: nat, limit: nat, negative: bool)
    ensures
        accumulate_digits(ds, acc, limit, negative) != Err::<nat, ParseIntError>(
            ParseIntError::Empty,
        ),
    decreases ds.len(),
{
    if ds.len() > 0 && is_digit(ds[0]) {
        let m = acc * 10 + (ds[0] - 48) as nat;
        lemma_accumulate_not_empty(ds.drop_first(), m, limit, negative);
    }
}

/// Only empty text is reported as empty, and a single byte that is not a
/// digit (a lone sign among them) is an invalid digit.
pub proof fn law_parse_errors(b: Seq<u8>, signed: bool, pos_limit: nat, neg_limit: nat)
    ensures
        parse_int_spec(b, signed, pos_limit, neg_limit) == Err::<int, ParseIntError>(
            ParseIntError::Empty,
        ) <==> b.len() == 0,
        b.len() == 1 && !is_digit(b[0]) ==> parse_int_spec(b, signed, pos_limit, neg_limit)
            == Err::<int, ParseIntError>(ParseIntError::InvalidDigit),
{
    if b.len() > 0 {
        lemma_accumulate_not_empty(b, 0, pos_limit, false);
        lemma_accumulate_not_empty(b.drop_first(), 0, pos_limit, false);
        lemma_accumulate_not_empty(b.drop_first(), 0, neg_limit, true);
    }
}

/// Reading digits that all are digits gives their value when every step stays
/// within the limit, and an overflow error otherwise.
proof fn lemma_accumulate_all_digits(ds: Seq<u8>, acc: nat, limit: nat, negative: bool)
    requires
        all_digits(ds),
        acc <= limit,
    ensures
        accumulate_digits(ds, acc, limit, negative) == (if fold_digits(ds, acc) <= limit {
            Ok::<nat, ParseIntError>(fold_digits(ds, acc))
        } else {
            Err(
                if negative {
                    ParseIntError::NegOverflow
                } else {
                    ParseIntError::PosOverflow
                },
            )
        }),
    decreases ds.len(),
{
    if ds.len() > 0 {
        let m = acc * 10 + (ds[0] - 48) as nat;
        assert(is_digit(ds[0]));
        lemma_fold_grows(ds.drop_first(), m);
        if m <= limit {
            assert forall|k: int| 0 <= k < ds.drop_first().len() implies is_digit(
                #[trigger] ds.drop_first()[k],
            ) by {
                assert(ds.drop_first()[k] == ds[k + 1]);
            }
            lemma_accumulate_all_digits(ds.drop_first(), m, limit, negative);
        }
    }
}

/// A successful read met only digits.
proof fn lemma_accumulate_ok_digits(ds: Seq<u8>, acc: nat, limit: nat, negative: bool)
    requires
        accumulate_digits(ds, acc, limit, negative) is Ok,
    ensures
        all_digits(ds),
    decreases ds.len(),
{
    if ds.len() > 0 {
        let m = acc * 10 + (ds[0] - 48) as nat;
        lemma_accumulate_ok_digits(ds.drop_first(), m, limit, negative);
        assert forall|k: int| 0 <= k < ds.len() implies is_digit(#[trigger] ds[k]) by {
            if k > 0 {
                assert(ds[k] == ds.drop_first()[k - 1]);
            }
        }
    }
}

/// Decimal digits, alone or after a `+`, leading zeros allowed, give their
/// value when it fits and `PosOverflow` when it does not.
pub proof fn law_parse_digits(d: Seq<u8>, signed: bool, pos_limit: nat, neg_limit: nat)
    requires
        d.len() > 0,
        all_digits(d),
    ensures
        parse_int_spec(d, signed, pos_limit, neg_limit) == (if fold_digits(d, 0) <= pos_limit {
            Ok::<int, ParseIntError>(fold_digits(d, 0) as int)
        } else {
            Err(ParseIntError::PosOverflow)
        }),
        parse_int_spec(seq![43u8] + d, signed, pos_limit, neg_limit) == parse_int_spec(
            d,
            signed,
            pos_limit,
            neg_limit,
        ),
{
    assert(is_digit(d[0]));
    lemma_accumulate_all_digits(d, 0, pos_limit, false);
    law_plus_sign_neutral(d, signed, pos_limit, neg_limit);
}

/// A `-` followed by decimal digits, where signs are allowed, gives the negated
/// value when it fits and `NegOverflow` when it does not.
pub proof fn law_parse_negative_digits(d: Seq<u8>, pos_limit: nat, neg_limit: nat)
    requires
        d.len() > 0,
        all_digits(d),
    ensures
        parse_int_spec(seq![45u8] + d, true, pos_limit, neg_limit) == (if fold_digits(d, 0)
            <= neg_limit {
            Ok::<int, ParseIntError>(-(fold_digits(d, 0) as int))
        } else {
            Err(ParseIntError::NegOverflow)
        }),
{
    let b = seq![45u8] + d;
    assert(b.drop_first() =~= d);
    assert(b[0] == 45u8);
    lemma_accumulate_all_digits(d, 0, neg_limit, true);
}

/// Where no sign is allowed, a text that starts with `-` is an invalid digit.
pub proof fn law_unsigned_rejects_minus(b: Seq<u8>, pos_limit: nat, neg_limit: nat)
    requires
        b.len() > 0,
        b[0] == 45u8,
    ensures
        parse_int_spec(b, false, pos_limit, neg_limit) == Err::<int, ParseIntError>(
            ParseIntError::InvalidDigit,
        ),
{
}

/// A `+` in front of a text that starts with neither sign changes nothing.
pub proof fn law_plus_sign_neutral(b: Seq<u8>, signed: bool, pos_limit: nat, neg_limit: nat)
    requires
        b.len() > 0,
        b[0] != 43u8,
        b[0] != 45u8,
    ensures
        parse_int_spec(seq![43u8] + b, signed, pos_limit, neg_limit) == parse_int_spec(
            b,
            signed,
            pos_limit,
            neg_limit,
        ),
{
    let t = seq![43u8] + b;
    assert(t.drop_first() =~= b);
    assert(t[0] == 43u8);
}

/// A text that parses is a sign or a digit followed only by digits; so a text
/// with a byte outside ASCII never parses.
pub proof fn law_parse_ok_shape(b: Seq<u8>, signed: bool, pos_limit: nat, neg_limit: nat)
    ensures
        parse_int_spec(b, signed, pos_limit, neg_limit) is Ok ==> {
            &&& b.len() > 0
            &&& (is_digit(b[0]) || b[0] == 43u8 || b[0] == 45u8)
            &&& forall|j: int| 1 <= j < b.len() ==> is_digit(#[trigger] b[j])
        },
        (exists|j: int| 0 <= j < b.len() && #[trigger] b[j] >= 128) ==> parse_int_spec(
            b,
            signed,
            pos_limit,
            neg_limit,
        ) is Err,
{
    if parse_int_spec(b, signed, pos_limit, neg_limit) is Ok {
        if b[0] == 43u8 {
            lemma_accumulate_ok_digits(b.drop_first(), 0, pos_limit, false);
        } else if b[0] == 45u8 && signed {
            lemma_accumulate_ok_digits(b.drop_first(), 0, neg_limit, true);
        } else {
            lemma_accumulate_ok_digits(b, 0, pos_limit, false);
        }
        assert forall|j: int| 1 <= j < b.len() implies is_digit(#[trigger] b[j]) by {
            if b[0] == 43u8 || (b[0] == 45u8 && signed) {
                assert(b[j] == b.drop_first()[j - 1]);
            }
        }
        if b[0] == 45u8 && !signed {
            assert(!is_digit(b[0]));
        }
    }
}

} // verus!
