//! Facts about UTF-8 encodings, repeated prefixes and lane masks that the
//! string operations rely on.
use vstd::prelude::*;
use vstd::utf8::*;
use vstd::string::StringSliceAdditionalSpecFns;
use crate::model::{
    matches_at, accumulate_digits, all_digits, char_bytes, fold_digits, is_digit, pow10, repeated_prefix_len,
    trim_start_matches_spec,
};

verus! {

/// Encoding distributes over concatenation.
pub proof fn lemma_encode_concat(a: Seq<char>, b: Seq<char>)
    ensures
        encode_utf8(a + b) == encode_utf8(a) + encode_utf8(b),
    decreases a.len(),
{
    if a.len() == 0 {
        assert(a + b =~= b);
        assert(encode_utf8(a) =~= Seq::<u8>::empty());
        assert(encode_utf8(a) + encode_utf8(b) =~= encode_utf8(b));
    } else {
        lemma_encode_concat(a.drop_first(), b);
        assert((a + b).drop_first() =~= a.drop_first() + b);
        assert((a + b)[0] == a[0]);
        assert(encode_utf8(a + b) =~= encode_scalar(a[0] as u32) + encode_utf8(a.drop_first() + b));
        assert(encode_utf8(a) + encode_utf8(b) =~= encode_scalar(a[0] as u32) + (encode_utf8(
            a.drop_first(),
        ) + encode_utf8(b)));
    }
}

/// The encoding of a character has between one and four bytes.
pub proof fn lemma_encode_scalar_len(c: char)
    ensures
        1 <= encode_scalar(c as u32).len() <= 4,
{
}

/// A character sequence is empty exactly when its encoding is.
pub proof fn lemma_encode_empty(a: Seq<char>)
    ensures
        (encode_utf8(a).len() == 0) == (a.len() == 0),
        encode_utf8(a).len() >= a.len(),
    decreases a.len(),
{
    if a.len() > 0 {
        lemma_encode_scalar_len(a[0]);
        lemma_encode_empty(a.drop_first());
    }
}

/// The bytes of one character are its scalar encoding.
pub proof fn lemma_char_bytes(c: char)
    ensures
        char_bytes(c) == encode_scalar(c as u32),
        1 <= char_bytes(c).len() <= 4,
{
    let e = Seq::<char>::empty();
    assert(seq![c].drop_first() =~= e);
    assert(encode_utf8(e) =~= Seq::<u8>::empty());
    assert(seq![c][0] == c);
    assert(char_bytes(c) == encode_scalar(c as u32) + encode_utf8(e));
    assert(char_bytes(c) =~= encode_scalar(c as u32));
    lemma_encode_scalar_len(c);
}

/// Encoding is injective.
pub proof fn lemma_encode_injective(a: Seq<char>, b: Seq<char>)
    requires
        encode_utf8(a) == encode_utf8(b),
    ensures
        a == b,
{
    encode_utf8_decode_utf8(a);
    encode_utf8_decode_utf8(b);
}

/// The bytes of a `str` are the encoding of its characters.
pub proof fn lemma_str_bytes(s: &str)
    ensures
        s.spec_bytes() == encode_utf8(s@),
        valid_utf8(s.spec_bytes()),
{
    encode_utf8_valid_utf8(s@);
}

/// If the encoding of `p` starts the encoding of `x`, then `p` starts `x`.
pub proof fn lemma_encode_prefix(p: Seq<char>, x: Seq<char>)
    requires
        encode_utf8(p).is_prefix_of(encode_utf8(x)),
    ensures
        p.is_prefix_of(x),
    decreases p.len(),
{
    if p.len() == 0 {
        assert(p =~= x.subrange(0, 0));
    } else {
        let bp = encode_utf8(p);
        let bx = encode_utf8(x);
        lemma_encode_empty(p);
        lemma_encode_empty(x);
        assert(x.len() > 0);
        encode_utf8_first_scalar(p);
        encode_utf8_first_scalar(x);
        lemma_encode_scalar_len(p[0]);
        let l = length_of_first_scalar(bp);
        assert(bp.len() >= l) by {
            lemma_encode_concat(seq![p[0]], p.drop_first());
            lemma_char_bytes(p[0]);
            assert(seq![p[0]] + p.drop_first() =~= p);
        }
        assert forall|k: int| 0 <= k < bp.len() implies bx[k] == bp[k] by {
            assert(bx.subrange(0, bp.len() as int)[k] == bx[k]);
        }
        assert(bx[0] == bp[0]);
        if l >= 2 {
            assert(bx[1] == bp[1]);
        }
        if l >= 3 {
            assert(bx[2] == bp[2]);
        }
        if l >= 4 {
            assert(bx[3] == bp[3]);
        }
        assert(decode_first_scalar(bx) == decode_first_scalar(bp));
        char_u32_cast(x[0], decode_first_scalar(bx));
        char_u32_cast(p[0], decode_first_scalar(bp));
        assert(x[0] == p[0]);
        let sc = encode_scalar(p[0] as u32);
        assert(bp =~= sc + encode_utf8(p.drop_first()));
        assert(bx =~= sc + encode_utf8(x.drop_first()));
        assert(encode_utf8(p.drop_first()) =~= bp.skip(sc.len() as int));
        assert(encode_utf8(x.drop_first()) =~= bx.skip(sc.len() as int));
        assert(encode_utf8(p.drop_first()).is_prefix_of(encode_utf8(x.drop_first()))) by {
            assert(encode_utf8(p.drop_first()) =~= encode_utf8(x.drop_first()).subrange(
                0,
                encode_utf8(p.drop_first()).len() as int,
            ));
        }
        lemma_encode_prefix(p.drop_first(), x.drop_first());
        assert(p =~= x.subrange(0, p.len() as int)) by {
            assert forall|k: int| 0 <= k < p.len() implies p[k] == x[k] by {
                if k > 0 {
                    assert(p.drop_first()[k - 1] == x.drop_first().subrange(
                        0,
                        p.len() - 1,
                    )[k - 1]);
                }
            }
        }
    }
}

/// The end of the encoding of the first `k` characters is a character boundary.
pub proof fn lemma_prefix_boundary(x: Seq<char>, k: int)
    requires
        0 <= k <= x.len(),
    ensures
        is_char_boundary(encode_utf8(x), encode_utf8(x.take(k)).len() as int),
        encode_utf8(x) == encode_utf8(x.take(k)) + encode_utf8(x.skip(k)),
    decreases k,
{
    lemma_encode_concat(x.take(k), x.skip(k));
    assert(x.take(k) + x.skip(k) =~= x);
    encode_utf8_valid_utf8(x);
    if k == 0 {
        assert(x.take(0) =~= Seq::<char>::empty());
    } else {
        let bx = encode_utf8(x);
        encode_utf8_first_scalar(x);
        assert(pop_first_scalar(bx) =~= encode_utf8(x.drop_first()));
        lemma_prefix_boundary(x.drop_first(), k - 1);
        assert(x.take(k).drop_first() =~= x.drop_first().take(k - 1));
        assert(x.take(k)[0] == x[0]);
        assert(encode_utf8(x.take(k)) =~= encode_scalar(x[0] as u32) + encode_utf8(
            x.drop_first().take(k - 1),
        ));
        lemma_encode_empty(x.take(k));
    }
}

/// Removing repeated patterns from characters and from their bytes agree: the
/// bytes that are removed end on a character boundary, and what remains is the
/// encoding of what `trim_start_matches_spec` leaves.
pub proof fn lemma_trim_bytes(x: Seq<char>, p: Seq<char>)
    ensures
        ({
            let n = repeated_prefix_len(encode_utf8(x), encode_utf8(p));
            &&& n <= encode_utf8(x).len()
            &&& is_char_boundary(encode_utf8(x), n as int)
            &&& encode_utf8(x).skip(n as int) == encode_utf8(trim_start_matches_spec(x, p))
        }),
    decreases x.len(),
{
    let bx = encode_utf8(x);
    let bp = encode_utf8(p);
    lemma_encode_empty(p);
    if p.len() > 0 && p.is_prefix_of(x) {
        let rest = x.skip(p.len() as int);
        assert(x.take(p.len() as int) =~= p);
        lemma_prefix_boundary(x, p.len() as int);
        assert(bp.is_prefix_of(bx)) by {
            assert(bp =~= bx.subrange(0, bp.len() as int));
        }
        assert(bx.skip(bp.len() as int) =~= encode_utf8(rest));
        lemma_trim_bytes(rest, p);
        let m = repeated_prefix_len(encode_utf8(rest), bp);
        assert(repeated_prefix_len(bx, bp) == bp.len() + m);
        assert(bx.skip((bp.len() + m) as int) =~= encode_utf8(rest).skip(m as int));
        // The boundary inside the rest lifts to the whole sequence.
        lemma_boundary_shift(x, p.len() as int, m as int);
    } else {
        if bp.len() > 0 && bp.is_prefix_of(bx) {
            lemma_encode_prefix(p, x);
        }
        assert(repeated_prefix_len(bx, bp) == 0);
        encode_utf8_valid_utf8(x);
        is_char_boundary_start_end_of_seq(bx);
        assert(bx.skip(0) =~= bx);
    }
}

/// A boundary of the encoding of `x.skip(k)` is, moved by the bytes of the first
/// `k` characters, a boundary of the encoding of `x`.
pub proof fn lemma_boundary_shift(x: Seq<char>, k: int, m: int)
    requires
        0 <= k <= x.len(),
        is_char_boundary(encode_utf8(x.skip(k)), m),
    ensures
        is_char_boundary(encode_utf8(x), encode_utf8(x.take(k)).len() + m),
    decreases k,
{
    encode_utf8_valid_utf8(x);
    encode_utf8_valid_utf8(x.skip(k));
    lemma_prefix_boundary(x, k);
    if k == 0 {
        assert(x.skip(0) =~= x);
        assert(x.take(0) =~= Seq::<char>::empty());
    } else {
        let bx = encode_utf8(x);
        encode_utf8_first_scalar(x);
        assert(pop_first_scalar(bx) =~= encode_utf8(x.drop_first()));
        assert(x.drop_first().skip(k - 1) =~= x.skip(k));
        lemma_boundary_shift(x.drop_first(), k - 1, m);
        assert(x.take(k).drop_first() =~= x.drop_first().take(k - 1));
        assert(x.take(k)[0] == x[0]);
        assert(encode_utf8(x.take(k)) =~= encode_scalar(x[0] as u32) + encode_utf8(
            x.drop_first().take(k - 1),
        ));
        lemma_encode_scalar_len(x[0]);
        assert(encode_utf8(x.skip(k)).len() >= 0);
        // m is at most the length of the rest, so the index is inside `bx`.
        lemma_boundary_le_len(encode_utf8(x.skip(k)), m);
    }
}

/// A character boundary lies within the sequence.
pub proof fn lemma_boundary_le_len(b: Seq<u8>, m: int)
    requires
        valid_utf8(b),
        is_char_boundary(b, m),
    ensures
        0 <= m <= b.len(),
    decreases b.len(),
{
    if m != 0 && b.len() > 0 {
        lemma_boundary_le_len(pop_first_scalar(b), m - length_of_first_scalar(b));
    }
}

/// Whether lane `k` of a 16-lane comparison mask is set.
pub open spec fn lane(m: u16, k: int) -> bool {
    (m >> (k as u16)) & 1u16 == 1u16
}

/// Setting a lane changes that lane only.
pub proof fn lemma_lane_set(m: u16, k: u16, j: u16)
    by (bit_vector)
    requires
        k < 16,
        j < 16,
    ensures
        (((m | (1u16 << k)) >> j) & 1u16 == 1u16) == (((m >> j) & 1u16 == 1u16) || j == k),
{
}

/// The empty mask has no lane set.
pub proof fn lemma_lane_zero(j: u16)
    by (bit_vector)
    ensures
        (0u16 >> j) & 1u16 != 1u16,
{
}

/// A lane of the intersection of two masks is set when it is set in both.
pub proof fn lemma_lane_and(m1: u16, m2: u16, j: u16)
    by (bit_vector)
    ensures
        (((m1 & m2) >> j) & 1u16 == 1u16) == (((m1 >> j) & 1u16 == 1u16) && ((m2 >> j) & 1u16
            == 1u16)),
{
}

/// Clearing a set lane lowers the mask and changes that lane only.
pub proof fn lemma_lane_clear(m: u16, t: u16, j: u16)
    by (bit_vector)
    requires
        t < 16,
        j < 16,
        (m >> t) & 1u16 == 1u16,
    ensures
        (((m ^ (1u16 << t)) >> j) & 1u16 == 1u16) == (((m >> j) & 1u16 == 1u16) && j != t),
        (m ^ (1u16 << t)) < m,
{
}

/// Every lane of the full mask is set.
pub proof fn lemma_lane_full(m: u16, j: u16)
    by (bit_vector)
    requires
        j < 16,
        m == 0xffffu16,
    ensures
        (m >> j) & 1u16 == 1u16,
{
}

/// A prefix of `b` that agrees with the endless repetition of `p`, and that
/// ends where `b` or the agreement ends, holds `l / |p|` whole copies of `p`.
pub proof fn lemma_periodic_prefix(b: Seq<u8>, p: Seq<u8>, l: int)
    requires
        p.len() > 0,
        0 <= l <= b.len(),
        forall|j: int| 0 <= j < l ==> b[j] == p[j % (p.len() as int)],
        l < b.len() ==> b[l] != p[l % (p.len() as int)],
    ensures
        repeated_prefix_len(b, p) == (l / (p.len() as int)) * (p.len() as int),
    decreases b.len(),
{
    let n = p.len() as int;
    if l >= n {
        lemma_periodic_step(b, p, l);
        lemma_periodic_prefix(b.skip(n), p, l - n);
        assert(repeated_prefix_len(b, p) == n + repeated_prefix_len(b.skip(n), p));
        vstd::arithmetic::div_mod::lemma_div_plus_one(l - n, n);
        assert((l / n) * n == n + ((l - n) / n) * n) by (nonlinear_arith)
            requires
                l / n == 1 + (l - n) / n,
        ;
    } else {
        if p.is_prefix_of(b) {
            vstd::arithmetic::div_mod::lemma_small_mod(l as nat, n as nat);
            assert(b.subrange(0, n)[l] == b[l]);
        }
        vstd::arithmetic::div_mod::lemma_basic_div(l, n);
        assert((l / n) * n == 0) by (nonlinear_arith)
            requires
                l / n == 0,
        ;
        assert(repeated_prefix_len(b, p) == 0);
    }
}

/// One copy of `p` starts `b`, and the agreement carries over to what follows it.
proof fn lemma_periodic_step(b: Seq<u8>, p: Seq<u8>, l: int)
    requires
        p.len() > 0,
        p.len() <= l <= b.len(),
        forall|j: int| 0 <= j < l ==> #[trigger] b[j] == p[j % (p.len() as int)],
        l < b.len() ==> b[l] != p[l % (p.len() as int)],
    ensures
        p.is_prefix_of(b),
        forall|j: int|
            0 <= j < l - p.len() ==> #[trigger] b.skip(p.len() as int)[j] == p[j % (
            p.len() as int)],
        l - p.len() < b.skip(p.len() as int).len() ==> b.skip(p.len() as int)[l - p.len()]
            != p[(l - p.len()) % (p.len() as int)],
{
    let n = p.len() as int;
    assert forall|j: int| 0 <= j < n implies #[trigger] b.subrange(0, n)[j] == p[j] by {
        vstd::arithmetic::div_mod::lemma_small_mod(j as nat, n as nat);
        assert(b[j] == p[j % n]);
    }
    assert(p =~= b.subrange(0, n));
    let b2 = b.skip(n);
    assert forall|j: int| 0 <= j < l - n implies #[trigger] b2[j] == p[j % n] by {
        lemma_shifted_period(b, p, l, j);
    }
    if l - n < b2.len() {
        vstd::arithmetic::div_mod::lemma_mod_add_multiples_vanish(l - n, n);
        assert(b2[l - n] == b[l]);
    }
}

/// Position `j` after the first copy of `p` agrees with the period as `n + j` did.
proof fn lemma_shifted_period(b: Seq<u8>, p: Seq<u8>, l: int, j: int)
    requires
        p.len() > 0,
        p.len() <= l <= b.len(),
        forall|j: int| 0 <= j < l ==> #[trigger] b[j] == p[j % (p.len() as int)],
        0 <= j < l - p.len(),
    ensures
        b.skip(p.len() as int)[j] == p[j % (p.len() as int)],
{
    let n = p.len() as int;
    vstd::arithmetic::div_mod::lemma_mod_add_multiples_vanish(j, n);
    assert(b[n + j] == p[(n + j) % n]);
}

/// Stepping one position along a pattern of length `n` moves to the next byte
/// of the pattern, or back to its first byte after the last one.
pub proof fn lemma_mod_next(x: int, n: int)
    requires
        n > 0,
        x >= 0,
    ensures
        (x + 1) % n == (if x % n + 1 == n {
            0
        } else {
            x % n + 1
        }),
{
    let q = x / n;
    let r = x % n;
    vstd::arithmetic::div_mod::lemma_fundamental_div_mod(x, n);
    vstd::arithmetic::div_mod::lemma_mod_bound(x, n);
    if r + 1 == n {
        assert(x + 1 == n * (q + 1)) by (nonlinear_arith)
            requires
                x == n * q + r,
                r + 1 == n,
        ;
        vstd::arithmetic::div_mod::lemma_mod_multiples_vanish(q + 1, 0, n);
        vstd::arithmetic::div_mod::lemma_small_mod(0, n as nat);
        assert(n * (q + 1) + 0 == x + 1);
    } else {
        vstd::arithmetic::div_mod::lemma_mod_multiples_vanish(q, r + 1, n);
        vstd::arithmetic::div_mod::lemma_small_mod((r + 1) as nat, n as nat);
        assert(n * q + (r + 1) == x + 1);
    }
}

/// Appending digit `d` to `acc` stays within `limit` exactly when `acc` is at
/// most `(limit - d) / 10`.
pub proof fn lemma_digit_step(acc: int, d: int, limit: int)
    requires
        0 <= acc,
        0 <= d <= limit,
    ensures
        (acc * 10 + d <= limit) == (acc <= (limit - d) / 10),
{
    vstd::arithmetic::div_mod::lemma_fundamental_div_mod(limit - d, 10);
    vstd::arithmetic::div_mod::lemma_mod_bound(limit - d, 10);
    let q = (limit - d) / 10;
    let r = (limit - d) % 10;
    assert(limit - d == 10 * q + r);
    if acc <= q {
        assert(acc * 10 <= q * 10) by (nonlinear_arith)
            requires
                acc <= q,
        ;
    } else {
        assert(acc * 10 >= q * 10 + 10) by (nonlinear_arith)
            requires
                acc >= q + 1,
        ;
    }
}

/// Appending a block worth `v` (below `base`) to `acc` stays within `limit`
/// exactly when `acc` is at most `(limit - v) / base`.
pub proof fn lemma_block_step(acc: int, v: int, base: int, limit: int)
    requires
        0 <= acc,
        0 <= v <= limit,
        base > 0,
    ensures
        (acc * base + v <= limit) == (acc <= (limit - v) / base),
{
    vstd::arithmetic::div_mod::lemma_fundamental_div_mod(limit - v, base);
    vstd::arithmetic::div_mod::lemma_mod_bound(limit - v, base);
    let q = (limit - v) / base;
    let r = (limit - v) % base;
    assert(limit - v == base * q + r);
    if acc <= q {
        assert(acc * base <= base * q) by (nonlinear_arith)
            requires
                acc <= q,
                base > 0,
        ;
    } else {
        assert(acc * base >= base * q + base) by (nonlinear_arith)
            requires
                acc >= q + 1,
                base > 0,
        ;
    }
}

/// Folding digits onto `acc` shifts `acc` by one decimal place per digit.
pub proof fn lemma_fold_shift(ds: Seq<u8>, acc: nat)
    ensures
        fold_digits(ds, acc) == acc * pow10(ds.len()) + fold_digits(ds, 0),
    decreases ds.len(),
{
    if ds.len() > 0 {
        let d = (ds[0] - 48) as nat;
        let rest = ds.drop_first();
        lemma_fold_shift(rest, acc * 10 + d);
        lemma_fold_shift(rest, d);
        let p = pow10(rest.len());
        assert(pow10(ds.len()) == 10 * p);
        assert((acc * 10 + d) * p == acc * (10 * p) + d * p) by (nonlinear_arith);
        assert(fold_digits(ds, acc) == fold_digits(rest, acc * 10 + d));
        assert(0 * 10 + d == d);
        assert(fold_digits(ds, 0) == fold_digits(rest, d));
        assert(fold_digits(ds, acc) == acc * (10 * p) + d * p + fold_digits(rest, 0));
        assert(fold_digits(ds, 0) == d * p + fold_digits(rest, 0));
        assert(acc * pow10(ds.len()) == acc * (10 * p));
    } else {
        assert(pow10(0) == 1);
        assert(acc * 1 == acc);
    }
}

/// Folding one more digit at the end multiplies by ten and adds it.
pub proof fn lemma_fold_push(ds: Seq<u8>, acc: nat, x: u8)
    ensures
        fold_digits(ds.push(x), acc) == fold_digits(ds, acc) * 10 + (x - 48) as nat,
    decreases ds.len(),
{
    let m = acc * 10 + (x - 48) as nat;
    if ds.len() == 0 {
        let e = Seq::<u8>::empty();
        assert(ds.push(x).drop_first() =~= e);
        assert(ds.push(x)[0] == x);
        assert(fold_digits(e, m) == m);
        assert(fold_digits(ds.push(x), acc) == fold_digits(e, m));
        assert(fold_digits(ds, acc) == acc);
    } else {
        let a2 = acc * 10 + (ds[0] - 48) as nat;
        assert(ds.push(x).drop_first() =~= ds.drop_first().push(x));
        assert(ds.push(x)[0] == ds[0]);
        lemma_fold_push(ds.drop_first(), a2, x);
        assert(fold_digits(ds.push(x), acc) == fold_digits(ds.drop_first().push(x), a2));
        assert(fold_digits(ds, acc) == fold_digits(ds.drop_first(), a2));
    }
}

/// A digit fold never lowers the value it starts from.
pub proof fn lemma_fold_grows(ds: Seq<u8>, acc: nat)
    ensures
        acc <= fold_digits(ds, acc),
    decreases ds.len(),
{
    if ds.len() > 0 {
        lemma_fold_grows(ds.drop_first(), acc * 10 + (ds[0] - 48) as nat);
    }
}

/// A block of digits whose fold stays within the limit is read in one step.
pub proof fn lemma_accumulate_block(
    ds: Seq<u8>,
    rest: Seq<u8>,
    acc: nat,
    limit: nat,
    negative: bool,
)
    requires
        all_digits(ds),
        fold_digits(ds, acc) <= limit,
    ensures
        accumulate_digits(ds + rest, acc, limit, negative) == accumulate_digits(
            rest,
            fold_digits(ds, acc),
            limit,
            negative,
        ),
    decreases ds.len(),
{
    if ds.len() == 0 {
        assert(ds + rest =~= rest);
    } else {
        let m = acc * 10 + (ds[0] - 48) as nat;
        assert(is_digit(ds[0]));
        assert((ds + rest)[0] == ds[0]);
        assert((ds + rest).drop_first() =~= ds.drop_first() + rest);
        lemma_fold_grows(ds.drop_first(), m);
        assert(all_digits(ds.drop_first())) by {
            assert forall|k: int| 0 <= k < ds.drop_first().len() implies is_digit(
                #[trigger] ds.drop_first()[k],
            ) by {
                assert(ds.drop_first()[k] == ds[k + 1]);
            }
        }
        lemma_accumulate_block(ds.drop_first(), rest, m, limit, negative);
    }
}

/// Folding two runs of digits one after the other folds the second onto the
/// result of the first.
pub proof fn lemma_fold_concat(a: Seq<u8>, b: Seq<u8>, acc: nat)
    ensures
        fold_digits(a + b, acc) == fold_digits(b, fold_digits(a, acc)),
    decreases a.len(),
{
    if a.len() == 0 {
        assert(a + b =~= b);
    } else {
        assert((a + b).drop_first() =~= a.drop_first() + b);
        assert((a + b)[0] == a[0]);
        lemma_fold_concat(a.drop_first(), b, acc * 10 + (a[0] - 48) as nat);
    }
}

/// The value of the digits of `blk` from `start` on, `w` of them.
pub open spec fn chunk_value(blk: Seq<u8>, start: int, w: int) -> nat {
    fold_digits(blk.subrange(start, start + w), 0)
}

/// Two neighbouring runs of `w` digits make one run of `2 * w`: the first is
/// worth `10^w` times as much.
pub proof fn lemma_chunk_combine(blk: Seq<u8>, start: int, w: int)
    requires
        0 <= start,
        0 <= w,
        start + 2 * w <= blk.len(),
    ensures
        chunk_value(blk, start, 2 * w) == chunk_value(blk, start, w) * pow10(w as nat)
            + chunk_value(blk, start + w, w),
{
    let a = blk.subrange(start, start + w);
    let b = blk.subrange(start + w, start + 2 * w);
    assert(blk.subrange(start, start + 2 * w) =~= a + b);
    lemma_fold_concat(a, b, 0);
    lemma_fold_shift(b, fold_digits(a, 0));
}

/// One digit is worth its own value.
pub proof fn lemma_chunk_digit(blk: Seq<u8>, x: int)
    requires
        0 <= x < blk.len(),
    ensures
        chunk_value(blk, x, 1) == (blk[x] - 48) as nat,
{
    let d = blk.subrange(x, x + 1);
    assert(d.drop_first() =~= Seq::<u8>::empty());
    assert(d[0] == blk[x]);
    assert(fold_digits(d.drop_first(), (0 * 10 + (blk[x] - 48) as nat) as nat) == 0 * 10 + (blk[x]
        - 48) as nat);
}

/// `n` digits are worth less than `10^n`.
pub proof fn lemma_fold_bound(ds: Seq<u8>)
    requires
        all_digits(ds),
    ensures
        fold_digits(ds, 0) < pow10(ds.len()),
    decreases ds.len(),
{
    if ds.len() > 0 {
        let rest = ds.drop_first();
        let d = (ds[0] - 48) as nat;
        assert(is_digit(ds[0]));
        assert forall|k: int| 0 <= k < rest.len() implies is_digit(#[trigger] rest[k]) by {
            assert(rest[k] == ds[k + 1]);
        }
        lemma_fold_bound(rest);
        lemma_fold_shift(rest, d);
        assert(0 * 10 + d == d);
        assert(fold_digits(ds, 0) == fold_digits(rest, d));
        let p = pow10(rest.len());
        assert(d * p + fold_digits(rest, 0) < 10 * p) by (nonlinear_arith)
            requires
                d <= 9,
                fold_digits(rest, 0) < p,
        ;
    }
}

/// Every part of a run of digits is digits.
pub proof fn lemma_all_digits_subrange(ds: Seq<u8>, a: int, b: int)
    requires
        all_digits(ds),
        0 <= a <= b <= ds.len(),
    ensures
        all_digits(ds.subrange(a, b)),
{
    assert forall|k: int| 0 <= k < b - a implies is_digit(#[trigger] ds.subrange(a, b)[k]) by {
        assert(ds.subrange(a, b)[k] == ds[a + k]);
    }
}

/// The value of a run of `w` digits of `blk` is below `10^w`.
pub proof fn lemma_chunk_bound(blk: Seq<u8>, start: int, w: int)
    requires
        all_digits(blk),
        0 <= start,
        0 <= w,
        start + w <= blk.len(),
    ensures
        chunk_value(blk, start, w) < pow10(w as nat),
{
    lemma_all_digits_subrange(blk, start, start + w);
    lemma_fold_bound(blk.subrange(start, start + w));
}

/// A character boundary of an encoding ends the encoding of some prefix.
pub proof fn lemma_boundary_index(x: Seq<char>, i: int) -> (j: int)
    requires
        is_char_boundary(encode_utf8(x), i),
    ensures
        0 <= j <= x.len(),
        encode_utf8(x.take(j)).len() == i,
    decreases x.len(),
{
    encode_utf8_valid_utf8(x);
    if i == 0 {
        assert(x.take(0) =~= Seq::<char>::empty());
        0
    } else {
        let bx = encode_utf8(x);
        lemma_boundary_le_len(bx, i);
        lemma_encode_empty(x);
        encode_utf8_first_scalar(x);
        assert(pop_first_scalar(bx) =~= encode_utf8(x.drop_first()));
        let l = length_of_first_scalar(bx);
        let j2 = lemma_boundary_index(x.drop_first(), i - l);
        assert(x.take(j2 + 1).drop_first() =~= x.drop_first().take(j2));
        assert(x.take(j2 + 1)[0] == x[0]);
        assert(encode_utf8(x.take(j2 + 1)) =~= encode_scalar(x[0] as u32) + encode_utf8(
            x.drop_first().take(j2),
        ));
        j2 + 1
    }
}

/// Longer prefixes have longer encodings.
pub proof fn lemma_prefix_encoding_grows(x: Seq<char>, j1: int, j2: int)
    requires
        0 <= j1 < j2 <= x.len(),
    ensures
        encode_utf8(x.take(j1)).len() < encode_utf8(x.take(j2)).len(),
{
    let a = x.take(j1);
    let b = x.subrange(j1, j2);
    assert(x.take(j2) =~= a + b);
    lemma_encode_concat(a, b);
    lemma_encode_empty(b);
}

/// Where `p` starts the characters after the first `j`, its encoding occurs in
/// the encoding of the text at the byte where those `j` characters end.
pub proof fn lemma_prefix_match(x: Seq<char>, p: Seq<char>, j: int)
    requires
        0 <= j <= x.len(),
        p.is_prefix_of(x.skip(j)),
    ensures
        matches_at(encode_utf8(x), encode_utf8(p), encode_utf8(x.take(j)).len() as int),
{
    let rest = x.skip(j);
    lemma_prefix_boundary(x, j);
    assert(rest =~= p + rest.skip(p.len() as int));
    lemma_encode_concat(p, rest.skip(p.len() as int));
    let e1 = encode_utf8(x.take(j));
    let bx = encode_utf8(x);
    let bp = encode_utf8(p);
    assert(bx.subrange(e1.len() as int, (e1.len() + bp.len()) as int) =~= bp);
}

/// An occurrence of the encoding of a non-empty text starts on a character boundary.
pub proof fn lemma_match_on_boundary(x: Seq<char>, p: Seq<char>, i: int)
    requires
        p.len() > 0,
        matches_at(encode_utf8(x), encode_utf8(p), i),
    ensures
        is_char_boundary(encode_utf8(x), i),
{
    let bx = encode_utf8(x);
    let bp = encode_utf8(p);
    lemma_encode_empty(p);
    encode_utf8_first_scalar(p);
    encode_utf8_valid_utf8(x);
    assert(bx.subrange(i, i + bp.len())[0] == bx[i]);
    assert(!is_continuation_byte(bp[0]));
    is_char_boundary_iff_not_is_continuation_byte(bx, i);
}

} // verus!
