//! Trimming and searching on `str`, block by block of sixteen bytes.
use vstd::prelude::*;
use vstd::string::StringSliceAdditionalSpecFns;
use vstd::utf8::*;
use crate::from::FromSimdString;
use crate::lemmas::{
    lane, lemma_char_bytes, lemma_encode_injective, lemma_lane_and, lemma_lane_clear,
    lemma_lane_full, lemma_lane_set, lemma_lane_zero, lemma_periodic_prefix, lemma_str_bytes,
    lemma_trim_bytes,
};
use crate::model::{
    char_bytes, is_first_match, matches_at, repeated_prefix_len, trim_start_matches_spec,
};
use crate::pattern::SimdPattern;

verus! {

/// Compares the sixteen bytes of `src` at `offset` with the comparator of
/// `pat`; lane `k` of the mask is set when byte `offset + k` is equal to it.
fn simd_match_mask<P: SimdPattern>(src: &[u8], offset: usize, pat: &P) -> (mask: u16)
    requires
        pat.pattern_bytes().len() > 0,
        offset + 16 <= src@.len(),
    ensures
        forall|k: int|
            0 <= k < 16 ==> (lane(mask, k) <==> src@[offset + k] == pat.pattern_bytes()[(offset
                + k) % (pat.pattern_bytes().len() as int)]),
{
    let comp = pat.into_comparator(offset);
    let mut mask: u16 = 0;
    let mut k: usize = 0;
    proof {
        assert forall|j: int| 0 <= j < 16 implies !lane(mask, j) by {
            lemma_lane_zero(j as u16);
        }
    }
    while k < 16
        invariant
            k <= 16,
            offset + 16 <= src.len(),
            pat.pattern_bytes().len() > 0,
            forall|j: int|
                0 <= j < 16 ==> #[trigger] comp@[j] == pat.pattern_bytes()[(offset + j) % (
                pat.pattern_bytes().len() as int)],
            forall|j: int| 0 <= j < k ==> (lane(mask, j) <==> src@[offset + j] == comp@[j]),
            forall|j: int| k <= j < 16 ==> !lane(mask, j),
        decreases 16 - k,
    {
        let ghost old_mask = mask;
        if src[offset + k] == comp[k] {
            mask = mask | (1u16 << (k as u16));
            proof {
                assert forall|j: int| 0 <= j < 16 implies (lane(mask, j) <==> (lane(old_mask, j)
                    || j == k)) by {
                    lemma_lane_set(old_mask, k as u16, j as u16);
                }
            }
        }
        k += 1;
    }
    mask
}

/// Whether the pattern occurs in `src` starting at byte `i`.
fn bytes_match_at<P: SimdPattern>(src: &[u8], i: usize, pat: &P) -> (r: bool)
    ensures
        r == matches_at(src@, pat.pattern_bytes(), i as int),
{
    let n = pat.pattern_len();
    let len = src.len();
    if i > len || len - i < n {
        return false;
    }
    let mut k: usize = 0;
    while k < n
        invariant
            n == pat.pattern_bytes().len(),
            len == src@.len(),
            i + n <= len,
            k <= n,
            forall|j: int| 0 <= j < k ==> src@[i + j] == pat.pattern_bytes()[j],
        decreases n - k,
    {
        if src[i + k] != pat.byte_at(k) {
            proof {
                assert(src@.subrange(i as int, i + n)[k as int] == src@[i + k]);
            }
            return false;
        }
        k += 1;
    }
    proof {
        assert(src@.subrange(i as int, i + n) =~= pat.pattern_bytes());
    }
    true
}

/// Block scan for `trim_start_matches`: looks for the first byte that breaks
/// the endless repetition of the pattern within the whole blocks of sixteen
/// bytes.  When one is found, the text after the last whole copy of the pattern
/// before it is returned; when every whole block agrees, `None`.
fn simd_trim_start_matches<'a, P: SimdPattern>(s: &'a str, pat: &P) -> (r: Option<&'a str>)
    requires
        pat.pattern_bytes().len() > 0,
        valid_utf8(pat.pattern_bytes()),
    ensures
        r matches Some(t) ==> t.spec_bytes() == s.spec_bytes().skip(
            repeated_prefix_len(s.spec_bytes(), pat.pattern_bytes()) as int,
        ),
        r matches Some(t) ==> t@ == trim_start_matches_spec(s@, decode_utf8(pat.pattern_bytes())),
        r is None <==> forall|j: int|
            0 <= j < s.spec_bytes().len() - s.spec_bytes().len() % 16 ==> s.spec_bytes()[j]
                == pat.pattern_bytes()[j % (pat.pattern_bytes().len() as int)],
{
    let src: &[u8] = s.as_bytes();
    let len = src.len();
    let plen = pat.pattern_len();
    let ghost pb = pat.pattern_bytes();
    let mut pos: usize = 0;
    let ghost mut blocks: int = 0;
    proof {
        vstd::arithmetic::div_mod::lemma_fundamental_div_mod(len as int, 16);
        vstd::arithmetic::div_mod::lemma_mod_bound(len as int, 16);
    }
    while pos <= len && len - pos >= 16
        invariant
            src@ == s.spec_bytes(),
            len == src@.len(),
            pos <= len,
            pos == blocks * 16,
            len == 16 * (len as int / 16) + len as int % 16,
            0 <= len as int % 16 < 16,
            plen == pb.len(),
            pb == pat.pattern_bytes(),
            plen > 0,
            valid_utf8(pb),
            forall|j: int| 0 <= j < pos ==> src@[j] == pb[j % (plen as int)],
        decreases len - pos,
    {
        let mask = simd_match_mask(src, pos, pat);
        if mask != 0xffff {
            let t = mask.trailing_ones();
            proof {
                vstd::std_specs::bits::axiom_u16_trailing_ones(mask);
                assert forall|j: int| 0 <= j < pos + t implies src@[j] == pb[j % (plen as int)] by {
                    if j >= pos {
                        assert(lane(mask, j - pos));
                    }
                }
                assert(!lane(mask, t as int));
            }
            let l = pos + t as usize;
            proof {
                assert(blocks + 1 <= len as int / 16);
                assert(l < len - len % 16);
                assert(src@[l as int] != pb[l as int % (plen as int)]);
                lemma_periodic_prefix(src@, pb, l as int);
                decode_utf8_encode_utf8(pb);
                lemma_trim_bytes(s@, decode_utf8(pb));
                lemma_str_bytes(s);
            }
            let n = l / plen * plen;
            let (_, rest) = s.split_at(n);
            proof {
                lemma_str_bytes(rest);
                lemma_encode_injective(rest@, trim_start_matches_spec(s@, decode_utf8(pb)));
            }
            return Some(rest);
        }
        proof {
            assert forall|j: int| 0 <= j < pos + 16 implies src@[j] == pb[j % (plen as int)] by {
                if j >= pos {
                    lemma_lane_full(mask, (j - pos) as u16);
                    assert(lane(mask, j - pos));
                }
            }
        }
        pos += 16;
        proof {
            blocks = blocks + 1;
        }
    }
    proof {
        vstd::arithmetic::div_mod::lemma_fundamental_div_mod_converse(
            len as int,
            16,
            blocks,
            len - pos,
        );
    }
    None
}

/// Byte by byte `trim_start_matches`: removes whole copies of the pattern from
/// the start of `s` for as long as they follow each other.
fn trim_start_matches_scalar<'a, P: SimdPattern>(s: &'a str, pat: &P) -> (r: &'a str)
    requires
        valid_utf8(pat.pattern_bytes()),
    ensures
        r.spec_bytes() == s.spec_bytes().skip(
            repeated_prefix_len(s.spec_bytes(), pat.pattern_bytes()) as int,
        ),
{
    let src: &[u8] = s.as_bytes();
    let len = src.len();
    let plen = pat.pattern_len();
    let ghost pb = pat.pattern_bytes();
    if plen == 0 {
        proof {
            assert(s.spec_bytes().skip(0) =~= s.spec_bytes());
        }
        return s;
    }
    let mut i: usize = 0;
    proof {
        assert(src@.skip(0) =~= src@);
    }
    while i <= len && len - i >= plen && bytes_match_at(src, i, pat)
        invariant
            src@ == s.spec_bytes(),
            len == src@.len(),
            i <= len,
            plen == pb.len(),
            pb == pat.pattern_bytes(),
            plen > 0,
            repeated_prefix_len(src@, pb) == i + repeated_prefix_len(src@.skip(i as int), pb),
        decreases len - i,
    {
        proof {
            let rest = src@.skip(i as int);
            assert(pb.is_prefix_of(rest)) by {
                assert(rest.subrange(0, plen as int) =~= src@.subrange(i as int, i + plen));
            }
            assert(rest.skip(plen as int) =~= src@.skip(i + plen));
        }
        i += plen;
    }
    proof {
        let rest = src@.skip(i as int);
        if pb.is_prefix_of(rest) {
            assert(rest.subrange(0, plen as int) =~= src@.subrange(i as int, i + plen));
        }
        assert(repeated_prefix_len(rest, pb) == 0);
        decode_utf8_encode_utf8(pb);
        lemma_trim_bytes(s@, decode_utf8(pb));
        lemma_str_bytes(s);
    }
    let (_, rest) = s.split_at(i);
    rest
}

/// Byte by byte `find`, from byte `start` on, where the pattern does not
/// occur before `start`.
fn find_scalar_from<P: SimdPattern>(src: &[u8], pat: &P, start: usize) -> (r: Option<usize>)
    requires
        start <= src@.len(),
        forall|j: int| 0 <= j < start ==> !matches_at(src@, pat.pattern_bytes(), j),
    ensures
        is_first_match(src@, pat.pattern_bytes(), r),
{
    let len = src.len();
    let plen = pat.pattern_len();
    let mut j = start;
    while j <= len && len - j >= plen
        invariant
            len == src@.len(),
            plen == pat.pattern_bytes().len(),
            start <= j,
            j <= len,
            forall|k: int| 0 <= k < j ==> !matches_at(src@, pat.pattern_bytes(), k),
        decreases len - j,
    {
        if bytes_match_at(src, j, pat) {
            return Some(j);
        }
        proof {
            if plen == 0 {
                assert(src@.subrange(j as int, j as int) =~= pat.pattern_bytes());
            }
        }
        j += 1;
    }
    None
}

/// Block scan for `find`: the lanes where both the first and the last byte of
/// the pattern line up are the candidates, and each is checked in order.
fn simd_find_pattern<P: SimdPattern>(src: &[u8], pat: &P) -> (r: Option<usize>)
    requires
        pat.pattern_bytes().len() > 0,
    ensures
        is_first_match(src@, pat.pattern_bytes(), r),
{
    let len = src.len();
    let plen = pat.pattern_len();
    let ghost pb = pat.pattern_bytes();
    let first = pat.byte_at(0);
    let last = pat.byte_at(plen - 1);
    let mut i: usize = 0;
    while i <= len && len - i >= 15 && len - i - 15 >= plen
        invariant
            len == src@.len(),
            plen == pb.len(),
            pb == pat.pattern_bytes(),
            plen > 0,
            first == pb[0],
            last == pb[plen - 1],
            i <= len,
            forall|k: int| 0 <= k < i ==> !matches_at(src@, pb, k),
        decreases len - i,
    {
        let mask1 = simd_match_mask(src, i, &first);
        let mask2 = simd_match_mask(src, i + plen - 1, &last);
        let mut mask = mask1 & mask2;
        proof {
            assert forall|k: int| 0 <= k < 16 && #[trigger] matches_at(src@, pb, i + k) implies lane(
                mask,
                k,
            ) by {
                assert(src@.subrange(i + k, i + k + plen)[0] == src@[i + k]);
                assert(src@.subrange(i + k, i + k + plen)[plen - 1] == src@[i + k + plen - 1]);
                assert((i + k) % 1 == 0);
                assert((i + plen - 1 + k) % 1 == 0);
                assert(lane(mask1, k));
                assert(src@[i + plen - 1 + k] == last);
                assert(lane(mask2, k));
                lemma_lane_and(mask1, mask2, k as u16);
            }
        }
        while mask != 0
            invariant
                len == src@.len(),
                plen == pb.len(),
                pb == pat.pattern_bytes(),
                plen > 0,
                i + 15 + plen <= len,
                forall|k: int| 0 <= k < i ==> !matches_at(src@, pb, k),
                forall|k: int|
                    0 <= k < 16 && #[trigger] matches_at(src@, pb, i + k) ==> lane(mask, k),
            decreases mask,
        {
            let t = mask.trailing_zeros();
            proof {
                vstd::std_specs::bits::axiom_u16_trailing_zeros(mask);
            }
            if bytes_match_at(src, i + t as usize, pat) {
                proof {
                    assert forall|k: int| 0 <= k < i + t implies !matches_at(src@, pb, k) by {
                        if k >= i {
                            assert(!lane(mask, k - i));
                            assert(matches_at(src@, pb, i + (k - i)) ==> lane(mask, k - i));
                        }
                    }
                }
                return Some(i + t as usize);
            }
            let ghost old_mask = mask;
            mask = mask ^ (1u16 << (t as u16));
            proof {
                assert(lane(old_mask, t as int));
                assert forall|k: int|
                    0 <= k < 16 && #[trigger] matches_at(src@, pb, i + k) implies lane(mask, k) by {
                    lemma_lane_clear(old_mask, t as u16, k as u16);
                }
                lemma_lane_clear(old_mask, t as u16, 0);
            }
        }
        proof {
            assert forall|k: int| 0 <= k < i + 16 implies !matches_at(src@, pb, k) by {
                if k >= i {
                    lemma_lane_zero((k - i) as u16);
                    assert(!lane(mask, k - i));
                    assert(matches_at(src@, pb, i + (k - i)) ==> lane(mask, k - i));
                }
            }
        }
        i += 16;
    }
    find_scalar_from(src, pat, i)
}

/// Trimming and searching with the results of the standard library's
/// `trim_start_matches` and `find`, computed block by block of sixteen bytes.
pub trait SimdString {
    /// The characters of the text.
    spec fn text(&self) -> Seq<char>;

    /// The text without every leading `c`.
    fn simd_trim_start_matches_ch<'a>(&'a self, c: char) -> (r: &'a str)
        ensures
            r@ == trim_start_matches_spec(self.text(), seq![c]),
    ;

    /// The text without every leading copy of `s`; an empty `s` removes nothing.
    fn simd_trim_start_matches_str<'a>(&'a self, s: &str) -> (r: &'a str)
        ensures
            r@ == trim_start_matches_spec(self.text(), s@),
    ;

    /// The byte index of the first `c` in the text, if there is one.
    fn simd_find_ch(&self, c: char) -> (r: Option<usize>)
        ensures
            is_first_match(encode_utf8(self.text()), char_bytes(c), r),
    ;

    /// The byte index of the first occurrence of `s` in the text, if there is
    /// one; an empty `s` is found at 0.
    fn simd_find_str<'a>(&'a self, s: &str) -> (r: Option<usize>)
        ensures
            is_first_match(encode_utf8(self.text()), s.spec_bytes(), r),
    ;

    /// The text without its leading spaces.
    fn simd_trim_start(&self) -> (r: &str)
        ensures
            r@ == trim_start_matches_spec(self.text(), seq![' ']),
    ;

    /// The number that the text spells, read as an `F`.
    fn simd_parse<F: FromSimdString>(&self) -> (r: Result<F, F::Err>)
        ensures
            r == F::parse_spec(encode_utf8(self.text())),
    ;
}

impl SimdString for str {
    open spec fn text(&self) -> Seq<char> {
        self@
    }

    fn simd_trim_start_matches_ch<'a>(&'a self, c: char) -> (r: &'a str) {
        proof {
            lemma_char_bytes(c);
            encode_utf8_valid_utf8(seq![c]);
        }
        let r = if let Some(t) = simd_trim_start_matches(self, &c) {
            t
        } else {
            /* The pattern runs through every whole block: finish byte by byte. */
            trim_start_matches_scalar(self, &c)
        };
        proof {
            lemma_trim_bytes(self@, seq![c]);
            lemma_str_bytes(self);
            lemma_str_bytes(r);
            lemma_encode_injective(r@, trim_start_matches_spec(self@, seq![c]));
        }
        r
    }

    fn simd_trim_start_matches_str<'a>(&'a self, s: &str) -> (r: &'a str) {
        proof {
            lemma_str_bytes(s);
        }
        let r = if s.as_bytes().len() == 0 {
            trim_start_matches_scalar(self, &s)
        } else if let Some(t) = simd_trim_start_matches(self, &s) {
            t
        } else {
            trim_start_matches_scalar(self, &s)
        };
        proof {
            lemma_trim_bytes(self@, s@);
            lemma_str_bytes(self);
            lemma_str_bytes(r);
            lemma_encode_injective(r@, trim_start_matches_spec(self@, s@));
        }
        r
    }

    fn simd_find_ch(&self, c: char) -> (r: Option<usize>) {
        let src: &[u8] = self.as_bytes();
        proof {
            lemma_char_bytes(c);
        }
        if c.pattern_len() == 1 {
            let len = src.len();
            let ghost pb = char_bytes(c);
            let mut i: usize = 0;
            while i <= len && len - i >= 16
                invariant
                    len == src@.len(),
                    src@ == self.spec_bytes(),
                    pb == c.pattern_bytes(),
                    pb.len() == 1,
                    i <= len,
                    forall|k: int| 0 <= k < i ==> !matches_at(src@, pb, k),
                decreases len - i,
            {
                let mask = simd_match_mask(src, i, &c);
                proof {
                    assert forall|k: int| 0 <= k < 16 implies (lane(mask, k) <==> matches_at(
                        src@,
                        pb,
                        i + k,
                    )) by {
                        assert((i + k) % 1 == 0);
                        if src@[i + k] == pb[0] {
                            assert(src@.subrange(i + k, i + k + 1) =~= pb);
                        }
                        if matches_at(src@, pb, i + k) {
                            assert(src@.subrange(i + k, i + k + 1)[0] == src@[i + k]);
                        }
                    }
                }
                if mask != 0 {
                    let t = mask.trailing_zeros();
                    proof {
                        vstd::std_specs::bits::axiom_u16_trailing_zeros(mask);
                        assert forall|k: int| 0 <= k < i + t implies !matches_at(src@, pb, k) by {
                            if k >= i {
                                assert(!lane(mask, k - i));
                                assert(lane(mask, k - i) <==> matches_at(src@, pb, i + (k - i)));
                            }
                        }
                        assert(lane(mask, t as int));
                        assert(lane(mask, t as int) <==> matches_at(src@, pb, i + t));
                    }
                    return Some(i + t as usize);
                }
                proof {
                    assert forall|k: int| 0 <= k < i + 16 implies !matches_at(src@, pb, k) by {
                        if k >= i {
                            lemma_lane_zero((k - i) as u16);
                            assert(!lane(mask, k - i));
                            assert(lane(mask, k - i) <==> matches_at(src@, pb, i + (k - i)));
                        }
                    }
                }
                i += 16;
            }
            find_scalar_from(src, &c, i)
        } else {
            simd_find_pattern(src, &c)
        }
    }

    fn simd_find_str<'a>(&'a self, s: &str) -> (r: Option<usize>) {
        let src: &[u8] = self.as_bytes();
        if s.as_bytes().len() == 0 {
            find_scalar_from(src, &s, 0)
        } else {
            simd_find_pattern(src, &s)
        }
    }

    fn simd_trim_start(&self) -> (r: &str) {
        self.simd_trim_start_matches_ch(' ')
    }

    fn simd_parse<F: FromSimdString>(&self) -> (r: Result<F, F::Err>) {
        F::from_str(self)
    }
}

} // verus!
