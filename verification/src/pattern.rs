//! Patterns that the block scans lay over each block of sixteen bytes.
use vstd::prelude::*;
use vstd::string::StringSliceAdditionalSpecFns;
use vstd::utf8::*;
use crate::lemmas::{lemma_char_bytes, lemma_mod_next};
use crate::model::char_bytes;

verus! {

/// A pattern made of bytes, repeated without end when it is laid over a block.
pub trait SimdPattern {
    /// The bytes of the pattern.
    spec fn pattern_bytes(&self) -> Seq<u8>;

    /// The number of bytes of the pattern.
    fn pattern_len(&self) -> (n: usize)
        ensures
            n == self.pattern_bytes().len(),
    ;

    /// Byte `i` of the pattern.
    fn byte_at(&self, i: usize) -> (b: u8)
        requires
            i < self.pattern_bytes().len(),
        ensures
            b == self.pattern_bytes()[i as int],
    ;

    /// The sixteen bytes that the pattern, repeated from its start, puts at
    /// positions `offset .. offset + 16` of the text.
    fn into_comparator(&self, offset: usize) -> (r: [u8; 16])
        requires
            self.pattern_bytes().len() > 0,
        ensures
            forall|k: int|
                0 <= k < 16 ==> #[trigger] r@[k] == self.pattern_bytes()[(offset + k) % (
                self.pattern_bytes().len() as int)],
    ;
}

impl SimdPattern for u8 {
    open spec fn pattern_bytes(&self) -> Seq<u8> {
        seq![*self]
    }

    fn pattern_len(&self) -> (n: usize) {
        1
    }

    fn byte_at(&self, i: usize) -> (b: u8) {
        *self
    }

    fn into_comparator(&self, offset: usize) -> (r: [u8; 16]) {
        let r = [*self; 16];
        assert forall|k: int| 0 <= k < 16 implies #[trigger] r@[k] == self.pattern_bytes()[(offset
            + k) % (self.pattern_bytes().len() as int)] by {
            assert((offset + k) % 1 == 0);
        }
        r
    }
}

impl SimdPattern for char {
    open spec fn pattern_bytes(&self) -> Seq<u8> {
        char_bytes(*self)
    }

    fn pattern_len(&self) -> (n: usize) {
        let v = *self as u32;
        proof {
            lemma_char_bytes(*self);
            char_is_scalar(*self);
        }
        if v <= 0x7f {
            1
        } else if v <= 0x7ff {
            2
        } else if v <= 0xffff {
            3
        } else {
            4
        }
    }

    fn byte_at(&self, i: usize) -> (b: u8) {
        let v = *self as u32;
        proof {
            lemma_char_bytes(*self);
            char_is_scalar(*self);
        }
        if v <= 0x7f {
            (v & 0x7F) as u8
        } else if v <= 0x7ff {
            if i == 0 {
                0xC0 | ((v >> 6) & 0x1F) as u8
            } else {
                0x80 | (v & 0x3F) as u8
            }
        } else if v <= 0xffff {
            if i == 0 {
                0xE0 | ((v >> 12) & 0x0F) as u8
            } else if i == 1 {
                0x80 | ((v >> 6) & 0x3F) as u8
            } else {
                0x80 | (v & 0x3F) as u8
            }
        } else {
            if i == 0 {
                0xF0 | ((v >> 18) & 0x7) as u8
            } else if i == 1 {
                0x80 | ((v >> 12) & 0x3F) as u8
            } else if i == 2 {
                0x80 | ((v >> 6) & 0x3F) as u8
            } else {
                0x80 | (v & 0x3F) as u8
            }
        }
    }

    fn into_comparator(&self, offset: usize) -> (r: [u8; 16]) {
        let n = self.pattern_len();
        let mut r = [0u8; 16];
        let mut idx = offset % n;
        let mut k: usize = 0;
        while k < 16
            invariant
                n == self.pattern_bytes().len(),
                n > 0,
                k <= 16,
                idx == (offset + k) % (n as int),
                forall|j: int|
                    0 <= j < k ==> #[trigger] r@[j] == self.pattern_bytes()[(offset + j) % (n as int)],
            decreases 16 - k,
        {
            proof {
                vstd::arithmetic::div_mod::lemma_mod_bound(offset + k, n as int);
                lemma_mod_next(offset + k, n as int);
            }
            r[k] = self.byte_at(idx);
            idx = if idx + 1 == n {
                0
            } else {
                idx + 1
            };
            k += 1;
        }
        r
    }
}

impl<'b> SimdPattern for &'b str {
    open spec fn pattern_bytes(&self) -> Seq<u8> {
        (*self).spec_bytes()
    }

    fn pattern_len(&self) -> (n: usize) {
        self.as_bytes().len()
    }

    fn byte_at(&self, i: usize) -> (b: u8) {
        self.as_bytes()[i]
    }

    fn into_comparator(&self, offset: usize) -> (r: [u8; 16]) {
        let src = self.as_bytes();
        let n = src.len();
        let mut r = [0u8; 16];
        let mut idx = offset % n;
        let mut k: usize = 0;
        while k < 16
            invariant
                n == self.pattern_bytes().len(),
                src@ == self.pattern_bytes(),
                n > 0,
                k <= 16,
                idx == (offset + k) % (n as int),
                forall|j: int|
                    0 <= j < k ==> #[trigger] r@[j] == self.pattern_bytes()[(offset + j) % (n as int)],
            decreases 16 - k,
        {
            proof {
                vstd::arithmetic::div_mod::lemma_mod_bound(offset + k, n as int);
                lemma_mod_next(offset + k, n as int);
            }
            r[k] = src[idx];
            idx = if idx + 1 == n {
                0
            } else {
                idx + 1
            };
            k += 1;
        }
        r
    }
}

} // verus!
