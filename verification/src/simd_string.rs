//! An owned text with the block-scan operations of [`crate::string::SimdString`].
use vstd::prelude::*;
use vstd::string::StringSliceAdditionalSpecFns;
use vstd::utf8::encode_utf8;
use crate::from::FromSimdString;
use crate::model::{trim_start_matches_spec, ParseIntError};
use crate::string::SimdString as SimdStr;

verus! {

/// An owned text.
pub struct SimdString {
    s: String,
}

impl View for SimdString {
    type V = Seq<char>;

    closed spec fn view(&self) -> Seq<char> {
        self.s@
    }
}

impl SimdString {
    /// The UTF-8 bytes of the text.
    pub open spec fn bytes(&self) -> Seq<u8> {
        encode_utf8(self@)
    }

    /// Takes `s` as the text.
    pub fn new(s: String) -> (r: Self)
        ensures
            r@ == s@,
    {
        Self { s }
    }

    /// The text without every leading `c`.  The text must be at least eight
    /// bytes long, and its length a multiple of eight.
    pub fn trim_start_matches<'a>(&'a self, c: char) -> (r: &'a str)
        requires
            self.bytes().len() >= 8,
            self.bytes().len() % 8 == 0,
        ensures
            r@ == trim_start_matches_spec(self@, seq![c]),
    {
        self.s.as_str().simd_trim_start_matches_ch(c)
    }

    /// The text without its leading spaces, under the same conditions on its
    /// length as `trim_start_matches`.
    pub fn trim_start(&self) -> (r: &str)
        requires
            self.bytes().len() >= 8,
            self.bytes().len() % 8 == 0,
        ensures
            r@ == trim_start_matches_spec(self@, seq![' ']),
    {
        self.trim_start_matches(' ')
    }

    /// The number that the text spells, read as an `F`, under the same
    /// conditions on its length as `trim_start_matches`.
    pub fn parse<F: FromSimdStr>(&self) -> (r: Result<F, F::Err>)
        requires
            self.bytes().len() >= 8,
            self.bytes().len() % 8 == 0,
        ensures
            r == F::parse_spec(self.bytes()),
    {
        F::from_str(self)
    }
}

impl<'a> From<&'a str> for SimdString {
    /// An owned copy of `s`.
    fn from(s: &'a str) -> (r: SimdString)
        ensures
            r@ == s@,
    {
        SimdString::new(s.to_owned())
    }
}

/// The copy that `from` makes is pinned down by its characters alone (`r@ == s@`,
/// stated on `from` itself); a `String` is not determined by its characters in
/// specifications, so no single value is named here and `obeys_from_spec` is false.
impl<'a> vstd::std_specs::convert::FromSpecImpl<&'a str> for SimdString {
    open spec fn obeys_from_spec() -> bool {
        false
    }

    open spec fn from_spec(s: &'a str) -> SimdString {
        vstd::pervasive::arbitrary()
    }
}

/// Conversion of a text into a [`SimdString`].
pub trait ToSimdString {
    /// The characters of the text.
    spec fn text(&self) -> Seq<char>;

    /// An owned copy of the text.
    fn to_simd_string(&self) -> (r: SimdString)
        ensures
            r@ == self.text(),
    ;
}

impl ToSimdString for str {
    open spec fn text(&self) -> Seq<char> {
        self@
    }

    fn to_simd_string(&self) -> (r: SimdString) {
        SimdString::from(self)
    }
}

/// Types that can be read from the text of a [`SimdString`].
pub trait FromSimdStr: Sized {
    /// The error reported for text that is not a number of the type.
    type Err;

    /// What reading the text with bytes `b` gives.
    spec fn parse_spec(b: Seq<u8>) -> Result<Self, Self::Err>;

    /// Reads the number that the text of `s` spells.  The text must be at
    /// least eight bytes long, and its length a multiple of eight.
    fn from_str(s: &SimdString) -> (r: Result<Self, Self::Err>)
        requires
            s.bytes().len() >= 8,
            s.bytes().len() % 8 == 0,
        ensures
            r == Self::parse_spec(s.bytes()),
    ;
}

impl FromSimdStr for i32 {
    type Err = ParseIntError;

    open spec fn parse_spec(b: Seq<u8>) -> Result<i32, ParseIntError> {
        <i32 as FromSimdString>::parse_spec(b)
    }

    fn from_str(s: &SimdString) -> (r: Result<i32, ParseIntError>) {
        <i32 as FromSimdString>::from_str(s.s.as_str())
    }
}

} // verus!
