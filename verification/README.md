# simd_string

Trimming, searching and decimal integer parsing on UTF-8 text that give the
same results as the standard library's `trim_start_matches`, `find` and
`parse`, while walking the text in blocks of sixteen bytes.

- `src/string.rs`: the `SimdString` trait for `str` (`simd_trim_start_matches_ch`,
  `simd_trim_start_matches_str`, `simd_find_ch`, `simd_find_str`,
  `simd_trim_start`, `simd_parse`) and the block scans behind it.
- `src/pattern.rs`: `SimdPattern`, the patterns laid over a block of sixteen bytes.
- `src/from.rs`: `FromSimdString` and the block-wise decimal reader for every
  integer type.
- `src/simd_string.rs`: the owned `SimdString` text type.
- `src/model.rs`: the mathematical models that the contracts are stated in.
- `src/laws.rs`: properties of the operations as a whole; `src/lemmas.rs`: the
  facts about UTF-8, repeated patterns and lane masks that the proofs use.
- `app/main.rs`: a small program that parses a number.

Every function is verified with Verus; `tests/` compares the results with the
standard library.
