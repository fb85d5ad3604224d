# atoi_simd

Fast parsing of integers from byte slices of ASCII digits, with validation,
for `u8` to `u128`, `i8` to `i128`, `usize` and `isize`.

The library is written in Verus and proved against its contracts:

- `src/digits.rs`: the model: digit runs, their values, and what every kind
  of read returns for a given input.
- `src/error.rs`: `AtoiSimdError` and its meaning in the model.
- `src/fallback.rs`: reading eight bytes per machine word: loading a word,
  counting its digits and leading zeroes with bit tricks, and computing the
  value of up to sixteen digits with a few multiplications.
- `src/magnitude.rs`: the magnitude readers for every width, built on those
  word operations. Leading zeroes are skipped with the zero count that
  `parse_16_by_8` returns for a full chunk of sixteen digits; the digits are
  then accumulated sixteen at a time in one 128-bit value with checked
  arithmetic, and the run is judged against the type's limit (`RunLimit`):
  more than 20 digits for `u64`, 19 for `i64`, 39 for `u128` and `i128`
  give a `Size` error, and the narrower types read runs of any length.
  The `LEN_LIMIT` parameter of `parse_simd_u128` is kept for callers; the
  limit of 39 digits applies whatever its value.
- `src/linker.rs`: the traits `ParsePos`, `ParseNeg`, `Parse` and their
  implementations for each integer type, with the sign handling.
- `src/lib.rs`: the public functions (`parse`, `parse_prefix`,
  `parse_skipped`, ...).
- `src/laws.rs`: properties that hold of all inputs: decimal text reads back
  as its value, only signs and digits are accepted, skipping leading zeroes
  changes nothing for runs shorter than sixteen digits, leading zeroes never
  change what `parse_skipped` accepts, `parse_skipped` accepts exactly what
  `str::parse` accepts as its documentation describes it (`std_parse`), and
  more.

`app/` adds `Display` and `std::error::Error` on a copy of the error type.
