# localized_numbers

Locale-formatted decimal text and its matching CLDR plural category, both
computed by ICU4X from one decimal prepared by a single precision policy.

- `src/decimal.rs`: the decimal model (sign, padded integer digits, visible
  fraction digits), its ASCII text form, and the trimming and padding steps.
- `src/precision.rs`: precision policies and the preparation of a decimal.
- `src/formatter.rs`: the formatter, the plural operand limit, and the laws
  that tie `format`, `category` and `localize` together.
- `src/number.rs`: plural categories, keywords and the text/category pair.
- `src/error.rs`: precision errors and their messages.
- `src/bindings.rs`: every call into ICU4X and std that the rest relies on,
  each with the contract it is trusted to meet.
- `app/lib.rs`: `Display`/`Error` wrappers and float input, outside Verus.
