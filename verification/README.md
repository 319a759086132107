# network_parser_rs

Bit-level codecs for network protocol headers. A record (`make_struct!`) or
an enumeration (`make_enum!`) is described by a *layout*: bit-width integers,
byte vectors sized by earlier fields, C strings, fixed arrays, conditional
blocks, padding (`consume`), excluded fields, nested records, and enumeration
tags chosen by rules. The library decodes and encodes values of a layout, and
reads the definitions written in the macros' syntax.

Layout of the crate:

- `src/` — the verified library (Verus).
  - `bits` — reading and writing big-endian bit fields.
  - `layout`, `model` — layouts, values and their mathematical models.
  - `expr` — the expressions of a layout (sizes, conditions, rules).
  - `decode`, `encode` — what decoding and encoding a layout mean, and the
    code that does it; `api` — the entry points and the `NetworkParse` trait.
  - `grammar`, `syntax` — reading a definition from its tokens.
  - `validate` — the rule on byte vectors without a size.
  - `roundtrip`, `reencode`, `laws` — the proofs that relate decoding and
    encoding: what is written decodes back, and clean bytes that are decoded
    encode back to themselves.
  - `utils` — bracket matching.
- `tests/` — tests of the library.
- `app/` — the procedural front end: it turns macro input into tokens for the
  library and emits the declarations and trait impls that call it.

Expressions in a definition (skips, sizes, conditions, rules) are read by
the library: literals (decimal, `0x`, `0o`, `0b`), earlier fields, `peek(n)`,
the tag, `as` casts to integer types, unary `!` and `-`, `* / %`, `+ -`,
`<< >>`, `&`, `^`, `|`, one comparison, `&&` and `||`, with Rust's
precedence; they compute on `i128`. Any other code (a function call, a named
constant, a rule value the library does not read) is kept as the
definition's own and evaluated where the layout is built, so it cannot name
a field. A nested type declared with the macros is decoded by the library
through its layout; any other type that implements `NetworkParse` can be
nested as a field of a record, alone, in a `Box` or in an `Option`, where
it reads and writes itself (not inside an `if` block or an enumeration).
`!` is logical on booleans and bitwise on integers.

What the round trip promises (`laws::law_record_round_trip`): a value that
was written into an empty buffer decodes from the written bytes to itself,
except that excluded fields come back as the default of their type and a
nested enumeration comes back as the variant that its rules pick for the
tag that was written. It holds when every integer fits its width, every
sized byte vector's length equals its size expression, every sized C string
is shorter than its bound, an unsized byte vector is the last field
written, each block's fields are all present when its condition holds on
the written bytes (`peek` included) and all absent when it does not, and
skips and sizes that name excluded fields give the same on both sides.
Writing fails instead of producing bytes when a byte field would start
inside a byte or a value does not have the shape of its layout.

Re-encoding (`laws::law_record_reencodes`, `laws::law_enum_reencodes`) is
proved for records and enumerations without integers wider than 64 bits,
whose skips read no data, whose skipped bits are zero, and whose decoded
enumerations write back the tag they were read from: no assignment
variant (it writes the default tag), and a carried value that converts
back to the tag.
