# simple_parse

A binary parser and writer for Rust values, verified with Verus. Every value is read from
the front of a byte slice and written to the end of a `Vec<u8>`; the contracts say, for
every input, which value (or which error) comes out, how many bytes are taken and how far
the context's cursor moves.

## Layout

- `src/lib.rs`: the context (`SpCtx`), the `SpRead`, `SpWrite` and `SpRoundTrip` traits,
  and the spec types `ReadOutcome` / `WriteOutcome` that contracts are stated with.
- `src/wire.rs`: the byte encoding of unsigned numbers in both byte orders.
- `src/reader.rs`: `SpReader`, a position in a byte slice.
- `src/primitive.rs`: integers and `bool`.
- `src/collections.rs`: `Vec`, slices, `Option`, `String`/`str`, `VecDeque`, C strings.
- `src/nonzero.rs`: numbers that are never zero.
- `src/count.rs`: fields that hold the number of items of another field.
- `src/borrowed.rs`: byte strings and strings read in place.
- `src/error.rs`: `SpError`.
- `src/derive_rules.rs`, `src/custom_attr.rs`: the decisions deriving makes from a type's
  declaration: variant ids, byte orders, length fields, size hints, custom attributes.
- `src/derive_plan.rs`: the steps derived readers and writers take, planned from a
  declaration held as plain values (`FieldDecl`, `VariantDecl`).
- `app/lib.rs`: `std::io` streams, `std::ffi::CString`, floats, and `Display` for errors.

The `#[derive(SpRead, SpWrite)]` macros themselves are not part of this crate: turning a
type's syntax into `FieldDecl`/`VariantDecl` values and a plan into Rust code needs a
proc-macro crate (syn, quote, darling), which neither the verified library nor `app/`
holds. The library holds what such a macro decides, as plans with exact contracts, and the
tests carry plans out by hand.

## Laws

Each type with `SpRoundTrip` proves that what it writes reads back as the same value
(`lemma_write_read`). Further laws: fixed-size numbers written back give the bytes read
(`law_fixed_read_then_write`), big-endian bytes are the little-endian ones reversed
(`lemma_big_endian_is_reversed`), in-place reads agree with owned ones
(`law_byte_slice_agrees`, `law_str_agrees`), distinct variant ids select their own variants
(`law_distinct_ids_select`), and derived writers and readers go through the same fields in
the same byte orders with matching lengths (`law_plans_agree`, `law_enum_plans_agree`).
