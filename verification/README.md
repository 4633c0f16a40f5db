# tpt-quant-core (verified)

Group-wise quantization primitives whose integer logic is verified with Verus.

## Layout

- `src/` — the verified library.
  - `scheme.rs`: `BitWidth`, `QuantScheme`, `QuantError`; the bit-width
    arithmetic (`bits`, `levels`, `qmin`, `qmax`, `packed_len`, ...).
  - `bitstream.rs`: the model. A sequence of fixed-width fields is one
    little-endian natural number; lemmas relate that number to its digits.
  - `pack.rs`: `pack_bits` / `unpack_bits`, specified against the model, and
    the laws: pack→unpack and unpack→pack round trips, field layout, zero
    padding, `Int8` byte identity.
  - `dequant.rs`: `quantize_codes` (clamp grid integers and pack them
    incrementally), `dequantize_codes` and `read_value` (random-access reads),
    with the quantize→dequantize clamping law.
  - `scale.rs`: `validate_group`, the error decisions of scale computation.
  - `fuzz.rs`: the pack/unpack fuzz harness, proved to always report success.
- `app/` — the floating-point side, which the verifier does not hold:
  `GroupScale`, `compute_group_scale`, round-half-to-even, `quantize_group` /
  `dequantize_group` (mapping floats to and from the grid around the verified
  integer functions), `RunningStats`, error messages, and the libFuzzer driver.
- `tests/` — unit, edge-case and property tests.

## Packed format

Values are written least-significant bit first and concatenated in order; the
first value occupies the low bits of byte 0, and the final byte is zero-padded.
Quantized integers round half-to-even and are clamped to `[qmin, qmax]`;
dequantization is `scale * (q - zero_point)`.
