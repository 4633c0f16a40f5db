//! Property tests: pack→unpack round-trips exactly for random in-range values,
//! and quantizing grid integers then dequantizing them gives back the integers
//! clamped to the grid, for every bit-width.

use proptest::arbitrary::any;
use proptest::collection::vec as pvec;
use proptest::sample::select;
use proptest::strategy::Strategy;
use proptest::test_runner::{TestCaseError, TestRunner};
use tpt_quant_core::dequant::{dequantize_codes, quantize_codes};
use tpt_quant_core::pack::{pack_bits, unpack_bits};
use tpt_quant_core::scheme::{BitWidth, QuantScheme};

fn all_bits() -> impl Strategy<Value = BitWidth> {
    select(vec![
        BitWidth::Int2,
        BitWidth::Int3,
        BitWidth::Int4,
        BitWidth::Int8,
    ])
}

/// Clamp an arbitrary `i8` into the representable range for `bits`.
fn clamp_to_range(v: i8, bits: BitWidth) -> i8 {
    v.clamp(bits.min_repr(), bits.max_repr())
}

#[test]
fn pack_unpack_roundtrip() {
    let mut runner = TestRunner::default();
    runner
        .run(
            &(pvec(any::<i8>(), 0..300), all_bits()),
            |(values, bits)| {
                let values: Vec<i8> = values.iter().map(|&v| clamp_to_range(v, bits)).collect();
                let need = (values.len() * bits.bits()).div_ceil(8);
                let mut packed = vec![0u8; need];
                pack_bits(&values, bits, &mut packed)
                    .map_err(|e| TestCaseError::fail(format!("{e:?}")))?;
                let mut out = vec![0i8; values.len()];
                unpack_bits(&packed, bits, &mut out)
                    .map_err(|e| TestCaseError::fail(format!("{e:?}")))?;
                if out != values {
                    return Err(TestCaseError::fail(format!("{out:?} != {values:?}")));
                }
                Ok(())
            },
        )
        .unwrap();
}

#[test]
fn quantize_dequantize_codes_clamp() {
    let mut runner = TestRunner::default();
    runner
        .run(
            &(pvec(any::<i32>(), 0..200), all_bits(), 1usize..=64, any::<bool>()),
            |(raw, bits, group_size, symmetric)| {
                let scheme = QuantScheme {
                    bits,
                    group_size,
                    symmetric,
                };
                let mut packed = vec![0u8; scheme.packed_len(raw.len())];
                quantize_codes(&raw, &scheme, &mut packed)
                    .map_err(|e| TestCaseError::fail(format!("{e:?}")))?;
                let mut back = vec![0i8; raw.len()];
                dequantize_codes(&packed, &scheme, &mut back)
                    .map_err(|e| TestCaseError::fail(format!("{e:?}")))?;
                for (&r, &q) in raw.iter().zip(back.iter()) {
                    let expected = r.clamp(bits.qmin(), bits.qmax());
                    if i32::from(q) != expected {
                        return Err(TestCaseError::fail(format!("{r} -> {q}, want {expected}")));
                    }
                }
                Ok(())
            },
        )
        .unwrap();
}
