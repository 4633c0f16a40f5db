//! Tests of the integer half of quantize / dequantize.

use tpt_quant_core::dequant::{dequantize_codes, quantize_codes, read_value};
use tpt_quant_core::pack::{pack_bits, unpack_bits};
use tpt_quant_core::scale::validate_group;
use tpt_quant_core::scheme::{BitWidth, QuantError, QuantScheme};

fn scheme(bits: BitWidth, symmetric: bool) -> QuantScheme {
    QuantScheme {
        bits,
        group_size: 1,
        symmetric,
    }
}

#[test]
fn quantize_codes_clamps_to_the_grid() {
    let s = scheme(BitWidth::Int4, true);
    let raw = [-100i32, -8, -1, 0, 7, 8, i32::MAX];
    let mut packed = [0u8; 4];
    quantize_codes(&raw, &s, &mut packed).unwrap();
    let mut back = [0i8; 7];
    dequantize_codes(&packed, &s, &mut back).unwrap();
    assert_eq!(back, [-8, -8, -1, 0, 7, 7, 7]);
}

#[test]
fn quantize_codes_matches_pack_bits_on_representable_values() {
    let raw = [-4i32, 3, -1, 0, 2];
    let vals = [-4i8, 3, -1, 0, 2];
    let mut a = [0u8; 2];
    let mut b = [0u8; 2];
    quantize_codes(&raw, &scheme(BitWidth::Int3, false), &mut a).unwrap();
    pack_bits(&vals, BitWidth::Int3, &mut b).unwrap();
    assert_eq!(a, b);
}

#[test]
fn quantize_codes_buffer_too_small() {
    let mut out = [0u8; 0];
    assert_eq!(
        quantize_codes(&[0, 1], &scheme(BitWidth::Int4, true), &mut out),
        Err(QuantError::BufferTooSmall { needed: 1, got: 0 })
    );
}

#[test]
fn quantize_codes_exact_bytes() {
    // Int8 with values -1 and 300 (clamped to 127): bytes 0xFF, 0x7F.
    let mut out = [0u8; 3];
    quantize_codes(&[-1, 300], &scheme(BitWidth::Int8, true), &mut out).unwrap();
    assert_eq!(out, [0xFF, 0x7F, 0]);
}

#[test]
fn dequantize_codes_rejects_short_buffer() {
    let mut out = [1i8; 9];
    assert_eq!(
        dequantize_codes(&[0u8; 2], &scheme(BitWidth::Int2, true), &mut out),
        Err(QuantError::InsufficientPackedData {
            needed: 9,
            available: 8
        })
    );
    assert_eq!(out, [1i8; 9]);
}

#[test]
fn dequantize_codes_agrees_with_unpack_bits() {
    let packed = [0x9Cu8, 0x3E, 0xF1, 0x07];
    for bits in [BitWidth::Int2, BitWidth::Int3, BitWidth::Int4, BitWidth::Int8] {
        let n = 32 / bits.bits();
        let mut a = vec![0i8; n];
        let mut b = vec![0i8; n];
        dequantize_codes(&packed, &scheme(bits, true), &mut a).unwrap();
        unpack_bits(&packed, bits, &mut b).unwrap();
        assert_eq!(a, b);
    }
}

#[test]
fn read_value_reads_past_the_end_as_zero() {
    // Int4 field 1 of 0xF0 is 0xF = -1; fields 2 and beyond lie past the buffer.
    assert_eq!(read_value(&[0xF0], 4, 0), 0);
    assert_eq!(read_value(&[0xF0], 4, 1), -1);
    assert_eq!(read_value(&[0xF0], 4, 2), 0);
    assert_eq!(read_value(&[0xF0], 4, 100), 0);
    // Int3 field 2 straddles bytes 0 and 1: bits 6..9 of 0x01C0 are 0b111.
    assert_eq!(read_value(&[0xC0, 0x01], 3, 2), -1);
}

#[test]
fn validate_group_errors_in_order() {
    let zero = QuantScheme {
        bits: BitWidth::Int4,
        group_size: 0,
        symmetric: true,
    };
    assert_eq!(validate_group(0, &zero), Err(QuantError::ZeroGroupSize));
    assert_eq!(validate_group(3, &zero), Err(QuantError::ZeroGroupSize));
    assert_eq!(
        validate_group(0, &scheme(BitWidth::Int4, true)),
        Err(QuantError::EmptyInput)
    );
    assert_eq!(validate_group(1, &scheme(BitWidth::Int4, true)), Ok(()));
}
