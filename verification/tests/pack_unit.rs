//! Unit tests of the pack / unpack primitives.

use tpt_quant_core::pack::{pack_bits, unpack_bits};
use tpt_quant_core::scheme::{BitWidth, QuantError};

fn roundtrip(values: &[i8], bits: BitWidth) {
    let need = (values.len() * bits.bits()).div_ceil(8);
    let mut packed = vec![0u8; need];
    pack_bits(values, bits, &mut packed).unwrap();
    let mut out = vec![0i8; values.len()];
    unpack_bits(&packed, bits, &mut out).unwrap();
    assert_eq!(out, values);
}

#[test]
fn roundtrip_int8() {
    roundtrip(&[-128, -1, 0, 1, 127, 42], BitWidth::Int8);
}

#[test]
fn roundtrip_int4_odd_length() {
    roundtrip(&[-8, 7, -1, 0, 3], BitWidth::Int4);
}

#[test]
fn roundtrip_int3_negatives() {
    roundtrip(&[-4, 3, -4, 0, 3, -2], BitWidth::Int3);
}

#[test]
fn roundtrip_int2() {
    roundtrip(&[-2, 1, -2, 1, 0], BitWidth::Int2);
}

#[test]
fn empty_roundtrip() {
    let mut packed = [0u8; 0];
    pack_bits(&[], BitWidth::Int4, &mut packed).unwrap();
    let mut out = [0i8; 0];
    unpack_bits(&[], BitWidth::Int4, &mut out).unwrap();
}

#[test]
fn out_of_range_rejected() {
    let mut out = [0u8; 1];
    assert!(matches!(
        pack_bits(&[8], BitWidth::Int4, &mut out),
        Err(QuantError::ValueOutOfRange { .. })
    ));
}

#[test]
fn too_small_buffer_rejected() {
    let mut out = [0u8; 0];
    assert_eq!(
        pack_bits(&[1, 2], BitWidth::Int8, &mut out),
        Err(QuantError::BufferTooSmall { needed: 2, got: 0 })
    );
}

#[test]
fn too_many_requested_rejected() {
    // One byte holds two Int4 values; requesting three must fail.
    let packed = [0u8; 1];
    let mut out = [0i8; 3];
    assert!(matches!(
        unpack_bits(&packed, BitWidth::Int4, &mut out),
        Err(QuantError::InsufficientPackedData { .. })
    ));
}

#[test]
fn packed_layout_least_significant_first() {
    // Int4 values [0b0001, 0b0010] pack as 0b0010_0001 = 0x21.
    let mut packed = [0u8; 1];
    pack_bits(&[0b0001, 0b0010], BitWidth::Int4, &mut packed).unwrap();
    assert_eq!(packed[0], 0b0010_0001);
}

#[test]
fn pack_error_writes_only_full_bytes_before_bad_value() {
    // Int3: values 0..3 fill 9 bits; the bad value at index 3 comes after one
    // full byte has been written. The byte after it and the bytes past the
    // packed length are untouched.
    let mut out = [0xAAu8; 4];
    let res = pack_bits(&[1, 2, 3, 5, 0], BitWidth::Int3, &mut out);
    assert_eq!(
        res,
        Err(QuantError::ValueOutOfRange { value: 5, min: -4, max: 3 })
    );
    // 1 | 2 << 3 | 3 << 6 = 0b11_010_001 -> low byte 0xD1.
    assert_eq!(out, [0xD1, 0xAA, 0xAA, 0xAA]);
}

#[test]
fn pack_leaves_bytes_past_packed_length() {
    let mut out = [0xEEu8; 3];
    pack_bits(&[-1, -1], BitWidth::Int2, &mut out).unwrap();
    assert_eq!(out, [0b0000_1111, 0xEE, 0xEE]);
}

#[test]
fn buffer_too_small_leaves_output_untouched() {
    let mut out = [7u8; 1];
    assert_eq!(
        pack_bits(&[1, 1, 1], BitWidth::Int4, &mut out),
        Err(QuantError::BufferTooSmall { needed: 2, got: 1 })
    );
    assert_eq!(out, [7]);
}

#[test]
fn unpack_sign_extends_negative_fields() {
    // 0b11_10_01_00 holds the Int2 fields 0, 1, -2, -1.
    let mut out = [0i8; 4];
    unpack_bits(&[0b1110_0100], BitWidth::Int2, &mut out).unwrap();
    assert_eq!(out, [0, 1, -2, -1]);
}

#[test]
fn unpack_reads_fields_across_byte_boundaries() {
    // Int3 fields of 0xFF 0x01: 7,7 then (0b11 | 1<<2) = 0b111 -> -1, then 0b000.
    let mut out = [0i8; 5];
    unpack_bits(&[0xFF, 0x01], BitWidth::Int3, &mut out).unwrap();
    assert_eq!(out, [-1, -1, -1, 0, 0]);
}

#[test]
fn unpack_error_leaves_output_untouched() {
    let mut out = [5i8; 3];
    assert_eq!(
        unpack_bits(&[0u8], BitWidth::Int4, &mut out),
        Err(QuantError::InsufficientPackedData { needed: 3, available: 2 })
    );
    assert_eq!(out, [5, 5, 5]);
}
