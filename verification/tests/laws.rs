//! Concrete instances of the laws that the library proves.

use tpt_quant_core::pack::{pack_bits, unpack_bits};
use tpt_quant_core::scheme::BitWidth;

#[test]
fn pack_then_unpack_from_a_larger_buffer() {
    // Bytes past the packed length do not disturb the values read back.
    let vals = [3i8, -4, 0, -1, 2];
    let mut buf = [0xFFu8; 6];
    pack_bits(&vals, BitWidth::Int3, &mut buf).unwrap();
    let mut out = [0i8; 5];
    unpack_bits(&buf, BitWidth::Int3, &mut out).unwrap();
    assert_eq!(out, vals);
}

#[test]
fn unpack_then_pack_restores_zero_padded_bytes() {
    // 0x5A 0x03 holds five Int3 fields in its low 15 bits and a zero top bit.
    let packed = [0x5Au8, 0x03];
    let mut vals = [0i8; 5];
    unpack_bits(&packed, BitWidth::Int3, &mut vals).unwrap();
    assert_eq!(vals, [2, 3, -3, 1, 0]);
    let mut again = [0u8; 2];
    pack_bits(&vals, BitWidth::Int3, &mut again).unwrap();
    assert_eq!(again, packed);
}

#[test]
fn value_fields_sit_at_their_bit_offsets() {
    // Int2 values 1, -2, -1, 0, 1 have codes 01, 10, 11, 00, 01 at bit offsets
    // 0, 2, 4, 6, 8.
    let mut packed = [0u8; 2];
    pack_bits(&[1, -2, -1, 0, 1], BitWidth::Int2, &mut packed).unwrap();
    assert_eq!(packed, [0b0011_1001, 0b0000_0001]);
}

#[test]
fn padding_bits_are_zero_even_over_a_dirty_buffer() {
    let mut packed = [0xFFu8; 2];
    pack_bits(&[-1, -1, -1], BitWidth::Int4, &mut packed).unwrap();
    assert_eq!(packed, [0xFF, 0x0F]);
}
