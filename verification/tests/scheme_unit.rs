//! Unit tests of the stable vocabulary.

use tpt_quant_core::scheme::{BitWidth, QuantScheme};

#[test]
fn bitwidth_bounds_are_symmetric_twos_complement() {
    assert_eq!(BitWidth::Int2.qmin(), -2);
    assert_eq!(BitWidth::Int2.qmax(), 1);
    assert_eq!(BitWidth::Int3.qmin(), -4);
    assert_eq!(BitWidth::Int3.qmax(), 3);
    assert_eq!(BitWidth::Int4.qmin(), -8);
    assert_eq!(BitWidth::Int4.qmax(), 7);
    assert_eq!(BitWidth::Int8.qmin(), -128);
    assert_eq!(BitWidth::Int8.qmax(), 127);
}

#[test]
fn levels_equal_two_to_the_bits() {
    assert_eq!(BitWidth::Int2.levels(), 4);
    assert_eq!(BitWidth::Int3.levels(), 8);
    assert_eq!(BitWidth::Int4.levels(), 16);
    assert_eq!(BitWidth::Int8.levels(), 256);
}

#[test]
fn derived_traits_present() {
    let a = BitWidth::Int4;
    let b = a;
    assert_eq!(a, b);
    let c = BitWidth::Int8;
    assert_ne!(a, c);
    assert!(matches!(BitWidth::default(), BitWidth::Int8));

    let s = QuantScheme::default();
    assert!(matches!(s.bits, BitWidth::Int8));
    assert_eq!(s.group_size, 1);
    assert!(s.symmetric);
}

#[test]
fn packed_len_formula() {
    // Int3: 3 values -> 9 bits -> 2 bytes.
    assert_eq!(
        QuantScheme {
            bits: BitWidth::Int3,
            group_size: 3,
            symmetric: true
        }
        .packed_len(3),
        2
    );
    // Int8: N values -> N bytes.
    assert_eq!(
        QuantScheme {
            bits: BitWidth::Int8,
            group_size: 1,
            symmetric: true
        }
        .packed_len(5),
        5
    );
    // Int4: 1 value -> 1 byte.
    assert_eq!(
        QuantScheme {
            bits: BitWidth::Int4,
            group_size: 1,
            symmetric: true
        }
        .packed_len(1),
        1
    );
}

#[test]
fn bits_and_values_per_byte() {
    assert_eq!(BitWidth::Int2.bits(), 2);
    assert_eq!(BitWidth::Int3.bits(), 3);
    assert_eq!(BitWidth::Int4.bits(), 4);
    assert_eq!(BitWidth::Int8.bits(), 8);
    assert_eq!(BitWidth::Int2.values_per_byte(), 4);
    assert_eq!(BitWidth::Int3.values_per_byte(), 2);
    assert_eq!(BitWidth::Int4.values_per_byte(), 2);
    assert_eq!(BitWidth::Int8.values_per_byte(), 1);
}

#[test]
fn min_and_max_repr_match_qmin_qmax() {
    for bits in [BitWidth::Int2, BitWidth::Int3, BitWidth::Int4, BitWidth::Int8] {
        assert_eq!(i32::from(bits.min_repr()), bits.qmin());
        assert_eq!(i32::from(bits.max_repr()), bits.qmax());
        assert_eq!(bits.qmax() - bits.qmin() + 1, bits.levels() as i32);
    }
}

#[test]
fn packed_len_zero_and_partial_bytes() {
    let s = QuantScheme {
        bits: BitWidth::Int2,
        group_size: 4,
        symmetric: false,
    };
    assert_eq!(s.packed_len(0), 0);
    assert_eq!(s.packed_len(4), 1);
    assert_eq!(s.packed_len(5), 2);
    let s3 = QuantScheme {
        bits: BitWidth::Int3,
        group_size: 8,
        symmetric: true,
    };
    assert_eq!(s3.packed_len(8), 3);
    assert_eq!(s3.packed_len(9), 4);
}
