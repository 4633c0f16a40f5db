//! Bit-packing primitives for the supported [`BitWidth`]s.
//!
//! [`pack_bits`] squeezes a slice of `i8` quantized values into as few bytes as
//! possible; [`unpack_bits`] reverses it. Values are written least-significant
//! bit first and concatenated in order, so the first value occupies the low bits
//! of byte 0. The final byte is zero-padded.
//!
//! In the model, the values form one number, `stream`: value `i` contributes its
//! two's-complement code times `2^(bits * i)`. The packed bytes are the base-256
//! digits of that number, and unpacking reads `bits`-wide fields of the number
//! that the bytes spell.
use crate::bitstream::{
    byte_digits, bytes_value, code, decode, digit, digits_fit, digits_of, fits_signed,
    lemma_code_bound, lemma_decode_code, lemma_digit_stable, lemma_field_grow, lemma_field_split,
    lemma_field_of_mod, lemma_pow2_small, lemma_radix_bound, lemma_radix_digit,
    lemma_radix_digit_beyond, lemma_radix_digits_of, lemma_radix_mod_take, lemma_radix_push,
    radix_value,
};
use crate::scheme::{div_ceil8, lemma_width_facts, packed_count, BitWidth, QuantError};
use vstd::arithmetic::div_mod::*;
use vstd::arithmetic::power2::*;
use vstd::bits::*;
use vstd::prelude::*;

verus! {

/// The two's-complement codes of `vals` at width `n`.
pub open spec fn value_codes(vals: Seq<i8>, n: nat) -> Seq<nat> {
    vals.map_values(|v: i8| code(v as int, n))
}

/// The number whose `n`-bit fields are the codes of `vals`, first value lowest.
pub open spec fn stream(vals: Seq<i8>, n: nat) -> nat {
    radix_value(value_codes(vals, n), n)
}

/// The bytes that packing `vals` at `bits` writes: `ceil(len * bits / 8)` base-256
/// digits of the stream, least significant first.
pub open spec fn packed_bytes(vals: Seq<i8>, bits: BitWidth) -> Seq<u8> {
    digits_of(stream(vals, bits.width()), 8, packed_count(vals.len(), bits.width())).map_values(
        |d: nat| d as u8,
    )
}

/// The `i`-th value that unpacking reads from `packed` at `bits`: field `i` of the
/// little-endian number the bytes spell, sign-extended. Bits past the end of
/// `packed` read as zero.
pub open spec fn unpacked_value(packed: Seq<u8>, bits: BitWidth, i: int) -> i8 {
    field_value(packed, bits.width(), i)
}

/// The `i`-th `n`-bit field of the little-endian number that `packed` spells,
/// sign-extended.
pub open spec fn field_value(packed: Seq<u8>, n: nat, i: int) -> i8 {
    decode(digit(bytes_value(packed), n, i), n) as i8
}

/// The first `count` values that unpacking reads from `packed`.
pub open spec fn unpacked_values(packed: Seq<u8>, bits: BitWidth, count: nat) -> Seq<i8> {
    Seq::new(count, |i: int| unpacked_value(packed, bits, i))
}

/// How many `bits`-wide values `len` bytes hold: `floor(len * 8 / bits)`.
pub open spec fn unpack_capacity(len: nat, bits: BitWidth) -> nat {
    (len * 8) / bits.width()
}

/// The index of the first value of `vals` that `bits` cannot represent, or
/// `vals.len()` if there is none.
pub open spec fn first_out_of_range(vals: Seq<i8>, bits: BitWidth) -> nat
    decreases vals.len(),
{
    if vals.len() == 0 {
        0
    } else if !bits.holds(vals[0] as int) {
        0
    } else {
        1 + first_out_of_range(vals.drop_first(), bits)
    }
}

/// Every value of `vals` is representable at `bits`.
pub open spec fn all_in_range(vals: Seq<i8>, bits: BitWidth) -> bool {
    forall|i: int| 0 <= i < vals.len() ==> bits.holds(#[trigger] vals[i] as int)
}

/// `buf` with its first `prefix.len()` bytes replaced by `prefix`.
pub open spec fn overwrite_prefix(buf: Seq<u8>, prefix: Seq<u8>) -> Seq<u8> {
    prefix + buf.skip(prefix.len() as int)
}

/// Capacity: `len` bytes hold `c = unpack_capacity(len, bits)` fields — the `c`
/// fields fit in the `8 * len` bits and one more would not — so `k` fields can be
/// read exactly when `k * bits <= 8 * len`.
pub proof fn lemma_unpack_capacity_bounds(len: nat, bits: BitWidth, k: nat)
    ensures
        unpack_capacity(len, bits) * bits.width() <= 8 * len,
        8 * len < (unpack_capacity(len, bits) + 1) * bits.width(),
        k <= unpack_capacity(len, bits) <==> k * bits.width() <= 8 * len,
{
    let w = bits.width();
    lemma_width_facts(bits);
    let c = unpack_capacity(len, bits);
    lemma_fundamental_div_mod((len * 8) as int, w as int);
    let r = (len * 8) % w;
    assert(len * 8 == w * c + r);
    assert(c * w <= 8 * len) by (nonlinear_arith)
        requires
            len * 8 == w * c + r,
            r >= 0,
    ;
    assert(8 * len < (c + 1) * w) by (nonlinear_arith)
        requires
            len * 8 == w * c + r,
            r < w,
    ;
    if k <= c {
        assert(k * w <= c * w) by (nonlinear_arith)
            requires
                k <= c,
        ;
    } else {
        assert(k * w >= (c + 1) * w) by (nonlinear_arith)
            requires
                k >= c + 1,
        ;
    }
}

/// `first_out_of_range` is the first index whose value is out of range.
pub proof fn lemma_first_out_of_range(vals: Seq<i8>, bits: BitWidth, k: int)
    requires
        0 <= k <= vals.len(),
        forall|j: int| 0 <= j < k ==> bits.holds(#[trigger] vals[j] as int),
        k < vals.len() ==> !bits.holds(vals[k] as int),
    ensures
        first_out_of_range(vals, bits) == k,
    decreases k,
{
    if k > 0 {
        let t = vals.drop_first();
        assert(bits.holds(vals[0] as int));
        assert forall|j: int| 0 <= j < k - 1 implies bits.holds(#[trigger] t[j] as int) by {
            assert(t[j] == vals[j + 1]);
        }
        lemma_first_out_of_range(t, bits, k - 1);
    }
}

/// The codes of a stream fit in their width.
pub proof fn lemma_codes_fit(vals: Seq<i8>, n: nat)
    ensures
        digits_fit(value_codes(vals, n), n),
{
    assert forall|i: int| 0 <= i < value_codes(vals, n).len() implies #[trigger] value_codes(
        vals,
        n,
    )[i] < pow2(n) by {
        lemma_code_bound(vals[i] as int, n);
    }
}

/// Extending the input by one value adds its code at weight `2^(n * i)`.
pub proof fn lemma_stream_step(vals: Seq<i8>, n: nat, i: int)
    requires
        0 <= i < vals.len(),
    ensures
        stream(vals.take(i + 1), n) == stream(vals.take(i), n) + code(vals[i] as int, n) * pow2(
            n * (i as nat),
        ),
{
    let c = value_codes(vals.take(i), n);
    assert(value_codes(vals.take(i + 1), n) =~= c.push(code(vals[i] as int, n)));
    lemma_radix_push(c, code(vals[i] as int, n), n);
}

/// The packed bytes spell exactly the stream of codes, which has no bit set past
/// the `bits * len` bits of the values.
pub proof fn lemma_packed_value(vals: Seq<i8>, bits: BitWidth)
    ensures
        bytes_value(packed_bytes(vals, bits)) == stream(vals, bits.width()),
        stream(vals, bits.width()) < pow2(bits.width() * vals.len()),
        bits.width() * vals.len() <= 8 * packed_count(vals.len(), bits.width()),
        byte_digits(packed_bytes(vals, bits)) == digits_of(
            stream(vals, bits.width()),
            8,
            packed_count(vals.len(), bits.width()),
        ),
{
    let n = bits.width();
    let m = packed_count(vals.len(), n);
    let s = stream(vals, n);
    let pb = packed_bytes(vals, bits);
    lemma_pow2_small();
    assert(byte_digits(pb) =~= digits_of(s, 8, m)) by {
        assert forall|j: int| 0 <= j < m implies byte_digits(pb)[j] == #[trigger] digits_of(
            s,
            8,
            m,
        )[j] by {
            assert(digit(s, 8, j) < 256);
        }
    }
    lemma_radix_digits_of(s, 8, m);
    lemma_codes_fit(vals, n);
    lemma_radix_bound(value_codes(vals, n), n);
    assert(n * vals.len() <= 8 * m) by {
        lemma_fundamental_div_mod((vals.len() * n + 7) as int, 8);
    }
    if n * vals.len() < 8 * m {
        lemma_pow2_strictly_increases(n * vals.len(), 8 * m);
    }
    lemma_small_mod(s, pow2(8 * m));
}

/// Layout: value `i` occupies bits `[bits * i, bits * (i + 1))` of the packed bytes read
/// as one little-endian number, as its two's-complement code; so the first value
/// sits in the low bits of byte 0.
pub proof fn lemma_packed_layout(vals: Seq<i8>, bits: BitWidth, i: int)
    requires
        0 <= i < vals.len(),
    ensures
        digit(bytes_value(packed_bytes(vals, bits)), bits.width(), i) == code(
            vals[i] as int,
            bits.width(),
        ),
{
    lemma_packed_value(vals, bits);
    lemma_codes_fit(vals, bits.width());
    lemma_radix_digit(value_codes(vals, bits.width()), bits.width(), i);
}

/// Padding: every bit of the packed bytes past the `bits * len` bits of the values
/// is zero.
pub proof fn lemma_packed_padding_zero(vals: Seq<i8>, bits: BitWidth)
    ensures
        bytes_value(packed_bytes(vals, bits)) < pow2(bits.width() * vals.len()),
{
    lemma_packed_value(vals, bits);
}

/// At `Int8`, packing writes each value's two's-complement byte in order.
pub proof fn lemma_int8_packing_is_bytewise(vals: Seq<i8>)
    ensures
        packed_bytes(vals, BitWidth::Int8).len() == vals.len(),
        forall|i: int|
            0 <= i < vals.len() ==> packed_bytes(vals, BitWidth::Int8)[i] as nat == code(
                #[trigger] vals[i] as int,
                8,
            ),
{
    lemma_pow2_small();
    lemma_fundamental_div_mod_converse((vals.len() * 8 + 7) as int, 8, vals.len() as int, 7);
    assert(packed_count(vals.len(), 8) == vals.len());
    assert forall|i: int| 0 <= i < vals.len() implies packed_bytes(vals, BitWidth::Int8)[i] as nat
        == code(#[trigger] vals[i] as int, 8) by {
        lemma_packed_layout(vals, BitWidth::Int8, i);
        lemma_packed_value(vals, BitWidth::Int8);
        let pb = packed_bytes(vals, BitWidth::Int8);
        lemma_byte_digit(pb, i);
    }
}

/// Round trip: unpacking `len` values from any buffer whose first
/// `ceil(len * bits / 8)` bytes were written by packing `vals` succeeds (the buffer
/// holds enough values) and gives back exactly `vals`, for every sequence of
/// representable values.
pub proof fn lemma_pack_unpack_roundtrip(vals: Seq<i8>, bits: BitWidth, buf: Seq<u8>)
    requires
        all_in_range(vals, bits),
        buf.len() >= packed_count(vals.len(), bits.width()),
    ensures
        vals.len() <= unpack_capacity(buf.len(), bits),
        unpacked_values(overwrite_prefix(buf, packed_bytes(vals, bits)), bits, vals.len()) == vals,
{
    let n = bits.width();
    let m = packed_count(vals.len(), n);
    let pb = packed_bytes(vals, bits);
    let p = overwrite_prefix(buf, pb);
    let s = stream(vals, n);
    lemma_width_facts(bits);
    lemma_packed_value(vals, bits);
    lemma_pow2_small();
    // The buffer's low 8m bits spell the stream.
    assert(p.take(m as int) =~= pb);
    assert(byte_digits(p).take(m as int) =~= byte_digits(pb));
    assert(digits_fit(byte_digits(p), 8)) by {
        assert forall|k: int| 0 <= k < byte_digits(p).len() implies #[trigger] byte_digits(p)[k]
            < pow2(8) by {
            assert(byte_digits(p)[k] == p[k] as nat);
        }
    }
    lemma_radix_mod_take(byte_digits(p), 8, m as int);
    assert(bytes_value(p) % pow2(8 * m) == s);
    lemma_codes_fit(vals, n);
    assert forall|i: int| 0 <= i < vals.len() implies #[trigger] unpacked_values(
        p,
        bits,
        vals.len(),
    )[i] == vals[i] by {
        assert(n * i + n <= n * vals.len()) by (nonlinear_arith)
            requires
                i < vals.len(),
        ;
        assert(n * i >= 0) by (nonlinear_arith)
            requires
                i >= 0,
        ;
        lemma_field_of_mod(bytes_value(p), 8 * m, (n * i) as nat, n);
        lemma_radix_digit(value_codes(vals, n), n, i);
        assert(digit(bytes_value(p), n, i) == code(vals[i] as int, n));
        assert(bits.holds(vals[i] as int));
        lemma_decode_code(vals[i] as int, n);
    }
    assert(unpacked_values(p, bits, vals.len()) =~= vals);
    assert(vals.len() <= (buf.len() * 8) / n) by {
        assert(n * vals.len() <= buf.len() * 8);
        lemma_fundamental_div_mod((buf.len() * 8) as int, n as int);
        let q = (buf.len() * 8) / n;
        assert(vals.len() <= q) by (nonlinear_arith)
            requires
                n * vals.len() <= n * q + (buf.len() * 8) % n,
                (buf.len() * 8) % n < n,
                n > 0,
        ;
    }
}

/// Appending field `c` as value `i`, while `b` bytes are emitted and `ab` bits are
/// pending: the pending bits of the longer stream are the old ones plus `c` above
/// them, and the emitted bytes are unchanged.
pub(crate) proof fn lemma_pack_field(s_prev: nat, c: nat, n: nat, i: nat, b: nat, ab: nat)
    requires
        8 * b + ab == n * i,
    ensures
        s_prev / pow2(8 * b) + c * pow2(ab) == (s_prev + c * pow2(n * i)) / pow2(8 * b),
        forall|j: int|
            0 <= j < b ==> #[trigger] digit(s_prev + c * pow2(n * i), 8, j) == digit(s_prev, 8, j),
{
    lemma_pow2_adds(8 * b, ab);
    lemma_pow2_pos(8 * b);
    assert(c * pow2(n * i) == (c * pow2(ab)) * pow2(8 * b)) by (nonlinear_arith)
        requires
            pow2(n * i) == pow2(8 * b) * pow2(ab),
    ;
    lemma_hoist_over_denominator(s_prev as int, (c * pow2(ab)) as int, pow2(8 * b));
    assert forall|j: int| 0 <= j < b implies #[trigger] digit(s_prev + c * pow2(n * i), 8, j)
        == digit(s_prev, 8, j) by {
        lemma_digit_stable(s_prev, c, n * i, 8, j);
    }
}

/// Emitting the low byte of the pending bits `acc == s / 2^(8b)` writes digit `b` of
/// `s` and leaves `s / 2^(8(b+1))` pending.
pub(crate) proof fn lemma_emit_byte(s: nat, acc: nat, b: nat, ab: nat)
    requires
        8 <= ab,
        acc < pow2(ab),
        acc == s / pow2(8 * b),
    ensures
        digit(s, 8, b as int) == acc % 256,
        acc / 256 == s / pow2(8 * (b + 1)),
        acc / 256 < pow2((ab - 8) as nat),
{
    lemma_pow2_small();
    lemma_pow2_adds(8 * b, 8);
    lemma_pow2_adds(8, (ab - 8) as nat);
    lemma_pow2_pos(8 * b);
    lemma_div_denominator(s as int, pow2(8 * b) as int, 256);
    assert(8 * (b + 1) == 8 * b + 8);
    let r = pow2((ab - 8) as nat);
    lemma_pow2_pos((ab - 8) as nat);
    assert(pow2(ab) == 256 * r);
    assert(acc / 256 < r) by {
        lemma_fundamental_div_mod(acc as int, 256);
        assert(256 * (acc as int / 256) <= acc);
        assert(acc / 256 < r) by (nonlinear_arith)
            requires
                256 * (acc / 256) <= acc,
                acc < 256 * r,
        ;
    }
}

/// After packing `len` values of `n` bits, `b` full bytes and `ab < 8` pending bits:
/// the packed length is `b`, plus one when bits are pending.
pub(crate) proof fn lemma_last_byte(n: nat, len: nat, b: nat, ab: nat)
    requires
        8 * b + ab == n * len,
        ab < 8,
    ensures
        packed_count(len, n) == if ab > 0 {
            b + 1
        } else {
            b
        },
{
    assert(len * n == n * len) by (nonlinear_arith);
    if ab == 0 {
        lemma_fundamental_div_mod_converse((len * n + 7) as int, 8, b as int, 7);
    } else {
        lemma_fundamental_div_mod_converse((len * n + 7) as int, 8, (b + 1) as int, ab - 1);
    }
}

/// Round trip the other way: a buffer of exactly `ceil(count * bits / 8)` bytes
/// whose bits past the `count` fields are all zero is exactly what packing its
/// `count` unpacked values writes, and those values are representable. With
/// [`lemma_pack_unpack_roundtrip`] this makes packing a bijection between
/// representable value sequences and zero-padded buffers.
pub proof fn lemma_unpack_pack_roundtrip(packed: Seq<u8>, bits: BitWidth, count: nat)
    requires
        packed.len() == packed_count(count, bits.width()),
        bytes_value(packed) < pow2(bits.width() * count),
    ensures
        all_in_range(unpacked_values(packed, bits, count), bits),
        packed_bytes(unpacked_values(packed, bits, count), bits) == packed,
{
    let n = bits.width();
    let b = bytes_value(packed);
    let u = unpacked_values(packed, bits, count);
    let m = packed_count(count, n);
    lemma_width_facts(bits);
    lemma_pow2_small();
    lemma_pow2_pos(n);
    assert forall|i: int| 0 <= i < count implies #[trigger] value_codes(u, n)[i] == digit(
        b,
        n,
        i,
    ) && bits.holds(u[i] as int) by {
        let d = digit(b, n, i);
        assert(d < pow2(n));
        assert(fits_signed(decode(d, n), n));
        assert(u[i] as int == decode(d, n));
        lemma_decode_code(decode(d, n), n);
    }
    assert(value_codes(u, n) =~= digits_of(b, n, count));
    lemma_radix_digits_of(b, n, count);
    lemma_small_mod(b, pow2(n * count));
    assert(stream(u, n) == b);
    assert forall|j: int| 0 <= j < m implies #[trigger] packed_bytes(u, bits)[j] == packed[j] by {
        lemma_byte_digit(packed, j);
    }
    assert(packed_bytes(u, bits) =~= packed);
}

/// `(1 << k)` as a `u32` is `2^k`.
pub(crate) proof fn lemma_shl_one(k: u32)
    requires
        k < 32,
    ensures
        (1u32 << k) == pow2(k as nat),
{
    lemma_u32_pow2_no_overflow(k as nat);
    lemma_u32_shl_is_mul(1, k);
}

/// Setting the bits of `c` above the `ab` bits of `acc` is an addition.
pub(crate) proof fn lemma_append_bits(acc: u32, c: u32, ab: u32, n: u32)
    requires
        ab + n <= 32,
        1 <= n <= 8,
        acc < pow2(ab as nat),
        c < pow2(n as nat),
    ensures
        acc | (c << ab) == acc + c * pow2(ab as nat),
        acc + c * pow2(ab as nat) < pow2((ab + n) as nat),
{
    lemma_shl_one(ab);
    lemma_shl_one(n);
    assert(acc | (c << ab) == acc + (c << ab)) by (bit_vector)
        requires
            ab + n <= 32,
            n <= 8,
            acc < (1u32 << ab),
            c < (1u32 << n),
    ;
    lemma_pow2_adds(ab as nat, n as nat);
    lemma_pow2_pos(ab as nat);
    let pa = pow2(ab as nat);
    let pn = pow2(n as nat);
    assert(c * pa <= (pn - 1) * pa) by (nonlinear_arith)
        requires
            c < pn,
            pa > 0,
    ;
    assert((pn - 1) * pa == pn * pa - pa) by (nonlinear_arith);
    assert(pa * pn == pn * pa) by (nonlinear_arith);
    assert(c * pa <= 0xffff_ffff) by {
        if ab + n < 32 {
            lemma_pow2_strictly_increases((ab + n) as nat, 32);
        }
        lemma2_to64();
    }
    lemma_u32_shl_is_mul(c, ab);
}

/// Taking the low byte and shifting it out are `% 256` and `/ 256`.
pub(crate) proof fn lemma_take_byte(acc: u32)
    ensures
        (acc & 0xFF) as nat == acc as nat % 256,
        (acc >> 8) as nat == acc as nat / 256,
        ((acc & 0xFF) as u8) as nat == acc as nat % 256,
{
    assert(acc & 0xFF == acc % 256) by (bit_vector);
    assert(acc >> 8 == acc / 256) by (bit_vector);
    assert(((acc & 0xFF) as u8) as u32 == acc & 0xFF) by (bit_vector);
}

/// The code that `pack_bits` computes for a representable value.
pub(crate) proof fn lemma_encode(v: i32, n: u32)
    requires
        2 <= n <= 8,
        fits_signed(v as int, n as nat),
    ensures
        ((v as u32) & (((1u32 << n) - 1) as u32)) as nat == code(v as int, n as nat),
{
    lemma_shl_one(n);
    lemma_shl_one((n - 1) as u32);
    lemma_decode_code(v as int, n as nat);
    assert(((v as u32) & (((1u32 << n) - 1) as u32)) as int == if v < 0 {
        v + (1u32 << n)
    } else {
        v as int
    }) by (bit_vector)
        requires
            2 <= n <= 8,
            -(1u32 << ((n - 1) as u32)) <= v < (1u32 << ((n - 1) as u32)),
    ;
}

/// Pack `values` (each within `bits`'s representable range) into `out`.
///
/// `out.len()` must be at least `ceil(values.len() * bits / 8)`, otherwise
/// [`QuantError::BufferTooSmall`] is returned and `out` is untouched. Every value
/// must be in `[bits.qmin(), bits.qmax()]`; otherwise
/// [`QuantError::ValueOutOfRange`] names the first offending value, and only the
/// bytes wholly filled by the values before it have been written.
/// On success the first `ceil(values.len() * bits / 8)` bytes of `out` hold the
/// packed values and the rest of `out` is untouched.
#[verifier::spinoff_prover]
pub fn pack_bits(values: &[i8], bits: BitWidth, out: &mut [u8]) -> (res: Result<(), QuantError>)
    requires
        values@.len() * bits.width() <= usize::MAX,
    ensures
        final(out)@.len() == old(out)@.len(),
        old(out)@.len() < packed_count(values@.len(), bits.width()) ==> res == Err::<
            (),
            QuantError,
        >(
            QuantError::BufferTooSmall {
                needed: packed_count(values@.len(), bits.width()) as usize,
                got: old(out)@.len() as usize,
            },
        ) && final(out)@ == old(out)@,
        old(out)@.len() >= packed_count(values@.len(), bits.width()) && first_out_of_range(
            values@,
            bits,
        ) < values@.len() ==> ({
            let k = first_out_of_range(values@, bits) as int;
            &&& res == Err::<(), QuantError>(
                QuantError::ValueOutOfRange {
                    value: values@[k] as i32,
                    min: bits.lowest() as i32,
                    max: bits.highest() as i32,
                },
            )
            &&& final(out)@ == overwrite_prefix(
                old(out)@,
                packed_bytes(values@.take(k), bits).take(k * bits.width() / 8),
            )
        }),
        old(out)@.len() >= packed_count(values@.len(), bits.width()) && first_out_of_range(
            values@,
            bits,
        ) == values@.len() ==> res == Ok::<(), QuantError>(()) && final(out)@ == overwrite_prefix(
            old(out)@,
            packed_bytes(values@, bits),
        ),
{
    let nbits = bits.bits();
    let need = div_ceil8(values.len() * nbits);
    if out.len() < need {
        return Err(QuantError::BufferTooSmall { needed: need, got: out.len() });
    }
    let ghost n = bits.width();
    let ghost vals = values@;
    let ghost old_out = out@;
    proof {
        lemma_width_facts(bits);
        lemma_pow2_small();
        lemma_shl_one(nbits as u32);
        lemma_shl_one((nbits - 1) as u32);
    }

    let qmin = bits.qmin();
    let qmax = bits.qmax();
    let mask: u32 = (1u32 << nbits) - 1;

    let mut acc: u32 = 0;
    let mut acc_bits: u32 = 0;
    let mut byte_idx = 0usize;
    let mut i = 0usize;

    proof {
        assert(vals.take(0) =~= Seq::<i8>::empty());
        assert(value_codes(vals.take(0), n) =~= Seq::<nat>::empty());
        assert(n * 0 == 0);
    }
    while i < values.len()
        invariant
            n == bits.width(),
            nbits == n,
            2 <= n <= 8,
            vals == values@,
            qmin == bits.lowest(),
            qmax == bits.highest(),
            mask == ((1u32 << nbits) - 1) as u32,
            (1u32 << nbits) == pow2(n),
            pow2(n) == 2 * pow2((n - 1) as nat),
            need == packed_count(vals.len(), n),
            need <= out@.len(),
            out@.len() == old_out.len(),
            old_out == old(out)@,
            vals.len() * n <= usize::MAX,
            0 <= i <= vals.len(),
            forall|j: int| 0 <= j < i ==> bits.holds(#[trigger] vals[j] as int),
            8 * byte_idx + acc_bits == n * i,
            acc_bits < 8,
            acc < pow2(acc_bits as nat),
            acc == stream(vals.take(i as int), n) / pow2(8 * byte_idx as nat),
            forall|j: int|
                0 <= j < byte_idx ==> out@[j] as nat == #[trigger] digit(
                    stream(vals.take(i as int), n),
                    8,
                    j,
                ),
            forall|j: int| byte_idx <= j < out@.len() ==> out@[j] == #[trigger] old_out[j],
        decreases vals.len() - i,
    {
        let v = i32::from(values[i]);
        if v < qmin || v > qmax {
            proof {
                lemma_first_out_of_range(vals, bits, i as int);
                let k = i as int;
                let pre = packed_bytes(vals.take(k), bits).take(k * n / 8);
                assert(byte_idx == k * n / 8);
                assert(n * i <= n * vals.len()) by (nonlinear_arith)
                    requires
                        i <= vals.len(),
                ;
                assert(out@ =~= overwrite_prefix(old_out, pre)) by {
                    assert forall|j: int| 0 <= j < byte_idx implies out@[j] == pre[j] by {
                        assert(j * 8 + 8 <= n * i) by (nonlinear_arith)
                            requires
                                j < byte_idx,
                                8 * byte_idx + acc_bits == n * i,
                        ;
                        assert(j < packed_count(vals.take(k).len(), n));
                        assert(digit(stream(vals.take(k), n), 8, j) < 256);
                    }
                }
            }
            return Err(QuantError::ValueOutOfRange { value: v, min: qmin, max: qmax });
        }
        let ghost s_prev = stream(vals.take(i as int), n);
        let ghost c = code(v as int, n);
        let ghost s_next = stream(vals.take(i + 1), n);
        proof {
            lemma_encode(v, nbits as u32);
            lemma_stream_step(vals, n, i as int);
            lemma_code_bound(v as int, n);
            lemma_append_bits(acc, c as u32, acc_bits, nbits as u32);
            lemma_pack_field(s_prev, c, n, i as nat, byte_idx as nat, acc_bits as nat);
        }
        acc |= ((#[verifier::truncate] (v as u32)) & mask) << acc_bits;
        acc_bits += nbits as u32;
        proof {
            assert(n * (i + 1) == n * i + n) by (nonlinear_arith);
            assert(n * (i + 1) <= n * vals.len()) by (nonlinear_arith)
                requires
                    i < vals.len(),
            ;
        }
        while acc_bits >= 8
            invariant
                n == bits.width(),
                2 <= n <= 8,
                vals == values@,
                need == packed_count(vals.len(), n),
                need <= out@.len(),
                out@.len() == old_out.len(),
                0 <= i < vals.len(),
                n * (i + 1) <= n * vals.len(),
                8 * byte_idx + acc_bits == n * (i + 1),
                acc_bits < 16,
                acc < pow2(acc_bits as nat),
                acc == s_next / pow2(8 * byte_idx as nat),
                forall|j: int| 0 <= j < byte_idx ==> out@[j] as nat == #[trigger] digit(s_next, 8, j),
                forall|j: int| byte_idx <= j < out@.len() ==> out@[j] == #[trigger] old_out[j],
            decreases acc_bits,
        {
            proof {
                lemma_take_byte(acc);
                lemma_emit_byte(s_next, acc as nat, byte_idx as nat, acc_bits as nat);
            }
            out[byte_idx] = (acc & 0xFF) as u8;
            byte_idx += 1;
            acc >>= 8;
            acc_bits -= 8;
        }
        i += 1;
    }
    let ghost s = stream(vals, n);
    proof {
        assert(vals.take(vals.len() as int) =~= vals);
        assert(8 * byte_idx + acc_bits == n * vals.len());
        lemma_last_byte(n, vals.len(), byte_idx as nat, acc_bits as nat);
        assert(need == byte_idx || (acc_bits > 0 && need == byte_idx + 1));
    }
    if acc_bits > 0 {
        proof {
            lemma_take_byte(acc);
            lemma_pow2_small();
            assert(pow2(acc_bits as nat) <= 256) by {
                if acc_bits < 8 {
                    lemma_pow2_strictly_increases(acc_bits as nat, 8);
                }
            }
            lemma_small_mod(acc as nat, 256);
        }
        out[byte_idx] = (acc & 0xFF) as u8;
    }
    proof {
        let pb = packed_bytes(vals, bits);
        assert(pb.len() == need);
        assert(out@ =~= overwrite_prefix(old_out, pb)) by {
            assert forall|j: int| 0 <= j < need implies out@[j] == pb[j] by {
                assert(digit(s, 8, j) < 256);
            }
        }
        lemma_first_out_of_range(vals, bits, vals.len() as int);
    }
    Ok(())
}

/// Byte `p` of the number a byte sequence spells is the `p`-th byte, or zero past the end.
pub proof fn lemma_byte_digit(s: Seq<u8>, p: int)
    requires
        p >= 0,
    ensures
        digit(bytes_value(s), 8, p) == if p < s.len() {
            s[p] as nat
        } else {
            0
        },
{
    let d = byte_digits(s);
    lemma_pow2_small();
    assert(digits_fit(d, 8)) by {
        assert forall|k: int| 0 <= k < d.len() implies #[trigger] d[k] < pow2(8) by {
            assert(d[k] == s[k] as nat);
        }
    }
    if p < s.len() {
        lemma_radix_digit(d, 8, p);
    } else {
        lemma_radix_digit_beyond(d, 8, p);
    }
}

/// The signed value that `unpack_bits` computes from a field.
pub(crate) proof fn lemma_sign_extend(c: u32, n: u32)
    requires
        2 <= n <= 8,
        c < pow2(n as nat),
    ensures
        (c & (1u32 << ((n - 1) as u32)) != 0) ==> (vstd::wrapping::u32_specs::wrapping_sub(
            c,
            1u32 << n,
        ) as i8) as int == decode(c as nat, n as nat),
        (c & (1u32 << ((n - 1) as u32)) == 0) ==> (c as i8) as int == decode(c as nat, n as nat),
{
    lemma_shl_one(n);
    lemma_shl_one((n - 1) as u32);
    assert((c & (1u32 << ((n - 1) as u32)) != 0) == (c >= (1u32 << ((n - 1) as u32))))
        by (bit_vector)
        requires
            2 <= n <= 8,
            c < (1u32 << n),
    ;
    let w = vstd::wrapping::u32_specs::wrapping_sub(c, 1u32 << n);
    if c >= (1u32 << ((n - 1) as u32)) {
        assert(w == (c - (1u32 << n) + 0x1_0000_0000) as u32);
        assert((w as i8) as int == c - (1u32 << n)) by (bit_vector)
            requires
                2 <= n <= 8,
                c < (1u32 << n),
                c >= (1u32 << ((n - 1) as u32)),
                w == (c - (1u32 << n) + 0x1_0000_0000) as u32,
        ;
    } else {
        assert((c as i8) as int == c as int) by (bit_vector)
            requires
                2 <= n <= 8,
                c < (1u32 << ((n - 1) as u32)),
        ;
    }
}

/// Masking with the low `n` bits and shifting them out are `% 2^n` and `/ 2^n`.
pub(crate) proof fn lemma_take_field(acc: u32, n: u32)
    requires
        2 <= n <= 8,
    ensures
        (acc & (((1u32 << n) - 1) as u32)) as nat == acc as nat % pow2(n as nat),
        (acc >> n) as nat == acc as nat / pow2(n as nat),
{
    lemma_shl_one(n);
    assert(acc & (((1u32 << n) - 1) as u32) == acc % (1u32 << n)) by (bit_vector)
        requires
            2 <= n <= 8,
    ;
    lemma_u32_shr_is_div(acc, n);
}

/// Unpack `out.len()` values from `packed` at the given `bits` width.
///
/// At most `floor(packed.len() * 8 / bits)` values can be decoded; requesting
/// more returns [`QuantError::InsufficientPackedData`] and leaves `out` untouched.
/// Otherwise value `i` of `out` is the `i`-th `bits`-wide field of `packed`,
/// sign-extended back to its signed `i8` form.
#[verifier::spinoff_prover]
pub fn unpack_bits(packed: &[u8], bits: BitWidth, out: &mut [i8]) -> (res: Result<
    (),
    QuantError,
>)
    requires
        packed@.len() * 8 <= usize::MAX,
    ensures
        final(out)@.len() == old(out)@.len(),
        old(out)@.len() > unpack_capacity(packed@.len(), bits) ==> res == Err::<(), QuantError>(
            QuantError::InsufficientPackedData {
                needed: old(out)@.len() as usize,
                available: unpack_capacity(packed@.len(), bits) as usize,
            },
        ) && final(out)@ == old(out)@,
        old(out)@.len() <= unpack_capacity(packed@.len(), bits) ==> res == Ok::<(), QuantError>(())
            && final(out)@ == unpacked_values(packed@, bits, old(out)@.len()),
        res is Ok <==> old(out)@.len() * bits.width() <= packed@.len() * 8,
{
    proof {
        lemma_unpack_capacity_bounds(packed@.len(), bits, old(out)@.len());
    }
    let nbits = bits.bits();
    let capacity = (packed.len() * 8) / nbits;
    if out.len() > capacity {
        return Err(QuantError::InsufficientPackedData { needed: out.len(), available: capacity });
    }
    let ghost n = bits.width();
    let ghost bv = bytes_value(packed@);
    let ghost old_out = out@;
    proof {
        lemma_width_facts(bits);
        lemma_pow2_small();
        lemma_shl_one(nbits as u32);
        lemma_shl_one((nbits - 1) as u32);
        assert(n * capacity <= packed@.len() * 8) by (nonlinear_arith)
            requires
                capacity == (packed@.len() * 8) / n,
                n > 0,
        ;
    }

    let mask: u32 = (1u32 << nbits) - 1;
    let sign_bit: u32 = 1u32 << (nbits - 1);

    let mut acc: u32 = 0;
    let mut acc_bits: u32 = 0;
    let mut packed_idx = 0usize;
    let mut i = 0usize;

    proof {
        assert(n * 0 == 0);
        assert(bv / 1 == bv);
        assert(bv % 1 == 0);
    }
    while i < out.len()
        invariant
            n == bits.width(),
            nbits == n,
            2 <= n <= 8,
            bv == bytes_value(packed@),
            mask == ((1u32 << nbits) - 1) as u32,
            sign_bit == (1u32 << ((nbits - 1) as u32)),
            out@.len() == old_out.len(),
            old_out == old(out)@,
            out@.len() <= capacity,
            n * capacity <= packed@.len() * 8,
            packed@.len() * 8 <= usize::MAX,
            0 <= i <= out@.len(),
            8 * packed_idx == n * i + acc_bits,
            acc_bits < 8,
            acc == (bv / pow2(n * (i as nat))) % pow2(acc_bits as nat),
            forall|j: int| 0 <= j < i ==> out@[j] == #[trigger] unpacked_value(packed@, bits, j),
            forall|j: int| i <= j < out@.len() ==> out@[j] == #[trigger] old_out[j],
        decreases out@.len() - i,
    {
        proof {
            assert(n * (i + 1) <= n * capacity) by (nonlinear_arith)
                requires
                    i < capacity,
            ;
            assert(n * (i + 1) == n * i + n) by (nonlinear_arith);
        }
        while acc_bits < nbits as u32
            invariant
                n == bits.width(),
                nbits == n,
                2 <= n <= 8,
                bv == bytes_value(packed@),
                i < out@.len(),
                n * (i + 1) <= packed@.len() * 8,
                n * (i + 1) == n * i + n,
                packed@.len() * 8 <= usize::MAX,
                8 * packed_idx == n * i + acc_bits,
                acc_bits < n + 8,
                acc == (bv / pow2(n * (i as nat))) % pow2(acc_bits as nat),
            decreases n + 8 - acc_bits,
        {
            let byte = if packed_idx < packed.len() {
                packed[packed_idx]
            } else {
                0
            };
            proof {
                lemma_pow2_small();
                let y = bv / pow2(n * (i as nat));
                lemma_pow2_pos(n * (i as nat));
                lemma_pow2_pos(acc_bits as nat);
                assert(acc < pow2(acc_bits as nat));
                lemma_byte_digit(packed@, packed_idx as int);
                lemma_field_grow(bv, n * (i as nat), acc_bits as nat);
                assert(n * (i as nat) + acc_bits as nat == 8 * packed_idx);
                assert(digit(bv, 8, packed_idx as int) == (bv / pow2(8 * packed_idx as nat)) % 256);
                assert(byte as nat == (bv / pow2(n * (i as nat) + acc_bits as nat)) % 256);
                lemma_append_bits(acc, byte as u32, acc_bits, 8);
                assert(packed_idx < packed@.len() + 1);
            }
            acc |= (byte as u32) << acc_bits;
            packed_idx += 1;
            acc_bits += 8;
        }
        let ghost y = bv / pow2(n * (i as nat));
        proof {
            lemma_take_field(acc, nbits as u32);
            lemma_field_split(y, n, acc_bits as nat);
            lemma_pow2_adds(n * (i as nat), n);
            lemma_pow2_pos(n * (i as nat));
            lemma_pow2_pos(n);
            lemma_div_denominator(bv as int, pow2(n * (i as nat)) as int, pow2(n) as int);
            assert(n * (i as nat) + n == n * ((i + 1) as nat));
        }
        let mut v = acc & mask;
        acc >>= nbits;
        acc_bits -= nbits as u32;
        proof {
            assert(v as nat == digit(bv, n, i as int));
            lemma_pow2_pos(n);
            lemma_sign_extend(v, nbits as u32);
        }
        if v & sign_bit != 0 {
            v = v.wrapping_sub(1u32 << nbits);
        }
        out[i] = #[verifier::truncate] (v as i8);
        i += 1;
    }
    proof {
        assert(out@ =~= unpacked_values(packed@, bits, old_out.len()));
    }
    Ok(())
}

} // verus!
