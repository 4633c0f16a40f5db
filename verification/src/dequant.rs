//! Quantize / dequantize on the integer grid — the integer half of the
//! correctness oracle.
//!
//! Quantizing a group maps each float to a grid integer (scaled, rounded
//! half-to-even, shifted by the zero-point); [`quantize_codes`] then clamps those
//! integers to `[bits.qmin(), bits.qmax()]` and packs them least-significant-bit
//! first, incrementally, with no scratch buffer (the same layout as
//! [`crate::pack::pack_bits`]). [`dequantize_codes`] reads the grid integers back
//! one by one with [`read_value`]; the dequantized float is then
//! `scale * (q - zero_point)`.
use crate::bitstream::{
    bytes_value, code, digit, lemma_code_bound, lemma_field_grow, lemma_field_of_mod,
    lemma_pow2_small,
};
use crate::pack::{
    all_in_range, field_value, lemma_append_bits, lemma_byte_digit, lemma_emit_byte,
    lemma_encode, lemma_last_byte, lemma_pack_field, lemma_pack_unpack_roundtrip, lemma_shl_one,
    lemma_sign_extend, lemma_stream_step, lemma_take_byte, lemma_take_field, lemma_unpack_capacity_bounds, overwrite_prefix,
    packed_bytes, stream, unpack_capacity, unpacked_value, unpacked_values, value_codes,
};
use crate::scheme::{lemma_width_facts, packed_count, BitWidth, QuantError, QuantScheme};
use vstd::arithmetic::div_mod::*;
use vstd::arithmetic::power2::*;
use vstd::bits::*;
use vstd::prelude::*;

verus! {

/// `x` clamped into `[lo, hi]` (`lo` wins when `x < lo`, then `hi` when `x > hi`).
pub open spec fn clamp_spec(x: int, lo: int, hi: int) -> int {
    if x < lo {
        lo
    } else if x > hi {
        hi
    } else {
        x
    }
}

/// The grid integers clamped to the representable range of `bits`.
pub open spec fn clamped_codes(raw: Seq<i32>, bits: BitWidth) -> Seq<i8> {
    raw.map_values(|x: i32| clamp_spec(x as int, bits.lowest(), bits.highest()) as i8)
}

fn clamp(x: i32, lo: i32, hi: i32) -> (r: i32)
    ensures
        r == clamp_spec(x as int, lo as int, hi as int),
{
    if x < lo {
        lo
    } else if x > hi {
        hi
    } else {
        x
    }
}

/// Quantize one group: clamp each grid integer of `raw` to the representable range
/// of `scheme.bits` and pack the results into `out`.
///
/// `raw[i]` is value `i` already mapped onto the integer grid (scaled, rounded
/// half-to-even and, for asymmetric schemes, shifted by the zero-point).
/// `out.len()` must be at least `scheme.packed_len(raw.len())`; otherwise
/// [`QuantError::BufferTooSmall`] is returned and `out` is untouched. On success
/// the first `scheme.packed_len(raw.len())` bytes of `out` hold the packed clamped
/// integers and the rest of `out` is untouched. Clamping guarantees that
/// [`QuantError::ValueOutOfRange`] is never returned.
#[verifier::spinoff_prover]
pub fn quantize_codes(raw: &[i32], scheme: &QuantScheme, out: &mut [u8]) -> (res: Result<
    (),
    QuantError,
>)
    requires
        raw@.len() * scheme.bits.width() <= usize::MAX,
    ensures
        final(out)@.len() == old(out)@.len(),
        old(out)@.len() < packed_count(raw@.len(), scheme.bits.width()) ==> res == Err::<
            (),
            QuantError,
        >(
            QuantError::BufferTooSmall {
                needed: packed_count(raw@.len(), scheme.bits.width()) as usize,
                got: old(out)@.len() as usize,
            },
        ) && final(out)@ == old(out)@,
        old(out)@.len() >= packed_count(raw@.len(), scheme.bits.width()) ==> res == Ok::<
            (),
            QuantError,
        >(()) && final(out)@ == overwrite_prefix(
            old(out)@,
            packed_bytes(clamped_codes(raw@, scheme.bits), scheme.bits),
        ),
        old(out)@.len() >= packed_count(raw@.len(), scheme.bits.width()) ==> forall|i: int|
            0 <= i < raw@.len() ==> #[trigger] unpacked_value(final(out)@, scheme.bits, i) as int
                == if raw@[i] < scheme.bits.lowest() {
                scheme.bits.lowest()
            } else if raw@[i] > scheme.bits.highest() {
                scheme.bits.highest()
            } else {
                raw@[i] as int
            },
{
    let need = scheme.packed_len(raw.len());
    if out.len() < need {
        return Err(QuantError::BufferTooSmall { needed: need, got: out.len() });
    }

    let bits = scheme.bits;
    let nbits = bits.bits();
    let qmin = bits.qmin();
    let qmax = bits.qmax();
    let ghost n = bits.width();
    let ghost vals = clamped_codes(raw@, bits);
    let ghost old_out = out@;
    proof {
        lemma_width_facts(bits);
        lemma_pow2_small();
        lemma_shl_one(nbits as u32);
        lemma_shl_one((nbits - 1) as u32);
    }
    let mask: u32 = (1u32 << nbits) - 1;

    let mut acc: u32 = 0;
    let mut acc_bits: u32 = 0;
    let mut byte_idx = 0usize;
    let mut i = 0usize;

    proof {
        assert(vals.take(0) =~= Seq::<i8>::empty());
        assert(value_codes(vals.take(0), n) =~= Seq::<nat>::empty());
        assert(n * 0 == 0);
    }
    while i < raw.len()
        invariant
            n == bits.width(),
            bits == scheme.bits,
            nbits == n,
            2 <= n <= 8,
            vals == clamped_codes(raw@, bits),
            vals.len() == raw@.len(),
            qmin == bits.lowest(),
            qmax == bits.highest(),
            mask == ((1u32 << nbits) - 1) as u32,
            (1u32 << nbits) == pow2(n),
            pow2(n) == 2 * pow2((n - 1) as nat),
            need == packed_count(vals.len(), n),
            need <= out@.len(),
            out@.len() == old_out.len(),
            old_out == old(out)@,
            vals.len() * n <= usize::MAX,
            0 <= i <= vals.len(),
            8 * byte_idx + acc_bits == n * i,
            acc_bits < 8,
            acc < pow2(acc_bits as nat),
            acc == stream(vals.take(i as int), n) / pow2(8 * byte_idx as nat),
            forall|j: int|
                0 <= j < byte_idx ==> out@[j] as nat == #[trigger] digit(
                    stream(vals.take(i as int), n),
                    8,
                    j,
                ),
            forall|j: int| byte_idx <= j < out@.len() ==> out@[j] == #[trigger] old_out[j],
        decreases vals.len() - i,
    {
        proof {
            lemma_width_facts(bits);
        }
        let q = clamp(raw[i], qmin, qmax) as i8;
        let q = i32::from(q);
        if q < qmin || q > qmax {
            return Err(QuantError::ValueOutOfRange { value: q, min: qmin, max: qmax });
        }
        assert(vals[i as int] == q);
        let ghost s_prev = stream(vals.take(i as int), n);
        let ghost c = code(q as int, n);
        let ghost s_next = stream(vals.take(i + 1), n);
        proof {
            lemma_encode(q, nbits as u32);
            lemma_stream_step(vals, n, i as int);
            lemma_code_bound(q as int, n);
            lemma_append_bits(acc, c as u32, acc_bits, nbits as u32);
            lemma_pack_field(s_prev, c, n, i as nat, byte_idx as nat, acc_bits as nat);
        }
        acc |= ((#[verifier::truncate] (q as u32)) & mask) << acc_bits;
        acc_bits += nbits as u32;
        proof {
            assert(n * (i + 1) == n * i + n) by (nonlinear_arith);
            assert(n * (i + 1) <= n * vals.len()) by (nonlinear_arith)
                requires
                    i < vals.len(),
            ;
        }
        while acc_bits >= 8
            invariant
                n == bits.width(),
                2 <= n <= 8,
                need == packed_count(vals.len(), n),
                need <= out@.len(),
                out@.len() == old_out.len(),
                0 <= i < vals.len(),
                n * (i + 1) <= n * vals.len(),
                8 * byte_idx + acc_bits == n * (i + 1),
                acc_bits < 16,
                acc < pow2(acc_bits as nat),
                acc == s_next / pow2(8 * byte_idx as nat),
                forall|j: int| 0 <= j < byte_idx ==> out@[j] as nat == #[trigger] digit(s_next, 8, j),
                forall|j: int| byte_idx <= j < out@.len() ==> out@[j] == #[trigger] old_out[j],
            decreases acc_bits,
        {
            proof {
                lemma_take_byte(acc);
                lemma_emit_byte(s_next, acc as nat, byte_idx as nat, acc_bits as nat);
            }
            out[byte_idx] = (acc & 0xFF) as u8;
            byte_idx += 1;
            acc >>= 8;
            acc_bits -= 8;
        }
        i += 1;
    }
    let ghost s = stream(vals, n);
    proof {
        assert(vals.take(vals.len() as int) =~= vals);
        assert(8 * byte_idx + acc_bits == n * vals.len());
        lemma_last_byte(n, vals.len(), byte_idx as nat, acc_bits as nat);
        assert(need == byte_idx || (acc_bits > 0 && need == byte_idx + 1));
    }
    if acc_bits > 0 {
        proof {
            lemma_take_byte(acc);
            lemma_pow2_small();
            assert(pow2(acc_bits as nat) <= 256) by {
                if acc_bits < 8 {
                    lemma_pow2_strictly_increases(acc_bits as nat, 8);
                }
            }
            lemma_small_mod(acc as nat, 256);
        }
        out[byte_idx] = (acc & 0xFF) as u8;
    }
    proof {
        let pb = packed_bytes(vals, bits);
        assert(pb.len() == need);
        assert(out@ =~= overwrite_prefix(old_out, pb)) by {
            assert forall|j: int| 0 <= j < need implies out@[j] == pb[j] by {
                assert(digit(s, 8, j) < 256);
            }
        }
        lemma_quantize_clamps(raw@, bits, old_out);
    }
    Ok(())
}

/// Dequantize the grid integers of one group: read `out.len()` values from
/// `packed` at `scheme.bits`.
///
/// `packed` must hold at least `out.len()` values; otherwise
/// [`QuantError::InsufficientPackedData`] is returned and `out` is untouched.
/// Otherwise `out[i]` is the `i`-th field of `packed`, read with [`read_value`];
/// the dequantized float of `q` is `scale * (q - zero_point)`.
#[verifier::spinoff_prover]
pub fn dequantize_codes(packed: &[u8], scheme: &QuantScheme, out: &mut [i8]) -> (res: Result<
    (),
    QuantError,
>)
    requires
        packed@.len() * 8 <= usize::MAX,
    ensures
        final(out)@.len() == old(out)@.len(),
        old(out)@.len() > unpack_capacity(packed@.len(), scheme.bits) ==> res == Err::<
            (),
            QuantError,
        >(
            QuantError::InsufficientPackedData {
                needed: old(out)@.len() as usize,
                available: unpack_capacity(packed@.len(), scheme.bits) as usize,
            },
        ) && final(out)@ == old(out)@,
        old(out)@.len() <= unpack_capacity(packed@.len(), scheme.bits) ==> res == Ok::<
            (),
            QuantError,
        >(()) && final(out)@ == unpacked_values(packed@, scheme.bits, old(out)@.len()),
        res is Ok <==> old(out)@.len() * scheme.bits.width() <= packed@.len() * 8,
{
    proof {
        lemma_unpack_capacity_bounds(packed@.len(), scheme.bits, old(out)@.len());
    }
    let nbits = scheme.bits.bits();
    let capacity = (packed.len() * 8) / nbits;
    if out.len() > capacity {
        return Err(QuantError::InsufficientPackedData { needed: out.len(), available: capacity });
    }
    let ghost old_out = out@;
    proof {
        lemma_width_facts(scheme.bits);
        assert(nbits * capacity <= packed@.len() * 8) by (nonlinear_arith)
            requires
                capacity == (packed@.len() * 8) / (nbits as nat),
                nbits > 0,
        ;
    }
    let mut i = 0usize;
    while i < out.len()
        invariant
            nbits == scheme.bits.width(),
            2 <= nbits <= 8,
            out@.len() == old_out.len(),
            out@.len() <= capacity,
            nbits * capacity <= packed@.len() * 8,
            packed@.len() * 8 <= usize::MAX,
            0 <= i <= out@.len(),
            forall|j: int|
                0 <= j < i ==> out@[j] == #[trigger] unpacked_value(packed@, scheme.bits, j),
        decreases out@.len() - i,
    {
        proof {
            assert(i * nbits <= nbits * capacity) by (nonlinear_arith)
                requires
                    i < capacity,
            ;
        }
        out[i] = read_value(packed, nbits, i);
        i += 1;
    }
    proof {
        assert(out@ =~= unpacked_values(packed@, scheme.bits, old_out.len()));
    }
    Ok(())
}

/// Read the `index`-th `nbits`-wide signed value from `packed` (bits past the end
/// of `packed` read as zero).
#[verifier::spinoff_prover]
pub fn read_value(packed: &[u8], nbits: usize, index: usize) -> (r: i8)
    requires
        2 <= nbits <= 8,
        index * nbits <= usize::MAX,
    ensures
        r == field_value(packed@, nbits as nat, index as int),
{
    let start_bit = index * nbits;
    let ghost bv = bytes_value(packed@);
    let ghost k = (start_bit / 8) as nat;
    let mut window: u32 = 0;
    let mut i = 0usize;
    proof {
        lemma_pow2_small();
        lemma_pow2_pos(8 * k);
        assert(8 * 0 == 0);
    }
    while i < 4
        invariant
            k == start_bit / 8,
            bv == bytes_value(packed@),
            i <= 4,
            window == (bv / pow2(8 * k)) % pow2(8 * i as nat),
            window < pow2(8 * i as nat),
        decreases 4 - i,
    {
        let b = if (start_bit / 8) + i < packed.len() {
            packed[(start_bit / 8) + i]
        } else {
            0
        };
        proof {
            lemma_pow2_small();
            lemma_byte_digit(packed@, (k + i) as int);
            lemma_field_grow(bv, 8 * k, 8 * i as nat);
            assert(8 * k + 8 * i == 8 * (k + i));
            assert(b as nat == (bv / pow2(8 * k + 8 * i as nat)) % 256);
            lemma_append_bits(window, b as u32, (i * 8) as u32, 8);
            assert(8 * (i + 1) == 8 * i + 8);
        }
        window |= (b as u32) << (i * 8);
        i += 1;
    }
    let shift = start_bit % 8;
    let ghost y = bv / pow2(8 * k);
    proof {
        lemma_u32_shr_is_div(window, shift as u32);
        lemma_take_field(window >> shift, nbits as u32);
        lemma_field_of_mod(y, 32, shift as nat, nbits as nat);
        lemma_pow2_pos(8 * k);
        lemma_pow2_pos(shift as nat);
        lemma_div_denominator(bv as int, pow2(8 * k) as int, pow2(shift as nat) as int);
        lemma_pow2_adds(8 * k, shift as nat);
        assert(8 * k + shift == index * nbits);
        assert(index * nbits == nbits * index) by (nonlinear_arith);
        lemma_pow2_pos(nbits as nat);
        lemma_shl_one(nbits as u32);
        lemma_shl_one((nbits - 1) as u32);
    }
    let raw = (window >> shift) & ((1u32 << nbits) - 1);
    let sign_bit: u32 = 1u32 << (nbits - 1);
    proof {
        assert(raw as nat == digit(bv, nbits as nat, index as int));
        lemma_pow2_pos(nbits as nat);
        lemma_sign_extend(raw, nbits as u32);
    }
    let v = if raw & sign_bit != 0 {
        raw.wrapping_sub(1u32 << nbits)
    } else {
        raw
    };
    #[verifier::truncate]
    (v as i8)
}

/// Layout: on grid integers that are already representable, [`quantize_codes`]
/// writes exactly the bytes that [`crate::pack::pack_bits`] writes for the same
/// values.
pub proof fn lemma_quantize_codes_layout(raw: Seq<i32>, vals: Seq<i8>, bits: BitWidth)
    requires
        raw.len() == vals.len(),
        forall|i: int| 0 <= i < raw.len() ==> #[trigger] raw[i] as int == vals[i] as int,
        all_in_range(vals, bits),
    ensures
        packed_bytes(clamped_codes(raw, bits), bits) == packed_bytes(vals, bits),
{
    assert forall|i: int| 0 <= i < raw.len() implies #[trigger] clamped_codes(raw, bits)[i]
        == vals[i] by {
        assert(bits.holds(vals[i] as int));
    }
    assert(clamped_codes(raw, bits) =~= vals);
}

/// Clamping: every value read back from a buffer written by [`quantize_codes`] is
/// the grid integer itself when it is representable, `qmax = 2^(bits-1) - 1` when
/// it lies above, and `qmin = -2^(bits-1)` when it lies below; so it always lies in
/// `[qmin, qmax]`, and larger grid integers never read back smaller.
pub proof fn lemma_quantize_clamps(raw: Seq<i32>, bits: BitWidth, buf: Seq<u8>)
    requires
        buf.len() >= packed_count(raw.len(), bits.width()),
    ensures
        forall|i: int|
            0 <= i < raw.len() ==> {
                let v = #[trigger] unpacked_value(
                    overwrite_prefix(buf, packed_bytes(clamped_codes(raw, bits), bits)),
                    bits,
                    i,
                ) as int;
                let x = raw[i] as int;
                let h = pow2((bits.width() - 1) as nat) as int;
                &&& -h <= v <= h - 1
                &&& (-h <= x <= h - 1 ==> v == x)
                &&& (x > h - 1 ==> v == h - 1)
                &&& (x < -h ==> v == -h)
            },
        forall|i: int, j: int|
            0 <= i < raw.len() && 0 <= j < raw.len() && raw[i] <= raw[j] ==> unpacked_value(
                overwrite_prefix(buf, packed_bytes(clamped_codes(raw, bits), bits)),
                bits,
                i,
            ) <= unpacked_value(
                overwrite_prefix(buf, packed_bytes(clamped_codes(raw, bits), bits)),
                bits,
                j,
            ),
{
    lemma_quantize_dequantize_codes(raw, bits, buf);
    lemma_width_facts(bits);
}

/// Quantizing then dequantizing on the grid gives back each grid integer clamped
/// to the representable range: reading `raw.len()` values from a buffer written by
/// [`quantize_codes`] succeeds and yields `clamp(raw[i], qmin, qmax)`.
pub proof fn lemma_quantize_dequantize_codes(raw: Seq<i32>, bits: BitWidth, buf: Seq<u8>)
    requires
        buf.len() >= packed_count(raw.len(), bits.width()),
    ensures
        raw.len() <= unpack_capacity(buf.len(), bits),
        forall|i: int|
            0 <= i < raw.len() ==> #[trigger] unpacked_value(
                overwrite_prefix(buf, packed_bytes(clamped_codes(raw, bits), bits)),
                bits,
                i,
            ) as int == clamp_spec(raw[i] as int, bits.lowest(), bits.highest()),
{
    let vals = clamped_codes(raw, bits);
    lemma_width_facts(bits);
    assert(all_in_range(vals, bits));
    lemma_pack_unpack_roundtrip(vals, bits, buf);
    let p = overwrite_prefix(buf, packed_bytes(vals, bits));
    assert forall|i: int| 0 <= i < raw.len() implies #[trigger] unpacked_value(p, bits, i) as int
        == clamp_spec(raw[i] as int, bits.lowest(), bits.highest()) by {
        assert(unpacked_values(p, bits, vals.len())[i] == vals[i]);
    }
}

} // verus!
