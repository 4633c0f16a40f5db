//! The pack / unpack fuzz harness: arbitrary bytes are turned into a bit-width, a
//! packed buffer, a requested value count and raw values, and fed to
//! [`pack_bits`] / [`unpack_bits`]; a clean round trip on the clamped values must
//! be exact. Verus proves the harness's check holds for every input, so a fuzzing
//! engine driving it can only confirm it.
use crate::pack::{
    all_in_range, lemma_first_out_of_range, lemma_pack_unpack_roundtrip, overwrite_prefix,
    pack_bits, packed_bytes, unpack_bits, unpacked_values,
};
use crate::scheme::{div_ceil8, lemma_width_facts, packed_count, BitWidth};
use vstd::prelude::*;

verus! {

/// The bit-width that the fuzz tag `tag` selects.
pub fn pick_bits(tag: u8) -> (r: BitWidth)
    ensures
        tag % 4 == 0 ==> r == BitWidth::Int2,
        tag % 4 == 1 ==> r == BitWidth::Int3,
        tag % 4 == 2 ==> r == BitWidth::Int4,
        tag % 4 == 3 ==> r == BitWidth::Int8,
{
    match tag % 4 {
        0 => BitWidth::Int2,
        1 => BitWidth::Int3,
        2 => BitWidth::Int4,
        _ => BitWidth::Int8,
    }
}

/// Run the harness on `data`; returns whether the clean round trip was exact.
///
/// Byte 0 picks the width, byte 1 the number of values to unpack from the bytes
/// after it; all bytes, read as `i8`, are packed as they are (which may be
/// refused) and again clamped to the width's range, and the clamped values are
/// unpacked back and compared. A one-byte input has no bytes after byte 1 to
/// unpack from, and is outside the harness.
#[verifier::spinoff_prover]
pub fn fuzz_pack_unpack(data: &[u8]) -> (roundtrip_ok: bool)
    requires
        data@.len() != 1,
        data@.len() * 8 <= usize::MAX,
    ensures
        roundtrip_ok,
{
    if data.len() == 0 {
        return true;
    }
    let bits = pick_bits(data[0]);
    proof {
        lemma_width_facts(bits);
    }

    // Unpacking with an arbitrary packed buffer and an arbitrary requested count
    // either succeeds or reports insufficient data.
    let want = (if data.len() > 1 {
        data[1]
    } else {
        0
    }) as usize % 4096;
    let mut out: Vec<i8> = vec![0i8; want];
    let (_, rest) = data.split_at(2);
    let _ = unpack_bits(rest, bits, out.as_mut_slice());

    // Packing arbitrary (unclamped) values either succeeds or reports an
    // out-of-range value / a small buffer.
    let mut raw: Vec<i8> = Vec::new();
    let mut i = 0usize;
    while i < data.len()
        invariant
            i <= data@.len(),
            raw@.len() == i,
        decreases data@.len() - i,
    {
        raw.push(data[i] as i8);
        i += 1;
    }
    proof {
        assert(raw@.len() * bits.width() <= raw@.len() * 8) by (nonlinear_arith)
            requires
                bits.width() <= 8,
        ;
    }
    let need = div_ceil8(raw.len() * bits.bits());
    let mut packed: Vec<u8> = vec![0u8; need];
    let _ = pack_bits(raw.as_slice(), bits, packed.as_mut_slice());

    let lo = bits.min_repr();
    let hi = bits.max_repr();
    let mut clamped: Vec<i8> = Vec::new();
    let mut j = 0usize;
    while j < raw.len()
        invariant
            j <= raw@.len(),
            clamped@.len() == j,
            lo == bits.lowest(),
            hi == bits.highest(),
            bits.lowest() < bits.highest(),
            forall|k: int| 0 <= k < j ==> bits.holds(#[trigger] clamped@[k] as int),
        decreases raw@.len() - j,
    {
        let v = raw[j];
        let c = if v < lo {
            lo
        } else if v > hi {
            hi
        } else {
            v
        };
        clamped.push(c);
        j += 1;
    }
    let mut packed2: Vec<u8> = vec![0u8; need];
    let ghost old_packed2 = packed2@;
    proof {
        lemma_first_out_of_range(clamped@, bits, clamped@.len() as int);
        assert(old_packed2.len() == packed_count(clamped@.len(), bits.width()));
    }
    if pack_bits(clamped.as_slice(), bits, packed2.as_mut_slice()).is_ok() {
        let mut back: Vec<i8> = vec![0i8; clamped.len()];
        let ghost packed2_view = packed2@;
        if unpack_bits(packed2.as_slice(), bits, back.as_mut_slice()).is_ok() {
            proof {
                assert(all_in_range(clamped@, bits));
                lemma_pack_unpack_roundtrip(clamped@, bits, old_packed2);
                assert(packed2@ == overwrite_prefix(old_packed2, packed_bytes(clamped@, bits)));
                assert(back@ == unpacked_values(packed2@, bits, clamped@.len()));
            }
            // The bit-packing itself is a bijection on the representable grid.
            let mut k = 0usize;
            while k < back.len()
                invariant
                    back@ == clamped@,
                    k <= back@.len(),
                decreases back@.len() - k,
            {
                if back[k] != clamped[k] {
                    return false;
                }
                k += 1;
            }
        }
    }
    true
}

} // verus!
