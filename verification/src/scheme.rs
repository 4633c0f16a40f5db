//! The stable public vocabulary of the crate: bit-widths, schemes and errors.
use crate::bitstream::lemma_pow2_small;
use vstd::arithmetic::power2::pow2;
use vstd::prelude::*;

verus! {

/// A supported quantization bit-width.
///
/// Represented as an enum rather than a raw integer so that the set of supported
/// widths is exhaustively matched and documented.
#[derive(Debug, Clone, Copy, PartialEq, Eq, Hash)]
#[non_exhaustive]
pub enum BitWidth {
    /// 2-bit signed integers (range `-2..=1`).
    Int2,
    /// 3-bit signed integers (range `-4..=3`).
    Int3,
    /// 4-bit signed integers (range `-8..=7`).
    Int4,
    /// 8-bit signed integers (range `-128..=127`).
    Int8,
}

impl BitWidth {
    /// The number of bits of one quantized value.
    pub open spec fn width(self) -> nat {
        match self {
            BitWidth::Int2 => 2,
            BitWidth::Int3 => 3,
            BitWidth::Int4 => 4,
            BitWidth::Int8 => 8,
        }
    }

    /// The smallest representable integer: `-2^(width-1)`.
    pub open spec fn lowest(self) -> int {
        -(pow2((self.width() - 1) as nat) as int)
    }

    /// The largest representable integer: `2^(width-1) - 1`.
    pub open spec fn highest(self) -> int {
        pow2((self.width() - 1) as nat) - 1
    }

    /// `v` is representable at this width.
    pub open spec fn holds(self, v: int) -> bool {
        self.lowest() <= v <= self.highest()
    }

    /// The number of bits each quantized value occupies.
    pub fn bits(self) -> (r: usize)
        ensures
            r == self.width(),
    {
        match self {
            BitWidth::Int2 => 2,
            BitWidth::Int3 => 3,
            BitWidth::Int4 => 4,
            BitWidth::Int8 => 8,
        }
    }

    /// The number of distinct values representable at this bit-width.
    pub fn levels(self) -> (r: usize)
        ensures
            r == pow2(self.width()),
    {
        let b = self.bits();
        proof {
            lemma_width_facts(self);
            assert(1usize << 2usize == 4usize) by (bit_vector);
            assert(1usize << 3usize == 8usize) by (bit_vector);
            assert(1usize << 4usize == 16usize) by (bit_vector);
            assert(1usize << 8usize == 256usize) by (bit_vector);
        }
        1usize << b
    }

    /// The smallest (most negative) representable quantized integer.
    pub fn qmin(self) -> (r: i32)
        ensures
            r == self.lowest(),
    {
        proof {
            lemma_width_facts(self);
        }
        -(self.levels() as i32) / 2
    }

    /// The largest representable quantized integer.
    pub fn qmax(self) -> (r: i32)
        ensures
            r == self.highest(),
    {
        proof {
            lemma_width_facts(self);
        }
        (self.levels() as i32) / 2 - 1
    }

    /// The smallest representable value, as an `i8`.
    pub fn min_repr(self) -> (r: i8)
        ensures
            r == self.lowest(),
    {
        proof {
            lemma_width_facts(self);
        }
        self.qmin() as i8
    }

    /// The largest representable value, as an `i8`.
    pub fn max_repr(self) -> (r: i8)
        ensures
            r == self.highest(),
    {
        proof {
            lemma_width_facts(self);
        }
        self.qmax() as i8
    }

    /// How many values fit in a single byte at this bit-width.
    pub fn values_per_byte(self) -> (r: usize)
        ensures
            r == 8nat / self.width(),
    {
        8 / self.bits()
    }
}

/// The concrete sizes behind each width.
pub proof fn lemma_width_facts(b: BitWidth)
    ensures
        2 <= b.width() <= 8,
        pow2(b.width()) == 2 * pow2((b.width() - 1) as nat),
        b.width() == 2 ==> pow2(b.width()) == 4 && b.lowest() == -2 && b.highest() == 1,
        b.width() == 3 ==> pow2(b.width()) == 8 && b.lowest() == -4 && b.highest() == 3,
        b.width() == 4 ==> pow2(b.width()) == 16 && b.lowest() == -8 && b.highest() == 7,
        b.width() == 8 ==> pow2(b.width()) == 256 && b.lowest() == -128 && b.highest() == 127,
        b.width() == 2 || b.width() == 3 || b.width() == 4 || b.width() == 8,
{
    lemma_pow2_small();
}

impl Default for BitWidth {
    /// `Int8`, the widest (and most accurate) width.
    fn default() -> (r: Self)
        ensures
            r == BitWidth::Int8,
    {
        BitWidth::Int8
    }
}

/// The number of bytes that hold `count` values of `n` bits each: `ceil(count * n / 8)`.
pub open spec fn packed_count(count: nat, n: nat) -> nat {
    (count * n + 7) / 8
}

/// `ceil(t / 8)`, computed without overflow.
pub(crate) fn div_ceil8(t: usize) -> (r: usize)
    ensures
        r == (t + 7) / 8,
{
    t / 8 + if t % 8 == 0 {
        0
    } else {
        1
    }
}

/// A complete description of a group-wise quantization scheme.
#[derive(Debug, Clone, Copy, PartialEq, Eq, Hash)]
pub struct QuantScheme {
    /// The bit-width of each quantized value.
    pub bits: BitWidth,
    /// Number of values sharing one scale (the unit of scale computation).
    pub group_size: usize,
    /// `true`: symmetric quantization (zero-point is always `0`);
    /// `false`: asymmetric quantization (a zero-point shifts the range).
    pub symmetric: bool,
}

impl QuantScheme {
    /// The number of bytes required to pack `n` values at this scheme's bit-width.
    ///
    /// This is `ceil(n * bits / 8)`; the final byte is zero-padded.
    pub fn packed_len(self, n: usize) -> (r: usize)
        requires
            n * self.bits.width() <= usize::MAX,
        ensures
            r == packed_count(n as nat, self.bits.width()),
    {
        div_ceil8(n * self.bits.bits())
    }
}

impl Default for QuantScheme {
    /// Symmetric `Int8` with groups of one value.
    fn default() -> (r: Self)
        ensures
            r == (QuantScheme { bits: BitWidth::Int8, group_size: 1, symmetric: true }),
    {
        QuantScheme { bits: BitWidth::Int8, group_size: 1, symmetric: true }
    }
}

/// Shared error type for pack / unpack / quantize / dequantize.
///
/// All fallible functions of the crate return this type rather than panicking.
#[derive(Debug, Clone, Copy, PartialEq, Eq)]
pub enum QuantError {
    /// An output buffer was too small for the operation.
    BufferTooSmall {
        /// Number of bytes (or values) that were required.
        needed: usize,
        /// Number of bytes (or values) that were actually provided.
        got: usize,
    },
    /// An input value was outside the representable range for the bit-width.
    ValueOutOfRange {
        /// The offending value.
        value: i32,
        /// The inclusive minimum representable value.
        min: i32,
        /// The inclusive maximum representable value.
        max: i32,
    },
    /// A packed buffer did not contain enough bits to fill the requested output.
    InsufficientPackedData {
        /// Number of values requested.
        needed: usize,
        /// Number of values that could be decoded from the buffer.
        available: usize,
    },
    /// A `group_size` of zero was supplied, which is meaningless.
    ZeroGroupSize,
    /// An empty input was supplied where at least one value was required.
    EmptyInput,
}

} // verus!
