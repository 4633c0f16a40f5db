//! # tpt_quant_core
//!
//! Minimal, stable quantization primitives, verified with Verus:
//!
//! - [`scheme`] — the stable vocabulary ([`BitWidth`], [`QuantScheme`],
//!   [`QuantError`]).
//! - [`pack`] — `int8`/`int4`/`int3`/`int2` bit-packing and unpacking, with the
//!   round-trip, layout and padding laws.
//! - [`dequant`] — the integer half of quantize / dequantize: grid clamping,
//!   incremental packing and random-access reading of packed values.
//! - [`scale`] — the checks that decide whether a group can be scaled.
//! - [`fuzz`] — the pack / unpack fuzz harness, proved never to fail.
//! - [`bitstream`] — the mathematical model of a packed bit stream.
//!
//! Every function here is proved free of panics and overflow for the inputs its
//! contract admits.
pub mod bitstream;
pub mod dequant;
pub mod fuzz;
pub mod pack;
pub mod scale;
pub mod scheme;

pub use dequant::{dequantize_codes, quantize_codes, read_value};
pub use fuzz::{fuzz_pack_unpack, pick_bits};
pub use pack::{pack_bits, unpack_bits};
pub use scale::validate_group;
pub use scheme::{BitWidth, QuantError, QuantScheme};
