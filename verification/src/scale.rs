//! The integer side of group-wise scale computation.
//!
//! Computing a group's scale and zero-point is floating-point work; what it
//! decides before any arithmetic — whether the group can be scaled at all — is
//! stated here.
use crate::scheme::{QuantError, QuantScheme};
use vstd::prelude::*;

verus! {

/// Check that a group of `count` values can be scaled under `scheme`.
///
/// A `group_size` of zero is rejected first, with [`QuantError::ZeroGroupSize`];
/// then an empty group, with [`QuantError::EmptyInput`].
pub fn validate_group(count: usize, scheme: &QuantScheme) -> (res: Result<(), QuantError>)
    ensures
        scheme.group_size == 0 ==> res == Err::<(), QuantError>(QuantError::ZeroGroupSize),
        scheme.group_size != 0 && count == 0 ==> res == Err::<(), QuantError>(
            QuantError::EmptyInput,
        ),
        scheme.group_size != 0 && count != 0 ==> res == Ok::<(), QuantError>(()),
{
    if scheme.group_size == 0 {
        return Err(QuantError::ZeroGroupSize);
    }
    if count == 0 {
        return Err(QuantError::EmptyInput);
    }
    Ok(())
}

} // verus!
