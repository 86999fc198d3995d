//! Which requests the probes of the quantiser refuse.
use crate::tvector::MAX_DIM;
use vstd::prelude::*;

verus! {

/// Why a vector cannot be scored against itself.
#[derive(Clone, Copy, Debug, PartialEq, Eq, Structural)]
pub enum SelfScoreError {
    /// The number of dimensions is no multiple of 8.
    DimNotMultipleOfEight,
    /// The bit width is not 2, 3 or 4.
    BadBitWidth,
}

/// Checks that a vector can be scored against itself.
pub fn check_self_score(dim: usize, bit_width: i32) -> (r: Result<(), SelfScoreError>)
    ensures
        r == (if dim % 8 != 0 {
            Err::<(), SelfScoreError>(SelfScoreError::DimNotMultipleOfEight)
        } else if !(2 <= bit_width <= 4) {
            Err::<(), SelfScoreError>(SelfScoreError::BadBitWidth)
        } else {
            Ok::<(), SelfScoreError>(())
        }),
{
    if dim % 8 != 0 {
        return Err(SelfScoreError::DimNotMultipleOfEight);
    }
    if !(2 <= bit_width && bit_width <= 4) {
        return Err(SelfScoreError::BadBitWidth);
    }
    Ok(())
}

/// The number of dimensions of a random vector, where it is within bounds.
pub fn random_unit_dim(dim: i32) -> (r: Option<usize>)
    ensures
        r == (if 1 <= dim <= MAX_DIM {
            Some(dim as usize)
        } else {
            None
        }),
{
    if dim <= 0 || dim as usize > MAX_DIM {
        return None;
    }
    Some(dim as usize)
}

} // verus!
