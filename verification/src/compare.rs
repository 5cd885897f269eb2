use vstd::prelude::*;

verus! {

/// Why a pair of images cannot be compared.
#[derive(Debug, PartialEq, Eq, Structural, Clone, Copy)]
pub enum CompareError {
    DimensionMismatch,
}

/// The pixel dimensions of a decoded image.
#[derive(Debug, PartialEq, Eq, Structural, Clone, Copy)]
pub struct Dimensions {
    pub width: u32,
    pub height: u32,
}

/// Admits a pair of images to structural comparison: the similarity algorithm
/// is defined only on equally sized pixel buffers, so the pair passes exactly
/// when both dimensions agree, and is otherwise rejected as a dimension
/// mismatch rather than scored.
pub fn check_dimensions(original: Dimensions, compressed: Dimensions) -> (r: Result<
    (),
    CompareError,
>)
    ensures
        r is Ok <==> original == compressed,
        r is Err ==> r == Err::<(), CompareError>(CompareError::DimensionMismatch),
{
    if original.width == compressed.width && original.height == compressed.height {
        Ok(())
    } else {
        Err(CompareError::DimensionMismatch)
    }
}

} // verus!
