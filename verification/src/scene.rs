//! Where two domains meet: the shape check a flux must pass before it is laid over a boundary.

use vstd::prelude::*;

verus! {

/// A flux laid over a boundary that has another number of faces: what the boundary has, and
/// what the flux brought.
#[derive(Clone, Copy, Debug, PartialEq, Eq)]
pub struct FaceCountMismatch {
    /// The faces the boundary has.
    pub expected: usize,
    /// The faces the flux carries.
    pub found: usize,
}

/// Refuse a flux whose face count is not the boundary's. Nothing is resampled or padded on the
/// way: a face count that disagrees is named, with both numbers, so the caller can say where.
pub fn check_face_count(expected: usize, found: usize) -> (r: Result<(), FaceCountMismatch>)
    ensures
        r is Ok <==> expected == found,
        r matches Err(m) ==> m == (FaceCountMismatch { expected, found }),
{
    if expected == found {
        Ok(())
    } else {
        Err(FaceCountMismatch { expected, found })
    }
}

} // verus!
