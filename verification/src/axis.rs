use vstd::prelude::*;

verus! {

/// One of the three axes, as a type rather than an index, so that a fourth one cannot be asked
/// for.
#[derive(Clone, Copy, Debug, PartialEq, Eq, Hash)]
pub enum Axis {
    /// x.
    X,
    /// y.
    Y,
    /// z.
    Z,
}

/// The index an axis stands for: 0, 1 or 2.
pub open spec fn axis_index(a: Axis) -> nat {
    match a {
        Axis::X => 0,
        Axis::Y => 1,
        Axis::Z => 2,
    }
}

impl Axis {
    /// 0, 1 or 2 — for indexing the three components of a displacement.
    pub fn index(self) -> (i: usize)
        ensures
            i == axis_index(self),
            i < 3,
    {
        match self {
            Axis::X => 0,
            Axis::Y => 1,
            Axis::Z => 2,
        }
    }

    /// All three, in order.
    pub const ALL: [Axis; 3] = [Axis::X, Axis::Y, Axis::Z];
}

/// Two axes with one index are one axis: the index loses nothing.
pub proof fn lemma_axis_index_is_faithful(a: Axis, b: Axis)
    ensures
        axis_index(a) == axis_index(b) <==> a == b,
        axis_index(a) < 3,
{
}

} // verus!
