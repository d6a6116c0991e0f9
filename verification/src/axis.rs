//! Axis-aligned infinite planes, used for splitting space along one of the three axes.
use crate::random::gen_range_inclusive_i32;
use rand::rngs::SmallRng;
use vstd::prelude::*;

verus! {

/// Axis-aligned infinite planes.
#[derive(Clone, Copy, Debug, PartialEq, Eq)]
pub enum Axis {
    /// The plane along the XY axis
    XY,
    /// The plane along the XZ axis
    XZ,
    /// The plane along the YZ axis
    YZ,
}

/// The index of the coordinate that is constant on the plane: the plane's
/// normal axis, as an index into a three-component vector.
pub open spec fn axis_index(a: Axis) -> usize {
    match a {
        Axis::XY => 2,
        Axis::XZ => 1,
        Axis::YZ => 0,
    }
}

/// Helper method for going from a plane axis into an index of a three-component vector
impl From<Axis> for usize {
    fn from(a: Axis) -> (r: usize) {
        match a {
            Axis::XY => 2,
            Axis::XZ => 1,
            Axis::YZ => 0,
        }
    }
}

impl vstd::std_specs::convert::FromSpecImpl<Axis> for usize {
    open spec fn obeys_from_spec() -> bool {
        true
    }

    open spec fn from_spec(a: Axis) -> usize {
        axis_index(a)
    }
}

/// The plane selected by a draw from `0..=2`: `0` gives the XY plane, `1` the
/// XZ plane, and anything else the YZ plane.
pub open spec fn sampled_axis(sample: i32) -> Axis {
    if sample == 0 {
        Axis::XY
    } else if sample == 1 {
        Axis::XZ
    } else {
        Axis::YZ
    }
}

/// The plane that a uniformly drawn sample from `0..=2` selects: `0` gives
/// the XY plane, `1` the XZ plane, and anything else the YZ plane.
pub fn axis_from_sample(sample: i32) -> (a: Axis)
    ensures
        a == sampled_axis(sample),
{
    match sample {
        0 => Axis::XY,
        1 => Axis::XZ,
        _ => Axis::YZ,
    }
}

/// A random plane, each of the three chosen by a uniform draw from `0..=2`.
pub fn random_axis(rng: &mut SmallRng) -> (a: Axis) {
    let sample = gen_range_inclusive_i32(0, 2, rng);
    axis_from_sample(sample)
}

/// Distinct planes have distinct indices, and each index names a coordinate.
pub proof fn lemma_axis_index_injective(a: Axis, b: Axis)
    ensures
        axis_index(a) < 3,
        a != b ==> axis_index(a) != axis_index(b),
{
}

/// Every plane can be drawn: the sample equal to its position in `XY, XZ, YZ` selects it.
pub proof fn lemma_every_axis_sampled(a: Axis)
    ensures
        exists|s: i32| 0 <= s <= 2 && #[trigger] sampled_axis(s) == a,
{
    let s: i32 = match a {
        Axis::XY => 0,
        Axis::XZ => 1,
        Axis::YZ => 2,
    };
    assert(0 <= s <= 2 && sampled_axis(s) == a);
}

} // verus!
