use vstd::prelude::*;

verus! {

/// A pre-rotation applied when a page is rasterized, in quarter turns.
#[derive(Clone, Copy, PartialEq, Eq, Structural, Debug)]
pub enum Rotation {
    Zero,
    Quarter,
    Half,
    ThreeQuarters,
}

impl Rotation {
    /// The rotation as an angle in degrees.
    pub open spec fn degrees_spec(self) -> u32 {
        match self {
            Rotation::Zero => 0,
            Rotation::Quarter => 90,
            Rotation::Half => 180,
            Rotation::ThreeQuarters => 270,
        }
    }

    /// Maps each quarter turn to its angle: 0, 90, 180 or 270 degrees.
    pub fn degrees(&self) -> (d: u32)
        ensures
            d == self.degrees_spec(),
    {
        match self {
            Rotation::Zero => 0,
            Rotation::Quarter => 90,
            Rotation::Half => 180,
            Rotation::ThreeQuarters => 270,
        }
    }
}

} // verus!
