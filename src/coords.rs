//! Region and chunk coordinates.
use vstd::prelude::*;

verus! {

/// Number of chunks along one side of a region.
pub const SIDE: usize = 32;

/// Location of a chunk inside its region: `(x, z)`, each in `0..SIDE`.
#[derive(Clone, Copy, Debug, PartialEq, Eq, Hash, Structural)]
pub struct CLoc(pub usize, pub usize);

/// Location of a region in the unbounded grid of regions: `(x, z)`.
#[derive(Clone, Copy, Debug, PartialEq, Eq, Hash, Structural)]
pub struct RLoc(pub i32, pub i32);

/// A chunk offset that leaves the region.
#[derive(Clone, Copy, Debug, PartialEq, Eq, Structural)]
pub struct InvalidOffsetError;

/// Inclusive bounds `(min, max)` on region coordinates.
pub type RegionBounds = (RLoc, RLoc);

impl InvalidOffsetError {
    /// The error's message.
    pub fn message(&self) -> (r: String)
        ensures
            r@ == "Chunk coord will be out of bounds."@,
    {
        "Chunk coord will be out of bounds.".to_owned()
    }
}

impl CLoc {
    /// The chunk location lies inside a region.
    pub open spec fn valid(self) -> bool {
        self.0 < SIDE && self.1 < SIDE
    }

    /// Index of the chunk in a region's table: `z * SIDE + x`.
    pub open spec fn index(self) -> int {
        self.1 * SIDE + self.0
    }

    /// The chunk `(x, z)` chunks away, or an error where that leaves the region.
    pub fn offset(&self, x: i32, z: i32) -> (r: Result<CLoc, InvalidOffsetError>)
        ensures
            (0 <= self.0 + x < SIDE && 0 <= self.1 + z < SIDE) <==> r is Ok,
            r matches Ok(c) ==> c.0 == self.0 + x && c.1 == self.1 + z,
    {
        let new_x: i128 = self.0 as i128 + x as i128;
        let new_z: i128 = self.1 as i128 + z as i128;
        if new_x < 0 || new_x >= SIDE as i128 {
            return Err(InvalidOffsetError);
        }
        if new_z < 0 || new_z >= SIDE as i128 {
            return Err(InvalidOffsetError);
        }
        Ok(CLoc(new_x as usize, new_z as usize))
    }
}

impl From<(usize, usize)> for CLoc {
    fn from(t: (usize, usize)) -> (r: CLoc)
        ensures
            r == CLoc(t.0, t.1),
    {
        CLoc(t.0, t.1)
    }
}

impl vstd::std_specs::convert::FromSpecImpl<(usize, usize)> for CLoc {
    open spec fn obeys_from_spec() -> bool {
        true
    }

    open spec fn from_spec(t: (usize, usize)) -> CLoc {
        CLoc(t.0, t.1)
    }
}

impl From<(i32, i32)> for RLoc {
    fn from(t: (i32, i32)) -> (r: RLoc)
        ensures
            r == RLoc(t.0, t.1),
    {
        RLoc(t.0, t.1)
    }
}

impl vstd::std_specs::convert::FromSpecImpl<(i32, i32)> for RLoc {
    open spec fn obeys_from_spec() -> bool {
        true
    }

    open spec fn from_spec(t: (i32, i32)) -> RLoc {
        RLoc(t.0, t.1)
    }
}

impl RLoc {
    /// The region `(x, z)` regions away.
    pub fn offset(&self, x: i32, z: i32) -> (r: RLoc)
        requires
            i32::MIN <= self.0 + x <= i32::MAX,
            i32::MIN <= self.1 + z <= i32::MAX,
        ensures
            r.0 == self.0 + x,
            r.1 == self.1 + z,
    {
        RLoc(self.0 + x, self.1 + z)
    }
}

} // verus!
