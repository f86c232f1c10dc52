//! Key geometry. Positions and sizes are held in milli key-units
//! (one key unit = 1000), so that layout arithmetic is exact.

use vstd::prelude::*;

verus! {

/// One key unit, in the milli-unit scale every coordinate uses.
pub const UNIT: i64 = 1000;

/// A rectangle in milli key-units: origin top-left, `y` decreasing as a
/// layout parse proceeds (the downstream consumer applies a global flip).
#[derive(Clone, Copy, PartialEq, Eq, Structural, Debug)]
pub struct Rect {
    pub x: i64,
    pub y: i64,
    pub w: i64,
    pub h: i64,
}

impl Rect {
    pub fn new(x: i64, y: i64, w: i64, h: i64) -> (r: Rect)
        ensures
            r == (Rect { x, y, w, h }),
    {
        Rect { x, y, w, h }
    }
}

} // verus!
