//! Coordinate space markers, used only at the type level to tell apart the
//! spaces a point can live in. No code makes a value of them.

use vstd::prelude::*;

verus! {

/// Geographic coordinates (degrees).
pub struct Geo;

/// Coordinates local to one tile.
pub struct TileLocal;

/// World coordinates.
pub struct World;

/// Screen pixels.
pub struct Pixel;

/// Normalized device coordinates.
pub struct Gpu;

/// Conversion between the two geometry libraries' point and vector types.
pub trait EuclidVsNalgebra {
    type Value;

    fn convert(self) -> Self::Value;
}

} // verus!
