//! Polygon geometry for geographic reporting.
//!
//! Coordinates carry the same fixed-point integer scale as the bounding
//! boxes they are built from; the caller divides by its chosen scale when
//! it serializes the geometry.

use vstd::prelude::*;
use vstd::string::StringExecFns;

verus! {

/// A polygon: a geometry type tag and a list of rings, each ring a list of
/// `[x, y]` positions.
pub struct PolygonGeometry {
    pub geom_type: String,
    pub coordinates: Vec<Vec<[i64; 2]>>,
}

impl PolygonGeometry {
    /// A polygon with the single given exterior ring.
    pub fn from_exterior(coords: Vec<[i64; 2]>) -> (r: PolygonGeometry)
        ensures
            r.geom_type@ == "polygon"@,
            r.coordinates@.len() == 1,
            r.coordinates@[0] == coords,
    {
        let mut coordinates: Vec<Vec<[i64; 2]>> = Vec::new();
        coordinates.push(coords);
        PolygonGeometry { geom_type: String::from_str("polygon"), coordinates }
    }
}

} // verus!
