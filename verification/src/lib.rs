//! Map tiles computed on demand from geospatial raster sources, with pixels
//! transformed through a user-supplied script.
//!
//! The crate provides the verified core of the tile server: bounding-box
//! algebra ([`bbox`]), tile-pyramid coordinate math ([`xyz`]), the script
//! descriptor grammar ([`descriptor`]), locator dispatch ([`source`]), image
//! buffers ([`utils`]) and the per-pixel evaluation driver ([`engine`]).
//! Opening rasters, reprojecting them and running the scripting runtime are
//! the caller's side of the boundary: the caller feeds plain values in and
//! the library decides everything that follows from them.

pub mod bbox;
pub mod custom_script;
pub mod descriptor;
pub mod engine;
pub mod geojson;
pub mod source;
pub mod utils;
pub mod xyz;
