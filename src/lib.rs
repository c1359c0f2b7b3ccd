//! Terrain synthesis over an irregular mesh: the mesh topology derived from a
//! Delaunay triangulation, sink filling, flux accumulation, drainage networks and
//! coastlines. Heights are fixed-point integers (see [`erosion::HEIGHT_SCALE`]).
pub mod coasts;
pub mod erosion;
pub mod history;
pub mod mesh;
pub mod poisson;
pub mod rivers;
pub mod sort;
