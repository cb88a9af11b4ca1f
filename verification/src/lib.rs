//! Region quadtree over a raster image.
//!
//! A region quadtree recursively subdivides a rectangular pixel region into
//! four quadrants until every leaf region is uniformly colored. The tree can
//! be serialized to a canonical byte format, restored from it, rasterized back
//! into a pixel grid, and asked for the split lines of its interior nodes.

pub mod region_qt;
