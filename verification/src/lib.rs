//! Geometry and pattern-generation core for pen-plotter fills.
//!
//! The library holds what a fill needs beyond floating-point geometry: the
//! pattern catalogue, the space-filling curves on integer grids, the
//! L-system of the Sierpiński curve, the generators of pseudo-random
//! numbers, the ordering of polygons for travel, the conversion of polygons
//! and polylines to segments, the removal of repeated segments, the
//! assembly of holes into their outer polygons, and the framing of SVG
//! output.
pub mod args;
pub mod chain;
pub mod clipping;
pub mod contour;
pub mod coverage;
pub mod dedup;
pub mod geometry;
pub mod hilbert;
pub mod linking;
pub mod lsystem;
pub mod order;
pub mod patterns;
pub mod peano;
pub mod rng;
pub mod sketchy;
pub mod svg;
pub mod text;
pub mod viewer;

pub use chain::chains_to_lines;
pub use geometry::{Chain, Line, Point, Polygon};
pub use order::{order_nearest_neighbor, order_polygons, OrderingStrategy};
pub use patterns::{Pattern, PatternMetadata};
pub use rng::Rng;
pub use sketchy::polygon_to_lines;
pub use svg::{extract_viewbox, SvgError};
