//! Toolpath minimizer for layered G-code-like cutting programs.
//!
//! A document is an ordered list of layers, each an ordered list of directed
//! straight cutting moves ("segments") with integer micrometer coordinates.
//! The library reorders each layer's segments with a greedy nearest-neighbor
//! heuristic (optionally flipping segment direction) to shorten non-cutting
//! travel, totals cutting plus travel length, and checks that a reordered
//! document is physically equivalent to its source.
//!
//! All geometric comparisons are made on exact squared Euclidean distances,
//! so no rounding enters before the final length total, which uses the
//! integer floor square root of each squared distance.

pub mod equivalence;
pub mod estimator;
pub mod geometry;
pub mod minimizer;
pub mod model;

pub use equivalence::test_gcode_equality;
pub use estimator::get_profile_sq_um2;
pub use estimator::get_total_length_um;
pub use geometry::Segment;
pub use minimizer::minimize_gcode;
pub use model::GCodeData;
pub use model::Layer;
