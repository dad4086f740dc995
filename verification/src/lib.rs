//! Continuous piecewise linear functions over exact rational coordinates.
//!
//! A function is represented as an ordered list of `(x, y)` breakpoints and is
//! linear between consecutive breakpoints. The crate provides a validating
//! constructor, evaluation, domain adjustment, a k-way merge of the breakpoints
//! of several functions, and an algebra (sum, pointwise maximum and minimum,
//! negation, absolute value, integration) built on that merge.
//!
//! Coordinates are fractions of 64-bit integers; every arithmetic step is
//! checked, and an operation whose exact result cannot be represented reports
//! failure instead of returning an approximate value.

pub mod frac;
pub mod merge;
pub mod plf;

pub use frac::bogus_compare;
pub use frac::frac_eq;
pub use frac::frac_le;
pub use frac::frac_lt;
pub use frac::Frac;
pub use merge::points_of_inflection_iter;
pub use merge::sum;
pub use merge::PointsOfInflectionIterator;
pub use merge::PoiState;
pub use merge::PoiStep;
pub use plf::line_in_domain;
pub use plf::line_intersect;
pub use plf::y_at_x;
pub use plf::ClipResult;
pub use plf::Coord;
pub use plf::ExpandDomainStrategy;
pub use plf::Line;
pub use plf::PiecewiseLinearFunction;
pub use plf::SegmentsIterator;
