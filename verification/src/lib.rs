//! Finds the point on a sphere that is farthest from every member of a given
//! set of points (a discrete pole of inaccessibility), using fixed-point
//! integer arithmetic: angles in millionths of a degree, trigonometric values
//! in Q30 fixed point, and distances in millimetres.

pub mod trig;
pub mod geo;
pub mod sampler;
pub mod retain;
pub mod search;

pub use crate::geo::Point;
pub use crate::geo::OptimizedPoint;
pub use crate::geo::Points;
pub use crate::retain::WeightedPoint;
pub use crate::retain::CandidateSet;
pub use crate::search::SearchError;
pub use crate::search::find_most_distant_point;
pub use crate::search::find_best_points;
pub use crate::sampler::sample_values;
