//! Power rankings for a fantasy sports league.
//!
//! The library turns a season snapshot (each team's record and points) and a
//! schedule history (weekly matchups with scores) into a composite weight per
//! team and a total order from strongest to weakest.
//!
//! Scores and points are fixed-point integers in thousandths of a point, and
//! win percentages are integers in millionths, so that every weight is an
//! exact fraction and the ordering does not depend on rounding.

pub mod endpoints;
pub mod league;
pub mod schedule;
pub mod weights;
