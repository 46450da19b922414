//! Verified core of a numerical-integration engine.
//!
//! The crate holds what such an engine decides in whole numbers: the seeded
//! uniform sampler, the low-discrepancy points, the bisection of adaptive
//! quadrature with its depth limit and its count of evaluations, the
//! reduction of infinite limits, and the budget of recursive stratified
//! sampling. Points and intervals are exact fractions. The drivers take the
//! caller's arithmetic as a closure and thread its state through; callers
//! that work in floating point convert at the edge.
//!
//! Beside the engine stand a few small tools: binary searches, the factorial
//! and the traversal of a matrix stored by columns.

pub mod error;
pub mod fraction;
pub mod halton;
pub mod limits;
pub mod matrix;
pub mod quadrature;
pub mod rand;
pub mod sampling;
pub mod search;
pub mod sfuns;
pub mod stratified;
