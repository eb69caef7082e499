//! Adaptive search core for a vehicle-routing metaheuristic.
//!
//! The crate provides the three pieces of search control that run on every
//! iteration of the surrounding optimization loop:
//!
//! * an objective hierarchy that ranks candidate solutions by lexicographic
//!   comparison across declared levels with Pareto dominance inside a level,
//! * a ranked population with rank-biased random parent selection,
//! * a Gaussian Thompson-sampling bandit that adapts operator choice to
//!   observed reward.
//!
//! All scalar quantities (fitness values, rewards, distances, durations) are
//! fixed-point integers: a value of `x` micro-units stands for the real
//! quantity `x / 1_000_000`.

pub mod bandit;
pub mod goal;
pub mod goal_builder;
pub mod order;
pub mod population;
pub mod rng;
pub mod selection;
pub mod solution;
pub mod transport;
pub mod validation;
