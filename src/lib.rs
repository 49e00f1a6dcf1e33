//! Average treatment effect on the treated (ATT) by one-to-one nearest-neighbour
//! propensity-score matching with replacement, with the Abadie–Imbens
//! heteroskedasticity-consistent variance of that estimate.
//!
//! Propensity scores are fixed-point integers and outcomes are integers, so
//! every quantity the library returns is an exact rational number.
pub mod unit;
pub mod distance;
pub mod att;
pub mod variance;
pub mod pipeline;
