//! Uplift random forests for causal inference.
//!
//! The crate trains and applies ensembles of uplift decision trees: given
//! rows with features, a treatment assignment and a response, it estimates
//! the per-unit effect of the treatment. Two split criteria are offered, a
//! Kullback-Leibler divergence criterion for binary responses and a
//! variance-plus-balance criterion for real-valued responses.
//!
//! All numeric work is done on plain integers. Raw values enter the library
//! in two integer forms that a caller derives from its own numbers: a total
//! *order key* (`i64`), used wherever only comparisons matter, and a
//! *fixed-point* value (`i64`, scaled by [`fixed::SCALE`]), used wherever
//! arithmetic matters.

pub mod bin;
pub mod config;
pub mod data_loader;
pub mod dmatrix;
pub mod fixed;
pub mod kl;
pub mod learn;
pub mod linalg;
pub mod partition;
pub mod random;
pub mod regression;
pub mod rf;
pub mod split_info;
pub mod statistic;
pub mod strategy;
pub mod tree;
