//! Formulas: what the index says of a package, which prebuilt artifact a
//! platform takes, and in which order a set of formulas is installed.

pub mod bottle;
mod closure;
pub mod deps;
pub mod names;
mod order;
pub mod resolve;
pub mod types;
