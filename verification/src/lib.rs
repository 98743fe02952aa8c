//! A verified version-constraint dependency resolver.
//!
//! Given a root package and a provider of per-package available versions and
//! per-version dependency requirements, the solver computes a single
//! consistent assignment of exactly one version to every transitively
//! required package, or establishes that no such assignment exists.

pub mod incompat;
pub mod laws;
pub mod provider;
pub mod range;
pub mod solver;
pub mod term;
pub mod version;
