//! A demand-driven incremental computation engine.
//!
//! The engine memoizes the results of keyed computations, discovers the
//! dependency graph between keys as they execute, and re-validates only the
//! parts of that graph that an input change could have affected.  Repeated
//! requests for a key at one version share a single committed result,
//! transactions pin versions against collection, and recomputation is cut
//! off wherever a dependency's re-validated value is unchanged.

pub mod keys;
pub mod semantics;
pub mod cutoff;
pub mod engine;
pub mod laws;
