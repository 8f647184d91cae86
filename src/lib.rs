//! Finds the packages of an upstream pool that a set of kept packages does not
//! need, directly or transitively, under a dependency-type filter.
pub mod filtering;
pub mod parsing;
