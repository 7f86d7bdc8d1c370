//! A dependency-version resolver: given a catalog of module records, each
//! offering a version and a list of version-range requirements on other
//! modules, build a dependency graph and search for one globally consistent
//! version assignment per module name, preferring the highest versions.
//!
//! The data model lives in [`graph`]: one [`graph::Vertice`] per distinct
//! (name, version) pair, with its child and parent edges precomputed against
//! the whole catalog. The backtracking search is specified as a pure
//! function of the graph in [`search`] and run by [`dfs`], whose result is
//! proved equal to that function. The properties the resolver is meant to
//! keep — determinism, satisfaction of every requirement, one version per
//! name, latest-first preference, cycle and missing-target reporting, and
//! the symmetry of the two edge directions — are stated and proved in
//! [`laws`].

pub mod version;
pub mod names;
pub mod constraint;
pub mod diag;
pub mod graph;
pub mod search;
pub mod selection;
pub mod dfs;
pub mod laws;
pub mod solve;
