//! An iterated-local-search engine for depot-rooted tour optimization.
//!
//! The core is a latency-weighted objective maintained through composable
//! subsequence aggregates: every contiguous tour block is summarised by a
//! small record that composes in constant time, so candidate moves are
//! priced without rescanning the tour.  On top of that sit the classic
//! pieces of an iterated local search: semi-greedy construction,
//! best-improvement local search over five neighborhoods, a double-bridge
//! perturbation, and a restart driver.  A second, plain tour-length
//! variant of the same scheme lives in `tsp`.

pub mod instance;
pub mod random_source;
pub mod subsequence;
pub mod solution;
pub mod local_search;
pub mod construction;
pub mod perturbation;
pub mod ils;
pub mod tsp;
