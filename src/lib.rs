//! Batch lookup of sorted needles in a sorted haystack: several search
//! strategies, each proved to return, for every needle, the first index that
//! holds it or `None`.
pub mod model;
pub mod bsearch;
pub mod algorithms;
pub mod divide;
pub mod partition;
pub mod laws;
pub mod search;
pub mod compare;
