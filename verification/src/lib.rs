//! Brute-force exact nearest-neighbour index.
//!
//! The library keeps the bookkeeping of a flat (exhaustive-scan) vector
//! index: the parallel row stores, the id-to-position map, the monotonic
//! insertion stamps that break distance ties, and the bounded top-`k`
//! selection over distances. Distances travel through the library as the
//! IEEE-754 bit patterns of single-precision values: numbers are ordered
//! the way `total_cmp` orders them, and every NaN, whatever its sign, comes
//! after every number.

pub mod flat;
pub mod laws;
pub mod memory;
pub mod model;
pub mod order;
pub mod slots;
pub mod topk;
pub mod types;
pub mod value;

pub use crate::flat::{FlatIndex, Scored};
pub use crate::memory::{Footprint, PayloadLayout, StoreUse};
pub use crate::types::{ConfigIssue, FlatConfig, FlatError, KeyView, Metric, VectorKey};
