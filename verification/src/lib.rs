//! A color-palette generator core: k-means clustering over 3-channel color
//! points, with k-means++ seeding, a k-d spatial index, and the protocol
//! pieces of a bounded worker pool for the parallel assignment step.

pub mod config;
pub mod error;
pub mod kdtree;
pub mod kmeans;
pub mod lloyd;
pub mod pixel;
pub mod pool;
pub mod semaphore;
pub mod rng;
