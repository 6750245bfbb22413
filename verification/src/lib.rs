/// Accepted configurations.
pub mod config;
/// Row bands, their halo rows, and the bytes that carry them.
pub mod distributed;
/// Pixels as words for a compute kernel.
pub mod gpu;
/// The median filter with rows computed in parallel.
pub mod parallel;
/// What coordinator and workers send each other, and what they make of it.
pub mod protocol;
/// The median filter, row after row.
pub mod sequential;
/// Images, mirror padding, medians and noise.
pub mod shared;
