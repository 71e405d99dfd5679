//! Perceptual-hash image grouping.
//!
//! The library computes a compact average-hash fingerprint for a grayscale
//! pixel grid, measures similarity between fingerprints by Hamming distance,
//! groups records whose fingerprints are close under a threshold into
//! connected components, validates a cache of previously computed records,
//! and renders the resulting groups as output lines.

pub mod cache;
pub mod grouping;
pub mod image_info;
pub mod ordering;
pub mod render;
pub mod similarity;
