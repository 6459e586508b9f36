//! Pairwise dissimilarity between phylogenetic trees over a shared taxon set.
//!
//! A parsed tree is summarised once into an immutable [`TreeSnapshot`]: the
//! canonical bit-vector encodings of its non-trivial branch splits, a branch
//! length per split, and a root signature. Three metrics are then computed
//! from snapshot pairs by set algebra alone: an unweighted split-count
//! distance, a branch-length-weighted variant, and a Euclidean branch-score
//! variant. The two length-weighted variants are driven by the split pairing
//! computed here; their floating-point accumulation lives with the callers,
//! outside the verified core.

pub mod bitset;
pub mod distances;
pub mod invariance;
pub mod nexus;
pub mod order;
pub mod pairwise;
pub mod snapshot;
pub mod tree;

pub use bitset::Bitset;
pub use snapshot::TreeSnapshot;
