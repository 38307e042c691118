//! Isolation Forest: unsupervised anomaly detection by random partitioning.
//!
//! A forest is an ensemble of binary trees. Each tree is grown from a random
//! subsample of the training set by splitting on a randomly chosen feature at
//! a randomly chosen threshold. A sample that is isolated after few splits
//! is an anomaly; the forest reports, for a queried sample, where its path
//! ends in every tree.
//!
//! Feature values are signed fixed-point numbers: a caller with real-valued
//! measurements multiplies them by one scale of their choosing and rounds.
//! Everything the forest decides depends on the order of the values only.

pub mod error;
pub mod forest;
pub mod node;
pub mod random;
pub mod sample;
pub mod subsample;
pub mod tree;

pub use error::ForestError;
pub use forest::{Forest, ForestView, Score};
pub use node::{Node, PathLength, PathView};
pub use sample::{Feature, FeatureList, FeatureView, Sample, SampleList, SampleView};
pub use subsample::{draw_subsample, partition, value_range};
pub use tree::{height_limit_for, Tree, TreeView};
