use vstd::prelude::*;

verus! {

/// The ways in which a call can be refused. All of them are usage errors:
/// nothing here is transient, and a refused call changes nothing.
#[derive(Clone, Copy, Debug, PartialEq, Eq, Structural)]
pub enum ForestError {
    /// The forest was asked to build its trees before any sample was added.
    EmptyTrainingSet,
    /// The forest was asked for a score before its trees were built.
    NotBuilt,
    /// A sample lacks a feature that a lookup or a split asked for.
    FeatureNotFound,
    /// A sample was given two features with one name.
    DuplicateFeatureName,
    /// The number of trees or the subsampling size is zero.
    InvalidConfiguration,
    /// The forest was asked to take a sample, or to build, after it was built.
    AlreadyBuilt,
}

} // verus!
