use vstd::prelude::*;
use rand::rngs::StdRng;
use crate::error::ForestError;
use crate::node::{PathLength, PathView};
use crate::sample::{Sample, SampleList, SampleView, sample_views};
use crate::subsample::{draw_subsample, is_subsample, lemma_vocabulary_shared, same_vocabulary};
use crate::tree::{height_limit_for, is_height_limit, Tree, TreeView};

verus! {

/// The trees of a list, each as a mathematical value, in order.
pub open spec fn tree_views(trees: Seq<Tree>) -> Seq<TreeView> {
    trees.map_values(|t: Tree| t@)
}

/// The ends of a list of paths, each as a mathematical value, in order.
pub open spec fn path_views(paths: Seq<PathLength>) -> Seq<PathView> {
    paths.map_values(|p: PathLength| p@)
}

/// What a forest knows of a sample: where its path ends in every tree, in
/// the order of the trees, and the size of the subsample that each tree
/// was grown from. The anomaly score is a function of these alone.
#[derive(Clone, Debug, PartialEq, Eq)]
pub struct Score {
    pub path_lengths: Vec<PathLength>,
    pub sub_sample_size: usize,
}

/// A forest as a mathematical value.
pub struct ForestView {
    pub num_trees_to_create: nat,
    pub sub_sampling_size: nat,
    pub training_samples: Seq<SampleView>,
    pub trees: Seq<TreeView>,
}

impl ForestView {
    /// The trees have been built.
    pub open spec fn is_built(self) -> bool {
        self.trees.len() > 0
    }

    /// The size of the subsample for each tree: the subsampling size, or
    /// the whole training set where that is smaller.
    pub open spec fn sub_sample_size(self) -> nat {
        if self.sub_sampling_size <= self.training_samples.len() {
            self.sub_sampling_size
        } else {
            self.training_samples.len()
        }
    }

    /// Both settings are positive. Once built, the forest holds as many
    /// trees as it was set to create, and each of them was grown under the
    /// height limit of the subsampling size from a subsample of the
    /// training set, drawn without replacement.
    pub open spec fn well_formed(self) -> bool {
        &&& self.num_trees_to_create >= 1
        &&& self.sub_sampling_size >= 1
        &&& self.is_built() ==> {
            &&& self.trees.len() == self.num_trees_to_create
            &&& self.training_samples.len() >= 1
            &&& forall|t: int|
                0 <= t < self.trees.len() ==> {
                    &&& (#[trigger] self.trees[t]).well_formed()
                    &&& is_height_limit(self.sub_sampling_size, self.trees[t].height_limit)
                    &&& self.trees[t].grown_from_subsample(
                        self.training_samples,
                        self.sub_sample_size(),
                    )
                }
        }
    }

    /// The sample has a path through every tree.
    pub open spec fn routes(self, sample: SampleView) -> bool {
        forall|t: int|
            0 <= t < self.trees.len() ==> (#[trigger] self.trees[t]).root.path(sample, 0) is Some
    }

    /// Where the path of the sample ends in each tree, in the order of the
    /// trees; meaningful where `routes(sample)` holds.
    pub open spec fn paths(self, sample: SampleView) -> Seq<PathView> {
        Seq::new(self.trees.len(), |t: int| self.trees[t].root.path(sample, 0).unwrap())
    }

    /// A sample that lacks the feature on which the root of some tree
    /// splits has no path through every tree: scoring it fails.
    pub proof fn lemma_missing_root_feature(self, sample: SampleView, t: int)
        requires
            0 <= t < self.trees.len(),
            self.trees[t].root is Internal,
            !sample.has_feature(self.trees[t].root->split_feature@),
        ensures
            self.is_built(),
            !self.routes(sample),
    {
        self.trees[t].root.lemma_missing_split_feature(sample, 0);
    }
}

/// An isolation forest: a training set that grows sample by sample until
/// the trees are built, and the trees, which are built once.
#[derive(Debug)]
pub struct Forest {
    trees: Vec<Tree>,
    num_trees_to_create: u32,
    sub_sampling_size: u32,
    training_samples: SampleList,
}

impl View for Forest {
    type V = ForestView;

    closed spec fn view(&self) -> ForestView {
        ForestView {
            num_trees_to_create: self.num_trees_to_create as nat,
            sub_sampling_size: self.sub_sampling_size as nat,
            training_samples: sample_views(self.training_samples@),
            trees: tree_views(self.trees@),
        }
    }
}

impl Forest {
    #[verifier::type_invariant]
    spec fn well_formed(&self) -> bool {
        self@.well_formed()
    }

    /// A forest without samples and without trees. Both settings must be
    /// positive.
    pub fn new(num_trees_to_create: u32, sub_sampling_size: u32) -> (result: Result<
        Forest,
        ForestError,
    >)
        ensures
            num_trees_to_create == 0 || sub_sampling_size == 0 <==> result is Err,
            result matches Err(error) ==> error == ForestError::InvalidConfiguration,
            result matches Ok(forest) ==> forest@ == (ForestView {
                num_trees_to_create: num_trees_to_create as nat,
                sub_sampling_size: sub_sampling_size as nat,
                training_samples: Seq::empty(),
                trees: Seq::empty(),
            }),
    {
        if num_trees_to_create == 0 || sub_sampling_size == 0 {
            return Err(ForestError::InvalidConfiguration);
        }
        let forest = Forest {
            trees: Vec::new(),
            num_trees_to_create,
            sub_sampling_size,
            training_samples: Vec::new(),
        };
        assert(forest@.training_samples =~= Seq::empty());
        assert(forest@.trees =~= Seq::empty());
        Ok(forest)
    }

    /// The number of trees that the forest builds.
    pub fn num_trees_to_create(&self) -> (count: u32)
        ensures
            count == self@.num_trees_to_create,
            count >= 1,
    {
        proof {
            use_type_invariant(self);
        }
        self.num_trees_to_create
    }

    /// The largest number of samples that a tree is grown from.
    pub fn sub_sampling_size(&self) -> (size: u32)
        ensures
            size == self@.sub_sampling_size,
            size >= 1,
    {
        proof {
            use_type_invariant(self);
        }
        self.sub_sampling_size
    }

    /// The samples added so far, in the order in which they were added.
    pub fn training_samples(&self) -> (samples: &SampleList)
        ensures
            sample_views(samples@) == self@.training_samples,
    {
        &self.training_samples
    }

    /// The trees: none before they are built, all of them after.
    pub fn trees(&self) -> (trees: &Vec<Tree>)
        ensures
            tree_views(trees@) == self@.trees,
            self@.well_formed(),
    {
        proof {
            use_type_invariant(self);
        }
        &self.trees
    }

    /// Whether the trees have been built.
    pub fn is_built(&self) -> (built: bool)
        ensures
            built == self@.is_built(),
    {
        self.trees.len() > 0
    }

    /// Appends a sample to the training set. Refused once the trees are
    /// built: they would not know of it.
    pub fn add_sample(&mut self, sample: Sample) -> (result: Result<(), ForestError>)
        ensures
            old(self)@.is_built() <==> result is Err,
            result matches Err(error) ==> error == ForestError::AlreadyBuilt && *final(self)
                == *old(self),
            result is Ok ==> final(self)@ == (ForestView {
                training_samples: old(self)@.training_samples.push(sample@),
                ..old(self)@
            }),
    {
        proof {
            use_type_invariant(&*self);
        }
        if self.trees.len() > 0 {
            return Err(ForestError::AlreadyBuilt);
        }
        let mut samples: SampleList = Vec::new();
        std::mem::swap(&mut samples, &mut self.training_samples);
        samples.push(sample);
        proof {
            assert(sample_views(samples@) =~= old(self)@.training_samples.push(sample@));
            assert(tree_views(self.trees@).len() == 0);
        }
        self.training_samples = samples;
        Ok(())
    }

    /// Builds the trees: for each, draws a subsample of the training set
    /// without replacement and grows a tree from it. Refused where the
    /// trees are built already or no sample was added. Where it fails the
    /// forest stays as it was.
    pub fn create(&mut self, rng: &mut StdRng) -> (result: Result<(), ForestError>)
        ensures
            old(self)@.is_built() <==> result == Err::<(), ForestError>(ForestError::AlreadyBuilt),
            !old(self)@.is_built() && old(self)@.training_samples.len() == 0 <==> result == Err::<
                (),
                ForestError,
            >(ForestError::EmptyTrainingSet),
            result matches Err(error) ==> *final(self) == *old(self) && (error
                == ForestError::AlreadyBuilt || error == ForestError::EmptyTrainingSet || (error
                == ForestError::FeatureNotFound && !same_vocabulary(
                old(self)@.training_samples,
            ))),
            !old(self)@.is_built() && old(self)@.training_samples.len() > 0 && same_vocabulary(
                old(self)@.training_samples,
            ) ==> result is Ok,
            result is Ok ==> {
                &&& final(self)@.is_built()
                &&& final(self)@.well_formed()
                &&& final(self)@.num_trees_to_create == old(self)@.num_trees_to_create
                &&& final(self)@.sub_sampling_size == old(self)@.sub_sampling_size
                &&& final(self)@.training_samples == old(self)@.training_samples
            },
    {
        proof {
            use_type_invariant(&*self);
        }
        if self.trees.len() > 0 {
            return Err(ForestError::AlreadyBuilt);
        }
        assert(!self@.is_built());
        let population = self.training_samples.len();
        if population == 0 {
            return Err(ForestError::EmptyTrainingSet);
        }
        let size: usize = if self.sub_sampling_size as usize <= population {
            self.sub_sampling_size as usize
        } else {
            population
        };
        let height_limit = height_limit_for(self.sub_sampling_size);
        let ghost views = sample_views(self.training_samples@);
        let mut trees: Vec<Tree> = Vec::new();
        let mut built: u32 = 0;
        while built < self.num_trees_to_create
            invariant
                *self == *old(self),
                !self@.is_built(),
                views == sample_views(self.training_samples@),
                population == self.training_samples.len(),
                1 <= size <= population,
                size == self@.sub_sample_size(),
                is_height_limit(self.sub_sampling_size as nat, height_limit as nat),
                built <= self.num_trees_to_create,
                trees.len() == built,
                forall|t: int|
                    0 <= t < trees.len() ==> {
                        &&& (#[trigger] trees[t])@.well_formed()
                        &&& trees[t]@.height_limit == height_limit
                        &&& trees[t]@.grown_from_subsample(views, size as nat)
                    },
            decreases self.num_trees_to_create - built,
        {
            let members = draw_subsample(rng, population, size);
            let ghost picked = members@;
            match Tree::build_from(&self.training_samples, members, height_limit, rng) {
                Ok(tree) => {
                    assert(tree@.grown_from(views, picked));
                    trees.push(tree);
                },
                Err(error) => {
                    proof {
                        if same_vocabulary(views) {
                            lemma_vocabulary_shared(views, picked);
                        }
                    }
                    return Err(error);
                },
            }
            built = built + 1;
        }
        proof {
            let after = ForestView {
                num_trees_to_create: self.num_trees_to_create as nat,
                sub_sampling_size: self.sub_sampling_size as nat,
                training_samples: views,
                trees: tree_views(trees@),
            };
            assert forall|t: int| 0 <= t < after.trees.len() implies {
                &&& (#[trigger] after.trees[t]).well_formed()
                &&& is_height_limit(after.sub_sampling_size, after.trees[t].height_limit)
                &&& after.trees[t].grown_from_subsample(
                    after.training_samples,
                    after.sub_sample_size(),
                )
            } by {
                assert(after.trees[t] == trees[t]@);
            }
            assert(after.well_formed());
        }
        self.trees = trees;
        Ok(())
    }

    /// Where the path of `sample` ends in every tree. Refused before the
    /// trees are built, and where the sample lacks the feature of a split
    /// on its way through some tree.
    pub fn score(&self, sample: Sample) -> (result: Result<Score, ForestError>)
        ensures
            !self@.is_built() <==> result == Err::<Score, ForestError>(ForestError::NotBuilt),
            self@.is_built() && !self@.routes(sample@) <==> result == Err::<Score, ForestError>(
                ForestError::FeatureNotFound,
            ),
            result matches Ok(score) ==> {
                &&& path_views(score.path_lengths@) == self@.paths(sample@)
                &&& score.sub_sample_size == self@.sub_sample_size()
                &&& forall|t: int|
                    0 <= t < score.path_lengths.len() ==> (#[trigger] score.path_lengths[t]).depth
                        <= self@.trees[t].height_limit && 1 <= score.path_lengths[t].leaf_size
                        <= score.sub_sample_size
            },
            result matches Err(error) ==> error == ForestError::NotBuilt || error
                == ForestError::FeatureNotFound,
    {
        proof {
            use_type_invariant(self);
        }
        if self.trees.len() == 0 {
            return Err(ForestError::NotBuilt);
        }
        assert(self@.is_built());
        let mut path_lengths: Vec<PathLength> = Vec::new();
        let mut t: usize = 0;
        while t < self.trees.len()
            invariant
                t <= self.trees.len(),
                path_lengths.len() == t,
                self@.well_formed(),
                self@.is_built(),
                forall|i: int|
                    0 <= i < t ==> {
                        &&& self@.trees[i].root.path(sample@, 0) == Some(
                            (#[trigger] path_lengths[i])@,
                        )
                        &&& path_lengths[i].depth <= self@.trees[i].height_limit
                        &&& 1 <= path_lengths[i].leaf_size <= self@.sub_sample_size()
                    },
            decreases self.trees.len() - t,
        {
            assert(self@.trees[t as int] == self.trees[t as int]@);
            match self.trees[t].path_length(&sample) {
                Ok(reached) => {
                    proof {
                        let tree = self@.trees[t as int];
                        let members = choose|members: Seq<usize>|
                            is_subsample(
                                members,
                                self@.training_samples.len(),
                                self@.sub_sample_size(),
                            ) && #[trigger] tree.grown_from(self@.training_samples, members);
                        tree.root.lemma_grown_size(
                            self@.training_samples,
                            members,
                            0,
                            tree.height_limit,
                        );
                    }
                    path_lengths.push(reached);
                },
                Err(error) => {
                    assert(self@.trees[t as int].root.path(sample@, 0) is None);
                    return Err(error);
                },
            }
            t = t + 1;
        }
        assert forall|i: int| 0 <= i < self@.trees.len() implies (
        #[trigger] self@.trees[i]).root.path(sample@, 0) is Some by {
            assert(path_lengths[i].leaf_size >= 1);
        }
        let sub_sample_size: usize = if self.sub_sampling_size as usize
            <= self.training_samples.len() {
            self.sub_sampling_size as usize
        } else {
            self.training_samples.len()
        };
        assert(path_views(path_lengths@) =~= self@.paths(sample@));
        Ok(Score { path_lengths, sub_sample_size })
    }
}

} // verus!
