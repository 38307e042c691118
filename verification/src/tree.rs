use vstd::prelude::*;
use vstd::arithmetic::power2::{lemma_pow2_strictly_increases, lemma_pow2_unfold, lemma2_to64, pow2};
use rand::rngs::StdRng;
use crate::error::ForestError;
use crate::node::{Node, PathLength};
use crate::sample::{Sample, SampleList, SampleView, sample_views};
use crate::subsample::{in_range, is_subsample, shares_vocabulary};

verus! {

/// `limit` is the height limit for trees over subsamples of `size`: the
/// least number of halvings that bring `size` down to one, that is, the
/// binary logarithm of `size`, rounded up.
pub open spec fn is_height_limit(size: nat, limit: nat) -> bool {
    &&& pow2(limit) >= size
    &&& limit > 0 ==> pow2((limit - 1) as nat) < size
}

/// Only one number is the height limit for a subsampling size.
pub proof fn lemma_height_limit_unique(size: nat, first: nat, second: nat)
    requires
        is_height_limit(size, first),
        is_height_limit(size, second),
    ensures
        first == second,
{
    if first < second {
        if first < second - 1 {
            lemma_pow2_strictly_increases(first, (second - 1) as nat);
        }
    } else if second < first {
        if second < first - 1 {
            lemma_pow2_strictly_increases(second, (first - 1) as nat);
        }
    }
}

/// The height limit for trees over subsamples of `sub_sampling_size`.
pub fn height_limit_for(sub_sampling_size: u32) -> (limit: usize)
    ensures
        is_height_limit(sub_sampling_size as nat, limit as nat),
        limit <= 32,
{
    let mut limit: usize = 0;
    let mut reach: u64 = 1;
    proof {
        lemma2_to64();
    }
    while reach < sub_sampling_size as u64
        invariant
            reach == pow2(limit as nat),
            limit <= 32,
            limit > 0 ==> pow2((limit - 1) as nat) < sub_sampling_size,
        decreases 32 - limit,
    {
        proof {
            lemma2_to64();
            lemma_pow2_unfold((limit + 1) as nat);
        }
        reach = reach * 2;
        limit = limit + 1;
    }
    limit
}

/// A tree as a mathematical value.
pub struct TreeView {
    pub root: Node,
    pub height_limit: nat,
}

/// An isolation tree: built once from a subsample, then only queried.
#[derive(Debug, PartialEq, Eq)]
pub struct Tree {
    root: Node,
    height_limit: usize,
}

impl View for Tree {
    type V = TreeView;

    closed spec fn view(&self) -> TreeView {
        TreeView { root: self.root, height_limit: self.height_limit as nat }
    }
}

impl TreeView {
    /// The tree is what growing from `members` under its height limit may
    /// give.
    pub open spec fn grown_from(self, samples: Seq<SampleView>, members: Seq<usize>) -> bool {
        self.root.grown_from(samples, members, 0, self.height_limit)
    }

    /// The tree is what growing from some `size` different samples of the
    /// population may give.
    pub open spec fn grown_from_subsample(self, samples: Seq<SampleView>, size: nat) -> bool {
        exists|members: Seq<usize>|
            is_subsample(members, samples.len(), size) && #[trigger] self.grown_from(
                samples,
                members,
            )
    }

    /// No path is longer than the height limit, and no leaf is empty.
    pub open spec fn well_formed(self) -> bool {
        &&& self.root.height() <= self.height_limit
        &&& self.root.populated()
    }
}

impl Tree {
    #[verifier::type_invariant]
    spec fn well_formed(&self) -> bool {
        self@.well_formed()
    }

    /// Grows a tree from all of `subsample`.
    pub fn build(subsample: &SampleList, height_limit: usize, rng: &mut StdRng) -> (result: Result<
        Tree,
        ForestError,
    >)
        ensures
            subsample.len() == 0 <==> result == Err::<Tree, ForestError>(
                ForestError::EmptyTrainingSet,
            ),
            result matches Ok(tree) ==> tree@.height_limit == height_limit && tree@.grown_from(
                sample_views(subsample@),
                Seq::new(subsample.len() as nat, |k: int| k as usize),
            ) && tree@.well_formed(),
            result matches Err(error) ==> error == ForestError::EmptyTrainingSet || error
                == ForestError::FeatureNotFound,
            subsample.len() > 0 && shares_vocabulary(
                sample_views(subsample@),
                Seq::new(subsample.len() as nat, |k: int| k as usize),
            ) ==> result is Ok,
            subsample.len() == 1 ==> (result matches Ok(tree) && tree@.root == (Node::Leaf {
                size: 1,
            })),
    {
        let mut members: Vec<usize> = Vec::new();
        let mut k: usize = 0;
        while k < subsample.len()
            invariant
                k <= subsample.len(),
                members@ == Seq::new(k as nat, |k: int| k as usize),
            decreases subsample.len() - k,
        {
            members.push(k);
            k = k + 1;
        }
        Tree::build_from(subsample, members, height_limit, rng)
    }

    /// Grows a tree from the samples that `members` picks out of `samples`.
    pub fn build_from(
        samples: &SampleList,
        members: Vec<usize>,
        height_limit: usize,
        rng: &mut StdRng,
    ) -> (result: Result<Tree, ForestError>)
        requires
            in_range(members@, samples.len() as nat),
        ensures
            members.len() == 0 <==> result == Err::<Tree, ForestError>(
                ForestError::EmptyTrainingSet,
            ),
            result matches Ok(tree) ==> tree@.height_limit == height_limit && tree@.grown_from(
                sample_views(samples@),
                members@,
            ) && tree@.well_formed(),
            result matches Err(error) ==> error == ForestError::EmptyTrainingSet || error
                == ForestError::FeatureNotFound,
            members.len() > 0 && shares_vocabulary(sample_views(samples@), members@)
                ==> result is Ok,
            members.len() == 1 ==> (result matches Ok(tree) && tree@.root == (Node::Leaf {
                size: 1,
            })),
    {
        if members.len() == 0 {
            return Err(ForestError::EmptyTrainingSet);
        }
        let ghost picked = members@;
        match Node::grow(samples, members, 0, height_limit, rng) {
            Ok(root) => {
                proof {
                    let views = sample_views(samples@);
                    root.lemma_grown_height(views, picked, 0, height_limit as nat);
                    root.lemma_grown_populated(views, picked, 0, height_limit as nat);
                }
                Ok(Tree { root, height_limit })
            },
            Err(error) => Err(error),
        }
    }

    /// Where the path of `sample` through the tree ends. Fails where the
    /// sample lacks the feature of a split on its way.
    pub fn path_length(&self, sample: &Sample) -> (result: Result<PathLength, ForestError>)
        ensures
            result matches Ok(reached) ==> self@.root.path(sample@, 0) == Some(reached@)
                && reached.depth <= self@.height_limit && 1 <= reached.leaf_size
                <= self@.root.size(),
            result matches Err(error) ==> error == ForestError::FeatureNotFound
                && self@.root.path(sample@, 0) is None,
    {
        proof {
            use_type_invariant(self);
        }
        let result = self.root.path_length(sample, 0);
        proof {
            if result is Ok {
                self.root.lemma_path_bounds(sample@, 0);
            }
        }
        result
    }

    /// The root, from which every node of the tree is reached.
    pub fn root(&self) -> (root: &Node)
        ensures
            *root == self@.root,
            self@.well_formed(),
    {
        proof {
            use_type_invariant(self);
        }
        &self.root
    }

    /// The depth below which the tree was not grown.
    pub fn height_limit(&self) -> (limit: usize)
        ensures
            limit == self@.height_limit,
    {
        self.height_limit
    }
}

} // verus!
