use vstd::prelude::*;
use rand::rngs::StdRng;
use crate::error::ForestError;
use crate::random::{random_below, random_split};
use crate::sample::{Sample, SampleList, SampleView, sample_views};
use crate::subsample::{
    all_have, below, constant_on, in_range, lemma_part_inherits, lemma_parts_cover, lower_part,
    not_below, partition, shares_vocabulary, upper_part, value_range,
};

verus! {

/// Where a path ends, as a mathematical value.
pub struct PathView {
    pub depth: nat,
    pub leaf_size: nat,
}

/// Where the path of a sample through a tree ends: after how many splits,
/// and in a leaf that holds how many training samples.
#[derive(Clone, Copy, Debug, PartialEq, Eq, Structural)]
pub struct PathLength {
    pub depth: usize,
    pub leaf_size: usize,
}

impl View for PathLength {
    type V = PathView;

    open spec fn view(&self) -> PathView {
        PathView { depth: self.depth as nat, leaf_size: self.leaf_size as nat }
    }
}

/// A node of an isolation tree. A leaf holds the number of training samples
/// that reached it; an internal node holds a split and owns its two subtrees.
#[derive(Debug, PartialEq, Eq)]
pub enum Node {
    Leaf { size: usize },
    Internal { split_feature: String, split_value: i64, left: Box<Node>, right: Box<Node> },
}

/// Nothing divides the members further: there is at most one, or the depth
/// has reached the limit, or the first member has no feature at all, or
/// all members agree on some feature of the first.
pub open spec fn is_terminal(
    samples: Seq<SampleView>,
    members: Seq<usize>,
    depth: nat,
    height_limit: nat,
) -> bool {
    ||| members.len() <= 1
    ||| depth >= height_limit
    ||| samples[members[0] as int].features.len() == 0
    ||| exists|f: int|
        0 <= f < samples[members[0] as int].features.len() && constant_on(
            samples,
            members,
            (#[trigger] samples[members[0] as int].features[f]).name,
        )
}

impl Node {
    /// The number of training samples under the node.
    pub open spec fn size(self) -> nat
        decreases self,
    {
        match self {
            Node::Leaf { size } => size as nat,
            Node::Internal { left, right, .. } => left.size() + right.size(),
        }
    }

    /// The number of splits on the longest way down from the node.
    pub open spec fn height(self) -> nat
        decreases self,
    {
        match self {
            Node::Leaf { .. } => 0,
            Node::Internal { left, right, .. } => 1 + if left.height() >= right.height() {
                left.height()
            } else {
                right.height()
            },
        }
    }

    /// Every leaf under the node holds at least one training sample.
    pub open spec fn populated(self) -> bool
        decreases self,
    {
        match self {
            Node::Leaf { size } => size >= 1,
            Node::Internal { left, right, .. } => left.populated() && right.populated(),
        }
    }

    /// Where the path of `sample` ends when it enters the node at `depth`:
    /// at each split it goes left where its value lies strictly below the
    /// threshold, right otherwise. There is no path where the sample lacks
    /// the feature of a split on its way.
    pub open spec fn path(self, sample: SampleView, depth: nat) -> Option<PathView>
        decreases self,
    {
        match self {
            Node::Leaf { size } => Some(PathView { depth, leaf_size: size as nat }),
            Node::Internal { split_feature, split_value, left, right } => {
                if !sample.has_feature(split_feature@) {
                    None
                } else if sample.value(split_feature@) < split_value {
                    left.path(sample, depth + 1)
                } else {
                    right.path(sample, depth + 1)
                }
            },
        }
    }

    /// The node is what growing a tree from `members` at `depth` may give.
    /// A leaf counts the members, and stands only where nothing divides
    /// them further. An internal node splits on a feature that every
    /// member has, at a threshold that leaves members on both sides, and
    /// its subtrees are grown from the two parts, one level down.
    pub open spec fn grown_from(
        self,
        samples: Seq<SampleView>,
        members: Seq<usize>,
        depth: nat,
        height_limit: nat,
    ) -> bool
        decreases self,
    {
        match self {
            Node::Leaf { size } => {
                &&& size == members.len()
                &&& is_terminal(samples, members, depth, height_limit)
            },
            Node::Internal { split_feature, split_value, left, right } => {
                let lower = lower_part(samples, members, split_feature@, split_value as int);
                let upper = upper_part(samples, members, split_feature@, split_value as int);
                &&& members.len() > 1
                &&& depth < height_limit
                &&& all_have(samples, members, split_feature@)
                &&& lower.len() > 0
                &&& upper.len() > 0
                &&& left.grown_from(samples, lower, depth + 1, height_limit)
                &&& right.grown_from(samples, upper, depth + 1, height_limit)
            },
        }
    }

    /// A subtree counts exactly the members it was grown from.
    pub proof fn lemma_grown_size(
        self,
        samples: Seq<SampleView>,
        members: Seq<usize>,
        depth: nat,
        height_limit: nat,
    )
        requires
            self.grown_from(samples, members, depth, height_limit),
        ensures
            self.size() == members.len(),
        decreases self,
    {
        match self {
            Node::Leaf { .. } => {},
            Node::Internal { split_feature, split_value, left, right } => {
                let lower = lower_part(samples, members, split_feature@, split_value as int);
                let upper = upper_part(samples, members, split_feature@, split_value as int);
                left.lemma_grown_size(samples, lower, depth + 1, height_limit);
                right.lemma_grown_size(samples, upper, depth + 1, height_limit);
                lemma_parts_cover(samples, members, split_feature@, split_value as int);
            },
        }
    }

    /// A subtree grown at a depth within the limit does not reach below
    /// the limit.
    pub proof fn lemma_grown_height(
        self,
        samples: Seq<SampleView>,
        members: Seq<usize>,
        depth: nat,
        height_limit: nat,
    )
        requires
            self.grown_from(samples, members, depth, height_limit),
            depth <= height_limit,
        ensures
            depth + self.height() <= height_limit,
        decreases self,
    {
        match self {
            Node::Leaf { .. } => {},
            Node::Internal { split_feature, split_value, left, right } => {
                let lower = lower_part(samples, members, split_feature@, split_value as int);
                let upper = upper_part(samples, members, split_feature@, split_value as int);
                left.lemma_grown_height(samples, lower, depth + 1, height_limit);
                right.lemma_grown_height(samples, upper, depth + 1, height_limit);
            },
        }
    }

    /// A subtree grown from at least one member has no empty leaf.
    pub proof fn lemma_grown_populated(
        self,
        samples: Seq<SampleView>,
        members: Seq<usize>,
        depth: nat,
        height_limit: nat,
    )
        requires
            self.grown_from(samples, members, depth, height_limit),
            members.len() >= 1,
        ensures
            self.populated(),
        decreases self,
    {
        match self {
            Node::Leaf { .. } => {},
            Node::Internal { split_feature, split_value, left, right } => {
                let lower = lower_part(samples, members, split_feature@, split_value as int);
                let upper = upper_part(samples, members, split_feature@, split_value as int);
                left.lemma_grown_populated(samples, lower, depth + 1, height_limit);
                right.lemma_grown_populated(samples, upper, depth + 1, height_limit);
            },
        }
    }

    /// A tree grown from a single member is a single leaf of size one, and
    /// the path of any sample ends in it at the depth at which it entered.
    pub proof fn lemma_single_member(
        self,
        samples: Seq<SampleView>,
        members: Seq<usize>,
        depth: nat,
        height_limit: nat,
        sample: SampleView,
    )
        requires
            self.grown_from(samples, members, depth, height_limit),
            members.len() == 1,
        ensures
            self == (Node::Leaf { size: 1 }),
            self.path(sample, depth) == Some(PathView { depth, leaf_size: 1 }),
    {
    }

    /// A split never stands on a feature on which all members agree: where
    /// the members are constant on the drawn feature, the node is a leaf.
    pub proof fn lemma_no_split_on_constant(
        self,
        samples: Seq<SampleView>,
        members: Seq<usize>,
        depth: nat,
        height_limit: nat,
    )
        requires
            self.grown_from(samples, members, depth, height_limit),
            self is Internal,
        ensures
            !constant_on(samples, members, self->split_feature@),
    {
        let name = self->split_feature@;
        let split = self->split_value as int;
        let lower = lower_part(samples, members, name, split);
        let upper = upper_part(samples, members, name, split);
        lemma_parts_cover(samples, members, name, split);
        assert(members.contains(lower[0]));
        assert(members.contains(upper[0]));
        let a = choose|k: int| 0 <= k < members.len() && members[k] == lower[0];
        let b = choose|k: int| 0 <= k < members.len() && members[k] == upper[0];
        assert(samples[members[a] as int].value(name) < split);
        assert(samples[members[b] as int].value(name) >= split);
    }

    /// The two subtrees of an internal node divide its members: each
    /// member went to exactly one side, neither side is empty, and the
    /// sizes of the subtrees add up to the number of members.
    pub proof fn lemma_split_divides(
        self,
        samples: Seq<SampleView>,
        members: Seq<usize>,
        depth: nat,
        height_limit: nat,
    )
        requires
            self.grown_from(samples, members, depth, height_limit),
            self is Internal,
        ensures
            ({
                let lower = lower_part(
                    samples,
                    members,
                    self->split_feature@,
                    self->split_value as int,
                );
                let upper = upper_part(
                    samples,
                    members,
                    self->split_feature@,
                    self->split_value as int,
                );
                &&& self->left.grown_from(samples, lower, depth + 1, height_limit)
                &&& self->right.grown_from(samples, upper, depth + 1, height_limit)
                &&& lower.to_multiset().add(upper.to_multiset()) == members.to_multiset()
                &&& self->left.size() == lower.len()
                &&& self->right.size() == upper.len()
                &&& self->left.size() >= 1
                &&& self->right.size() >= 1
                &&& self->left.size() + self->right.size() == members.len()
                &&& self.size() == members.len()
            }),
    {
        let name = self->split_feature@;
        let split = self->split_value as int;
        let lower = lower_part(samples, members, name, split);
        let upper = upper_part(samples, members, name, split);
        lemma_parts_cover(samples, members, name, split);
        self->left.lemma_grown_size(samples, lower, depth + 1, height_limit);
        self->right.lemma_grown_size(samples, upper, depth + 1, height_limit);
    }

    /// A sample that lacks the feature on which a node splits has no path
    /// through it.
    pub proof fn lemma_missing_split_feature(self, sample: SampleView, depth: nat)
        requires
            self is Internal,
            !sample.has_feature(self->split_feature@),
        ensures
            self.path(sample, depth) is None,
    {
    }

    /// A path ends no higher than where it began and no lower than the
    /// height of the subtree allows, in a leaf that is no larger than the
    /// subtree, and that is not empty where no leaf is.
    pub proof fn lemma_path_bounds(self, sample: SampleView, depth: nat)
        requires
            self.path(sample, depth) is Some,
        ensures
            depth <= self.path(sample, depth).unwrap().depth <= depth + self.height(),
            self.path(sample, depth).unwrap().leaf_size <= self.size(),
            self.populated() ==> self.path(sample, depth).unwrap().leaf_size >= 1,
        decreases self,
    {
        match self {
            Node::Leaf { .. } => {},
            Node::Internal { split_feature, split_value, left, right } => {
                if sample.value(split_feature@) < split_value {
                    left.lemma_path_bounds(sample, depth + 1);
                } else {
                    right.lemma_path_bounds(sample, depth + 1);
                }
            },
        }
    }

    /// An internal node with the given split and subtrees.
    pub fn new(split_feature: &str, split_value: i64, left: Node, right: Node) -> (node: Node)
        ensures
            node matches Node::Internal { split_feature: f, split_value: v, left: l, right: r }
                && f@ == split_feature@ && v == split_value && *l == left && *r == right,
    {
        Node::Internal {
            split_feature: split_feature.to_owned(),
            split_value,
            left: Box::new(left),
            right: Box::new(right),
        }
    }

    /// Grows a subtree from the members at `depth`: a leaf where there is
    /// at most one member, where the depth has reached the limit, or where
    /// the first member has no feature; else it draws one of the first
    /// member's features and splits on it.
    pub fn grow(
        samples: &SampleList,
        members: Vec<usize>,
        depth: usize,
        height_limit: usize,
        rng: &mut StdRng,
    ) -> (result: Result<Node, ForestError>)
        requires
            in_range(members@, samples.len() as nat),
        ensures
            result matches Ok(node) ==> node.grown_from(
                sample_views(samples@),
                members@,
                depth as nat,
                height_limit as nat,
            ),
            result matches Err(error) ==> error == ForestError::FeatureNotFound,
            shares_vocabulary(sample_views(samples@), members@) ==> result is Ok,
            members.len() <= 1 || depth >= height_limit ==> result == Ok::<Node, ForestError>(
                Node::Leaf { size: members.len() },
            ),
        decreases height_limit - depth, 1nat,
    {
        let size = members.len();
        if size <= 1 || depth >= height_limit {
            return Ok(Node::Leaf { size });
        }
        let count = samples[members[0]].features().len();
        if count == 0 {
            return Ok(Node::Leaf { size });
        }
        let pick = random_below(rng, count);
        Node::grow_on(samples, members, depth, height_limit, pick, rng)
    }

    /// Grows a subtree from the members at `depth`, splitting on the
    /// feature that stands at position `pick` in the first member. Where
    /// all members agree on that feature the result is a leaf; else it is
    /// an internal node with a drawn threshold.
    pub fn grow_on(
        samples: &SampleList,
        members: Vec<usize>,
        depth: usize,
        height_limit: usize,
        pick: usize,
        rng: &mut StdRng,
    ) -> (result: Result<Node, ForestError>)
        requires
            in_range(members@, samples.len() as nat),
            members.len() > 1,
            depth < height_limit,
            pick < samples[members[0] as int]@.features.len(),
        ensures
            result matches Ok(node) ==> {
                let picked = sample_views(samples@)[members[0] as int].features[pick as int].name;
                &&& node.grown_from(
                    sample_views(samples@),
                    members@,
                    depth as nat,
                    height_limit as nat,
                )
                &&& constant_on(sample_views(samples@), members@, picked) ==> node
                    == (Node::Leaf { size: members.len() })
                &&& !constant_on(sample_views(samples@), members@, picked) ==> (node matches Node::Internal {
                    split_feature,
                    ..
                } && split_feature@ == picked)
            },
            result matches Err(error) ==> error == ForestError::FeatureNotFound,
            shares_vocabulary(sample_views(samples@), members@) ==> result is Ok,
            !all_have(
                sample_views(samples@),
                members@,
                sample_views(samples@)[members[0] as int].features[pick as int].name,
            ) ==> result is Err,
        decreases height_limit - depth, 0nat,
    {
        let ghost views = sample_views(samples@);
        let size = members.len();
        let name = samples[members[0]].features()[pick].get_name();
        assert(name@ == views[members[0] as int].features[pick as int].name);
        let (low, high) = match value_range(samples, &members, &name) {
            Ok(range) => range,
            Err(error) => {
                proof {
                    if shares_vocabulary(views, members@) {
                        assert(views[members@[0] as int].has_feature(name@));
                        assert(all_have(views, members@, name@));
                    }
                }
                return Err(error);
            },
        };
        if low == high {
            proof {
                assert(constant_on(views, members@, name@));
            }
            return Ok(Node::Leaf { size });
        }
        let split = random_split(rng, low, high);
        let (lower, upper) = match partition(samples, &members, &name, split) {
            Ok(parts) => parts,
            Err(error) => {
                return Err(error);
            },
        };
        proof {
            lemma_parts_cover(views, members@, name@, split as int);
            lemma_part_inherits(views, members@, lower@, samples.len() as nat, name@);
            lemma_part_inherits(views, members@, upper@, samples.len() as nat, name@);
            let at_low = choose|k: int|
                0 <= k < members.len() && views[(#[trigger] members@[k]) as int].value(name@)
                    == low;
            let at_high = choose|k: int|
                0 <= k < members.len() && views[(#[trigger] members@[k]) as int].value(name@)
                    == high;
            members@.lemma_filter_contains(below(views, name@, split as int), at_low);
            members@.lemma_filter_contains(not_below(views, name@, split as int), at_high);
            assert(!constant_on(views, members@, name@)) by {
                assert(views[members@[at_low] as int].value(name@) != views[members@[at_high] as int].value(
                    name@,
                ));
            }
        }
        let left = match Node::grow(samples, lower, depth + 1, height_limit, rng) {
            Ok(node) => node,
            Err(error) => {
                return Err(error);
            },
        };
        let right = match Node::grow(samples, upper, depth + 1, height_limit, rng) {
            Ok(node) => node,
            Err(error) => {
                return Err(error);
            },
        };
        Ok(Node::new(name.as_str(), split, left, right))
    }

    /// Follows `sample` down from the node, which it enters at `depth`.
    /// Fails where the sample lacks the feature of a split on its way.
    pub fn path_length(&self, sample: &Sample, depth: usize) -> (result: Result<
        PathLength,
        ForestError,
    >)
        requires
            depth + self.height() <= usize::MAX,
        ensures
            result matches Ok(reached) ==> self.path(sample@, depth as nat) == Some(reached@),
            result matches Err(error) ==> error == ForestError::FeatureNotFound && self.path(
                sample@,
                depth as nat,
            ) is None,
        decreases self,
    {
        match self {
            Node::Leaf { size } => Ok(PathLength { depth, leaf_size: *size }),
            Node::Internal { split_feature, split_value, left, right } => {
                match sample.value_named(split_feature) {
                    Ok(value) => {
                        if value < *split_value {
                            left.path_length(sample, depth + 1)
                        } else {
                            right.path_length(sample, depth + 1)
                        }
                    },
                    Err(error) => Err(error),
                }
            },
        }
    }
}

} // verus!
