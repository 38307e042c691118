use vstd::prelude::*;
use crate::error::ForestError;

verus! {

/// A feature as a mathematical value: its name and its number.
pub struct FeatureView {
    pub name: Seq<char>,
    pub value: int,
}

/// A named value. The value is a fixed-point number: the measured
/// quantity times a scale that the caller keeps the same for every sample
/// of a forest.
#[derive(Debug, PartialEq, Eq)]
pub struct Feature {
    name: String,
    value: i64,
}

impl View for Feature {
    type V = FeatureView;

    closed spec fn view(&self) -> FeatureView {
        FeatureView { name: self.name@, value: self.value as int }
    }
}

impl Feature {
    /// A feature called `name` with the given value.
    pub fn new(name: &str, value: i64) -> (feature: Feature)
        ensures
            feature@.name == name@,
            feature@.value == value,
    {
        Feature { name: name.to_owned(), value }
    }

    /// Renames the feature and keeps its value.
    pub fn set_name(&mut self, name: String)
        ensures
            final(self)@.name == name@,
            final(self)@.value == old(self)@.value,
    {
        self.name = name;
    }

    /// A copy of the name.
    pub fn get_name(&self) -> (name: String)
        ensures
            name@ == self@.name,
    {
        self.name.clone()
    }

    /// Replaces the value and keeps the name.
    pub fn set_value(&mut self, value: i64)
        ensures
            final(self)@.value == value,
            final(self)@.name == old(self)@.name,
    {
        self.value = value;
    }

    /// The value.
    pub fn get_value(&self) -> (value: i64)
        ensures
            value == self@.value,
    {
        self.value
    }
}

impl Clone for Feature {
    fn clone(&self) -> (copy: Feature)
        ensures
            copy == *self,
    {
        Feature { name: self.name.clone(), value: self.value }
    }
}

pub type FeatureList = Vec<Feature>;

/// The features of a list, each as a mathematical value, in order.
pub open spec fn feature_views(features: Seq<Feature>) -> Seq<FeatureView> {
    features.map_values(|f: Feature| f@)
}

/// A sample as a mathematical value.
pub struct SampleView {
    pub name: Seq<char>,
    pub features: Seq<FeatureView>,
}

impl SampleView {
    /// No two features carry the same name.
    pub open spec fn names_unique(self) -> bool {
        forall|i: int, j: int|
            0 <= i < j < self.features.len() ==> self.features[i].name != self.features[j].name
    }

    /// Some feature carries `name`.
    pub open spec fn has_feature(self, name: Seq<char>) -> bool {
        exists|i: int| 0 <= i < self.features.len() && (#[trigger] self.features[i]).name == name
    }

    /// A position at which `name` stands; the only one where names are unique.
    pub open spec fn position(self, name: Seq<char>) -> int {
        choose|i: int| 0 <= i < self.features.len() && (#[trigger] self.features[i]).name == name
    }

    /// The value that the sample gives to `name`; meaningful where
    /// `has_feature(name)` holds.
    pub open spec fn value(self, name: Seq<char>) -> int {
        self.features[self.position(name)].value
    }
}

/// The first position before `end` at which `name` stands in `features`.
fn find(features: &FeatureList, name: &String, end: usize) -> (found: Option<usize>)
    requires
        end <= features.len(),
    ensures
        found matches Some(i) ==> i < end && features[i as int]@.name == name@ && forall|j: int|
            0 <= j < i ==> (#[trigger] features[j])@.name != name@,
        found is None ==> forall|j: int| 0 <= j < end ==> (#[trigger] features[j])@.name != name@,
{
    let mut i: usize = 0;
    while i < end
        invariant
            i <= end <= features.len(),
            forall|j: int| 0 <= j < i ==> (#[trigger] features[j])@.name != name@,
        decreases end - i,
    {
        if features[i].name == *name {
            return Some(i);
        }
        i = i + 1;
    }
    None
}

/// A named, ordered collection of features whose names are unique.
#[derive(Debug, PartialEq, Eq)]
pub struct Sample {
    name: String,
    features: FeatureList,
}

impl View for Sample {
    type V = SampleView;

    closed spec fn view(&self) -> SampleView {
        SampleView { name: self.name@, features: feature_views(self.features@) }
    }
}

impl Clone for Sample {
    fn clone(&self) -> (copy: Sample)
        ensures
            copy@ == self@,
    {
        proof {
            use_type_invariant(self);
        }
        let mut features: FeatureList = Vec::new();
        let mut k: usize = 0;
        while k < self.features.len()
            invariant
                k <= self.features.len(),
                features@ == self.features@.take(k as int),
            decreases self.features.len() - k,
        {
            features.push(self.features[k].clone());
            assert(features@ =~= self.features@.take(k + 1));
            k = k + 1;
        }
        assert(features@ =~= self.features@);
        Sample { name: self.name.clone(), features }
    }
}

pub type SampleList = Vec<Sample>;

/// The samples of a list, each as a mathematical value, in order.
pub open spec fn sample_views(samples: Seq<Sample>) -> Seq<SampleView> {
    samples.map_values(|s: Sample| s@)
}

impl Sample {
    #[verifier::type_invariant]
    spec fn well_formed(&self) -> bool {
        self@.names_unique()
    }

    /// A sample called `name` without features.
    pub fn new(name: &str) -> (sample: Sample)
        ensures
            sample@.name == name@,
            sample@.features == Seq::<FeatureView>::empty(),
    {
        Sample { name: name.to_owned(), features: Vec::new() }
    }

    /// The name of the sample.
    pub fn name(&self) -> (name: &str)
        ensures
            name@ == self@.name,
    {
        self.name.as_str()
    }

    /// Appends one feature. A name that the sample already holds is refused,
    /// and the sample stays as it was.
    pub fn add_feature(&mut self, feature: Feature) -> (result: Result<(), ForestError>)
        ensures
            result is Ok <==> !old(self)@.has_feature(feature@.name),
            result is Ok ==> final(self)@ == (SampleView {
                name: old(self)@.name,
                features: old(self)@.features.push(feature@),
            }),
            result is Err ==> result == Err::<(), ForestError>(ForestError::DuplicateFeatureName)
                && *final(self) == *old(self),
    {
        proof {
            use_type_invariant(&*self);
        }
        match find(&self.features, &feature.name, self.features.len()) {
            Some(i) => {
                assert(self@.features[i as int] == self.features@[i as int]@);
                Err(ForestError::DuplicateFeatureName)
            },
            None => {
                assert forall|i: int| 0 <= i < self@.features.len() implies (
                #[trigger] self@.features[i]).name != feature@.name by {
                    assert(self@.features[i] == self.features@[i]@);
                }
                let mut features: FeatureList = Vec::new();
                std::mem::swap(&mut features, &mut self.features);
                features.push(feature);
                proof {
                    let grown = feature_views(features@);
                    assert(grown =~= old(self)@.features.push(feature@));
                    assert((SampleView { name: self.name@, features: grown }).names_unique());
                }
                self.features = features;
                Ok(())
            },
        }
    }

    /// Appends a list of features, keeping their order. Where the sample
    /// would then hold one name twice, nothing is appended.
    pub fn add_features(&mut self, features: FeatureList) -> (result: Result<(), ForestError>)
        ensures
            result is Ok <==> (SampleView {
                name: old(self)@.name,
                features: old(self)@.features + feature_views(features@),
            }).names_unique(),
            result is Ok ==> final(self)@ == (SampleView {
                name: old(self)@.name,
                features: old(self)@.features + feature_views(features@),
            }),
            result is Err ==> result == Err::<(), ForestError>(ForestError::DuplicateFeatureName)
                && *final(self) == *old(self),
    {
        proof {
            use_type_invariant(&*self);
        }
        let ghost joined = SampleView {
            name: self@.name,
            features: self@.features + feature_views(features@),
        };
        let held = self.features.len();
        let mut k: usize = 0;
        while k < features.len()
            invariant
                k <= features.len(),
                held == self.features.len(),
                self@.names_unique(),
                joined.name == self@.name,
                joined.features == self@.features + feature_views(features@),
                forall|i: int, j: int|
                    0 <= i < j < held + k ==> joined.features[i].name != joined.features[j].name,
            decreases features.len() - k,
        {
            let name = &features[k].name;
            let among_held = find(&self.features, name, held);
            let among_new = find(&features, name, k);
            proof {
                assert(joined.features[held + k] == features@[k as int]@);
            }
            if among_held.is_some() || among_new.is_some() {
                proof {
                    let i = match among_held {
                        Some(i) => i as int,
                        None => held + among_new.unwrap(),
                    };
                    assert(joined.features[i].name == joined.features[held + k].name) by {
                        if among_held is Some {
                            assert(joined.features[i] == self.features@[i]@);
                        } else {
                            assert(joined.features[i] == features@[i - held]@);
                        }
                    }
                }
                return Err(ForestError::DuplicateFeatureName);
            }
            proof {
                assert forall|i: int| 0 <= i < held + k implies (#[trigger] joined.features[i]).name
                    != joined.features[held + k].name by {
                    if i < held {
                        assert(joined.features[i] == self.features@[i]@);
                    } else {
                        assert(joined.features[i] == features@[i - held]@);
                    }
                }
            }
            k = k + 1;
        }
        let mut features = features;
        let mut merged: FeatureList = Vec::new();
        std::mem::swap(&mut merged, &mut self.features);
        merged.append(&mut features);
        proof {
            assert(feature_views(merged@) =~= joined.features);
            assert(joined.names_unique());
        }
        self.features = merged;
        Ok(())
    }

    /// The value of the feature called `name`. Fails where the sample has
    /// no such feature.
    pub fn value_of(&self, name: &str) -> (result: Result<i64, ForestError>)
        ensures
            result is Ok <==> self@.has_feature(name@),
            result matches Ok(value) ==> value == self@.value(name@),
            result matches Err(error) ==> error == ForestError::FeatureNotFound,
    {
        let key = name.to_owned();
        self.value_named(&key)
    }

    /// The value of the feature called `name`, for a caller that holds the
    /// name as a `String`. Fails where the sample has no such feature.
    pub fn value_named(&self, name: &String) -> (result: Result<i64, ForestError>)
        ensures
            result is Ok <==> self@.has_feature(name@),
            result matches Ok(value) ==> value == self@.value(name@),
            result matches Err(error) ==> error == ForestError::FeatureNotFound,
    {
        proof {
            use_type_invariant(self);
        }
        match find(&self.features, name, self.features.len()) {
            Some(i) => {
                proof {
                    assert(self@.features[i as int].name == name@);
                    let p = self@.position(name@);
                    assert(p == i) by {
                        if p < i {
                            assert(self@.features[p].name != self@.features[i as int].name);
                        } else if i < p {
                            assert(self@.features[i as int].name != self@.features[p].name);
                        }
                    }
                }
                Ok(self.features[i].value)
            },
            None => {
                assert(!self@.has_feature(name@)) by {
                    assert forall|i: int| 0 <= i < self@.features.len() implies (
                    #[trigger] self@.features[i]).name != name@ by {
                        assert(self@.features[i] == self.features@[i]@);
                    }
                }
                Err(ForestError::FeatureNotFound)
            },
        }
    }

    /// The features in the order in which they were added.
    pub fn features(&self) -> (features: &FeatureList)
        ensures
            feature_views(features@) == self@.features,
            self@.names_unique(),
    {
        proof {
            use_type_invariant(self);
        }
        &self.features
    }
}

} // verus!
