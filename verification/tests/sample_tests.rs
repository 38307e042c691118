use isolation_forest::{Feature, ForestError, Sample};

fn names(sample: &Sample) -> Vec<String> {
    sample.features().iter().map(|f| f.get_name()).collect()
}

fn values(sample: &Sample) -> Vec<i64> {
    sample.features().iter().map(|f| f.get_value()).collect()
}

#[test]
fn feature_new_keeps_name_and_value() {
    let feature = Feature::new("height", -1750);
    assert_eq!(feature.get_name(), "height");
    assert_eq!(feature.get_value(), -1750);
}

#[test]
fn feature_setters_change_one_field_each() {
    let mut feature = Feature::new("x", 1);
    feature.set_value(i64::MIN);
    assert_eq!(feature.get_name(), "x");
    assert_eq!(feature.get_value(), i64::MIN);
    feature.set_name(String::from("y"));
    assert_eq!(feature.get_name(), "y");
    assert_eq!(feature.get_value(), i64::MIN);
}

#[test]
fn feature_clone_is_equal() {
    let feature = Feature::new("x", 42);
    let copy = feature.clone();
    assert_eq!(copy, feature);
}

#[test]
fn new_sample_has_a_name_and_no_features() {
    let sample = Sample::new("first");
    assert_eq!(sample.name(), "first");
    assert!(sample.features().is_empty());
}

#[test]
fn add_feature_appends_in_order() {
    let mut sample = Sample::new("s");
    assert_eq!(sample.add_feature(Feature::new("x", 3)), Ok(()));
    assert_eq!(sample.add_feature(Feature::new("y", -4)), Ok(()));
    assert_eq!(sample.add_feature(Feature::new("z", 5)), Ok(()));
    assert_eq!(names(&sample), vec!["x", "y", "z"]);
    assert_eq!(values(&sample), vec![3, -4, 5]);
}

#[test]
fn add_feature_refuses_a_name_twice() {
    let mut sample = Sample::new("s");
    sample.add_feature(Feature::new("x", 3)).unwrap();
    sample.add_feature(Feature::new("y", 4)).unwrap();
    let before = sample.clone();
    assert_eq!(
        sample.add_feature(Feature::new("x", 9)),
        Err(ForestError::DuplicateFeatureName)
    );
    assert_eq!(sample, before);
    assert_eq!(sample.value_of("x"), Ok(3));
}

#[test]
fn add_features_appends_the_list_in_order() {
    let mut sample = Sample::new("s");
    sample.add_feature(Feature::new("a", 1)).unwrap();
    let list = vec![Feature::new("b", 2), Feature::new("c", 3)];
    assert_eq!(sample.add_features(list), Ok(()));
    assert_eq!(names(&sample), vec!["a", "b", "c"]);
    assert_eq!(values(&sample), vec![1, 2, 3]);
}

#[test]
fn add_features_takes_an_empty_list() {
    let mut sample = Sample::new("s");
    sample.add_feature(Feature::new("a", 1)).unwrap();
    assert_eq!(sample.add_features(Vec::new()), Ok(()));
    assert_eq!(names(&sample), vec!["a"]);
}

#[test]
fn add_features_refuses_a_name_that_is_held() {
    let mut sample = Sample::new("s");
    sample.add_feature(Feature::new("a", 1)).unwrap();
    let before = sample.clone();
    let list = vec![Feature::new("b", 2), Feature::new("a", 3)];
    assert_eq!(sample.add_features(list), Err(ForestError::DuplicateFeatureName));
    assert_eq!(sample, before);
}

#[test]
fn add_features_refuses_a_name_twice_in_the_list() {
    let mut sample = Sample::new("s");
    sample.add_feature(Feature::new("a", 1)).unwrap();
    let before = sample.clone();
    let list = vec![Feature::new("b", 2), Feature::new("c", 3), Feature::new("b", 4)];
    assert_eq!(sample.add_features(list), Err(ForestError::DuplicateFeatureName));
    assert_eq!(sample, before);
}

#[test]
fn value_of_finds_each_feature_by_name() {
    let mut sample = Sample::new("s");
    sample
        .add_features(vec![Feature::new("x", 10), Feature::new("y", -20), Feature::new("", 30)])
        .unwrap();
    assert_eq!(sample.value_of("x"), Ok(10));
    assert_eq!(sample.value_of("y"), Ok(-20));
    assert_eq!(sample.value_of(""), Ok(30));
    assert_eq!(sample.value_named(&String::from("y")), Ok(-20));
}

#[test]
fn value_of_fails_for_an_absent_name() {
    let mut sample = Sample::new("s");
    sample.add_feature(Feature::new("x", 10)).unwrap();
    assert_eq!(sample.value_of("X"), Err(ForestError::FeatureNotFound));
    assert_eq!(sample.value_of("xy"), Err(ForestError::FeatureNotFound));
    assert_eq!(Sample::new("empty").value_of("x"), Err(ForestError::FeatureNotFound));
}

#[test]
fn sample_clone_is_equal() {
    let mut sample = Sample::new("s");
    sample.add_features(vec![Feature::new("x", 10), Feature::new("y", -20)]).unwrap();
    let copy = sample.clone();
    assert_eq!(copy, sample);
    assert_eq!(copy.name(), "s");
    assert_eq!(values(&copy), vec![10, -20]);
}
