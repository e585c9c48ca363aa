//! End-to-end scenarios for the random forests.
use rafor::classes_mapping::ClassDecode;
use rafor::prelude::CommonConfigBuilder;
use rafor::prelude::EnsembleConfigBuilder;
use rafor::rf;

fn key(x: f32) -> u32 {
    let b = x.to_bits();
    if b & 0x8000_0000 != 0 {
        !b
    } else {
        b | 0x8000_0000
    }
}

fn keys(xs: &[f32]) -> Vec<u32> {
    xs.iter().map(|&x| key(x)).collect()
}

fn fx(x: f32) -> i64 {
    (x as f64 * 65536.0).round() as i64
}

fn unfx(v: i64) -> f64 {
    v as f64 / 65536.0
}

#[test]
fn forest_classifier_overfit() {
    let dataset = keys(&[0.7, 0.0, 0.8, 1.0, 0.3, 0.0, 1.0, 1.3, 0.4, 2.1]);
    let labels: Vec<i64> = vec![1, 5, 1, -15, 5];
    let conf = rf::Classifier::default_config().with_max_depth(15).with_trees(20).with_seed(42);
    let model = rf::Classifier::fit(&dataset, &labels, &conf);
    let predictions = model.predict(&dataset);
    assert_eq!(predictions, labels);
    assert_eq!(model.num_features(), 2);
}

#[test]
fn forest_classifier_deterministic_at_fixed_seed() {
    let dataset = keys(&[0.7, 0.0, 0.8, 1.0, 0.3, 0.0, 1.0, 1.3, 0.4, 2.1]);
    let labels: Vec<i64> = vec![1, 5, 1, -15, 5];
    let conf = rf::Classifier::default_config().with_trees(12).with_seed(7);
    let m1 = rf::Classifier::fit(&dataset, &labels, &conf);
    let m2 = rf::Classifier::fit(&dataset, &labels, &conf);
    assert_eq!(m1.proba(&dataset), m2.proba(&dataset));
    assert_eq!(m1.predict(&dataset), m2.predict(&dataset));
}

#[test]
fn forest_classifier_seed_changes_probabilities() {
    let dataset = keys(&[
        0.7, 0.0, 0.8, 1.0, 0.3, 0.0, 1.0, 1.3, 0.4, 2.1, 0.9, 0.5, 0.2, 0.8, 0.6, 0.1,
    ]);
    let labels: Vec<i64> = vec![1, 5, 1, 2, 5, 2, 1, 5];
    let c1 = rf::Classifier::default_config().with_trees(10).with_seed(1);
    let c2 = rf::Classifier::default_config().with_trees(10).with_seed(99);
    let m1 = rf::Classifier::fit(&dataset, &labels, &c1);
    let m2 = rf::Classifier::fit(&dataset, &labels, &c2);
    // different bootstraps should show up somewhere in the probabilities
    assert_ne!(m1.proba(&dataset), m2.proba(&dataset));
}

#[test]
fn forest_classifier_proba_sums() {
    let dataset = keys(&[0.7, 0.0, 0.8, 1.0, 0.3, 0.0, 1.0, 1.3, 0.4, 2.1]);
    let labels: Vec<i64> = vec![1, 5, 1, -15, 5];
    let conf = rf::Classifier::default_config().with_trees(9);
    let model = rf::Classifier::fit(&dataset, &labels, &conf);
    let proba = model.proba(&dataset);
    let kk = model.num_classes();
    assert_eq!(proba.len(), 5 * kk);
    let scale = 4294967296.0f64;
    for chunk in proba.chunks(kk) {
        let sum: f64 = chunk.iter().map(|&p| p as f64 / scale).sum();
        assert!((sum - 1.0).abs() < 1e-5);
    }
}

#[test]
fn forest_classifier_predict_one_matches_predict() {
    let dataset = keys(&[0.7, 0.0, 0.8, 1.0, 0.3, 0.0, 1.0, 1.3, 0.4, 2.1]);
    let labels: Vec<i64> = vec![1, 5, 1, -15, 5];
    let conf = rf::Classifier::default_config().with_trees(7);
    let model = rf::Classifier::fit(&dataset, &labels, &conf);
    for row in 0..5 {
        let sample: Vec<u32> = dataset[row * 2..row * 2 + 2].to_vec();
        assert_eq!(model.predict_one(&sample), model.predict(&sample)[0]);
    }
}

#[test]
fn forest_classifier_decode_table() {
    let dataset = keys(&[0.1, 0.2, 0.3]);
    let labels: Vec<i64> = vec![9, -4, 9];
    let conf = rf::Classifier::default_config().with_trees(3);
    let model = rf::Classifier::fit(&dataset, &labels, &conf);
    assert_eq!(model.get_decode_table().as_slice(), &[-4, 9]);
}

#[test]
fn forest_regressor_predictions_in_target_range() {
    let dataset = keys(&[0.1, 0.9, 0.5, 0.3, 0.7, 0.2]);
    let targets: Vec<i64> = vec![fx(1.0), fx(-2.0), fx(0.5), fx(4.0), fx(-0.25), fx(8.0)];
    let conf = rf::Regressor::default_config().with_trees(30).with_seed(3);
    let model = rf::Regressor::fit(&dataset, &targets, &conf);
    let predictions = model.predict(&dataset);
    assert_eq!(predictions.len(), 6);
    for p in predictions.iter() {
        let v = unfx(*p);
        assert!((-2.0..=8.0).contains(&v));
    }
    // every tree sees the whole range when the dataset is duplicated often
    // enough, so a duplicated cluster is pinned down exactly
    let big: Vec<u32> = keys(&[0.1, 0.9]).repeat(20);
    let big_t: Vec<i64> = vec![fx(1.0), fx(-2.0)].repeat(20);
    let m2 = rf::Regressor::fit(&big, &big_t, &conf);
    let v = unfx(m2.predict_one(&keys(&[0.1])));
    assert!((v - 1.0).abs() < 1e-3);
}

#[test]
fn forest_regressor_deterministic_at_fixed_seed() {
    let dataset = keys(&[0.1, 0.9, 0.5, 0.3, 0.7, 0.2]);
    let targets: Vec<i64> = vec![fx(1.0), fx(-2.0), fx(0.5), fx(4.0), fx(-0.25), fx(8.0)];
    let conf = rf::Regressor::default_config().with_trees(11).with_seed(5);
    let m1 = rf::Regressor::fit(&dataset, &targets, &conf);
    let m2 = rf::Regressor::fit(&dataset, &targets, &conf);
    assert_eq!(m1.predict(&dataset), m2.predict(&dataset));
}

#[test]
fn forest_regressor_constant_targets() {
    let dataset = keys(&[0.0, 1.0, 2.0, 3.0]);
    let targets: Vec<i64> = vec![fx(2.5); 4];
    let conf = rf::Regressor::default_config().with_trees(5);
    let model = rf::Regressor::fit(&dataset, &targets, &conf);
    let sample = keys(&[1.5]);
    assert_eq!(model.predict_one(&sample), fx(2.5));
}
