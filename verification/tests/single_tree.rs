//! End-to-end scenarios for the single-tree classifier and regressor.
use rafor::classes_mapping::ClassDecode;
use rafor::dt;
use rafor::prelude::CommonConfigBuilder;

/// Order-preserving key of an `f32`: flips the sign bit of a non-negative
/// value's bits and complements a negative one's, so `u32` order matches
/// float order.
fn key(x: f32) -> u32 {
    let b = x.to_bits();
    if b & 0x8000_0000 != 0 {
        !b
    } else {
        b | 0x8000_0000
    }
}

fn keys(xs: &[f32]) -> Vec<u32> {
    xs.iter().map(|&x| key(x)).collect()
}

/// Fixed-point encoding of a regression target with 16 fractional bits.
fn fx(x: f32) -> i64 {
    (x as f64 * 65536.0).round() as i64
}

fn unfx(v: i64) -> f64 {
    v as f64 / 65536.0
}

#[test]
fn classifier_tiny_overfit() {
    let dataset = keys(&[0.7, 0.0, 0.8, 1.0, 0.7, 0.0]);
    let labels: Vec<i64> = vec![1, 5, 1];
    let model = dt::Classifier::fit(&dataset, &labels, &dt::Classifier::default_config());
    let predictions = model.predict(&dataset);
    assert_eq!(predictions, vec![1, 5, 1]);
}

#[test]
fn classifier_pure_leaf() {
    let dataset = keys(&[0.0, 1.0, 2.0]);
    let labels: Vec<i64> = vec![7, 7, 7];
    let model = dt::Classifier::fit(&dataset, &labels, &dt::Classifier::default_config());
    let sample = keys(&[42.0]);
    assert_eq!(model.predict_one(&sample), 7);
    assert_eq!(model.predict(&sample), vec![7]);
}

#[test]
fn classifier_predict_one_matches_predict() {
    let dataset = keys(&[0.7, 0.0, 0.8, 1.0, 0.3, 0.0, 1.0, 1.3, 0.4, 2.1]);
    let labels: Vec<i64> = vec![1, 5, 1, -15, 5];
    let model = dt::Classifier::fit(&dataset, &labels, &dt::Classifier::default_config());
    for row in 0..5 {
        let sample: Vec<u32> = dataset[row * 2..row * 2 + 2].to_vec();
        assert_eq!(model.predict_one(&sample), model.predict(&sample)[0]);
    }
}

#[test]
fn classifier_decode_table_sorted_and_complete() {
    let dataset = keys(&[0.1, 0.2, 0.3, 0.4, 0.5]);
    let labels: Vec<i64> = vec![5, -1, 8, 5, -1];
    let model = dt::Classifier::fit(&dataset, &labels, &dt::Classifier::default_config());
    assert_eq!(model.get_decode_table().as_slice(), &[-1, 5, 8]);
    assert_eq!(model.num_classes(), 3);
    assert_eq!(model.decode(0), -1);
    assert_eq!(model.decode(1), 5);
    assert_eq!(model.decode(2), 8);
}

#[test]
fn classifier_proba_shape_and_sums() {
    let dataset = keys(&[0.1, 0.1, 0.2, 0.2, 0.1, 0.1, 0.1, 0.1, 0.1, 0.1]);
    let labels: Vec<i64> = vec![0, 2, 0, 0, 1];
    let model = dt::Classifier::fit(&dataset, &labels, &dt::Classifier::default_config());
    let proba = model.proba(&dataset);
    let kk = model.num_classes();
    assert_eq!(proba.len(), 5 * kk);
    let scale = 4294967296.0f64;
    for chunk in proba.chunks(kk) {
        let sum: f64 = chunk.iter().map(|&p| p as f64 / scale).sum();
        assert!((sum - 1.0).abs() < 1e-5);
    }
    // the duplicated row (0.1, 0.1) holds three of class 0 and one of class 1
    let first: Vec<f64> = proba[0..kk].iter().map(|&p| p as f64 / scale).collect();
    assert!((first[0] - 0.75).abs() < 1e-5);
    assert!((first[1] - 0.25).abs() < 1e-5);
    assert!(first[2].abs() < 1e-5);
}

#[test]
fn classifier_argmax_of_proba_matches_predict() {
    let dataset = keys(&[0.7, 0.0, 0.8, 1.0, 0.3, 0.0, 1.0, 1.3, 0.4, 2.1]);
    let labels: Vec<i64> = vec![1, 5, 1, -15, 5];
    let model = dt::Classifier::fit(&dataset, &labels, &dt::Classifier::default_config());
    let proba = model.proba(&dataset);
    let predictions = model.predict(&dataset);
    let kk = model.num_classes();
    for (i, chunk) in proba.chunks(kk).enumerate() {
        let mut am = 0;
        for j in 1..kk {
            if chunk[j] > chunk[am] {
                am = j;
            }
        }
        assert_eq!(model.decode(am), predictions[i]);
    }
}

#[test]
fn classifier_overfit_distinct_rows() {
    // distinct single-feature rows: an unlimited-depth tree must reach
    // exact training accuracy
    let dataset = keys(&[0.1, 0.9, 0.5, 0.3, 0.7, 0.2]);
    let labels: Vec<i64> = vec![3, 1, 3, 2, 1, 2];
    let model = dt::Classifier::fit(&dataset, &labels, &dt::Classifier::default_config());
    assert_eq!(model.predict(&dataset), labels);
}

#[test]
fn classifier_constant_column_changes_nothing() {
    let base = [0.7f32, 0.8, 0.3, 1.0, 0.4];
    let labels: Vec<i64> = vec![1, 5, 1, -15, 5];
    let one_col = keys(&base);
    let with_const: Vec<u32> = base.iter().flat_map(|&x| vec![key(x), key(2.5)]).collect();
    let m1 = dt::Classifier::fit(&one_col, &labels, &dt::Classifier::default_config());
    let m2 = dt::Classifier::fit(&with_const, &labels, &dt::Classifier::default_config());
    assert_eq!(m1.predict(&one_col), m2.predict(&with_const));
}

#[test]
fn regressor_duplicate_rows_average() {
    let dataset = keys(&[0.7, 0.0, 0.8, 1.0, 0.7, 0.0]);
    let targets: Vec<i64> = vec![fx(1.0), fx(0.5), fx(0.2)];
    let model = dt::Regressor::fit(&dataset, &targets, &dt::Regressor::default_config());
    let sample = keys(&[0.7, 0.0]);
    let v = unfx(model.predict_one(&sample));
    assert!((v - 0.6).abs() < 1e-3);
    let all = model.predict(&dataset);
    assert!((unfx(all[1]) - 0.5).abs() < 1e-3);
}

#[test]
fn regressor_pure_targets() {
    let dataset = keys(&[0.0, 1.0, 2.0]);
    let targets: Vec<i64> = vec![fx(3.25), fx(3.25), fx(3.25)];
    let model = dt::Regressor::fit(&dataset, &targets, &dt::Regressor::default_config());
    let sample = keys(&[42.0]);
    assert_eq!(model.predict_one(&sample), fx(3.25));
}

#[test]
fn regressor_overfit_distinct_rows() {
    let dataset = keys(&[0.1, 0.9, 0.5, 0.3, 0.7, 0.2]);
    let targets: Vec<i64> = vec![fx(1.0), fx(-2.0), fx(0.5), fx(4.0), fx(-0.25), fx(8.0)];
    let model = dt::Regressor::fit(&dataset, &targets, &dt::Regressor::default_config());
    assert_eq!(model.predict(&dataset), targets);
}

#[test]
fn regressor_negative_values() {
    let dataset = keys(&[-3.0, -1.0, 2.0, 5.0]);
    let targets: Vec<i64> = vec![fx(-1.0), fx(-1.0), fx(2.0), fx(2.0)];
    let model = dt::Regressor::fit(&dataset, &targets, &dt::Regressor::default_config());
    let sample = keys(&[-2.0]);
    assert_eq!(model.predict_one(&sample), fx(-1.0));
}

#[test]
fn classifier_splits_descending_feature() {
    // rows arrive in strictly descending feature order, so the split is
    // only found after the scan buffer is really sorted
    let dataset = keys(&[4.0, 3.0, 2.0, 1.0]);
    let labels: Vec<i64> = vec![1, 1, 0, 0];
    let model = dt::Classifier::fit(&dataset, &labels, &dt::Classifier::default_config());
    assert_eq!(model.predict(&dataset), labels);
}

#[test]
fn regressor_splits_descending_feature() {
    let dataset = keys(&[4.0, 3.0, 2.0, 1.0]);
    let targets: Vec<i64> = vec![fx(2.0), fx(2.0), fx(1.0), fx(1.0)];
    let model = dt::Regressor::fit(&dataset, &targets, &dt::Regressor::default_config());
    assert_eq!(model.predict(&dataset), targets);
}

#[test]
fn classifier_depth_zero_trains_one_leaf() {
    // with the depth gate at zero the root is closed at once, so every
    // prediction is the training majority (ties to the smaller label)
    let dataset = keys(&[1.0, 2.0, 3.0, 4.0]);
    let labels: Vec<i64> = vec![0, 0, 1, 1];
    let conf = dt::Classifier::default_config().with_max_depth(0);
    let model = dt::Classifier::fit(&dataset, &labels, &conf);
    assert_eq!(model.predict(&dataset), vec![0, 0, 0, 0]);
}

#[test]
fn regressor_min_samples_split_gate() {
    // a node below min_samples_split is closed, so both rows share the
    // mean even though a split exists
    let dataset = keys(&[1.0, 2.0]);
    let targets: Vec<i64> = vec![fx(1.0), fx(3.0)];
    let conf = dt::Regressor::default_config().with_min_samples_split(3);
    let model = dt::Regressor::fit(&dataset, &targets, &conf);
    assert_eq!(model.predict(&dataset), vec![fx(2.0), fx(2.0)]);
}
