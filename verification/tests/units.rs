//! Unit tests of the library's building blocks.
use rafor::classes_mapping::ClassDecode;
use rafor::classes_mapping::ClassesMapping;
use rafor::classify;
use rafor::config::EnsembleConfig;
use rafor::config::Metric;
use rafor::config::NumFeatures;
use rafor::dataset::Dataset;
use rafor::dt;
use rafor::labels::DenseClass;
use rafor::labels::PlainWeighted;
use rafor::labels::Weighted;
use rafor::prelude::ClassifierConfigBuilder;
use rafor::prelude::CommonConfigBuilder;
use rafor::prelude::EnsembleConfigBuilder;
use rafor::prelude::RegressorConfigBuilder;
use rafor::rf;
use rafor::splitter::GiniSplitter;
use rafor::splitter::GItem;
use rafor::trainer::isqrt;
use rafor::trainer::log2_floor;
use rafor::trainer::resolve_max_features;
use rafor::weightable::Weightable;

#[test]
fn encode_assigns_sorted_codes() {
    let labels: Vec<i64> = vec![5, -1, 8, 5];
    let (mapping, codes) = ClassesMapping::with_encode(&labels);
    assert_eq!(mapping.get_decode_table().as_slice(), &[-1, 5, 8]);
    assert_eq!(codes, vec![1, 0, 2, 1]);
    for (i, &code) in codes.iter().enumerate() {
        assert_eq!(mapping.decode(code as usize), labels[i]);
    }
}

#[test]
fn encode_method_rebuilds_the_table() {
    let (mut mapping, _) = ClassesMapping::with_encode(&vec![1, 2]);
    let labels: Vec<i64> = vec![10, -3, 10, 4];
    let codes = mapping.encode(&labels);
    assert_eq!(mapping.get_decode_table().as_slice(), &[-3, 4, 10]);
    assert_eq!(codes, vec![2, 0, 2, 1]);
}

#[test]
fn encode_single_label() {
    let labels: Vec<i64> = vec![-7, -7];
    let (mapping, codes) = ClassesMapping::with_encode(&labels);
    assert_eq!(mapping.num_classes(), 1);
    assert_eq!(codes, vec![0, 0]);
}

#[test]
fn transpose_keeps_values() {
    // two rows of three features
    let data: Vec<u32> = vec![1, 2, 3, 10, 20, 30];
    let ds = Dataset::with_transposed(&data, 2);
    assert_eq!(ds.num_features(), 3);
    assert_eq!(ds.size(), 2);
    for s in 0..2 {
        for f in 0..3 {
            assert_eq!(ds.feature_val(s, f), data[s * 3 + f]);
        }
    }
}

#[test]
fn classify_picks_first_maximal_class() {
    let labels: Vec<i64> = vec![4, 2, 9];
    let (mapping, _) = ClassesMapping::with_encode(&labels);
    // table is [2, 4, 9]; ties go to the earlier class
    let proba: Vec<u64> = vec![5, 9, 1, 7, 7, 2, 0, 0, 0];
    let out = classify(&proba, &mapping);
    assert_eq!(out, vec![4, 2, 2]);
}

#[test]
fn gini_splitter_prepare_detects_purity() {
    let splitter = GiniSplitter::new(3, 1);
    let pure: Vec<GItem> = vec![
        GItem { key: 0, target: 2, weight: 3 },
        GItem { key: 0, target: 2, weight: 1 },
    ];
    assert!(!splitter.prepare(&pure));
    let mixed: Vec<GItem> = vec![
        GItem { key: 0, target: 2, weight: 3 },
        GItem { key: 0, target: 0, weight: 1 },
    ];
    assert!(splitter.prepare(&mixed));
}

#[test]
fn gini_splitter_finds_the_boundary() {
    let splitter = GiniSplitter::new(2, 1);
    let data: Vec<GItem> = vec![
        GItem { key: 10, target: 0, weight: 1 },
        GItem { key: 20, target: 0, weight: 1 },
        GItem { key: 30, target: 1, weight: 1 },
        GItem { key: 40, target: 1, weight: 1 },
    ];
    assert!(splitter.prepare(&data));
    let pos = splitter.find_split(&data, None).unwrap();
    assert_eq!(pos.pivot, 2);
}

#[test]
fn gini_splitter_respects_min_samples_leaf() {
    let splitter = GiniSplitter::new(2, 2);
    let data: Vec<GItem> = vec![
        GItem { key: 10, target: 0, weight: 1 },
        GItem { key: 20, target: 0, weight: 1 },
        GItem { key: 30, target: 1, weight: 1 },
        GItem { key: 40, target: 1, weight: 1 },
    ];
    let pos = splitter.find_split(&data, None).unwrap();
    // the boundaries at one sample are illegal now; the middle one remains
    assert_eq!(pos.pivot, 2);
}

#[test]
fn packed_class_weight_round_trip() {
    let code: u32 = 12345;
    let packed = code.weight(9);
    let (back, w) = <u32 as Weightable>::unweight(&packed);
    assert_eq!(back, code);
    assert_eq!(w, 9);
}

#[test]
fn dense_class_round_trip() {
    let packed = <DenseClass as Weighted<u32>>::new(&200, 77);
    assert_eq!(packed.unweight(), (200, 77));
    let plain = <PlainWeighted as Weighted<u32>>::new(&12_000_000, 3);
    assert_eq!(plain.unweight(), (12_000_000, 3));
}

#[test]
fn integer_roots_and_logs() {
    assert_eq!(isqrt(0), 0);
    assert_eq!(isqrt(1), 1);
    assert_eq!(isqrt(15), 3);
    assert_eq!(isqrt(16), 4);
    assert_eq!(isqrt(65535), 255);
    assert_eq!(log2_floor(1), 0);
    assert_eq!(log2_floor(2), 1);
    assert_eq!(log2_floor(3), 1);
    assert_eq!(log2_floor(1024), 10);
    assert_eq!(log2_floor(1023), 9);
}

#[test]
fn max_features_resolution() {
    assert_eq!(resolve_max_features(NumFeatures::SQRT, 16), 4);
    assert_eq!(resolve_max_features(NumFeatures::LOG, 16), 4);
    assert_eq!(resolve_max_features(NumFeatures::NUMBER(3), 10), 3);
    assert_eq!(resolve_max_features(NumFeatures::NUMBER(usize::MAX), 10), 10);
}

#[test]
fn builders_update_their_fields() {
    let conf = rf::Classifier::default_config()
        .with_max_depth(15)
        .with_trees(40)
        .with_threads(4)
        .with_seed(42)
        .with_min_samples_split(3)
        .with_min_samples_leaf(2);
    assert_eq!(conf.train_config.max_depth, 15);
    assert_eq!(conf.train_config.seed, 42);
    assert_eq!(conf.train_config.metric, Metric::GINI);
    assert_eq!(conf.train_config.min_samples_split, 3);
    assert_eq!(conf.train_config.min_samples_leaf, 2);
    assert_eq!(
        conf.ensemble_config,
        EnsembleConfig { num_trees: 40, num_threads: 4 }
    );
    let rconf = dt::Regressor::default_config().with_mse().with_max_features(NumFeatures::LOG);
    assert_eq!(rconf.config.metric, Metric::MSE);
    assert_eq!(rconf.config.max_features, NumFeatures::LOG);
    let cconf = dt::Classifier::default_config().with_gini();
    assert_eq!(cconf.config.metric, Metric::GINI);
}
