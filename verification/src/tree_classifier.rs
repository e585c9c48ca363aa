//! The single-tree classifier.
//!
//! `fit` maps the `i64` labels to dense codes, transposes the feature
//! matrix, trains one Gini tree over the whole sample set with weight one
//! per sample, and keeps the class mapping beside the tree. Prediction
//! decodes the first-maximal class of the reached leaf's distribution.
use vstd::prelude::*;

use crate::classes_mapping::{strictly_sorted, ClassDecode, ClassesMapping};
use crate::classifier_model::{chunk_of, ClassifierModel};
use crate::classify;
use crate::config::{Metric, NumFeatures, TrainConfig};
use crate::config_builders::{ClassifierConfigBuilder, CommonConfigBuilder, TrainConfigProvider};
use crate::dataset::Dataset;
use crate::decision_tree::lemma_decide_below;
use crate::first_max;
use crate::splitter::SPLIT_LEN_LIMIT;
use crate::trainer::{chunk_sum, chunks_ok, PROBA_SCALE};
use crate::trainset::TrainSpace;

verus! {

/// A training configuration for a tree classifier.
#[derive(Clone, Copy, Debug, PartialEq, Eq, Structural)]
pub struct ClassifierConfig {
    /// The tree-training options.
    pub config: TrainConfig,
}

impl TrainConfigProvider for ClassifierConfig {
    open spec fn spec_train_config(&self) -> TrainConfig {
        self.config
    }

    open spec fn spec_with_train_config(&self, c: TrainConfig) -> Self {
        ClassifierConfig { config: c }
    }

    fn train_config(&self) -> (c: &TrainConfig) {
        &self.config
    }

    fn with_train_config(self, c: TrainConfig) -> (r: Self) {
        ClassifierConfig { config: c }
    }
}

impl CommonConfigBuilder for ClassifierConfig {

}

impl ClassifierConfigBuilder for ClassifierConfig {

}

/// A classifier tree.
#[derive(Clone)]
pub struct Classifier {
    classifier: ClassifierModel,
    classes_map: ClassesMapping,
}

impl Classifier {
    /// The trained tree model.
    pub closed spec fn spec_model(&self) -> ClassifierModel {
        self.classifier
    }

    /// The label table.
    pub closed spec fn spec_labels(&self) -> Seq<i64> {
        self.classes_map.table()
    }

    /// The feature count predictions expect.
    pub open spec fn spec_num_features(&self) -> int {
        self.spec_model().spec_num_features()
    }

    /// A trained classifier: a sound model beside a sorted label table of
    /// the model's class count.
    pub open spec fn wf(&self) -> bool {
        &&& self.spec_model().wf()
        &&& strictly_sorted(self.spec_labels())
        &&& self.spec_labels().len() == self.spec_model().spec_num_classes()
    }

    /// The label this classifier predicts for a sample: the label of the
    /// first-maximal class of the leaf distribution the sample reaches.
    pub open spec fn spec_predict_label(&self, sample: Seq<u32>) -> i64 {
        self.spec_labels()[first_max(self.spec_model().spec_chunk(sample))]
    }

    /// Training config filled with default values: unlimited depth, all
    /// features, Gini, seed 42.
    pub fn default_config() -> (r: ClassifierConfig)
        ensures
            r.config == (TrainConfig {
                max_depth: usize::MAX,
                max_features: NumFeatures::NUMBER(usize::MAX),
                seed: 42,
                metric: Metric::GINI,
                min_samples_leaf: 1,
                min_samples_split: 2,
            }),
    {
        ClassifierConfig {
            config: TrainConfig {
                max_depth: usize::MAX,
                max_features: NumFeatures::NUMBER(usize::MAX),
                seed: 42,
                metric: Metric::GINI,
                min_samples_leaf: 1,
                min_samples_split: 2,
            },
        }
    }

    /// Trains a classifier tree. The dataset is one row of
    /// `data.len() / labels.len()` feature keys per label, rows laid out
    /// contiguously.
    pub fn fit(data: &Vec<u32>, labels: &Vec<i64>, config: &ClassifierConfig) -> (r: Classifier)
        requires
            1 <= labels@.len() <= SPLIT_LEN_LIMIT,
            data@.len() % labels@.len() == 0,
            1 <= data@.len() / labels@.len() <= 0xFFFF,
            config.config.metric == Metric::GINI,
            1 <= config.config.min_samples_leaf <= SPLIT_LEN_LIMIT,
        ensures
            r.wf(),
            r.spec_num_features() == data@.len() as int / labels@.len() as int,
            forall|v: i64| r.spec_labels().contains(v) <==> labels@.contains(v),
    {
        let n = labels.len();
        let ds = Dataset::with_transposed(data, n);
        let (classes_map, codes) = ClassesMapping::with_encode(labels);
        let kk = classes_map.num_classes();
        proof {
            assert(labels@.contains(labels@[0]));
            assert(classes_map.table().contains(labels@[0]));
            assert(kk >= 1);
            assert forall|k: int| 0 <= k < n implies #[trigger] codes@[k] < kk by {
                assert(classes_map.table()[codes@[k] as int] == labels@[k]);
            }
        }
        let mut samples: Vec<u32> = Vec::new();
        let mut targets: Vec<u32> = Vec::new();
        let mut i: usize = 0;
        while i < n
            invariant
                n == labels@.len() <= SPLIT_LEN_LIMIT,
                codes@.len() == n,
                forall|k: int| 0 <= k < n ==> #[trigger] codes@[k] < kk,
                kk <= n,
                i <= n,
                samples@.len() == i,
                targets@.len() == i,
                forall|k: int| 0 <= k < i ==> #[trigger] samples@[k] == k,
                forall|k: int|
                    0 <= k < i ==> 1 <= (#[trigger] targets@[k]) % 16 <= 15 && targets@[k] / 16
                        < kk,
            decreases n - i,
        {
            samples.push(i as u32);
            let code = codes[i];
            let packed = code * 16 + 1;
            proof {
                assert(packed % 16 == 1 && packed / 16 == code) by (nonlinear_arith)
                    requires
                        packed == code * 16 + 1,
                        code >= 0,
                {}
            }
            targets.push(packed);
            i = i + 1;
        }
        let mut space = TrainSpace { samples, targets };
        let model = ClassifierModel::train(&ds, &mut space, kk, &config.config);
        Classifier { classifier: model, classes_map }
    }

    /// Predicts the labels of a row-major matrix of samples, one per row.
    pub fn predict(&self, dataset: &Vec<u32>) -> (r: Vec<i64>)
        requires
            self.wf(),
            dataset@.len() as int % self.spec_num_features() == 0,
            (dataset@.len() as int / self.spec_num_features()) * self.spec_model().spec_num_classes()
                <= usize::MAX,
        ensures
            r@.len() == dataset@.len() as int / self.spec_num_features(),
            forall|i: int|
                0 <= i < r@.len() ==> #[trigger] r@[i] == self.spec_predict_label(
                    dataset@.subrange(
                        i * self.spec_num_features(),
                        (i + 1) * self.spec_num_features(),
                    ),
                ),
    {
        let ff = self.classifier.num_features();
        let kk = self.classifier.num_classes();
        let rows = dataset.len() / ff;
        proof {
            vstd::arithmetic::div_mod::lemma_fundamental_div_mod(
                dataset@.len() as int,
                ff as int,
            );
            assert(dataset@.len() as int == (rows as int) * (ff as int)) by (nonlinear_arith)
                requires
                    dataset@.len() as int == (ff as int) * (rows as int),
            {}
        }
        let proba = self.classifier.predict(dataset, rows);
        proof {
            vstd::arithmetic::div_mod::lemma_mod_multiples_basic(rows as int, kk as int);
            vstd::arithmetic::div_mod::lemma_div_multiples_vanish(rows as int, kk as int);
            assert(proba@.len() as int == (rows as int) * (kk as int) && proba@.len() as int == (
            kk as int) * (rows as int)) by (nonlinear_arith)
                requires
                    proba@.len() == rows * kk,
            {}
            assert(proba@.len() as int % (kk as int) == 0);
            assert(proba@.len() as int / (kk as int) == rows);
        }
        let labels = classify(&proba, &self.classes_map);
        proof {
            assert forall|i: int|
                0 <= i < labels@.len() implies #[trigger] labels@[i] == self.spec_predict_label(
                dataset@.subrange(i * ff as int, (i + 1) * ff as int),
            ) by {
                assert(chunk_of(proba@, i, kk as int) == self.spec_model().spec_chunk(
                    dataset@.subrange(i * ff as int, (i + 1) * ff as int),
                ));
            }
        }
        labels
    }

    /// Predicts the label of a single sample of `num_features()` keys.
    pub fn predict_one(&self, sample: &Vec<u32>) -> (r: i64)
        requires
            self.wf(),
            sample@.len() == self.spec_num_features(),
        ensures
            r == self.spec_predict_label(sample@),
    {
        let chunk = self.classifier.predict_one(sample);
        let labels = classify(&chunk, &self.classes_map);
        proof {
            let kk = self.spec_model().spec_num_classes();
            vstd::arithmetic::div_mod::lemma_mod_multiples_basic(1, kk);
            vstd::arithmetic::div_mod::lemma_div_multiples_vanish(1, kk);
            assert(chunk_of(chunk@, 0, kk) =~= chunk@);
        }
        labels[0]
    }

    /// Predicts the fixed-point class distribution of every row:
    /// `num_classes()` values per row that sum to one fixed-point unit, up
    /// to one rounding step per class.
    pub fn proba(&self, dataset: &Vec<u32>) -> (r: Vec<u64>)
        requires
            self.wf(),
            dataset@.len() as int % self.spec_num_features() == 0,
            (dataset@.len() as int / self.spec_num_features()) * self.spec_model().spec_num_classes()
                <= usize::MAX,
        ensures
            ({
                let kk = self.spec_model().spec_num_classes();
                let rows = dataset@.len() as int / self.spec_num_features();
                &&& r@.len() == rows * kk
                &&& forall|i: int|
                    0 <= i < rows ==> #[trigger] chunk_of(r@, i, kk)
                        == self.spec_model().spec_chunk(
                        dataset@.subrange(
                            i * self.spec_num_features(),
                            (i + 1) * self.spec_num_features(),
                        ),
                    )
                &&& forall|i: int|
                    0 <= i < rows ==> PROBA_SCALE - kk <= #[trigger] chunk_sum(r@, i, kk)
                        <= PROBA_SCALE
            }),
    {
        let ff = self.classifier.num_features();
        let kk = self.classifier.num_classes();
        let rows = dataset.len() / ff;
        proof {
            vstd::arithmetic::div_mod::lemma_fundamental_div_mod(
                dataset@.len() as int,
                ff as int,
            );
            assert(dataset@.len() as int == (rows as int) * (ff as int)) by (nonlinear_arith)
                requires
                    dataset@.len() as int == (ff as int) * (rows as int),
            {}
        }
        let r = self.classifier.predict(dataset, rows);
        proof {
            let plen = self.spec_model().spec_proba().len() as int;
            assert forall|i: int|
                0 <= i < rows implies PROBA_SCALE - kk <= #[trigger] chunk_sum(r@, i, kk as int)
                <= PROBA_SCALE by {
                let row = dataset@.subrange(i * ff as int, (i + 1) * ff as int);
                let leaf = crate::decision_tree::spec_decide(
                    self.spec_model().spec_tree().spec_nodes(),
                    row,
                    0,
                ) as int;
                assert(plen / (kk as int) >= 1) by (nonlinear_arith)
                    requires
                        plen >= kk,
                        kk >= 1,
                {}
                lemma_decide_below(
                    self.spec_model().spec_tree().spec_nodes(),
                    row,
                    0,
                    plen / (kk as int),
                );
                assert(chunk_of(r@, i, kk as int) == chunk_of(
                    self.spec_model().spec_proba(),
                    leaf,
                    kk as int,
                ));
                assert(chunk_sum(r@, i, kk as int) == chunk_sum(
                    self.spec_model().spec_proba(),
                    leaf,
                    kk as int,
                ));
                assert(chunks_ok(self.spec_model().spec_proba(), kk as int));
            }
        }
        r
    }

    /// The feature count predictions expect.
    pub fn num_features(&self) -> (n: usize)
        ensures
            n == self.spec_num_features(),
    {
        self.classifier.num_features()
    }
}

impl ClassDecode for Classifier {
    open spec fn spec_table(&self) -> Seq<i64> {
        self.spec_labels()
    }

    fn get_decode_table(&self) -> (r: &Vec<i64>) {
        self.classes_map.get_decode_table()
    }
}

} // verus!
