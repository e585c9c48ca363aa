//! Random forests and single decision trees for dense numeric tabular data.
//!
//! Feature values are order-preserving integer keys: callers map each `f32`
//! to a `u32` so that the usual order of the floats is the order of the keys
//! (flip the sign bit of a non-negative float's bits, complement a negative
//! one's). The training and prediction logic only ever compares feature
//! values, so this keeps every algorithm in plain integers, where each step
//! can be specified and proved exactly.
//!
//! Classifiers take `i64` labels and use the Gini index; regressors take
//! fixed-point integer targets (any scale the caller picks) and use the MSE
//! criterion. Split scores are compared with exact rational arithmetic.
use vstd::prelude::*;

mod rng;
mod sorting;
pub mod classes_mapping;
pub mod classifier_model;
pub mod config;
pub mod config_builders;
pub mod counting;
pub mod dataset;
pub mod decision_tree;
pub mod dt;
pub mod ensemble_classifier;
pub mod ensemble_regressor;
pub mod ensemble_trainer;
pub mod labels;
pub mod metrics;
pub mod prelude;
pub mod ratio;
pub mod reg_trainer;
pub mod regressor_model;
pub mod rf;
pub mod splitter;
pub mod trainer;
pub mod trainset;
pub mod tree_classifier;
pub mod tree_regressor;
pub mod weightable;

use crate::classes_mapping::{ClassDecode, ClassesMapping};

verus! {

/// The first index at which `s` takes its maximum.
pub open spec fn first_max(s: Seq<u64>) -> int
    decreases s.len(),
{
    if s.len() <= 1 {
        0
    } else {
        let m = first_max(s.drop_last());
        if s.last() > s[m] {
            s.len() - 1
        } else {
            m
        }
    }
}

/// `first_max` names an index of the maximum, and the earliest one.
pub proof fn lemma_first_max(s: Seq<u64>)
    requires
        s.len() >= 1,
    ensures
        0 <= first_max(s) < s.len(),
        forall|k: int| 0 <= k < s.len() ==> #[trigger] s[k] <= s[first_max(s)],
        forall|k: int| 0 <= k < first_max(s) ==> #[trigger] s[k] < s[first_max(s)],
    decreases s.len(),
{
    if s.len() > 1 {
        lemma_first_max(s.drop_last());
        assert(forall|k: int| 0 <= k < s.len() - 1 ==> s[k] == s.drop_last()[k]);
    }
}

/// First index of the maximum of `v[lo..hi]`, relative to `lo`.
fn argmax_range(v: &Vec<u64>, lo: usize, hi: usize) -> (r: usize)
    requires
        lo < hi <= v@.len(),
    ensures
        lo <= r < hi,
        r - lo == first_max(v@.subrange(lo as int, hi as int)),
{
    let ghost sub = v@.subrange(lo as int, hi as int);
    let mut best: usize = lo;
    let mut k: usize = lo + 1;
    proof {
        assert(sub.take(1) =~= seq![v@[lo as int]]);
        assert(first_max(sub.take(1)) == 0);
    }
    while k < hi
        invariant
            lo < hi <= v@.len(),
            sub == v@.subrange(lo as int, hi as int),
            lo <= best < k <= hi,
            best - lo == first_max(sub.take(k - lo)),
        decreases hi - k,
    {
        proof {
            assert(sub.take(k - lo + 1).drop_last() =~= sub.take(k - lo));
            assert(sub.take(k - lo + 1).last() == v@[k as int]);
        }
        if v[k] > v[best] {
            best = k;
        }
        k = k + 1;
    }
    proof {
        assert(sub.take(hi - lo) =~= sub);
    }
    best
}

/// Decodes each length-`num_classes` chunk of a fixed-point probability
/// table into the label of its first-maximal class.
pub fn classify(proba: &Vec<u64>, mapping: &ClassesMapping) -> (r: Vec<i64>)
    requires
        mapping.wf(),
        mapping.table().len() >= 1,
        proba@.len() as int % mapping.table().len() as int == 0,
    ensures
        r@.len() == proba@.len() as int / mapping.table().len() as int,
        forall|i: int|
            0 <= i < r@.len() ==> #[trigger] r@[i] == mapping.table()[first_max(
                crate::classifier_model::chunk_of(proba@, i, mapping.table().len() as int),
            )],
{
    let kk = mapping.num_classes();
    let total = proba.len();
    let chunks = total / kk;
    proof {
        vstd::arithmetic::div_mod::lemma_fundamental_div_mod(total as int, kk as int);
    }
    let mut r: Vec<i64> = Vec::new();
    let mut i: usize = 0;
    while i < chunks
        invariant
            mapping.wf(),
            kk == mapping.table().len() >= 1,
            total == proba@.len(),
            total == chunks * kk,
            i <= chunks,
            r@.len() == i,
            forall|j: int|
                0 <= j < i ==> #[trigger] r@[j] == mapping.table()[first_max(
                    crate::classifier_model::chunk_of(proba@, j, kk as int),
                )],
        decreases chunks - i,
    {
        proof {
            assert(0 <= i * kk && i * kk + kk == (i + 1) * kk && (i + 1) * kk <= chunks * kk) by (
            nonlinear_arith)
                requires
                    0 <= i < chunks,
                    kk >= 1,
            {}
        }
        let lo = i * kk;
        let hi = lo + kk;
        let am = argmax_range(proba, lo, hi);
        let code = am - lo;
        proof {
            lemma_first_max(proba@.subrange(lo as int, hi as int));
        }
        let label = mapping.decode(code);
        r.push(label);
        i = i + 1;
    }
    r
}

} // verus!
