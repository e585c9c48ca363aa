//! Column-major storage of the feature matrix.
//!
//! Training reads all values of one feature at a time, so the user's
//! row-major layout is transposed once at fit time. Feature values are the
//! order-preserving `u32` keys described at the crate root.
use vstd::prelude::*;

verus! {

/// A feature matrix of `size()` samples times `num_features()` features,
/// stored column-major: all values of feature `f` are contiguous.
#[derive(Clone, Debug)]
pub struct Dataset {
    data: Vec<u32>,
    num_features: usize,
    size: usize,
}

impl Dataset {
    /// The number of features (columns).
    pub closed spec fn spec_num_features(&self) -> int {
        self.num_features as int
    }

    /// The number of samples (rows).
    pub closed spec fn spec_size(&self) -> int {
        self.size as int
    }

    /// The value of feature `feature` for sample `sample`.
    pub closed spec fn spec_val(&self, sample: int, feature: int) -> u32 {
        self.data@[self.size * feature + sample]
    }

    /// Storage really holds `size * num_features` values.
    pub closed spec fn wf(&self) -> bool {
        self.data@.len() == self.size * self.num_features
    }

    /// Builds the column-major matrix from a row-major slice of
    /// `num_samples` rows laid out contiguously.
    pub fn with_transposed(data: &Vec<u32>, num_samples: usize) -> (r: Dataset)
        requires
            num_samples > 0,
            data.len() % num_samples == 0,
        ensures
            r.wf(),
            r.spec_size() == num_samples,
            r.spec_num_features() == data.len() as int / num_samples as int,
            forall|s: int, f: int|
                0 <= s < r.spec_size() && 0 <= f < r.spec_num_features() ==> r.spec_val(s, f)
                    == data@[s * r.spec_num_features() + f],
    {
        let num_features = data.len() / num_samples;
        proof {
            assert(num_samples * num_features == data.len()) by (nonlinear_arith)
                requires
                    num_samples > 0,
                    data.len() % num_samples == 0,
                    num_features == data.len() as int / num_samples as int,
            {}
        }
        let mut transposed: Vec<u32> = Vec::new();
        let mut f: usize = 0;
        while f < num_features
            invariant
                f <= num_features,
                num_samples * num_features == data.len(),
                transposed@.len() == num_samples * f,
                forall|s: int, g: int|
                    0 <= s < num_samples && 0 <= g < f ==> #[trigger] transposed@[num_samples * g
                        + s] == data@[s * num_features + g],
            decreases num_features - f,
        {
            let mut s: usize = 0;
            while s < num_samples
                invariant
                    s <= num_samples,
                    f < num_features,
                    num_samples * num_features == data.len(),
                    transposed@.len() == num_samples * f + s,
                    forall|t: int, g: int|
                        0 <= t < num_samples && 0 <= g < f ==> #[trigger] transposed@[num_samples
                            * g + t] == data@[t * num_features + g],
                    forall|t: int|
                        0 <= t < s ==> #[trigger] transposed@[num_samples * (f as int) + t]
                            == data@[t * num_features + f],
                decreases num_samples - s,
            {
                proof {
                    assert(s * num_features + f < data@.len()) by (nonlinear_arith)
                        requires
                            s < num_samples,
                            f < num_features,
                            num_samples * num_features == data@.len(),
                    {}
                }
                let ghost pre = transposed@;
                transposed.push(data[s * num_features + f]);
                proof {
                    assert(transposed@.len() == pre.len() + 1);
                    assert forall|t: int, g: int|
                        0 <= t < num_samples && 0 <= g < f implies #[trigger] transposed@[
                        num_samples * g + t] == data@[t * num_features + g] by {
                        assert(0 <= num_samples * g + t < num_samples * (f as int)) by (
                        nonlinear_arith)
                            requires
                                0 <= t < num_samples,
                                0 <= g < f,
                        {}
                        assert(transposed@[num_samples * g + t] == pre[num_samples * g + t]);
                    }
                    assert forall|t: int|
                        0 <= t < s + 1 implies #[trigger] transposed@[num_samples * (f as int) + t]
                        == data@[t * num_features + f] by {
                        if t < s {
                            assert(transposed@[num_samples * (f as int) + t] == pre[num_samples * (
                            f as int) + t]);
                        } else {
                            assert(num_samples * (f as int) + t == pre.len());
                        }
                    }
                }
                s = s + 1;
            }
            proof {
                assert(num_samples * (f + 1) == num_samples * f + num_samples) by (nonlinear_arith)
                {}
            }
            f = f + 1;
        }
        Dataset { data: transposed, num_features, size: num_samples }
    }

    /// The number of features (columns).
    pub fn num_features(&self) -> (n: usize)
        ensures
            n == self.spec_num_features(),
    {
        self.num_features
    }

    /// The number of samples (rows).
    pub fn size(&self) -> (n: usize)
        ensures
            n == self.spec_size(),
    {
        self.size
    }

    /// Reads feature `feature` of sample `sample` in one step.
    pub fn feature_val(&self, sample: usize, feature: usize) -> (v: u32)
        requires
            self.wf(),
            sample < self.spec_size(),
            feature < self.spec_num_features(),
        ensures
            v == self.spec_val(sample as int, feature as int),
    {
        let len = self.data.len();
        proof {
            assert(self.size * feature + sample < self.data@.len()) by (nonlinear_arith)
                requires
                    sample < self.size,
                    feature < self.num_features,
                    self.data@.len() == self.size * self.num_features,
            {}
            assert(self.data@.len() == len);
        }
        self.data[self.size * feature + sample]
    }
}

} // verus!
