//! Weighted training targets.
//!
//! During training every target carries a bootstrap weight. For classifiers
//! the class code and its weight share one `u32` word (the weight in the low
//! four bits), which keeps the per-feature sort buffers small; for regressors
//! the target and weight stay a plain pair. Both layouts sit behind the
//! `Weightable` trait, so the training space does not care which is used.
use vstd::prelude::*;

verus! {

/// A bootstrap multiplicity. Zero means "left out of this tree".
pub type SampleWeight = u32;

/// How many low bits of a packed classifier target hold the weight.
pub const WEIGHT_BITS: usize = 4;

/// Largest weight a packed classifier target can carry.
pub const WEIGHT_MASK: u32 = 15;

/// A target that can be bundled with a sample weight and recovered exactly.
pub trait Weightable: Sized {
    /// The bundled representation.
    type Weighted: Copy;

    /// Targets small enough to share a word with a weight.
    spec fn fits(&self) -> bool;

    /// The target a bundled value decodes to.
    spec fn target_of(w: Self::Weighted) -> Self;

    /// The weight a bundled value decodes to.
    spec fn weight_of(w: Self::Weighted) -> SampleWeight;

    /// Bundles this target with `weight`.
    fn weight(&self, weight: SampleWeight) -> (r: Self::Weighted)
        requires
            self.fits(),
            weight <= WEIGHT_MASK,
        ensures
            Self::target_of(r) == *self,
            Self::weight_of(r) == weight,
    ;

    /// Recovers the target and the weight.
    fn unweight(weighted: &Self::Weighted) -> (r: (Self, SampleWeight))
        ensures
            r.0 == Self::target_of(*weighted),
            r.1 == Self::weight_of(*weighted),
    ;
}

/// Class codes pack into one word: code in the high bits, weight in the low
/// four.
impl Weightable for u32 {
    type Weighted = u32;

    open spec fn fits(&self) -> bool {
        *self < 0x1000_0000
    }

    open spec fn target_of(w: u32) -> u32 {
        w / 16
    }

    open spec fn weight_of(w: u32) -> SampleWeight {
        w % 16
    }

    fn weight(&self, weight: SampleWeight) -> (r: u32) {
        *self * 16 + weight
    }

    fn unweight(weighted: &u32) -> (r: (u32, SampleWeight)) {
        (*weighted / 16, *weighted % 16)
    }
}

/// A fixed-point regression target beside its weight.
#[derive(Clone, Copy, Debug, PartialEq, Eq, Structural)]
pub struct WeightedTarget {
    /// The fixed-point target value.
    pub target: i64,
    /// The bootstrap weight.
    pub weight: SampleWeight,
}

/// Fixed-point regression targets keep an explicit pair.
impl Weightable for i64 {
    type Weighted = WeightedTarget;

    open spec fn fits(&self) -> bool {
        true
    }

    open spec fn target_of(w: WeightedTarget) -> i64 {
        w.target
    }

    open spec fn weight_of(w: WeightedTarget) -> SampleWeight {
        w.weight
    }

    fn weight(&self, weight: SampleWeight) -> (r: WeightedTarget) {
        WeightedTarget { target: *self, weight }
    }

    fn unweight(weighted: &WeightedTarget) -> (r: (i64, SampleWeight)) {
        (weighted.target, weighted.weight)
    }
}

} // verus!
