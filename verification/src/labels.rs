//! Packed weighted class labels.
//!
//! During the per-feature sort a class code and its weight can share one
//! `u32` word. `DenseClass` keeps the code in the low eight bits — enough
//! for 255 classes — and the weight above; the pair form is the unpacked
//! fallback when the class count does not fit.
use vstd::prelude::*;

use crate::weightable::SampleWeight;

verus! {

/// A dense class code.
pub type ClassTarget = u32;

/// A class code packed beside its weight, the code in the low eight bits.
#[derive(Clone, Copy, Debug, PartialEq, Eq, Structural)]
pub struct DenseClass {
    /// The packed word: weight above, class code in the low eight bits.
    pub data: u32,
}

/// A weighted target that can be built from a target and a weight and
/// taken apart again.
pub trait Weighted<T>: Copy + Sized {
    /// Pairs that this representation can hold exactly.
    spec fn accepts(t: T, w: SampleWeight) -> bool;

    /// The target a value decodes to.
    spec fn target_of(&self) -> T;

    /// The weight a value decodes to.
    spec fn weight_of(&self) -> SampleWeight;

    /// Bundles a target with a weight.
    fn new(t: &T, w: SampleWeight) -> (r: Self)
        requires
            Self::accepts(*t, w),
        ensures
            r.target_of() == *t,
            r.weight_of() == w,
    ;

    /// Recovers the target and the weight.
    fn unweight(&self) -> (r: (T, SampleWeight))
        ensures
            r.0 == self.target_of(),
            r.1 == self.weight_of(),
    ;
}

/// The unpacked fallback: a class code beside its weight as plain fields.
#[derive(Clone, Copy, Debug, PartialEq, Eq, Structural)]
pub struct PlainWeighted {
    /// The class code.
    pub target: ClassTarget,
    /// The weight.
    pub weight: SampleWeight,
}

impl Weighted<ClassTarget> for PlainWeighted {
    open spec fn accepts(t: ClassTarget, w: SampleWeight) -> bool {
        true
    }

    open spec fn target_of(&self) -> ClassTarget {
        self.target
    }

    open spec fn weight_of(&self) -> SampleWeight {
        self.weight
    }

    fn new(t: &ClassTarget, w: SampleWeight) -> (r: PlainWeighted) {
        PlainWeighted { target: *t, weight: w }
    }

    fn unweight(&self) -> (r: (ClassTarget, SampleWeight)) {
        (self.target, self.weight)
    }
}

impl Weighted<ClassTarget> for DenseClass {
    open spec fn accepts(t: ClassTarget, w: SampleWeight) -> bool {
        t < 0x100 && w < 0x100_0000
    }

    open spec fn target_of(&self) -> ClassTarget {
        self.data % 0x100
    }

    open spec fn weight_of(&self) -> SampleWeight {
        self.data / 0x100
    }

    fn new(t: &ClassTarget, w: SampleWeight) -> (r: DenseClass) {
        proof {
            assert(w * 0x100 + *t < 0x1_0000_0000 && (w * 0x100 + *t) % 0x100 == *t && (w * 0x100
                + *t) / 0x100 == w) by (nonlinear_arith)
                requires
                    *t < 0x100,
                    w < 0x100_0000,
            {}
        }
        DenseClass { data: w * 0x100 + *t }
    }

    fn unweight(&self) -> (r: (ClassTarget, SampleWeight)) {
        (self.data % 0x100, self.data / 0x100)
    }
}

} // verus!
