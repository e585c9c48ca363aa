//! Incremental impurity statistics.
//!
//! The Gini accumulator keeps per-class weight bins, their total and the sum
//! of squared bins, all exact integers. The MSE accumulator keeps the
//! weighted count, weighted sum and weighted sum of squares of fixed-point
//! targets. Both support `push`/`pop` of weighted items, and both decide
//! purity exactly; split scores are compared elsewhere with exact rational
//! arithmetic, so no statistic is ever rounded.
use vstd::prelude::*;

verus! {

/// Sum of a sequence of integers.
pub open spec fn sum_of(s: Seq<int>) -> int
    decreases s.len(),
{
    if s.len() == 0 {
        0
    } else {
        sum_of(s.drop_last()) + s.last()
    }
}

/// Sum of the squares of a sequence of integers.
pub open spec fn sum_sq_of(s: Seq<int>) -> int
    decreases s.len(),
{
    if s.len() == 0 {
        0
    } else {
        sum_sq_of(s.drop_last()) + s.last() * s.last()
    }
}

/// Updating one entry moves the sum by the difference.
pub proof fn lemma_sum_update(s: Seq<int>, i: int, v: int)
    requires
        0 <= i < s.len(),
    ensures
        sum_of(s.update(i, v)) == sum_of(s) - s[i] + v,
    decreases s.len(),
{
    if i == s.len() - 1 {
        assert(s.update(i, v).drop_last() =~= s.drop_last());
    } else {
        lemma_sum_update(s.drop_last(), i, v);
        assert(s.update(i, v).drop_last() =~= s.drop_last().update(i, v));
        assert(s.update(i, v).last() == s.last());
    }
}

/// Updating one entry moves the sum of squares by the difference of squares.
pub proof fn lemma_sum_sq_update(s: Seq<int>, i: int, v: int)
    requires
        0 <= i < s.len(),
    ensures
        sum_sq_of(s.update(i, v)) == sum_sq_of(s) - s[i] * s[i] + v * v,
    decreases s.len(),
{
    if i == s.len() - 1 {
        assert(s.update(i, v).drop_last() =~= s.drop_last());
    } else {
        lemma_sum_sq_update(s.drop_last(), i, v);
        assert(s.update(i, v).drop_last() =~= s.drop_last().update(i, v));
        assert(s.update(i, v).last() == s.last());
    }
}

/// For nonnegative entries, each entry is bounded by the sum, and each
/// square by the sum of squares.
pub proof fn lemma_sum_bounds(s: Seq<int>, i: int)
    requires
        forall|j: int| 0 <= j < s.len() ==> s[j] >= 0,
        0 <= i < s.len(),
    ensures
        0 <= s[i] <= sum_of(s),
        s[i] * s[i] <= sum_sq_of(s),
        sum_of(s) >= 0,
        sum_sq_of(s) >= 0,
    decreases s.len(),
{
    lemma_sums_nonneg(s.drop_last());
    if i == s.len() - 1 {
    } else {
        lemma_sum_bounds(s.drop_last(), i);
        assert(s.last() * s.last() >= 0) by (nonlinear_arith);
    }
}

/// Sums of nonnegative entries are nonnegative.
pub proof fn lemma_sums_nonneg(s: Seq<int>)
    requires
        forall|j: int| 0 <= j < s.len() ==> s[j] >= 0,
    ensures
        sum_of(s) >= 0,
        sum_sq_of(s) >= 0,
    decreases s.len(),
{
    if s.len() > 0 {
        lemma_sums_nonneg(s.drop_last());
        assert(s.last() * s.last() >= 0) by (nonlinear_arith);
    }
}

/// For nonnegative entries the sum of squares never exceeds the squared sum.
pub proof fn lemma_sum_sq_le_sq_sum(s: Seq<int>)
    requires
        forall|j: int| 0 <= j < s.len() ==> s[j] >= 0,
    ensures
        sum_sq_of(s) <= sum_of(s) * sum_of(s),
    decreases s.len(),
{
    if s.len() > 0 {
        lemma_sum_sq_le_sq_sum(s.drop_last());
        lemma_sums_nonneg(s.drop_last());
        let t = sum_of(s.drop_last());
        let x = s.last();
        assert(sum_sq_of(s.drop_last()) + x * x <= (t + x) * (t + x)) by (nonlinear_arith)
            requires
                sum_sq_of(s.drop_last()) <= t * t,
                t >= 0,
                x >= 0,
        {}
    }
}

/// Gini impurity statistics of a weighted multiset of class codes.
#[derive(Debug)]
pub struct Gini {
    bins: Vec<u64>,
    num_items: u64,
    sum_squares: u64,
}

impl Gini {
    /// Per-class accumulated weights.
    pub closed spec fn spec_bins(&self) -> Seq<int> {
        self.bins@.map(|i: int, x: u64| x as int)
    }

    /// Total accumulated weight.
    pub closed spec fn spec_total(&self) -> int {
        self.num_items as int
    }

    /// Sum of squared bin weights.
    pub closed spec fn spec_sum_squares(&self) -> int {
        self.sum_squares as int
    }

    /// The cached total and sum of squares match the bins, and the total
    /// stays small enough for exact 64-bit arithmetic.
    pub open spec fn wf(&self) -> bool {
        &&& self.spec_total() == sum_of(self.spec_bins())
        &&& self.spec_sum_squares() == sum_sq_of(self.spec_bins())
        &&& self.spec_total() <= u32::MAX
    }

    /// All bins are nonnegative (they are unsigned counters).
    pub proof fn lemma_bins_nonneg(&self)
        ensures
            forall|j: int| 0 <= j < self.spec_bins().len() ==> self.spec_bins()[j] >= 0,
    {
    }

    /// An empty accumulator with one bin per class.
    pub fn with_classes(num_classes: usize) -> (r: Gini)
        ensures
            r.wf(),
            r.spec_bins().len() == num_classes,
            forall|j: int| 0 <= j < num_classes ==> r.spec_bins()[j] == 0,
            r.spec_total() == 0,
            r.spec_sum_squares() == 0,
    {
        let mut bins: Vec<u64> = Vec::new();
        let mut i: usize = 0;
        while i < num_classes
            invariant
                i <= num_classes,
                bins@.len() == i,
                forall|j: int| 0 <= j < i ==> bins@[j] == 0,
            decreases num_classes - i,
        {
            bins.push(0);
            i = i + 1;
        }
        let r = Gini { bins, num_items: 0, sum_squares: 0 };
        proof {
            lemma_zero_sums(r.spec_bins());
        }
        r
    }

    /// Adds `weight` units of class `bin_index`.
    pub fn push(&mut self, bin_index: u32, weight: u32)
        requires
            old(self).wf(),
            bin_index < old(self).spec_bins().len(),
            old(self).spec_total() + weight <= u32::MAX,
        ensures
            final(self).wf(),
            final(self).spec_bins() == old(self).spec_bins().update(
                bin_index as int,
                old(self).spec_bins()[bin_index as int] + weight,
            ),
            final(self).spec_total() == old(self).spec_total() + weight,
    {
        let idx = bin_index as usize;
        let b = self.bins[idx];
        let w = weight as u64;
        proof {
            self.lemma_bins_nonneg();
            lemma_sum_bounds(self.spec_bins(), idx as int);
            let nb = self.spec_bins().update(idx as int, b + w);
            lemma_sum_update(self.spec_bins(), idx as int, b + w);
            lemma_sum_sq_update(self.spec_bins(), idx as int, b + w);
            assert(forall|j: int| 0 <= j < nb.len() ==> nb[j] >= 0);
            lemma_sum_sq_le_sq_sum(nb);
            assert((b + w) * (b + w) - b * b == w * (2 * b + w)) by (nonlinear_arith);
            assert(sum_of(nb) * sum_of(nb) < 0x1_0000_0000_0000_0000) by (nonlinear_arith)
                requires
                    0 <= sum_of(nb) <= u32::MAX,
            {}
            lemma_sums_nonneg(nb);
        }
        self.sum_squares = self.sum_squares + w * (2 * b + w);
        self.bins.set(idx, b + w);
        self.num_items = self.num_items + w;
        proof {
            assert(self.spec_bins() =~= old(self).spec_bins().update(idx as int, b + w));
        }
    }

    /// Removes `weight` units of class `bin_index`; the exact inverse of
    /// `push`.
    pub fn pop(&mut self, bin_index: u32, weight: u32)
        requires
            old(self).wf(),
            bin_index < old(self).spec_bins().len(),
            weight <= old(self).spec_bins()[bin_index as int],
        ensures
            final(self).wf(),
            final(self).spec_bins() == old(self).spec_bins().update(
                bin_index as int,
                old(self).spec_bins()[bin_index as int] - weight,
            ),
            final(self).spec_total() == old(self).spec_total() - weight,
    {
        let idx = bin_index as usize;
        let b = self.bins[idx];
        let w = weight as u64;
        proof {
            self.lemma_bins_nonneg();
            lemma_sum_bounds(self.spec_bins(), idx as int);
            let nb = self.spec_bins().update(idx as int, b - w);
            lemma_sum_update(self.spec_bins(), idx as int, b - w);
            lemma_sum_sq_update(self.spec_bins(), idx as int, b - w);
            assert(b * b - (b - w) * (b - w) == w * (2 * b - w)) by (nonlinear_arith);
            assert(w * (2 * b - w) <= b * b) by (nonlinear_arith)
                requires
                    0 <= w <= b,
            {}
            assert(forall|j: int| 0 <= j < nb.len() ==> nb[j] >= 0);
            lemma_sums_nonneg(nb);
        }
        self.sum_squares = self.sum_squares - w * (2 * b - w);
        self.bins.set(idx, b - w);
        self.num_items = self.num_items - w;
        proof {
            assert(self.spec_bins() =~= old(self).spec_bins().update(idx as int, b - w));
        }
    }

    /// A range is pure exactly when its sum of squared bins equals the
    /// squared total, i.e. all weight sits in one class.
    pub fn pure(&self) -> (r: bool)
        requires
            self.wf(),
        ensures
            r <==> self.spec_sum_squares() == self.spec_total() * self.spec_total(),
    {
        proof {
            assert(self.num_items * self.num_items < 0x1_0000_0000_0000_0000) by (nonlinear_arith)
                requires
                    self.num_items <= u32::MAX,
            {}
        }
        self.sum_squares == self.num_items * self.num_items
    }

    /// Number of class bins.
    pub fn num_classes(&self) -> (n: usize)
        ensures
            n == self.spec_bins().len(),
    {
        self.bins.len()
    }

    /// Total accumulated weight.
    pub fn total(&self) -> (n: u64)
        ensures
            n == self.spec_total(),
    {
        self.num_items
    }

    /// Sum of squared bin weights.
    pub fn sum_squares(&self) -> (n: u64)
        ensures
            n == self.spec_sum_squares(),
    {
        self.sum_squares
    }

    /// The accumulated weight of one class.
    pub fn bin(&self, idx: usize) -> (n: u64)
        requires
            idx < self.spec_bins().len(),
        ensures
            n == self.spec_bins()[idx as int],
    {
        self.bins[idx]
    }

    /// An exact copy, so the splitter can snapshot the all-in-right state.
    pub fn duplicate(&self) -> (r: Gini)
        ensures
            r.spec_bins() == self.spec_bins(),
            r.spec_total() == self.spec_total(),
            r.spec_sum_squares() == self.spec_sum_squares(),
    {
        let mut bins: Vec<u64> = Vec::new();
        let mut i: usize = 0;
        while i < self.bins.len()
            invariant
                i <= self.bins@.len(),
                bins@.len() == i,
                forall|j: int| 0 <= j < i ==> bins@[j] == self.bins@[j],
            decreases self.bins@.len() - i,
        {
            bins.push(self.bins[i]);
            i = i + 1;
        }
        let r = Gini { bins, num_items: self.num_items, sum_squares: self.sum_squares };
        proof {
            assert(r.spec_bins() =~= self.spec_bins());
        }
        r
    }
}

/// Sums of all-zero bins are zero.
pub proof fn lemma_zero_sums(s: Seq<int>)
    requires
        forall|j: int| 0 <= j < s.len() ==> s[j] == 0,
    ensures
        sum_of(s) == 0,
        sum_sq_of(s) == 0,
    decreases s.len(),
{
    if s.len() > 0 {
        lemma_zero_sums(s.drop_last());
    }
}

/// Builds an impurity accumulator sized for a class count.
pub trait WithClasses: Sized {
    /// How many classes the accumulator distinguishes.
    spec fn spec_num_classes(&self) -> int;

    /// An empty accumulator with `num_classes` classes.
    fn with_classes(num_classes: usize) -> (r: Self)
        ensures
            r.spec_num_classes() == num_classes,
    ;
}

impl WithClasses for Gini {
    open spec fn spec_num_classes(&self) -> int {
        self.spec_bins().len() as int
    }

    fn with_classes(num_classes: usize) -> (r: Gini) {
        Gini::with_classes(num_classes)
    }
}

/// Largest magnitude of a fixed-point regression target the MSE statistics
/// accept.
pub const TARGET_LIMIT: i64 = 0x8000_0000;

/// Largest total weight the MSE statistics accept.
pub const COUNT_LIMIT: u64 = 0x20_0000;

/// MSE impurity statistics of a weighted multiset of fixed-point targets:
/// weighted count, weighted sum and weighted sum of squares, all exact.
#[derive(Debug)]
pub struct Mse {
    num_items: u64,
    weighted_sum: i64,
    weighted_sq_sum: u128,
}

impl Mse {
    /// Total accumulated weight.
    pub closed spec fn spec_total(&self) -> int {
        self.num_items as int
    }

    /// Weighted sum of targets.
    pub closed spec fn spec_sum(&self) -> int {
        self.weighted_sum as int
    }

    /// Weighted sum of squared targets.
    pub closed spec fn spec_sq_sum(&self) -> int {
        self.weighted_sq_sum as int
    }

    /// The statistics stay in the range where 64- and 128-bit arithmetic is
    /// exact.
    pub open spec fn wf(&self) -> bool {
        &&& 0 <= self.spec_total() <= COUNT_LIMIT
        &&& -self.spec_total() * TARGET_LIMIT <= self.spec_sum() <= self.spec_total() * TARGET_LIMIT
        &&& 0 <= self.spec_sq_sum() <= self.spec_total() * TARGET_LIMIT * TARGET_LIMIT
    }

    /// The empty accumulator.
    pub fn new() -> (r: Mse)
        ensures
            r.wf(),
            r.spec_total() == 0,
            r.spec_sum() == 0,
            r.spec_sq_sum() == 0,
    {
        Mse { num_items: 0, weighted_sum: 0, weighted_sq_sum: 0 }
    }

    /// Adds `weight` copies of target `y`.
    pub fn push(&mut self, y: i64, weight: u32)
        requires
            old(self).wf(),
            -TARGET_LIMIT <= y <= TARGET_LIMIT,
            old(self).spec_total() + weight <= COUNT_LIMIT,
        ensures
            final(self).wf(),
            final(self).spec_total() == old(self).spec_total() + weight,
            final(self).spec_sum() == old(self).spec_sum() + weight * y,
            final(self).spec_sq_sum() == old(self).spec_sq_sum() + weight * y * y,
    {
        let w = weight as u64;
        proof {
            lemma_mse_push_bounds(
                old(self).spec_total(),
                old(self).spec_sum(),
                old(self).spec_sq_sum(),
                y as int,
                w as int,
            );
        }
        self.num_items = self.num_items + w;
        self.weighted_sum = self.weighted_sum + (w as i64) * y;
        self.weighted_sq_sum = self.weighted_sq_sum + (w as u128) * ((y as i128 * y as i128)
            as u128);
        proof {
            assert(w * y * y == w * (y * y)) by (nonlinear_arith);
        }
    }

    /// Removes `weight` copies of target `y`; the exact inverse of `push`.
    ///
    /// The bounds ask that what remains is still the statistics of items in
    /// range, which holds whenever the popped items were pushed before.
    pub fn pop(&mut self, y: i64, weight: u32)
        requires
            old(self).wf(),
            -TARGET_LIMIT <= y <= TARGET_LIMIT,
            weight <= old(self).spec_total(),
            -(old(self).spec_total() - weight) * TARGET_LIMIT <= old(self).spec_sum() - weight * y
                <= (old(self).spec_total() - weight) * TARGET_LIMIT,
            0 <= old(self).spec_sq_sum() - weight * y * y <= (old(self).spec_total() - weight)
                * TARGET_LIMIT * TARGET_LIMIT,
        ensures
            final(self).wf(),
            final(self).spec_total() == old(self).spec_total() - weight,
            final(self).spec_sum() == old(self).spec_sum() - weight * y,
            final(self).spec_sq_sum() == old(self).spec_sq_sum() - weight * y * y,
    {
        let w = weight as u64;
        proof {
            assert(weight * y * y == weight * (y * y)) by (nonlinear_arith);
            lemma_mse_pop_bounds(
                old(self).spec_total(),
                old(self).spec_sum(),
                old(self).spec_sq_sum(),
                y as int,
                w as int,
            );
        }
        self.num_items = self.num_items - w;
        self.weighted_sum = self.weighted_sum - (w as i64) * y;
        self.weighted_sq_sum = self.weighted_sq_sum - (w as u128) * ((y as i128 * y as i128)
            as u128);
        proof {
            assert(w * y * y == w * (y * y)) by (nonlinear_arith);
        }
    }

    /// A range is pure exactly when its variance is zero, i.e.
    /// `total * sq_sum == sum * sum`.
    pub fn pure(&self) -> (r: bool)
        requires
            self.wf(),
        ensures
            r <==> self.spec_total() * self.spec_sq_sum() == self.spec_sum() * self.spec_sum(),
    {
        proof {
            lemma_mse_pure_bounds(self.spec_total(), self.spec_sum(), self.spec_sq_sum());
        }
        let lhs = (self.num_items as u128) * self.weighted_sq_sum;
        let s = self.weighted_sum as i128;
        let rhs = (s * s) as u128;
        lhs == rhs
    }

    /// Total accumulated weight.
    pub fn total(&self) -> (n: u64)
        ensures
            n == self.spec_total(),
    {
        self.num_items
    }

    /// Weighted sum of targets.
    pub fn sum(&self) -> (n: i64)
        ensures
            n == self.spec_sum(),
    {
        self.weighted_sum
    }

    /// Weighted sum of squared targets.
    pub fn sq_sum(&self) -> (n: u128)
        ensures
            n == self.spec_sq_sum(),
    {
        self.weighted_sq_sum
    }

    /// An exact copy, so the splitter can snapshot the all-in-right state.
    pub fn duplicate(&self) -> (r: Mse)
        ensures
            r.spec_total() == self.spec_total(),
            r.spec_sum() == self.spec_sum(),
            r.spec_sq_sum() == self.spec_sq_sum(),
    {
        Mse {
            num_items: self.num_items,
            weighted_sum: self.weighted_sum,
            weighted_sq_sum: self.weighted_sq_sum,
        }
    }
}

proof fn lemma_mse_push_bounds(n: int, b: int, a: int, y: int, w: int)
    by (nonlinear_arith)
    requires
        0 <= n,
        0 <= w,
        n + w <= COUNT_LIMIT,
        -TARGET_LIMIT <= y <= TARGET_LIMIT,
        -n * TARGET_LIMIT <= b <= n * TARGET_LIMIT,
        0 <= a <= n * TARGET_LIMIT * TARGET_LIMIT,
    ensures
        -(n + w) * TARGET_LIMIT <= b + w * y <= (n + w) * TARGET_LIMIT,
        0 <= a + w * (y * y) <= (n + w) * TARGET_LIMIT * TARGET_LIMIT,
        -0x8000_0000_0000_0000 <= b + w * y < 0x8000_0000_0000_0000,
        a + w * (y * y) < 0x1_0000_0000_0000_0000_0000_0000_0000_0000,
        0 <= y * y <= TARGET_LIMIT * TARGET_LIMIT,
        -0x8000_0000_0000_0000 <= w * y < 0x8000_0000_0000_0000,
{
}

proof fn lemma_mse_pop_bounds(n: int, b: int, a: int, y: int, w: int)
    by (nonlinear_arith)
    requires
        0 <= w <= n <= COUNT_LIMIT,
        -TARGET_LIMIT <= y <= TARGET_LIMIT,
        -(n - w) * TARGET_LIMIT <= b - w * y <= (n - w) * TARGET_LIMIT,
        0 <= a - w * (y * y),
        -n * TARGET_LIMIT <= b <= n * TARGET_LIMIT,
    ensures
        0 <= y * y <= TARGET_LIMIT * TARGET_LIMIT,
        -0x8000_0000_0000_0000 <= w * y < 0x8000_0000_0000_0000,
        -0x8000_0000_0000_0000 <= b - w * y < 0x8000_0000_0000_0000,
        w * (y * y) <= a,
{
}

proof fn lemma_mse_pure_bounds(n: int, b: int, a: int)
    by (nonlinear_arith)
    requires
        0 <= n <= COUNT_LIMIT,
        -n * TARGET_LIMIT <= b <= n * TARGET_LIMIT,
        0 <= a <= n * TARGET_LIMIT * TARGET_LIMIT,
    ensures
        0 <= n * a < 0x1_0000_0000_0000_0000_0000_0000_0000_0000,
        0 <= b * b < 0x8000_0000_0000_0000_0000_0000_0000_0000,
{
}

} // verus!
