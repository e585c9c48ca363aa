//! The iterative tree trainer for classification.
//!
//! An explicit stack of `(leaf slot, range, depth)` entries replaces
//! recursion. Each popped range is either split — the splitter picks the
//! best boundary per feature, the training space is partitioned in place,
//! and the two child ranges are pushed — or closed as a leaf whose class
//! distribution is appended to the probability table in fixed point.
use vstd::prelude::*;

use crate::config::{NumFeatures, TrainConfig};
use crate::counting::{
    count_matching, lemma_count_matching_multiset, lemma_count_matching_partitioned,
    lemma_count_matching_pointwise,
};
use crate::dataset::Dataset;
use crate::decision_tree::{Child, DecisionTree, NodeHandle};
use crate::metrics::{lemma_sum_update, lemma_zero_sums, sum_of};
use vstd::arithmetic::div_mod::lemma_fundamental_div_mod;
use crate::rng::{rng_from_seed, rng_shuffle};
use crate::sorting::sort_items;
use crate::ratio::lemma_frac_le_lt_trans;
use crate::splitter::{
    g_bins, g_items_ok, g_mass, g_sq, g_total, gain_den, gain_gt, gain_gt_across, gain_num,
    gini_accumulate, legal_split, lemma_g_bounds, lemma_g_concat, lemma_g_push,
    lemma_gain_den_pos, sorted_by_key, GItem, Gain, GiniSplitter, SPLIT_LEN_LIMIT,
};
use crate::trainset::{lemma_multiset_preserved_outside_unchanged, zip_pairs, TrainSpace};

verus! {

/// Fixed-point unit of a stored probability: this value stands for 1.
pub const PROBA_SCALE: u64 = 0x1_0000_0000;

/// A packed classifier target carries a class code below `kk` in its high
/// bits and a weight from 1 to 15 in its low four bits.
pub open spec fn packed_ok(t: Seq<u32>, kk: int) -> bool {
    forall|k: int| 0 <= k < t.len() ==> 1 <= (#[trigger] t[k]) % 16 <= 15 && t[k] / 16 < kk
}

/// Sum of the `j`-th length-`kk` chunk of `p`, as an integer.
pub open spec fn chunk_sum(p: Seq<u64>, j: int, kk: int) -> int {
    sum_of(p.subrange(j * kk, (j + 1) * kk).map(|i: int, x: u64| x as int))
}

/// The table splits into length-`kk` chunks and every chunk sums to 1 in
/// fixed point, up to one rounding unit per class.
pub open spec fn chunks_ok(p: Seq<u64>, kk: int) -> bool {
    &&& p.len() as int % kk == 0
    &&& forall|j: int|
        0 <= j < p.len() as int / kk ==> PROBA_SCALE - kk <= #[trigger] chunk_sum(p, j, kk)
            <= PROBA_SCALE
}

/// The scan buffer a node's rows form for one feature: the feature's key
/// beside the unpacked target and weight of each slot of `[lo, hi)`.
pub open spec fn keyed_of(
    ds: Dataset,
    samples: Seq<u32>,
    targets: Seq<u32>,
    lo: int,
    hi: int,
    feature: int,
) -> Seq<GItem> {
    Seq::new(
        (hi - lo) as nat,
        |k: int|
            GItem {
                key: ds.spec_val(samples[lo + k] as int, feature),
                target: (targets[lo + k] / 16) as u32,
                weight: (targets[lo + k] % 16) as u32,
            },
    )
}

/// One pending node of the tree under construction.
#[derive(Clone, Copy, Debug, PartialEq, Eq, Structural)]
pub struct StackEntry {
    /// The leaf slot this range will fill or split.
    pub handle: NodeHandle,
    /// Start of the range.
    pub lo: usize,
    /// End of the range.
    pub hi: usize,
    /// Depth of the node; the root is at depth 0.
    pub depth: usize,
}

/// What one closed leaf keeps of its node: the sample ids and unpacked
/// weighted targets of the rows it owns, the bounds of its range in the
/// training space, and its depth.
pub ghost struct LeafRecord<It> {
    /// The sample ids of the range, in range order.
    pub samples: Seq<u32>,
    /// The unpacked weighted targets of the range, in range order.
    pub items: Seq<It>,
    /// Start of the range in the training space.
    pub lo: int,
    /// End of the range in the training space.
    pub hi: int,
    /// Depth of the leaf; the root is at depth 0.
    pub depth: int,
}

/// Total number of rows the records own.
pub open spec fn records_len_sum<It>(recs: Seq<LeafRecord<It>>) -> int
    decreases recs.len(),
{
    if recs.len() == 0 {
        0
    } else {
        records_len_sum(recs.drop_last()) + (recs.last().hi - recs.last().lo)
    }
}

/// Total number of rows the stack's pending ranges own.
pub open spec fn stack_range_sum(s: Seq<StackEntry>) -> int
    decreases s.len(),
{
    if s.len() == 0 {
        0
    } else {
        stack_range_sum(s.drop_last()) + (s.last().hi - s.last().lo)
    }
}

/// Two index ranges that share no position.
pub open spec fn ranges_disjoint(alo: int, ahi: int, blo: int, bhi: int) -> bool {
    ahi <= blo || bhi <= alo
}

/// The record holds exactly the rows of its range of the training space.
pub open spec fn record_matches_space(
    rec: LeafRecord<GItem>,
    samples: Seq<u32>,
    targets: Seq<u32>,
) -> bool {
    &&& 0 <= rec.lo < rec.hi <= targets.len()
    &&& samples.len() == targets.len()
    &&& rec.samples.len() == rec.hi - rec.lo
    &&& rec.items.len() == rec.hi - rec.lo
    &&& forall|j: int|
        0 <= j < rec.hi - rec.lo ==> (#[trigger] rec.samples[j]) == samples[rec.lo + j]
    &&& forall|j: int|
        0 <= j < rec.hi - rec.lo ==> (#[trigger] rec.items[j]) == (GItem {
            key: 0,
            target: (targets[rec.lo + j] / 16) as u32,
            weight: (targets[rec.lo + j] % 16) as u32,
        })
}

/// The record's rows keyed by feature `f`.
pub open spec fn batch_keyed(ds: Dataset, rec: LeafRecord<GItem>, f: int) -> Seq<GItem> {
    Seq::new(
        rec.items.len(),
        |j: int|
            GItem {
                key: ds.spec_val(rec.samples[j] as int, f),
                target: rec.items[j].target,
                weight: rec.items[j].weight,
            },
    )
}

/// Feature `f` offers no legal split of the record's rows: some sorted
/// arrangement of them keyed by `f` has no legal boundary.
pub open spec fn batch_feature_no_split(
    ds: Dataset,
    rec: LeafRecord<GItem>,
    f: int,
    msl: int,
) -> bool {
    exists|buf: Seq<GItem>|
        #![trigger buf.to_multiset()]
        sorted_by_key(buf) && buf.to_multiset() == batch_keyed(ds, rec, f).to_multiset() && (
        forall|q: int| !legal_split(buf, q, msl))
}

/// No feature offers a legal split of the record's rows.
pub open spec fn batch_offers_no_split(ds: Dataset, rec: LeafRecord<GItem>, msl: int) -> bool {
    forall|f: int|
        0 <= f < ds.spec_num_features() ==> #[trigger] batch_feature_no_split(ds, rec, f, msl)
}

/// When no feature offers a legal split of a range of the training space,
/// none offers one of the record holding exactly that range's rows.
proof fn lemma_batch_no_split_from_space(
    ds: Dataset,
    rec: LeafRecord<GItem>,
    samples: Seq<u32>,
    targets: Seq<u32>,
    kk: int,
    msl: int,
)
    requires
        record_matches_space(rec, samples, targets),
        forall|f: int|
            0 <= f < ds.spec_num_features() ==> feature_offers_no_split(
                ds,
                samples,
                targets,
                rec.lo,
                rec.hi,
                f,
                kk,
                msl,
            ),
    ensures
        batch_offers_no_split(ds, rec, msl),
{
    assert forall|f: int|
        0 <= f < ds.spec_num_features() implies #[trigger] batch_feature_no_split(
        ds,
        rec,
        f,
        msl,
    ) by {
        assert(feature_offers_no_split(ds, samples, targets, rec.lo, rec.hi, f, kk, msl));
        let buf = choose|buf: Seq<GItem>|
            #![trigger buf.to_multiset()]
            sorted_by_key(buf) && buf.to_multiset() == keyed_of(
                ds,
                samples,
                targets,
                rec.lo,
                rec.hi,
                f,
            ).to_multiset() && (forall|q: int| !legal_split(buf, q, msl));
        assert(batch_keyed(ds, rec, f) =~= keyed_of(ds, samples, targets, rec.lo, rec.hi, f));
        assert(buf.to_multiset() == batch_keyed(ds, rec, f).to_multiset());
        assert(sorted_by_key(buf));
    }
}

/// The stopping rule: a leaf was closed only because its depth or size gate
/// failed, its rows were pure, or no feature offered a legal split.
pub open spec fn leaf_close_reason(
    ds: Dataset,
    rec: LeafRecord<GItem>,
    conf: TrainConfig,
    kk: nat,
    msl: int,
) -> bool {
    ||| rec.depth >= conf.max_depth
    ||| rec.hi - rec.lo < conf.min_samples_split
    ||| rec.hi - rec.lo < 2 * conf.min_samples_leaf
    ||| g_sq(rec.items, kk) == g_total(rec.items) * g_total(rec.items)
    ||| batch_offers_no_split(ds, rec, msl)
}

/// Work left on the stack: ranges shrink strictly at every split, so this
/// measure falls at every step.
pub open spec fn stack_measure(s: Seq<StackEntry>) -> int
    decreases s.len(),
{
    if s.len() == 0 {
        0
    } else {
        stack_measure(s.drop_last()) + 2 * (s.last().hi - s.last().lo) - 1
    }
}

pub proof fn lemma_stack_measure_nonneg(s: Seq<StackEntry>)
    requires
        forall|e: int| 0 <= e < s.len() ==> (#[trigger] s[e]).lo < s[e].hi,
    ensures
        stack_measure(s) >= s.len(),
    decreases s.len(),
{
    if s.len() > 0 {
        lemma_stack_measure_nonneg(s.drop_last());
    }
}

pub proof fn lemma_stack_measure_push(s: Seq<StackEntry>, e: StackEntry)
    ensures
        stack_measure(s.push(e)) == stack_measure(s) + 2 * (e.hi - e.lo) - 1,
{
    assert(s.push(e).drop_last() =~= s);
}

/// The class bins of a buffer sum to its total weight.
proof fn lemma_g_bins_total(s: Seq<GItem>, kk: nat)
    requires
        g_items_ok(s, kk as int),
        kk >= 1,
    ensures
        sum_of(g_bins(s, kk)) == g_total(s),
    decreases s.len(),
{
    if s.len() == 0 {
        lemma_zero_sums(g_bins(s, kk));
    } else {
        let dl = s.drop_last();
        let x = s.last();
        lemma_g_bins_total(dl, kk);
        assert(s =~= dl.push(x));
        assert forall|c: int| 0 <= c < kk implies #[trigger] g_mass(s, c) == g_mass(dl, c) + (if x.target
            == c {
            x.weight as int
        } else {
            0
        }) by {
            lemma_g_push(dl, x, c);
        }
        assert(g_bins(s, kk) =~= g_bins(dl, kk).update(
            x.target as int,
            g_mass(dl, x.target as int) + x.weight,
        ));
        lemma_sum_update(g_bins(dl, kk), x.target as int, g_mass(dl, x.target as int) + x.weight);
    }
}

/// An element of the rearranged part of a partitioned range was present in
/// the original part; returns where.
proof fn lemma_pair_source<W>(
    ns: Seq<u32>,
    nt: Seq<W>,
    os: Seq<u32>,
    ot: Seq<W>,
    lo: int,
    hi: int,
    k: int,
) -> (k2: int)
    requires
        ns.len() == nt.len(),
        os.len() == ot.len(),
        hi <= ns.len(),
        hi <= os.len(),
        0 <= lo <= k < hi,
        zip_pairs(ns, nt).subrange(lo, hi).to_multiset() == zip_pairs(os, ot).subrange(
            lo,
            hi,
        ).to_multiset(),
    ensures
        lo <= k2 < hi,
        os[k2] == ns[k],
        ot[k2] == nt[k],
{
    broadcast use vstd::seq_lib::group_to_multiset_ensures;

    let zn = zip_pairs(ns, nt).subrange(lo, hi);
    let zo = zip_pairs(os, ot).subrange(lo, hi);
    let pair = zn[k - lo];
    assert(zn.contains(pair));
    assert(zn.to_multiset().count(pair) > 0);
    assert(zo.to_multiset().count(pair) > 0);
    assert(zo.contains(pair));
    let j = choose|j: int| 0 <= j < zo.len() && zo[j] == pair;
    assert(zo[j] == (os[lo + j], ot[lo + j]));
    lo + j
}

/// Integer square root: the largest `r` with `r * r <= n`.
pub fn isqrt(n: usize) -> (r: usize)
    requires
        n <= 0xFFFF,
    ensures
        r * r <= n < (r + 1) * (r + 1),
{
    let mut r: usize = 0;
    while r + 1 <= n / (r + 1)
        invariant
            r * r <= n <= 0xFFFF,
            r <= n,
        decreases n - r,
    {
        proof {
            let d = n as int / (r + 1) as int;
            lemma_fundamental_div_mod(n as int, (r + 1) as int);
            assert((r + 1) * (r + 1) <= n) by (nonlinear_arith)
                requires
                    r + 1 <= d,
                    n as int == ((r + 1) as int) * d + n as int % ((r + 1) as int),
                    0 <= n as int % ((r + 1) as int),
            {}
        }
        r = r + 1;
    }
    proof {
        let d = n as int / (r + 1) as int;
        lemma_fundamental_div_mod(n as int, (r + 1) as int);
        assert(n < (r + 1) * (r + 1)) by (nonlinear_arith)
            requires
                d < r + 1,
                n as int == ((r + 1) as int) * d + n as int % ((r + 1) as int),
                n as int % ((r + 1) as int) < (r + 1) as int,
        {}
    }
    r
}

/// Two to the power `e`.
pub open spec fn pow2(e: nat) -> int
    decreases e,
{
    if e == 0 {
        1
    } else {
        2 * pow2((e - 1) as nat)
    }
}

/// Floor of the base-2 logarithm.
pub fn log2_floor(n: usize) -> (r: usize)
    requires
        1 <= n <= 0xFFFF,
    ensures
        pow2(r as nat) <= n < pow2(r as nat + 1),
{
    let mut r: usize = 0;
    let mut p: usize = 1;
    while 2 * p <= n
        invariant
            p == pow2(r as nat),
            1 <= p <= n <= 0xFFFF,
            r <= p,
        decreases n - p,
    {
        proof {
            lemma_pow2_pos(r as nat);
            lemma_pow2_ge_linear(r as nat + 1);
            assert(pow2(r as nat + 1) == 2 * pow2(r as nat));
        }
        p = 2 * p;
        r = r + 1;
    }
    proof {
        assert(pow2(r as nat + 1) == 2 * pow2(r as nat));
    }
    r
}

proof fn lemma_pow2_pos(e: nat)
    ensures
        pow2(e) >= 1,
    decreases e,
{
    if e > 0 {
        lemma_pow2_pos((e - 1) as nat);
    }
}

/// How many features each split may consider, resolved against the real
/// feature count.
pub fn resolve_max_features(choice: NumFeatures, num_features: usize) -> (r: usize)
    requires
        1 <= num_features <= 0xFFFF,
    ensures
        r <= num_features,
        choice is SQRT ==> r * r <= num_features < (r + 1) * (r + 1),
        choice is LOG ==> pow2(r as nat) <= num_features < pow2(r as nat + 1),
        choice matches NumFeatures::NUMBER(n) ==> r == if n < num_features {
            n
        } else {
            num_features
        },
{
    match choice {
        NumFeatures::SQRT => {
            let r = isqrt(num_features);
            proof {
                assert(r * r <= num_features < (r + 1) * (r + 1));
                assert(r <= num_features) by (nonlinear_arith)
                    requires
                        r * r <= num_features,
                {}
            }
            r
        },
        NumFeatures::LOG => {
            let r = log2_floor(num_features);
            proof {
                lemma_pow2_ge_linear(r as nat);
            }
            r
        },
        NumFeatures::NUMBER(n) => {
            if n < num_features {
                n
            } else {
                num_features
            }
        },
    }
}

proof fn lemma_pow2_ge_linear(e: nat)
    ensures
        pow2(e) > e,
    decreases e,
{
    if e > 0 {
        lemma_pow2_ge_linear((e - 1) as nat);
    }
}

/// The unpacked weighted targets of `[lo, hi)`, with a zero key that a
/// feature scan later overwrites.
fn unpack_items(targets: &Vec<u32>, lo: usize, hi: usize, kk: usize) -> (r: Vec<GItem>)
    requires
        lo <= hi <= targets@.len(),
        packed_ok(targets@, kk as int),
    ensures
        r@.len() == hi - lo,
        forall|k: int|
            0 <= k < hi - lo ==> (#[trigger] r@[k]) == (GItem {
                key: 0,
                target: (targets@[lo + k] / 16) as u32,
                weight: (targets@[lo + k] % 16) as u32,
            }),
        g_items_ok(r@, kk as int),
{
    let mut r: Vec<GItem> = Vec::new();
    let mut k: usize = lo;
    while k < hi
        invariant
            lo <= k <= hi <= targets@.len(),
            packed_ok(targets@, kk as int),
            r@.len() == k - lo,
            forall|j: int|
                0 <= j < k - lo ==> (#[trigger] r@[j]) == (GItem {
                    key: 0,
                    target: (targets@[lo + j] / 16) as u32,
                    weight: (targets@[lo + j] % 16) as u32,
                }),
        decreases hi - k,
    {
        let t = targets[k];
        r.push(GItem { key: 0, target: t / 16, weight: t % 16 });
        k = k + 1;
    }
    r
}

/// The items of `[lo, hi)` keyed by one feature's values.
fn keyed_items(
    dataset: &Dataset,
    samples: &Vec<u32>,
    targets: &Vec<u32>,
    items: &Vec<GItem>,
    lo: usize,
    hi: usize,
    feature: usize,
    kk: usize,
) -> (r: Vec<GItem>)
    requires
        dataset.wf(),
        lo <= hi <= samples@.len(),
        samples@.len() == targets@.len(),
        forall|k: int| 0 <= k < samples@.len() ==> #[trigger] samples@[k] < dataset.spec_size(),
        feature < dataset.spec_num_features(),
        packed_ok(targets@, kk as int),
        items@.len() == hi - lo,
        forall|k: int|
            0 <= k < hi - lo ==> (#[trigger] items@[k]) == (GItem {
                key: 0,
                target: (targets@[lo + k] / 16) as u32,
                weight: (targets@[lo + k] % 16) as u32,
            }),
    ensures
        r@ =~= keyed_of(*dataset, samples@, targets@, lo as int, hi as int, feature as int),
        r@.len() == hi - lo,
        g_items_ok(r@, kk as int),
{
    let mut r: Vec<GItem> = Vec::new();
    let mut k: usize = lo;
    while k < hi
        invariant
            dataset.wf(),
            lo <= k <= hi <= samples@.len(),
            samples@.len() == targets@.len(),
            forall|j: int| 0 <= j < samples@.len() ==> #[trigger] samples@[j] < dataset.spec_size(),
            feature < dataset.spec_num_features(),
            packed_ok(targets@, kk as int),
            items@.len() == hi - lo,
            forall|j: int|
                0 <= j < hi - lo ==> (#[trigger] items@[j]) == (GItem {
                    key: 0,
                    target: (targets@[lo + j] / 16) as u32,
                    weight: (targets@[lo + j] % 16) as u32,
                }),
            r@.len() == k - lo,
            forall|j: int|
                0 <= j < k - lo ==> (#[trigger] r@[j]) == (GItem {
                    key: dataset.spec_val(samples@[lo + j] as int, feature as int),
                    target: (targets@[lo + j] / 16) as u32,
                    weight: (targets@[lo + j] % 16) as u32,
                }),
        decreases hi - k,
    {
        let sid = samples[k];
        let key = dataset.feature_val(sid as usize, feature);
        let it = items[k - lo];
        r.push(GItem { key, target: it.target, weight: it.weight });
        k = k + 1;
    }
    r
}

/// The key midpoint the tree stores as a threshold: at least `a`, below
/// `b`.
pub fn mid_key(a: u32, b: u32) -> (r: u32)
    requires
        a < b,
    ensures
        r == a + (b - a) / 2,
        a <= r < b,
{
    a + (b - a) / 2
}

/// Appends the normalized class distribution of a leaf's items to the
/// probability table as one fixed-point chunk.
fn push_leaf_chunk(items: &Vec<GItem>, kk: usize, proba: &mut Vec<u64>)
    requires
        g_items_ok(items@, kk as int),
        1 <= items@.len() <= SPLIT_LEN_LIMIT,
        1 <= kk,
        old(proba)@.len() as int % (kk as int) == 0,
        chunks_ok(old(proba)@, kk as int),
    ensures
        final(proba)@.len() == old(proba)@.len() + kk,
        chunks_ok(final(proba)@, kk as int),
        forall|k: int| 0 <= k < old(proba)@.len() ==> final(proba)@[k] == old(proba)@[k],
        // the appended chunk is the normalized class distribution of the
        // leaf's items, in fixed point
        forall|c: int|
            0 <= c < kk ==> final(proba)@[old(proba)@.len() + c] == (g_mass(items@, c) * (
            PROBA_SCALE as int)) / g_total(items@),
{
    let acc = gini_accumulate(items, kk);
    let n = acc.total();
    proof {
        lemma_g_bounds(items@, kk as int, 0);
        assert(n >= 1);
        lemma_g_bins_total(items@, kk as nat);
    }
    let ghost bins = g_bins(items@, kk as nat);
    let ghost base = proba@.len() as int;
    proof {
        acc.lemma_bins_nonneg();
        assert forall|j: int| 0 <= j < bins.len() implies 0 <= #[trigger] bins[j] <= n by {
            crate::metrics::lemma_sum_bounds(bins, j);
        }
        assert(bins.take(0) =~= Seq::<int>::empty());
        assert(proba@.subrange(base, base).map(|i: int, x: u64| x as int)
            =~= Seq::<int>::empty());
    }
    let mut c: usize = 0;
    while c < kk
        invariant
            acc.wf(),
            acc.spec_bins() =~= bins,
            bins.len() == kk,
            1 <= n == acc.spec_total() <= u32::MAX,
            sum_of(bins) == n,
            c <= kk,
            proba@.len() == base + c,
            base == old(proba)@.len(),
            forall|k: int| 0 <= k < base ==> proba@[k] == old(proba)@[k],
            forall|j: int| 0 <= j < bins.len() ==> 0 <= #[trigger] bins[j] <= n,
            n * sum_of(proba@.subrange(base, base + c).map(|i: int, x: u64| x as int)) <= (
            PROBA_SCALE as int) * sum_of(bins.take(c as int)),
            n * sum_of(proba@.subrange(base, base + c).map(|i: int, x: u64| x as int)) >= (
            PROBA_SCALE as int) * sum_of(bins.take(c as int)) - n * c,
            forall|k: int| base <= k < base + c ==> #[trigger] proba@[k] <= PROBA_SCALE,
            forall|j: int|
                0 <= j < c ==> #[trigger] proba@[base + j] == (bins[j] * (PROBA_SCALE as int))
                    / (n as int),
        decreases kk - c,
    {
        let b = acc.bin(c);
        proof {
            assert(bins[c as int] <= n);
            assert(b * PROBA_SCALE < 0x1_0000_0000_0000_0000 && b * PROBA_SCALE <= n
                * PROBA_SCALE) by (nonlinear_arith)
                requires
                    0 <= b <= n <= u32::MAX,
                    PROBA_SCALE == 0x1_0000_0000,
            {}
        }
        let q = b * PROBA_SCALE / n;
        let ghost pre = proba@;
        let ghost pre_sum = sum_of(pre.subrange(base, base + c).map(|i: int, x: u64| x as int));
        proof {
            lemma_fundamental_div_mod((b as int) * (PROBA_SCALE as int), n as int);
            assert((q as int) * (n as int) <= (b as int) * (PROBA_SCALE as int)) by (
            nonlinear_arith)
                requires
                    (b as int) * (PROBA_SCALE as int) == (n as int) * (q as int) + ((b as int) * (
                    PROBA_SCALE as int)) % (n as int),
                    0 <= ((b as int) * (PROBA_SCALE as int)) % (n as int),
            {}
            assert((b as int) * (PROBA_SCALE as int) < (q as int) * (n as int) + (n as int)) by (
            nonlinear_arith)
                requires
                    (b as int) * (PROBA_SCALE as int) == (n as int) * (q as int) + ((b as int) * (
                    PROBA_SCALE as int)) % (n as int),
                    ((b as int) * (PROBA_SCALE as int)) % (n as int) < n as int,
            {}
            assert(q <= PROBA_SCALE) by (nonlinear_arith)
                requires
                    (q as int) * (n as int) <= (b as int) * (PROBA_SCALE as int),
                    0 <= b <= n,
                    1 <= n,
                    PROBA_SCALE == 0x1_0000_0000,
            {}
        }
        proba.push(q);
        c = c + 1;
        proof {
            let cc = c as int;
            assert(proba@.subrange(base, base + cc).map(|i: int, x: u64| x as int) =~= pre.subrange(
                base,
                base + cc - 1,
            ).map(|i: int, x: u64| x as int).push(q as int));
            assert(sum_of(
                proba@.subrange(base, base + cc).map(|i: int, x: u64| x as int),
            ) == pre_sum + q) by {
                assert(proba@.subrange(base, base + cc).map(
                    |i: int, x: u64| x as int,
                ).drop_last() =~= pre.subrange(base, base + cc - 1).map(|i: int, x: u64| x as int));
            }
            assert(bins.take(cc) =~= bins.take(cc - 1).push(bins[cc - 1]));
            assert(sum_of(bins.take(cc)) == sum_of(bins.take(cc - 1)) + bins[cc - 1]) by {
                assert(bins.take(cc).drop_last() =~= bins.take(cc - 1));
            }
            assert(n * (pre_sum + q) <= PROBA_SCALE * (sum_of(bins.take(cc - 1)) + bins[cc - 1])
                && n * (pre_sum + q) >= PROBA_SCALE * (sum_of(bins.take(cc - 1)) + bins[cc - 1])
                - n * cc) by (nonlinear_arith)
                requires
                    n * pre_sum <= PROBA_SCALE * sum_of(bins.take(cc - 1)),
                    n * pre_sum >= PROBA_SCALE * sum_of(bins.take(cc - 1)) - n * (cc - 1),
                    q * n <= bins[cc - 1] * PROBA_SCALE,
                    bins[cc - 1] * PROBA_SCALE < q * n + n,
            {}
        }
    }
    proof {
        assert(bins.take(kk as int) =~= bins);
        let new_sum = sum_of(proba@.subrange(base, base + kk).map(|i: int, x: u64| x as int));
        assert(new_sum <= PROBA_SCALE && new_sum >= PROBA_SCALE - kk) by (nonlinear_arith)
            requires
                n * new_sum <= PROBA_SCALE * sum_of(bins),
                n * new_sum >= PROBA_SCALE * sum_of(bins) - n * (kk as int),
                sum_of(bins) == n,
                1 <= n,
        {}
        let kv = kk as int;
        assert(proba@.len() as int % kv == 0) by (nonlinear_arith)
            requires
                base % kv == 0,
                proba@.len() == base + kv,
                kv >= 1,
        {}
        assert forall|j: int| 0 <= j < proba@.len() as int / kv implies PROBA_SCALE - kv
            <= #[trigger] chunk_sum(proba@, j, kv) <= PROBA_SCALE by {
            assert(proba@.len() as int / kv == base / kv + 1) by (nonlinear_arith)
                requires
                    base % kv == 0,
                    proba@.len() == base + kv,
                    kv >= 1,
            {}
            if j < base / kv {
                assert(0 <= j * kv && (j + 1) * kv <= base) by (nonlinear_arith)
                    requires
                        0 <= j,
                        (j + 1) <= base / kv,
                        base % kv == 0,
                        kv >= 1,
                {}
                assert((j + 1) * kv == j * kv + kv) by (nonlinear_arith);
                assert forall|t: int| 0 <= t < kv implies #[trigger] proba@[j * kv + t] == old(
                    proba,
                )@[j * kv + t] by {
                    assert(0 <= j * kv + t < base);
                }
                assert(proba@.subrange(j * kv, (j + 1) * kv) =~= old(proba)@.subrange(
                    j * kv,
                    (j + 1) * kv,
                ));
                assert(chunk_sum(old(proba)@, j, kv) == chunk_sum(proba@, j, kv));
                let ghost oldlen = old(proba)@.len() as int;
                assert(0 <= j < oldlen / kv) by (nonlinear_arith)
                    requires
                        0 <= j < base / kv,
                        base == oldlen,
                {}
            } else {
                assert(j == base / kv);
                assert(j * kv == base && (j + 1) * kv == base + kv) by (nonlinear_arith)
                    requires
                        j == base / kv,
                        base % kv == 0,
                        kv >= 1,
                {}
                assert(chunk_sum(proba@, j, kv) == new_sum);
            }
        }
    }
}


/// Items with the same multiset are item-wise in range too.
proof fn lemma_items_ok_multiset(s1: Seq<GItem>, s2: Seq<GItem>, kk: int)
    requires
        s1.to_multiset() == s2.to_multiset(),
        g_items_ok(s1, kk),
    ensures
        g_items_ok(s2, kk),
{
    broadcast use vstd::seq_lib::group_to_multiset_ensures;

    assert forall|k: int|
        0 <= k < s2.len() implies 1 <= (#[trigger] s2[k]).weight <= 15 && s2[k].target < kk by {
        let it = s2[k];
        assert(s2.contains(it));
        assert(s2.to_multiset().count(it) > 0);
        assert(s1.to_multiset().count(it) > 0);
        assert(s1.contains(it));
        let j = choose|j: int| 0 <= j < s1.len() && s1[j] == it;
        assert(1 <= s1[j].weight <= 15 && s1[j].target < kk);
    }
}

/// Values drawn from a permutation of `0..f` stay below `f`.
pub proof fn lemma_perm_bounded(p: Seq<usize>, q: Seq<usize>, f: int)
    requires
        p.to_multiset() == q.to_multiset(),
        forall|k: int| 0 <= k < q.len() ==> #[trigger] q[k] < f,
    ensures
        forall|k: int| 0 <= k < p.len() ==> #[trigger] p[k] < f,
{
    broadcast use vstd::seq_lib::group_to_multiset_ensures;

    assert forall|k: int| 0 <= k < p.len() implies #[trigger] p[k] < f by {
        let v = p[k];
        assert(p.contains(v));
        assert(p.to_multiset().count(v) > 0);
        assert(q.to_multiset().count(v) > 0);
        assert(q.contains(v));
        let j = choose|j: int| 0 <= j < q.len() && q[j] == v;
        assert(q[j] < f);
    }
}

/// The identity feature order `0, 1, ..., f-1`.
pub open spec fn ident_perm(f: nat) -> Seq<usize> {
    Seq::new(f, |i: int| i as usize)
}

/// A permutation of the identity order holds every feature somewhere.
pub proof fn lemma_perm_index_of(p: Seq<usize>, f: nat, v: usize) -> (j: int)
    requires
        p.to_multiset() == ident_perm(f).to_multiset(),
        (v as int) < f,
    ensures
        0 <= j < p.len(),
        p[j] == v,
{
    broadcast use vstd::seq_lib::group_to_multiset_ensures;

    assert(ident_perm(f)[v as int] == v);
    assert(ident_perm(f).contains(v));
    assert(ident_perm(f).to_multiset().count(v) > 0);
    assert(p.to_multiset().count(v) > 0);
    assert(p.contains(v));
    choose|j: int| 0 <= j < p.len() && p[j] == v
}

/// The split the feature scan settled on.
#[derive(Clone, Copy, Debug, PartialEq, Eq, Structural)]
pub struct BestSplit {
    /// Feature the split tests.
    pub feature: usize,
    /// Number of rows on the left side.
    pub pivot: usize,
    /// Key threshold: rows with `key <= threshold` go left.
    pub threshold: u32,
}

/// What the feature scan guarantees about its result: the returned buffer
/// snapshot is a sorted rearrangement of the node's rows keyed by the chosen
/// feature, and the pivot is a legal boundary of it with the threshold
/// strictly between the keys at its sides.
pub open spec fn best_split_ok(
    b: BestSplit,
    buf: Seq<GItem>,
    ds: Dataset,
    samples: Seq<u32>,
    targets: Seq<u32>,
    lo: int,
    hi: int,
    kk: int,
    msl: int,
) -> bool {
    &&& b.feature < ds.spec_num_features()
    &&& buf.len() == hi - lo
    &&& sorted_by_key(buf)
    &&& g_items_ok(buf, kk)
    &&& buf.to_multiset() == keyed_of(ds, samples, targets, lo, hi, b.feature as int).to_multiset()
    &&& legal_split(buf, b.pivot as int, msl)
    &&& b.threshold == buf[b.pivot - 1].key + (buf[b.pivot as int].key - buf[b.pivot
        - 1].key) / 2
    &&& buf[b.pivot - 1].key <= b.threshold < buf[b.pivot as int].key
}

/// One entry of the scan record: the sorted scan buffer the driver built
/// for feature `f` of the node `[lo, hi)`.
pub open spec fn scanned_entry_ok(
    buf: Seq<GItem>,
    ds: Dataset,
    samples: Seq<u32>,
    targets: Seq<u32>,
    lo: int,
    hi: int,
    f: int,
    kk: int,
) -> bool {
    &&& buf.len() == hi - lo
    &&& sorted_by_key(buf)
    &&& g_items_ok(buf, kk)
    &&& buf.to_multiset() == keyed_of(ds, samples, targets, lo, hi, f).to_multiset()
}

/// The winner of a feature scan: candidate `pivot` of `scanned[w]` has at
/// least the gain of every legal candidate of every scanned buffer,
/// strictly more than every candidate of an earlier buffer and every
/// earlier candidate of its own buffer — the first-wins rule, across
/// features and within one.
pub open spec fn winner_dominates(
    scanned: Seq<Seq<GItem>>,
    w: int,
    pivot: int,
    kk: nat,
    msl: int,
) -> bool {
    &&& 0 <= w < scanned.len()
    &&& forall|j: int, q: int|
        0 <= j < scanned.len() && #[trigger] legal_split(scanned[j], q, msl) ==> !gain_gt_across(
            scanned[j],
            kk,
            q,
            scanned[w],
            pivot,
        )
    &&& forall|j: int, q: int|
        0 <= j < w && #[trigger] legal_split(scanned[j], q, msl) ==> gain_gt_across(
            scanned[w],
            kk,
            pivot,
            scanned[j],
            q,
        )
    &&& forall|q: int|
        legal_split(scanned[w], q, msl) && q < pivot ==> gain_gt(scanned[w], kk, pivot, q)
}

/// The scan record names a winning entry: the buffer the result's feature
/// produced, whose pivot dominates every scanned candidate, reached within
/// the feature budget or as the first find beyond it.
pub open spec fn scan_has_winner(
    scanned: Seq<Seq<GItem>>,
    perm: Seq<usize>,
    buf: Seq<GItem>,
    b: BestSplit,
    kk: nat,
    msl: int,
    max_features: int,
) -> bool {
    exists|w: int|
        0 <= w < scanned.len() && #[trigger] scanned[w] == buf && b.feature == perm[w]
            && winner_dominates(scanned, w, b.pivot as int, kk, msl) && (w + 1 == scanned.len()
            || scanned.len() <= max_features)
}

/// No sorted arrangement of the node's rows keyed by feature `f` has a
/// legal boundary: the feature offers no split of this node.
pub open spec fn feature_offers_no_split(
    ds: Dataset,
    samples: Seq<u32>,
    targets: Seq<u32>,
    lo: int,
    hi: int,
    f: int,
    kk: int,
    msl: int,
) -> bool {
    exists|buf: Seq<GItem>|
        #![trigger buf.to_multiset()]
        sorted_by_key(buf) && buf.to_multiset() == keyed_of(
            ds,
            samples,
            targets,
            lo,
            hi,
            f,
        ).to_multiset() && (forall|q: int| !legal_split(buf, q, msl))
}

/// Scans features in permutation order and keeps the first best legal
/// split, continuing past `max_features` features for as long as none has
/// offered one. `None` only when the node is pure or no feature of the
/// dataset offers a legal split of it; a `Some` winner dominates every
/// legal candidate of every scanned buffer, first wins.
#[verifier::rlimit(100)]
#[verifier::spinoff_prover]
fn search_split(
    dataset: &Dataset,
    samples: &Vec<u32>,
    targets: &Vec<u32>,
    items: &Vec<GItem>,
    lo: usize,
    hi: usize,
    kk: usize,
    splitter: &GiniSplitter,
    max_features: usize,
    use_rng: bool,
    rng: &mut rand::rngs::SmallRng,
    perm: &mut Vec<usize>,
) -> (r: (Option<BestSplit>, Ghost<Seq<GItem>>, Ghost<Seq<Seq<GItem>>>))
    requires
        dataset.wf(),
        1 <= dataset.spec_num_features(),
        lo < hi <= samples@.len(),
        samples@.len() == targets@.len(),
        forall|k: int| 0 <= k < samples@.len() ==> #[trigger] samples@[k] < dataset.spec_size(),
        packed_ok(targets@, kk as int),
        1 <= kk,
        hi - lo <= SPLIT_LEN_LIMIT,
        splitter.spec_num_classes() == kk,
        splitter.spec_min_samples_leaf() >= 1,
        2 * splitter.spec_min_samples_leaf() <= hi - lo,
        old(perm)@.to_multiset() == ident_perm(dataset.spec_num_features() as nat).to_multiset(),
        items@.len() == hi - lo,
        forall|k: int|
            0 <= k < hi - lo ==> (#[trigger] items@[k]) == (GItem {
                key: 0,
                target: (targets@[lo + k] / 16) as u32,
                weight: (targets@[lo + k] % 16) as u32,
            }),
    ensures
        final(perm)@.to_multiset() == old(perm)@.to_multiset(),
        final(perm)@.len() == dataset.spec_num_features(),
        r.2@.len() <= dataset.spec_num_features(),
        forall|j: int|
            0 <= j < r.2@.len() ==> scanned_entry_ok(
                #[trigger] r.2@[j],
                *dataset,
                samples@,
                targets@,
                lo as int,
                hi as int,
                final(perm)@[j] as int,
                kk as int,
            ),
        r.0 is None ==> g_sq(items@, kk as nat) == g_total(items@) * g_total(items@) || (r.2@.len()
            == dataset.spec_num_features() && (forall|j: int, q: int|
            0 <= j < r.2@.len() ==> !(#[trigger] legal_split(
                r.2@[j],
                q,
                splitter.spec_min_samples_leaf(),
            ))) && (forall|f: int|
            0 <= f < dataset.spec_num_features() ==> feature_offers_no_split(
                *dataset,
                samples@,
                targets@,
                lo as int,
                hi as int,
                f,
                kk as int,
                splitter.spec_min_samples_leaf(),
            ))),
        r.0 matches Some(b) ==> best_split_ok(
            b,
            r.1@,
            *dataset,
            samples@,
            targets@,
            lo as int,
            hi as int,
            kk as int,
            splitter.spec_min_samples_leaf(),
        ),
        r.0 matches Some(b) ==> scan_has_winner(
            r.2@,
            final(perm)@,
            r.1@,
            b,
            kk as nat,
            splitter.spec_min_samples_leaf(),
            max_features as int,
        ),
        r.0 is Some ==> r.2@.len() == dataset.spec_num_features() || r.2@.len() >= max_features,
{
    let ghost msl_spec = splitter.spec_min_samples_leaf();
    let ghost fc = dataset.spec_num_features();
    let impure = splitter.prepare(items);
    let ghost dummy: Seq<GItem> = Seq::empty();
    let ghost mut scanned: Seq<Seq<GItem>> = Seq::empty();
    proof {
        broadcast use vstd::seq_lib::group_to_multiset_ensures;

        assert(perm@.to_multiset().len() == perm@.len());
        assert(ident_perm(fc as nat).to_multiset().len() == ident_perm(fc as nat).len());
        assert(perm@.len() == fc);
    }
    if !impure {
        return (None, Ghost(dummy), Ghost(scanned));
    }
    if use_rng {
        let ghost pre_perm = perm@;
        rng_shuffle(rng, perm);
        proof {
            lemma_perm_bounded(perm@, ident_perm(fc as nat), fc);
        }
    }
    proof {
        broadcast use vstd::seq_lib::group_to_multiset_ensures;

        assert(perm@.to_multiset().len() == perm@.len());
        assert(ident_perm(fc as nat).to_multiset().len() == ident_perm(fc as nat).len());
        assert forall|k: int| 0 <= k < ident_perm(fc as nat).len() implies (
        #[trigger] ident_perm(fc as nat)[k]) < fc by {}
        lemma_perm_bounded(perm@, ident_perm(fc as nat), fc);
    }
    let f_count = perm.len();
    let mut best: Option<BestSplit> = None;
    let mut best_gain: Option<Gain> = None;
    let ghost mut best_buf: Seq<GItem> = dummy;
    let ghost mut best_w: int = 0;
    let mut idx: usize = 0;
    while idx < f_count && (best.is_none() || idx < max_features)
        invariant
            dataset.wf(),
            1 <= fc == dataset.spec_num_features(),
            lo < hi <= samples@.len(),
            samples@.len() == targets@.len(),
            forall|k: int| 0 <= k < samples@.len() ==> #[trigger] samples@[k] < dataset.spec_size(),
            packed_ok(targets@, kk as int),
            1 <= kk,
            hi - lo <= SPLIT_LEN_LIMIT,
            splitter.spec_num_classes() == kk,
            splitter.spec_min_samples_leaf() == msl_spec >= 1,
            2 * msl_spec <= hi - lo,
            perm@.len() == f_count == fc,
            perm@.to_multiset() == old(perm)@.to_multiset(),
            forall|k: int| 0 <= k < perm@.len() ==> #[trigger] perm@[k] < fc,
            items@.len() == hi - lo,
            forall|k: int|
                0 <= k < hi - lo ==> (#[trigger] items@[k]) == (GItem {
                    key: 0,
                    target: (targets@[lo + k] / 16) as u32,
                    weight: (targets@[lo + k] % 16) as u32,
                }),
            idx <= f_count,
            scanned.len() == idx,
            forall|j: int|
                0 <= j < idx ==> scanned_entry_ok(
                    #[trigger] scanned[j],
                    *dataset,
                    samples@,
                    targets@,
                    lo as int,
                    hi as int,
                    perm@[j] as int,
                    kk as int,
                ),
            (best is Some) <==> (best_gain is Some),
            best is None ==> forall|j: int, q: int|
                0 <= j < idx ==> !(#[trigger] legal_split(scanned[j], q, msl_spec)),
            best matches Some(b) ==> {
                &&& best_split_ok(
                    b,
                    best_buf,
                    *dataset,
                    samples@,
                    targets@,
                    lo as int,
                    hi as int,
                    kk as int,
                    msl_spec,
                )
                &&& 0 <= best_w < idx
                &&& scanned[best_w] == best_buf
                &&& b.feature == perm@[best_w]
                &&& winner_dominates(scanned, best_w, b.pivot as int, kk as nat, msl_spec)
                &&& idx <= best_w + 1 || idx <= max_features
            },
            best_gain matches Some(g) ==> {
                &&& 0 < g.den <= crate::ratio::DENOM_LIMIT
                &&& best matches Some(b) ==> g.num == gain_num(best_buf, kk as nat, b.pivot as int)
                    && g.den == gain_den(best_buf, b.pivot as int)
            },
        decreases f_count - idx,
    {
        let feature = perm[idx];
        let mut buf = keyed_items(dataset, samples, targets, items, lo, hi, feature, kk);
        let ghost keyed = buf@;
        sort_items(&mut buf);
        proof {
            lemma_items_ok_multiset(keyed, buf@, kk as int);
        }
        let res = splitter.find_split(&buf, best_gain);
        let ghost pre_scanned = scanned;
        proof {
            scanned = scanned.push(buf@);
            assert(scanned.len() == idx + 1);
            assert forall|j: int| 0 <= j < idx + 1 implies scanned_entry_ok(
                #[trigger] scanned[j],
                *dataset,
                samples@,
                targets@,
                lo as int,
                hi as int,
                perm@[j] as int,
                kk as int,
            ) by {
                if j < idx {
                    assert(scanned[j] == pre_scanned[j]);
                }
            }
        }
        match res {
            Some(pos) => {
                let thr = mid_key(buf[pos.pivot - 1].key, buf[pos.pivot].key);
                proof {
                    let kkn = kk as nat;
                    let pv = pos.pivot as int;
                    lemma_gain_den_pos(buf@, pv, kk as int);
                    if best_gain is Some {
                        let g = best_gain->0;
                        // the new winner strictly beats everything the old
                        // one dominated
                        assert forall|j: int, q: int|
                            0 <= j < idx && #[trigger] legal_split(
                                scanned[j],
                                q,
                                msl_spec,
                            ) implies gain_gt_across(buf@, kkn, pv, scanned[j], q) by {
                            assert(scanned[j] == pre_scanned[j]);
                            assert(0 < q < scanned[j].len());
                            lemma_gain_den_pos(scanned[j], q, kk as int);
                            lemma_frac_le_lt_trans(
                                gain_num(scanned[j], kkn, q),
                                gain_den(scanned[j], q),
                                g.num as int,
                                g.den as int,
                                gain_num(buf@, kkn, pv),
                                gain_den(buf@, pv),
                            );
                        }
                    } else {
                        assert forall|j: int, q: int|
                            0 <= j < idx && #[trigger] legal_split(
                                scanned[j],
                                q,
                                msl_spec,
                            ) implies gain_gt_across(buf@, kkn, pv, scanned[j], q) by {
                            assert(scanned[j] == pre_scanned[j]);
                        }
                    }
                    best_w = idx as int;
                    assert(winner_dominates(scanned, best_w, pv, kkn, msl_spec));
                }
                best = Some(BestSplit { feature, pivot: pos.pivot, threshold: thr });
                best_gain = Some(Gain { num: pos.gain_num, den: pos.gain_den });
                proof {
                    best_buf = buf@;
                }
            },
            None => {
                proof {
                    if best is Some {
                        let b = best->0;
                        let kkn = kk as nat;
                        let pv = b.pivot as int;
                        assert forall|j: int, q: int|
                            0 <= j < idx + 1 && #[trigger] legal_split(
                                scanned[j],
                                q,
                                msl_spec,
                            ) implies !gain_gt_across(scanned[j], kkn, q, scanned[best_w], pv) by {
                            if j < idx {
                                assert(scanned[j] == pre_scanned[j]);
                            } else {
                                assert(scanned[j] == buf@);
                            }
                        }
                        assert(winner_dominates(scanned, best_w, pv, kkn, msl_spec));
                    }
                }
            },
        }
        idx = idx + 1;
    }
    proof {
        if best is None {
            assert(idx == f_count);
            assert forall|f: int| 0 <= f < fc implies feature_offers_no_split(
                *dataset,
                samples@,
                targets@,
                lo as int,
                hi as int,
                f,
                kk as int,
                msl_spec,
            ) by {
                let j = lemma_perm_index_of(perm@, fc as nat, f as usize);
                let buf = scanned[j];
                assert(scanned_entry_ok(
                    buf,
                    *dataset,
                    samples@,
                    targets@,
                    lo as int,
                    hi as int,
                    f,
                    kk as int,
                ));
                assert(sorted_by_key(buf));
                assert(buf.to_multiset() == keyed_of(
                    *dataset,
                    samples@,
                    targets@,
                    lo as int,
                    hi as int,
                    f,
                ).to_multiset());
                assert(forall|q: int| !legal_split(buf, q, msl_spec));
            }
        } else {
            let b = best->0;
            assert(0 <= best_w < scanned.len());
            assert(scanned[best_w] == best_buf);
            assert(b.feature == perm@[best_w]);
            assert(winner_dominates(scanned, best_w, b.pivot as int, kk as nat, msl_spec));
            assert(best_w + 1 == scanned.len() || scanned.len() <= max_features);
            assert(scan_has_winner(
                scanned,
                perm@,
                best_buf,
                b,
                kk as nat,
                msl_spec,
                max_features as int,
            ));
        }
    }
    (best, Ghost(best_buf), Ghost(scanned))
}

/// Trains one classification tree over the training space and returns it
/// with its fixed-point leaf probability table.
///
/// The tree is well formed, every leaf value indexes a chunk of the table,
/// and every chunk is a normalized class distribution.
#[verifier::rlimit(100)]
#[verifier::spinoff_prover]
pub fn fit_tree(
    dataset: &Dataset,
    space: &mut TrainSpace<u32>,
    num_classes: usize,
    conf: &TrainConfig,
) -> (r: (DecisionTree, Vec<u64>, Ghost<Seq<LeafRecord<GItem>>>))
    requires
        dataset.wf(),
        1 <= dataset.spec_num_features() <= 0xFFFF,
        old(space).wf(dataset.spec_size()),
        1 <= old(space).samples@.len() <= SPLIT_LEN_LIMIT,
        packed_ok(old(space).targets@, num_classes as int),
        1 <= num_classes < 0x1000_0000,
        1 <= conf.min_samples_leaf <= SPLIT_LEN_LIMIT,
    ensures
        r.0.wf(),
        r.0.spec_num_features() == dataset.spec_num_features(),
        r.0.spec_nodes().len() >= 1,
        r.1@.len() as int % (num_classes as int) == 0,
        r.1@.len() >= num_classes,
        chunks_ok(r.1@, num_classes as int),
        r.0.leaves_below(r.1@.len() as int / (num_classes as int)),
        final(space).samples@.len() == old(space).samples@.len(),
        final(space).targets@.len() == old(space).targets@.len(),
        // training only rearranges the space: the final rows are a
        // permutation of the initial ones
        zip_pairs(final(space).samples@, final(space).targets@).to_multiset() == zip_pairs(
            old(space).samples@,
            old(space).targets@,
        ).to_multiset(),
        // one record per leaf chunk: its chunk is the normalized class
        // distribution of its rows, its rows are exactly the contiguous
        // range of the final training space its leaf owns, and it was
        // closed only for one of the stopping rule's reasons
        r.2@.len() == r.1@.len() as int / (num_classes as int),
        forall|k: int|
            0 <= k < r.2@.len() ==> {
                let rec = #[trigger] r.2@[k];
                &&& g_items_ok(rec.items, num_classes as int)
                &&& rec.items.len() >= 1
                &&& (forall|c: int|
                    0 <= c < num_classes ==> r.1@[k * (num_classes as int) + c] == (g_mass(
                        rec.items,
                        c,
                    ) * (PROBA_SCALE as int)) / g_total(rec.items))
                &&& record_matches_space(rec, final(space).samples@, final(space).targets@)
                &&& leaf_close_reason(
                    *dataset,
                    rec,
                    *conf,
                    num_classes as nat,
                    conf.min_samples_leaf as int,
                )
            },
        // the leaf ranges partition the training space
        forall|a: int, b: int|
            0 <= a < b < r.2@.len() ==> ranges_disjoint(
                (#[trigger] r.2@[a]).lo,
                r.2@[a].hi,
                (#[trigger] r.2@[b]).lo,
                r.2@[b].hi,
            ),
        records_len_sum(r.2@) == old(space).samples@.len(),
{
    let f_count = dataset.num_features();
    let m = space.size();
    let kk = num_classes;
    let msl = conf.min_samples_leaf;
    let max_features = resolve_max_features(conf.max_features, f_count);
    let use_rng = max_features < f_count;
    let mut rng = rng_from_seed(conf.seed);
    let mut perm: Vec<usize> = Vec::new();
    let mut fi: usize = 0;
    while fi < f_count
        invariant
            fi <= f_count,
            perm@.len() == fi,
            forall|k: int| 0 <= k < fi ==> #[trigger] perm@[k] == k,
        decreases f_count - fi,
    {
        perm.push(fi);
        fi = fi + 1;
    }
    proof {
        assert(perm@ =~= ident_perm(f_count as nat));
    }
    let splitter = GiniSplitter::new(kk, msl);
    let mut tree = DecisionTree::new(f_count as u16);
    let root = tree.root();
    let mut proba: Vec<u64> = Vec::new();
    let ghost mut leaf_records: Seq<LeafRecord<GItem>> = Seq::empty();
    let mut stack: Vec<StackEntry> = Vec::new();
    stack.push(StackEntry { handle: root, lo: 0, hi: m, depth: 0 });
    proof {
        assert(stack_measure(Seq::<StackEntry>::empty()) == 0);
        lemma_stack_measure_push(
            Seq::<StackEntry>::empty(),
            (StackEntry { handle: root, lo: 0, hi: m, depth: 0 }),
        );
        assert(stack@ =~= Seq::<StackEntry>::empty().push(
            (StackEntry { handle: root, lo: 0, hi: m, depth: 0 }),
        ));
        assert((0int) % (kk as int) == 0 && (0int) / (kk as int) == 0) by (nonlinear_arith)
            requires
                kk >= 1,
        {}
        assert(stack_range_sum(Seq::<StackEntry>::empty()) == 0);
        assert(stack@.drop_last() =~= Seq::<StackEntry>::empty());
        assert(stack_range_sum(stack@) == m);
    }

    while stack.len() != 0
        invariant
            dataset.wf(),
            1 <= f_count == dataset.spec_num_features() <= 0xFFFF,
            space.wf(dataset.spec_size()),
            space.samples@.len() == m,
            space.targets@.len() == m,
            1 <= m <= SPLIT_LEN_LIMIT,
            packed_ok(space.targets@, kk as int),
            1 <= kk < 0x1000_0000,
            1 <= msl <= SPLIT_LEN_LIMIT,
            perm@.to_multiset() == ident_perm(f_count as nat).to_multiset(),
            splitter.spec_num_classes() == kk,
            splitter.spec_min_samples_leaf() == msl,
            tree.wf(),
            tree.spec_num_features() == f_count,
            proba@.len() as int % (kk as int) == 0,
            chunks_ok(proba@, kk as int),
            leaf_records.len() == proba@.len() as int / (kk as int),
            forall|k: int|
                0 <= k < leaf_records.len() ==> {
                    let rec = #[trigger] leaf_records[k];
                    &&& g_items_ok(rec.items, kk as int)
                    &&& rec.items.len() >= 1
                    &&& (forall|c: int|
                        0 <= c < kk ==> proba@[k * (kk as int) + c] == (g_mass(rec.items, c) * (
                        PROBA_SCALE as int)) / g_total(rec.items))
                    &&& record_matches_space(rec, space.samples@, space.targets@)
                    &&& leaf_close_reason(
                        *dataset,
                        rec,
                        *conf,
                        kk as nat,
                        conf.min_samples_leaf as int,
                    )
                },
            forall|a: int, b: int|
                0 <= a < b < leaf_records.len() ==> ranges_disjoint(
                    (#[trigger] leaf_records[a]).lo,
                    leaf_records[a].hi,
                    (#[trigger] leaf_records[b]).lo,
                    leaf_records[b].hi,
                ),
            forall|a: int, i: int|
                0 <= a < leaf_records.len() && 0 <= i < stack@.len() ==> ranges_disjoint(
                    (#[trigger] leaf_records[a]).lo,
                    leaf_records[a].hi,
                    (#[trigger] stack@[i]).lo as int,
                    stack@[i].hi as int,
                ),
            forall|i: int, j: int|
                0 <= i < j < stack@.len() ==> ranges_disjoint(
                    (#[trigger] stack@[i]).lo as int,
                    stack@[i].hi as int,
                    (#[trigger] stack@[j]).lo as int,
                    stack@[j].hi as int,
                ),
            records_len_sum(leaf_records) + stack_range_sum(stack@) == m,
            zip_pairs(space.samples@, space.targets@).to_multiset() == zip_pairs(
                old(space).samples@,
                old(space).targets@,
            ).to_multiset(),
            msl == conf.min_samples_leaf,
            tree.leaves_below_or_zero(proba@.len() as int / (kk as int)),
            proba@.len() >= kk || stack@.len() >= 1,
            tree.spec_nodes().len() >= 1 || stack@.len() >= 1,
            proba@.len() as int / (kk as int) + stack_measure(stack@) <= 2 * m,
            tree.spec_nodes().len() + stack_measure(stack@) <= 2 * m,
            forall|i: int|
                0 <= i < stack@.len() ==> (#[trigger] stack@[i]).lo < stack@[i].hi <= m
                    && tree.is_leaf_slot(stack@[i].handle),
            forall|i: int, j: int|
                0 <= i < j < stack@.len() ==> (#[trigger] stack@[i]).handle != (
                #[trigger] stack@[j]).handle,
            forall|i: int|
                0 <= i < stack@.len() ==> ((#[trigger] stack@[i]).handle.spec_child() is ROOT
                    ==> stack@[i].handle.spec_parent() == 0),
        decreases stack_measure(stack@),
    {
        proof {
            assert forall|i: int|
                0 <= i < stack@.len() implies (#[trigger] stack@[i]).lo < stack@[i].hi by {}
            lemma_stack_measure_nonneg(stack@);
        }
        let ghost pre_stack = stack@;
        let e = stack.pop().unwrap();
        proof {
            assert(pre_stack.drop_last() =~= stack@);
            assert(pre_stack.last() == e);
            assert(stack_measure(pre_stack) == stack_measure(stack@) + 2 * (e.hi - e.lo) - 1);
            lemma_stack_measure_nonneg(stack@);
            assert(stack_range_sum(pre_stack) == stack_range_sum(stack@) + (e.hi - e.lo));
            // the popped range avoids every remaining range and record
            assert forall|i: int|
                0 <= i < stack@.len() implies ranges_disjoint(
                (#[trigger] stack@[i]).lo as int,
                stack@[i].hi as int,
                e.lo as int,
                e.hi as int,
            ) by {
                assert(pre_stack[i] == stack@[i]);
                assert(ranges_disjoint(
                    (pre_stack[i]).lo as int,
                    pre_stack[i].hi as int,
                    (pre_stack[pre_stack.len() - 1]).lo as int,
                    pre_stack[pre_stack.len() - 1].hi as int,
                ));
            }
            assert forall|a: int|
                0 <= a < leaf_records.len() implies ranges_disjoint(
                (#[trigger] leaf_records[a]).lo,
                leaf_records[a].hi,
                e.lo as int,
                e.hi as int,
            ) by {
                assert(ranges_disjoint(
                    (leaf_records[a]).lo,
                    leaf_records[a].hi,
                    (pre_stack[pre_stack.len() - 1]).lo as int,
                    pre_stack[pre_stack.len() - 1].hi as int,
                ));
            }
        }
        let len = e.hi - e.lo;
        let can = e.depth < conf.max_depth && len >= conf.min_samples_split && len >= 2 * msl;
        let items = unpack_items(&space.targets, e.lo, e.hi, kk);
        let mut result: Option<BestSplit> = None;
        let ghost mut gbuf: Seq<GItem> = Seq::empty();
        if can {
            let (res, g, _) = search_split(
                dataset,
                &space.samples,
                &space.targets,
                &items,
                e.lo,
                e.hi,
                kk,
                &splitter,
                max_features,
                use_rng,
                &mut rng,
                &mut perm,
            );
            result = res;
            proof {
                gbuf = g@;
            }
        }
        match result {
            Some(b) => {
                let ghost pre_s = space.samples@;
                let ghost pre_t = space.targets@;
                let rsp = space.split(dataset, e.lo, e.hi, b.feature, b.threshold);
                proof {
                    assert(forall|k: int|
                        (0 <= k < e.lo || e.hi <= k < pre_s.len()) ==> space.samples@[k]
                            == pre_s[k] && space.targets@[k] == pre_t[k]);
                    let ds = *dataset;
                    let lo = e.lo as int;
                    let hi = e.hi as int;
                    let thr = b.threshold;
                    let fint = b.feature as int;
                    let buf = gbuf;
                    let pv = b.pivot as int;
                    let pred = |it: GItem| it.key <= thr;
                    // the sorted buffer has exactly pv keys at or below thr
                    assert forall|k: int| 0 <= k < pv implies pred(#[trigger] buf[k]) by {
                        assert(buf[k].key <= buf[pv - 1].key);
                    }
                    assert forall|k: int| pv <= k < buf.len() implies !pred(#[trigger] buf[k]) by {
                        assert(buf[pv].key <= buf[k].key);
                    }
                    lemma_count_matching_partitioned(buf, pred, pv);
                    // so does the keyed view of the old range
                    let keyed = keyed_of(ds, pre_s, pre_t, lo, hi, fint);
                    lemma_count_matching_multiset(buf, keyed, pred);
                    // and the old range itself, pair by pair
                    let zpre = zip_pairs(pre_s, pre_t).subrange(lo, hi);
                    let pred2 = |pr: (u32, u32)| ds.spec_val(pr.0 as int, fint) <= thr;
                    assert forall|k: int|
                        0 <= k < keyed.len() implies (pred(#[trigger] keyed[k]) <==> pred2(
                        #[trigger] zpre[k])) by {
                        assert(keyed[k].key == ds.spec_val(pre_s[lo + k] as int, fint));
                        assert(zpre[k] == (pre_s[lo + k], pre_t[lo + k]));
                    }
                    lemma_count_matching_pointwise(keyed, zpre, pred, pred2);
                    // the partition moved exactly that many pairs to the left
                    let zpost = zip_pairs(space.samples@, space.targets@).subrange(lo, hi);
                    lemma_count_matching_multiset(zpost, zpre, pred2);
                    assert forall|k: int| 0 <= k < rsp - lo implies pred2(#[trigger] zpost[k]) by {
                        assert(zpost[k] == (space.samples@[lo + k], space.targets@[lo + k]));
                    }
                    assert forall|k: int|
                        rsp - lo <= k < zpost.len() implies !pred2(#[trigger] zpost[k]) by {
                        assert(zpost[k] == (space.samples@[lo + k], space.targets@[lo + k]));
                    }
                    lemma_count_matching_partitioned(zpost, pred2, rsp - lo);
                    assert(rsp - lo == pv);
                    // the rearranged targets are still well-packed
                    assert forall|k: int|
                        0 <= k < space.targets@.len() implies 1 <= (#[trigger] space.targets@[k])
                        % 16 <= 15 && space.targets@[k] / 16 < kk by {
                        if lo <= k < hi {
                            let k2 = lemma_pair_source(
                                space.samples@,
                                space.targets@,
                                pre_s,
                                pre_t,
                                lo,
                                hi,
                                k,
                            );
                            assert(space.targets@[k] == pre_t[k2]);
                            assert(1 <= pre_t[k2] % 16 <= 15 && pre_t[k2] / 16 < kk);
                        } else {
                            assert(space.samples@[k] == pre_s[k] && space.targets@[k]
                                == pre_t[k]);
                            assert(1 <= pre_t[k] % 16 <= 15 && pre_t[k] / 16 < kk);
                        }
                    }
                }
                proof {
                    // the partition only rearranged the popped range, so
                    // the space keeps its rows
                    let z1 = zip_pairs(pre_s, pre_t);
                    let z2 = zip_pairs(space.samples@, space.targets@);
                    assert forall|k: int|
                        (0 <= k < e.lo || e.hi <= k < z1.len()) implies #[trigger] z1[k]
                        == z2[k] by {
                        assert(space.samples@[k] == pre_s[k] && space.targets@[k] == pre_t[k]);
                    }
                    lemma_multiset_preserved_outside_unchanged(
                        z1,
                        z2,
                        e.lo as int,
                        e.hi as int,
                    );
                    // closed ranges are untouched by a partition inside the
                    // popped range
                    assert forall|a: int|
                        0 <= a < leaf_records.len() implies record_matches_space(
                        #[trigger] leaf_records[a],
                        space.samples@,
                        space.targets@,
                    ) by {
                        let rec = leaf_records[a];
                        assert(record_matches_space(rec, pre_s, pre_t));
                        assert(ranges_disjoint(rec.lo, rec.hi, e.lo as int, e.hi as int));
                        assert forall|j: int|
                            0 <= j < rec.hi - rec.lo implies (#[trigger] rec.samples[j])
                            == space.samples@[rec.lo + j] by {
                            assert(rec.lo + j < e.lo || e.hi <= rec.lo + j);
                            assert(space.samples@[rec.lo + j] == pre_s[rec.lo + j]);
                        }
                        assert forall|j: int|
                            0 <= j < rec.hi - rec.lo implies (#[trigger] rec.items[j]) == (GItem {
                            key: 0,
                            target: (space.targets@[rec.lo + j] / 16) as u32,
                            weight: (space.targets@[rec.lo + j] % 16) as u32,
                        }) by {
                            assert(rec.lo + j < e.lo || e.hi <= rec.lo + j);
                            assert(space.targets@[rec.lo + j] == pre_t[rec.lo + j]);
                        }
                    }
                }
                let ghost pre_split_tree = tree;
                let (lh, rh) = tree.split(&e.handle, b.feature as u16, b.threshold);
                let ghost pre_push = stack@;
                stack.push(StackEntry { handle: lh, lo: e.lo, hi: rsp, depth: e.depth + 1 });
                stack.push(StackEntry { handle: rh, lo: rsp, hi: e.hi, depth: e.depth + 1 });
                proof {
                    let le = StackEntry { handle: lh, lo: e.lo, hi: rsp, depth: (e.depth + 1) as usize };
                    let re2 = StackEntry { handle: rh, lo: rsp, hi: e.hi, depth: (e.depth + 1) as usize };
                    assert(stack@ =~= pre_push.push(le).push(re2));
                    lemma_stack_measure_push(pre_push, le);
                    lemma_stack_measure_push(pre_push.push(le), re2);
                    assert(stack_measure(stack@) == stack_measure(pre_push) + 2 * (e.hi - e.lo)
                        - 2);
                    // the child ranges stay inside the popped one, so the
                    // disjointness facts and the row accounting carry over
                    assert(stack_range_sum(pre_push.push(le)) == stack_range_sum(pre_push) + (rsp
                        - e.lo)) by {
                        assert(pre_push.push(le).drop_last() =~= pre_push);
                    }
                    assert(stack_range_sum(stack@) == stack_range_sum(pre_push.push(le)) + (e.hi
                        - rsp)) by {
                        assert(stack@.drop_last() =~= pre_push.push(le));
                        assert(stack@.last() == re2);
                    }
                    assert forall|i: int, j: int|
                        0 <= i < j < stack@.len() implies ranges_disjoint(
                        (#[trigger] stack@[i]).lo as int,
                        stack@[i].hi as int,
                        (#[trigger] stack@[j]).lo as int,
                        stack@[j].hi as int,
                    ) by {
                        if j < pre_push.len() {
                            assert(stack@[i] == pre_push[i] && stack@[j] == pre_push[j]);
                            assert(pre_push[i] == pre_stack[i] && pre_push[j] == pre_stack[j]);
                        } else if i < pre_push.len() {
                            assert(stack@[i] == pre_push[i]);
                            assert(ranges_disjoint(
                                (pre_push[i]).lo as int,
                                pre_push[i].hi as int,
                                e.lo as int,
                                e.hi as int,
                            ));
                        }
                    }
                    assert forall|a: int, i: int|
                        0 <= a < leaf_records.len() && 0 <= i < stack@.len() implies
                        ranges_disjoint(
                        (#[trigger] leaf_records[a]).lo,
                        leaf_records[a].hi,
                        (#[trigger] stack@[i]).lo as int,
                        stack@[i].hi as int,
                    ) by {
                        if i < pre_push.len() {
                            assert(stack@[i] == pre_push[i]);
                            assert(pre_push[i] == pre_stack[i]);
                            assert(ranges_disjoint(
                                (leaf_records[a]).lo,
                                leaf_records[a].hi,
                                (pre_stack[i]).lo as int,
                                pre_stack[i].hi as int,
                            ));
                        } else {
                            assert(ranges_disjoint(
                                (leaf_records[a]).lo,
                                leaf_records[a].hi,
                                e.lo as int,
                                e.hi as int,
                            ));
                        }
                    }
                    let onodes = pre_split_tree.spec_nodes();
                    let olen = onodes.len() as int;
                    // the popped handle differs from every remaining entry's
                    assert forall|i: int|
                        0 <= i < pre_push.len() implies (#[trigger] pre_push[i]).handle
                        != e.handle by {
                        assert(pre_stack[i] == pre_push[i]);
                        assert(pre_stack[pre_stack.len() - 1] == e);
                    }
                    // every remaining old entry still names a leaf slot
                    assert forall|i: int|
                        0 <= i < pre_push.len() implies tree.is_leaf_slot(
                        (#[trigger] pre_push[i]).handle,
                    ) by {
                        let h = pre_push[i].handle;
                        assert(pre_split_tree.is_leaf_slot(h));
                        if h.spec_child() is ROOT {
                            assert(olen == 0);
                            assert(e.handle.spec_child() is ROOT);
                            assert(h.spec_parent() == 0 && e.handle.spec_parent() == 0);
                            assert(h == e.handle);
                            assert(false);
                        } else {
                            assert(h.spec_parent() < olen);
                            if e.handle.spec_child() is ROOT || h.spec_parent()
                                != e.handle.spec_parent() {
                                assert(tree.spec_nodes()[h.spec_parent()]
                                    == onodes[h.spec_parent()]);
                            } else {
                                assert(h.spec_child() != e.handle.spec_child());
                            }
                        }
                    }
                    // handles stay pairwise distinct
                    assert forall|i: int, j: int|
                        0 <= i < j < stack@.len() implies (#[trigger] stack@[i]).handle != (
                        #[trigger] stack@[j]).handle by {
                        if j < pre_push.len() {
                            assert(pre_stack[i] == pre_push[i] && pre_stack[j] == pre_push[j]);
                        } else if i < pre_push.len() {
                            let h = pre_push[i].handle;
                            assert(pre_split_tree.is_leaf_slot(h));
                            if h.spec_child() is ROOT {
                                assert(olen == 0);
                                assert(h == e.handle);
                                assert(false);
                            } else {
                                assert(h.spec_parent() < olen);
                            }
                        }
                    }
                    // leaf values are untouched by a split
                    assert forall|i: int|
                        0 <= i < tree.spec_nodes().len() implies {
                        let n = #[trigger] tree.spec_nodes()[i];
                        &&& (n.left_is_leaf ==> n.left < proba@.len() as int / (kk as int)
                            || n.left == 0)
                        &&& (n.right_is_leaf ==> n.right < proba@.len() as int / (kk as int)
                            || n.right == 0)
                    } by {
                        if i < olen {
                            if e.handle.spec_child() is ROOT || i != e.handle.spec_parent() {
                                assert(tree.spec_nodes()[i] == onodes[i]);
                            }
                        }
                    }
                }
            },
            None => {
                let offset = proba.len() / kk;
                let ghost pre_plen = proba@.len() as int;
                proof {
                    lemma_stack_measure_nonneg(stack@);
                    let kv = kk as int;
                    lemma_fundamental_div_mod(pre_plen, kv);
                    assert(pre_plen == kv * offset);
                    assert(offset < 2 * m);
                }
                let ghost pre_proba = proba@;
                push_leaf_chunk(&items, kk, &mut proba);
                let ghost pre_leaf_tree = tree;
                tree.set_leaf_value(&e.handle, offset as u32);
                proof {
                    let ghost pre_records = leaf_records;
                    let ghost rec = LeafRecord::<GItem> {
                        samples: space.samples@.subrange(e.lo as int, e.hi as int),
                        items: items@,
                        lo: e.lo as int,
                        hi: e.hi as int,
                        depth: e.depth as int,
                    };
                    leaf_records = leaf_records.push(rec);
                    let kv0 = kk as int;
                    assert(record_matches_space(rec, space.samples@, space.targets@));
                    // the leaf was closed only for one of the stopping
                    // rule's reasons
                    if can {
                        if g_sq(items@, kk as nat) == g_total(items@) * g_total(items@) {
                        } else {
                            lemma_batch_no_split_from_space(
                                *dataset,
                                rec,
                                space.samples@,
                                space.targets@,
                                kk as int,
                                msl as int,
                            );
                        }
                    }
                    assert(leaf_close_reason(*dataset, rec, *conf, kk as nat, msl as int));
                    assert forall|k: int|
                        0 <= k < leaf_records.len() implies {
                        let r2 = #[trigger] leaf_records[k];
                        &&& g_items_ok(r2.items, kv0)
                        &&& r2.items.len() >= 1
                        &&& (forall|c: int|
                            0 <= c < kk ==> proba@[k * kv0 + c] == (g_mass(r2.items, c) * (
                            PROBA_SCALE as int)) / g_total(r2.items))
                        &&& record_matches_space(r2, space.samples@, space.targets@)
                        &&& leaf_close_reason(*dataset, r2, *conf, kk as nat, msl as int)
                    } by {
                        if k < leaf_records.len() - 1 {
                            assert(leaf_records[k] == pre_records[k]);
                            assert forall|c: int|
                                0 <= c < kk implies proba@[k * kv0 + c] == (g_mass(
                                (#[trigger] leaf_records[k]).items,
                                c,
                            ) * (PROBA_SCALE as int)) / g_total(leaf_records[k].items) by {
                                assert(0 <= k * kv0 + c && k * kv0 + c < pre_plen) by (
                                nonlinear_arith)
                                    requires
                                        0 <= k < offset,
                                        0 <= c < kv0,
                                        pre_plen == kv0 * offset,
                                {}
                                assert(proba@[k * kv0 + c] == pre_proba[k * kv0 + c]);
                            }
                        } else {
                            assert(leaf_records[k] == rec);
                            assert forall|c: int|
                                0 <= c < kk implies proba@[k * kv0 + c] == (g_mass(items@, c) * (
                                PROBA_SCALE as int)) / g_total(items@) by {
                                assert(k * kv0 + c == pre_plen + c) by (nonlinear_arith)
                                    requires
                                        k == offset,
                                        pre_plen == kv0 * offset,
                                {}
                            }
                        }
                    }
                    // disjointness and row accounting extend to the new
                    // record
                    assert forall|a: int, b: int|
                        0 <= a < b < leaf_records.len() implies ranges_disjoint(
                        (#[trigger] leaf_records[a]).lo,
                        leaf_records[a].hi,
                        (#[trigger] leaf_records[b]).lo,
                        leaf_records[b].hi,
                    ) by {
                        assert(leaf_records[a] == pre_records[a]);
                        if b < leaf_records.len() - 1 {
                            assert(leaf_records[b] == pre_records[b]);
                        } else {
                            assert(leaf_records[b] == rec);
                            assert(ranges_disjoint(
                                (pre_records[a]).lo,
                                pre_records[a].hi,
                                e.lo as int,
                                e.hi as int,
                            ));
                        }
                    }
                    assert forall|a: int, i: int|
                        0 <= a < leaf_records.len() && 0 <= i < stack@.len() implies
                        ranges_disjoint(
                        (#[trigger] leaf_records[a]).lo,
                        leaf_records[a].hi,
                        (#[trigger] stack@[i]).lo as int,
                        stack@[i].hi as int,
                    ) by {
                        if a < leaf_records.len() - 1 {
                            assert(leaf_records[a] == pre_records[a]);
                        } else {
                            assert(leaf_records[a] == rec);
                            assert(ranges_disjoint(
                                (stack@[i]).lo as int,
                                stack@[i].hi as int,
                                e.lo as int,
                                e.hi as int,
                            ));
                        }
                    }
                    assert(records_len_sum(leaf_records) == records_len_sum(pre_records) + (e.hi
                        - e.lo)) by {
                        assert(leaf_records.drop_last() =~= pre_records);
                        assert(leaf_records.last() == rec);
                    }
                    let kv = kk as int;
                    assert(proba@.len() == kv * (offset + 1)) by (nonlinear_arith)
                        requires
                            proba@.len() == pre_plen + kv,
                            pre_plen == kv * offset,
                    {}
                    vstd::arithmetic::div_mod::lemma_div_multiples_vanish(offset + 1, kv);
                    assert(proba@.len() as int / kv == offset + 1);
                    vstd::arithmetic::div_mod::lemma_mod_multiples_basic(offset + 1, kv);
                    assert(((offset + 1) * kv) % kv == 0);
                    assert(proba@.len() as int % kv == 0);
                    let onodes = pre_leaf_tree.spec_nodes();
                    let olen = onodes.len() as int;
                    let chunks = proba@.len() as int / kv;
                    if e.handle.spec_child() is ROOT {
                        // the root slot exists only while the tree is empty,
                        // so nothing else is pending
                        assert forall|i: int| 0 <= i < stack@.len() implies #[trigger] stack@[i]
                            != stack@[i] by {
                            let h = stack@[i].handle;
                            assert(pre_leaf_tree.is_leaf_slot(h));
                            assert(olen == 0);
                            assert(h.spec_child() is ROOT);
                            assert(h.spec_parent() == 0);
                            assert(e.handle.spec_parent() == 0);
                            assert(pre_stack[i] == stack@[i]);
                            assert(pre_stack[pre_stack.len() - 1] == e);
                            assert(h == e.handle);
                        }
                        assert(stack@.len() == 0);
                        assert(tree.leaves_below_or_zero(chunks));
                    } else {
                        // only one slot's value changed; flags are untouched
                        assert forall|i: int|
                            0 <= i < stack@.len() implies (#[trigger] stack@[i]).lo
                            < stack@[i].hi <= m && tree.is_leaf_slot(stack@[i].handle) by {
                            assert(pre_stack[i] == stack@[i]);
                            let h = stack@[i].handle;
                            assert(pre_leaf_tree.is_leaf_slot(h));
                            if h.spec_child() is ROOT {
                                assert(olen == 0);
                                assert(e.handle.spec_parent() < olen);
                                assert(false);
                            } else {
                                if i != e.handle.spec_parent() {
                                }
                                assert(tree.spec_nodes()[h.spec_parent()].left_is_leaf
                                    == onodes[h.spec_parent()].left_is_leaf);
                                assert(tree.spec_nodes()[h.spec_parent()].right_is_leaf
                                    == onodes[h.spec_parent()].right_is_leaf);
                            }
                        }
                        assert forall|i: int|
                            0 <= i < tree.spec_nodes().len() implies {
                            let n = #[trigger] tree.spec_nodes()[i];
                            &&& (n.left_is_leaf ==> n.left < chunks || n.left == 0)
                            &&& (n.right_is_leaf ==> n.right < chunks || n.right == 0)
                        } by {
                            if i != e.handle.spec_parent() {
                                assert(tree.spec_nodes()[i] == onodes[i]);
                            }
                        }
                    }
                }
            },
        }
    }
    proof {
        assert(proba@.len() >= kk);
        assert(proba@.len() as int / (kk as int) >= 1) by (nonlinear_arith)
            requires
                proba@.len() >= kk,
                kk >= 1,
        {}
    }
    (tree, proba, Ghost(leaf_records))
}

} // verus!
