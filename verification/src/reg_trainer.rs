//! The iterative tree trainer for regression.
//!
//! The same stack-driven partitioning as the classification trainer, with
//! the MSE splitter and fixed-point targets: a closed leaf stores the
//! weighted mean of its targets in the value table.
use vstd::prelude::*;

use crate::config::TrainConfig;
use crate::counting::{
    count_matching, lemma_count_matching_multiset, lemma_count_matching_partitioned,
    lemma_count_matching_pointwise,
};
use crate::dataset::Dataset;
use crate::decision_tree::{Child, DecisionTree, NodeHandle};
use crate::metrics::TARGET_LIMIT;
use crate::rng::{rng_from_seed, rng_shuffle};
use crate::sorting::sort_m_items;
use crate::ratio::{div_toward_zero, lemma_frac_le_lt_trans};
use crate::splitter::{
    lemma_m_bounds, lemma_m_gain_den_pos, m_gain_den, m_gain_gt, m_gain_gt_across, m_gain_num,
    m_items_ok, m_legal_split, m_sorted_by_key, m_sq, m_sum, m_total, mse_accumulate, Gain,
    MItem, MseSplitter, MSE_LEN_LIMIT,
};
use crate::trainer::{
    ident_perm, lemma_perm_bounded, lemma_perm_index_of, mid_key, ranges_disjoint,
    records_len_sum, resolve_max_features, stack_measure, stack_range_sum, BestSplit, LeafRecord,
    StackEntry,
};
use crate::trainset::{lemma_multiset_preserved_outside_unchanged, zip_pairs, TrainSpace};
use crate::weightable::WeightedTarget;

verus! {

/// Every weighted regression target has a weight from 1 to 15 and a target
/// within the fixed-point range.
pub open spec fn wt_ok(t: Seq<WeightedTarget>) -> bool {
    forall|k: int|
        0 <= k < t.len() ==> 1 <= (#[trigger] t[k]).weight <= 15 && -(TARGET_LIMIT as int)
            <= t[k].target <= TARGET_LIMIT
}

/// The regression scan buffer of `[lo, hi)` keyed by one feature.
pub open spec fn m_keyed_of(
    ds: Dataset,
    samples: Seq<u32>,
    targets: Seq<WeightedTarget>,
    lo: int,
    hi: int,
    feature: int,
) -> Seq<MItem> {
    Seq::new(
        (hi - lo) as nat,
        |k: int|
            MItem {
                key: ds.spec_val(samples[lo + k] as int, feature),
                target: targets[lo + k].target,
                weight: targets[lo + k].weight,
            },
    )
}

/// The record holds exactly the rows of its range of the training space.
pub open spec fn m_record_matches_space(
    rec: LeafRecord<MItem>,
    samples: Seq<u32>,
    targets: Seq<WeightedTarget>,
) -> bool {
    &&& 0 <= rec.lo < rec.hi <= targets.len()
    &&& samples.len() == targets.len()
    &&& rec.samples.len() == rec.hi - rec.lo
    &&& rec.items.len() == rec.hi - rec.lo
    &&& forall|j: int|
        0 <= j < rec.hi - rec.lo ==> (#[trigger] rec.samples[j]) == samples[rec.lo + j]
    &&& forall|j: int|
        0 <= j < rec.hi - rec.lo ==> (#[trigger] rec.items[j]) == (MItem {
            key: 0,
            target: targets[rec.lo + j].target,
            weight: targets[rec.lo + j].weight,
        })
}

/// The record's rows keyed by feature `f`.
pub open spec fn m_batch_keyed(ds: Dataset, rec: LeafRecord<MItem>, f: int) -> Seq<MItem> {
    Seq::new(
        rec.items.len(),
        |j: int|
            MItem {
                key: ds.spec_val(rec.samples[j] as int, f),
                target: rec.items[j].target,
                weight: rec.items[j].weight,
            },
    )
}

/// Feature `f` offers no legal split of the record's rows.
pub open spec fn m_batch_feature_no_split(
    ds: Dataset,
    rec: LeafRecord<MItem>,
    f: int,
    msl: int,
) -> bool {
    exists|buf: Seq<MItem>|
        #![trigger buf.to_multiset()]
        m_sorted_by_key(buf) && buf.to_multiset() == m_batch_keyed(ds, rec, f).to_multiset() && (
        forall|q: int| !m_legal_split(buf, q, msl))
}

/// No feature offers a legal split of the record's rows.
pub open spec fn m_batch_offers_no_split(ds: Dataset, rec: LeafRecord<MItem>, msl: int) -> bool {
    forall|f: int|
        0 <= f < ds.spec_num_features() ==> #[trigger] m_batch_feature_no_split(ds, rec, f, msl)
}

/// The stopping rule: a leaf was closed only because its depth or size gate
/// failed, its rows were pure, or no feature offered a legal split.
pub open spec fn m_leaf_close_reason(
    ds: Dataset,
    rec: LeafRecord<MItem>,
    conf: TrainConfig,
    msl: int,
) -> bool {
    ||| rec.depth >= conf.max_depth
    ||| rec.hi - rec.lo < conf.min_samples_split
    ||| rec.hi - rec.lo < 2 * conf.min_samples_leaf
    ||| m_total(rec.items) * m_sq(rec.items) == m_sum(rec.items) * m_sum(rec.items)
    ||| m_batch_offers_no_split(ds, rec, msl)
}

/// When no feature offers a legal split of a range of the training space,
/// none offers one of the record holding exactly that range's rows.
proof fn lemma_m_batch_no_split_from_space(
    ds: Dataset,
    rec: LeafRecord<MItem>,
    samples: Seq<u32>,
    targets: Seq<WeightedTarget>,
    msl: int,
)
    requires
        m_record_matches_space(rec, samples, targets),
        forall|f: int|
            0 <= f < ds.spec_num_features() ==> m_feature_offers_no_split(
                ds,
                samples,
                targets,
                rec.lo,
                rec.hi,
                f,
                msl,
            ),
    ensures
        m_batch_offers_no_split(ds, rec, msl),
{
    assert forall|f: int|
        0 <= f < ds.spec_num_features() implies #[trigger] m_batch_feature_no_split(
        ds,
        rec,
        f,
        msl,
    ) by {
        assert(m_feature_offers_no_split(ds, samples, targets, rec.lo, rec.hi, f, msl));
        let buf = choose|buf: Seq<MItem>|
            #![trigger buf.to_multiset()]
            m_sorted_by_key(buf) && buf.to_multiset() == m_keyed_of(
                ds,
                samples,
                targets,
                rec.lo,
                rec.hi,
                f,
            ).to_multiset() && (forall|q: int| !m_legal_split(buf, q, msl));
        assert(m_batch_keyed(ds, rec, f) =~= m_keyed_of(ds, samples, targets, rec.lo, rec.hi, f));
        assert(buf.to_multiset() == m_batch_keyed(ds, rec, f).to_multiset());
        assert(m_sorted_by_key(buf));
    }
}

/// Items with the same multiset are item-wise in range too.
proof fn lemma_m_items_ok_multiset(s1: Seq<MItem>, s2: Seq<MItem>)
    requires
        s1.to_multiset() == s2.to_multiset(),
        m_items_ok(s1),
    ensures
        m_items_ok(s2),
{
    broadcast use vstd::seq_lib::group_to_multiset_ensures;

    assert forall|k: int|
        0 <= k < s2.len() implies 1 <= (#[trigger] s2[k]).weight <= 15 && -(TARGET_LIMIT as int)
        <= s2[k].target <= TARGET_LIMIT by {
        let it = s2[k];
        assert(s2.contains(it));
        assert(s2.to_multiset().count(it) > 0);
        assert(s1.to_multiset().count(it) > 0);
        assert(s1.contains(it));
        let j = choose|j: int| 0 <= j < s1.len() && s1[j] == it;
        assert(1 <= s1[j].weight <= 15);
    }
}

/// An element of the rearranged part of a partitioned range was present in
/// the original part; returns where.
proof fn lemma_wt_pair_source(
    ns: Seq<u32>,
    nt: Seq<WeightedTarget>,
    os: Seq<u32>,
    ot: Seq<WeightedTarget>,
    lo: int,
    hi: int,
    k: int,
) -> (k2: int)
    requires
        ns.len() == nt.len(),
        os.len() == ot.len(),
        hi <= ns.len(),
        hi <= os.len(),
        0 <= lo <= k < hi,
        zip_pairs(ns, nt).subrange(lo, hi).to_multiset() == zip_pairs(os, ot).subrange(
            lo,
            hi,
        ).to_multiset(),
    ensures
        lo <= k2 < hi,
        os[k2] == ns[k],
        ot[k2] == nt[k],
{
    broadcast use vstd::seq_lib::group_to_multiset_ensures;

    let zn = zip_pairs(ns, nt).subrange(lo, hi);
    let zo = zip_pairs(os, ot).subrange(lo, hi);
    let pair = zn[k - lo];
    assert(zn.contains(pair));
    assert(zn.to_multiset().count(pair) > 0);
    assert(zo.to_multiset().count(pair) > 0);
    assert(zo.contains(pair));
    let j = choose|j: int| 0 <= j < zo.len() && zo[j] == pair;
    assert(zo[j] == (os[lo + j], ot[lo + j]));
    lo + j
}

/// The weighted targets of `[lo, hi)`, with a zero key that a feature scan
/// later overwrites.
fn unpack_reg_items(targets: &Vec<WeightedTarget>, lo: usize, hi: usize) -> (r: Vec<MItem>)
    requires
        lo <= hi <= targets@.len(),
        wt_ok(targets@),
    ensures
        r@.len() == hi - lo,
        forall|k: int|
            0 <= k < hi - lo ==> (#[trigger] r@[k]) == (MItem {
                key: 0,
                target: targets@[lo + k].target,
                weight: targets@[lo + k].weight,
            }),
        m_items_ok(r@),
{
    let mut r: Vec<MItem> = Vec::new();
    let mut k: usize = lo;
    while k < hi
        invariant
            lo <= k <= hi <= targets@.len(),
            wt_ok(targets@),
            r@.len() == k - lo,
            forall|j: int|
                0 <= j < k - lo ==> (#[trigger] r@[j]) == (MItem {
                    key: 0,
                    target: targets@[lo + j].target,
                    weight: targets@[lo + j].weight,
                }),
        decreases hi - k,
    {
        let t = targets[k];
        r.push(MItem { key: 0, target: t.target, weight: t.weight });
        k = k + 1;
    }
    r
}

/// The items of `[lo, hi)` keyed by one feature's values.
fn keyed_reg_items(
    dataset: &Dataset,
    samples: &Vec<u32>,
    targets: &Vec<WeightedTarget>,
    items: &Vec<MItem>,
    lo: usize,
    hi: usize,
    feature: usize,
) -> (r: Vec<MItem>)
    requires
        dataset.wf(),
        lo <= hi <= samples@.len(),
        samples@.len() == targets@.len(),
        forall|k: int| 0 <= k < samples@.len() ==> #[trigger] samples@[k] < dataset.spec_size(),
        feature < dataset.spec_num_features(),
        wt_ok(targets@),
        items@.len() == hi - lo,
        forall|k: int|
            0 <= k < hi - lo ==> (#[trigger] items@[k]) == (MItem {
                key: 0,
                target: targets@[lo + k].target,
                weight: targets@[lo + k].weight,
            }),
    ensures
        r@ =~= m_keyed_of(*dataset, samples@, targets@, lo as int, hi as int, feature as int),
        r@.len() == hi - lo,
        m_items_ok(r@),
{
    let mut r: Vec<MItem> = Vec::new();
    let mut k: usize = lo;
    while k < hi
        invariant
            dataset.wf(),
            lo <= k <= hi <= samples@.len(),
            samples@.len() == targets@.len(),
            forall|j: int| 0 <= j < samples@.len() ==> #[trigger] samples@[j] < dataset.spec_size(),
            feature < dataset.spec_num_features(),
            wt_ok(targets@),
            items@.len() == hi - lo,
            forall|j: int|
                0 <= j < hi - lo ==> (#[trigger] items@[j]) == (MItem {
                    key: 0,
                    target: targets@[lo + j].target,
                    weight: targets@[lo + j].weight,
                }),
            r@.len() == k - lo,
            forall|j: int|
                0 <= j < k - lo ==> (#[trigger] r@[j]) == (MItem {
                    key: dataset.spec_val(samples@[lo + j] as int, feature as int),
                    target: targets@[lo + j].target,
                    weight: targets@[lo + j].weight,
                }),
        decreases hi - k,
    {
        let sid = samples[k];
        let key = dataset.feature_val(sid as usize, feature);
        let it = items[k - lo];
        r.push(MItem { key, target: it.target, weight: it.weight });
        k = k + 1;
    }
    r
}

/// One entry of the regression scan record: the sorted scan buffer the
/// driver built for feature `f` of the node `[lo, hi)`.
pub open spec fn m_scanned_entry_ok(
    buf: Seq<MItem>,
    ds: Dataset,
    samples: Seq<u32>,
    targets: Seq<WeightedTarget>,
    lo: int,
    hi: int,
    f: int,
) -> bool {
    &&& buf.len() == hi - lo
    &&& m_sorted_by_key(buf)
    &&& m_items_ok(buf)
    &&& buf.to_multiset() == m_keyed_of(ds, samples, targets, lo, hi, f).to_multiset()
}

/// The winner of a regression feature scan: candidate `pivot` of
/// `scanned[w]` has at least the gain of every legal candidate of every
/// scanned buffer, strictly more than every candidate of an earlier buffer
/// and every earlier candidate of its own buffer.
pub open spec fn m_winner_dominates(
    scanned: Seq<Seq<MItem>>,
    w: int,
    pivot: int,
    msl: int,
) -> bool {
    &&& 0 <= w < scanned.len()
    &&& forall|j: int, q: int|
        0 <= j < scanned.len() && #[trigger] m_legal_split(scanned[j], q, msl)
            ==> !m_gain_gt_across(scanned[j], q, scanned[w], pivot)
    &&& forall|j: int, q: int|
        0 <= j < w && #[trigger] m_legal_split(scanned[j], q, msl) ==> m_gain_gt_across(
            scanned[w],
            pivot,
            scanned[j],
            q,
        )
    &&& forall|q: int|
        m_legal_split(scanned[w], q, msl) && q < pivot ==> m_gain_gt(scanned[w], pivot, q)
}

/// The scan record names a winning entry, reached within the feature budget
/// or as the first find beyond it.
pub open spec fn m_scan_has_winner(
    scanned: Seq<Seq<MItem>>,
    perm: Seq<usize>,
    buf: Seq<MItem>,
    b: BestSplit,
    msl: int,
    max_features: int,
) -> bool {
    exists|w: int|
        0 <= w < scanned.len() && #[trigger] scanned[w] == buf && b.feature == perm[w]
            && m_winner_dominates(scanned, w, b.pivot as int, msl) && (w + 1 == scanned.len()
            || scanned.len() <= max_features)
}

/// No sorted arrangement of the node's rows keyed by feature `f` has a
/// legal boundary: the feature offers no split of this node.
pub open spec fn m_feature_offers_no_split(
    ds: Dataset,
    samples: Seq<u32>,
    targets: Seq<WeightedTarget>,
    lo: int,
    hi: int,
    f: int,
    msl: int,
) -> bool {
    exists|buf: Seq<MItem>|
        #![trigger buf.to_multiset()]
        m_sorted_by_key(buf) && buf.to_multiset() == m_keyed_of(
            ds,
            samples,
            targets,
            lo,
            hi,
            f,
        ).to_multiset() && (forall|q: int| !m_legal_split(buf, q, msl))
}

/// Scans features in permutation order and keeps the first best legal MSE
/// split, continuing past `max_features` features for as long as none has
/// offered one. `None` only when the node is pure or no feature of the
/// dataset offers a legal split of it; a `Some` winner dominates every
/// legal candidate of every scanned buffer, first wins.
pub open spec fn m_best_split_ok(
    b: BestSplit,
    buf: Seq<MItem>,
    ds: Dataset,
    samples: Seq<u32>,
    targets: Seq<WeightedTarget>,
    lo: int,
    hi: int,
    msl: int,
) -> bool {
    &&& b.feature < ds.spec_num_features()
    &&& buf.len() == hi - lo
    &&& m_sorted_by_key(buf)
    &&& m_items_ok(buf)
    &&& buf.to_multiset() == m_keyed_of(ds, samples, targets, lo, hi, b.feature as int).to_multiset()
    &&& m_legal_split(buf, b.pivot as int, msl)
    &&& b.threshold == buf[b.pivot - 1].key + (buf[b.pivot as int].key - buf[b.pivot
        - 1].key) / 2
    &&& buf[b.pivot - 1].key <= b.threshold < buf[b.pivot as int].key
}

#[verifier::rlimit(100)]
#[verifier::spinoff_prover]
fn search_reg_split(
    dataset: &Dataset,
    samples: &Vec<u32>,
    targets: &Vec<WeightedTarget>,
    items: &Vec<MItem>,
    lo: usize,
    hi: usize,
    splitter: &MseSplitter,
    max_features: usize,
    use_rng: bool,
    rng: &mut rand::rngs::SmallRng,
    perm: &mut Vec<usize>,
) -> (r: (Option<BestSplit>, Ghost<Seq<MItem>>, Ghost<Seq<Seq<MItem>>>))
    requires
        dataset.wf(),
        1 <= dataset.spec_num_features(),
        lo < hi <= samples@.len(),
        samples@.len() == targets@.len(),
        forall|k: int| 0 <= k < samples@.len() ==> #[trigger] samples@[k] < dataset.spec_size(),
        wt_ok(targets@),
        hi - lo <= MSE_LEN_LIMIT,
        splitter.spec_min_samples_leaf() >= 1,
        2 * splitter.spec_min_samples_leaf() <= hi - lo,
        old(perm)@.to_multiset() == ident_perm(dataset.spec_num_features() as nat).to_multiset(),
        items@.len() == hi - lo,
        forall|k: int|
            0 <= k < hi - lo ==> (#[trigger] items@[k]) == (MItem {
                key: 0,
                target: targets@[lo + k].target,
                weight: targets@[lo + k].weight,
            }),
    ensures
        final(perm)@.to_multiset() == old(perm)@.to_multiset(),
        final(perm)@.len() == dataset.spec_num_features(),
        r.2@.len() <= dataset.spec_num_features(),
        forall|j: int|
            0 <= j < r.2@.len() ==> m_scanned_entry_ok(
                #[trigger] r.2@[j],
                *dataset,
                samples@,
                targets@,
                lo as int,
                hi as int,
                final(perm)@[j] as int,
            ),
        r.0 is None ==> m_total(items@) * m_sq(items@) == m_sum(items@) * m_sum(items@) || (
        r.2@.len() == dataset.spec_num_features() && (forall|j: int, q: int|
            0 <= j < r.2@.len() ==> !(#[trigger] m_legal_split(
                r.2@[j],
                q,
                splitter.spec_min_samples_leaf(),
            ))) && (forall|f: int|
            0 <= f < dataset.spec_num_features() ==> m_feature_offers_no_split(
                *dataset,
                samples@,
                targets@,
                lo as int,
                hi as int,
                f,
                splitter.spec_min_samples_leaf(),
            ))),
        r.0 matches Some(b) ==> m_best_split_ok(
            b,
            r.1@,
            *dataset,
            samples@,
            targets@,
            lo as int,
            hi as int,
            splitter.spec_min_samples_leaf(),
        ),
        r.0 matches Some(b) ==> m_scan_has_winner(
            r.2@,
            final(perm)@,
            r.1@,
            b,
            splitter.spec_min_samples_leaf(),
            max_features as int,
        ),
        r.0 is Some ==> r.2@.len() == dataset.spec_num_features() || r.2@.len() >= max_features,
{
    let ghost msl_spec = splitter.spec_min_samples_leaf();
    let ghost fc = dataset.spec_num_features();
    let impure = splitter.prepare(items);
    let ghost dummy: Seq<MItem> = Seq::empty();
    let ghost mut scanned: Seq<Seq<MItem>> = Seq::empty();
    proof {
        broadcast use vstd::seq_lib::group_to_multiset_ensures;

        assert(perm@.to_multiset().len() == perm@.len());
        assert(ident_perm(fc as nat).to_multiset().len() == ident_perm(fc as nat).len());
        assert(perm@.len() == fc);
    }
    if !impure {
        return (None, Ghost(dummy), Ghost(scanned));
    }
    if use_rng {
        rng_shuffle(rng, perm);
    }
    proof {
        broadcast use vstd::seq_lib::group_to_multiset_ensures;

        assert(perm@.to_multiset().len() == perm@.len());
        assert(ident_perm(fc as nat).to_multiset().len() == ident_perm(fc as nat).len());
        assert forall|k: int| 0 <= k < ident_perm(fc as nat).len() implies (
        #[trigger] ident_perm(fc as nat)[k]) < fc by {}
        lemma_perm_bounded(perm@, ident_perm(fc as nat), fc);
    }
    let f_count = perm.len();
    let mut best: Option<BestSplit> = None;
    let mut best_gain: Option<Gain> = None;
    let ghost mut best_buf: Seq<MItem> = dummy;
    let ghost mut best_w: int = 0;
    let mut idx: usize = 0;
    while idx < f_count && (best.is_none() || idx < max_features)
        invariant
            dataset.wf(),
            1 <= fc == dataset.spec_num_features(),
            lo < hi <= samples@.len(),
            samples@.len() == targets@.len(),
            forall|k: int| 0 <= k < samples@.len() ==> #[trigger] samples@[k] < dataset.spec_size(),
            wt_ok(targets@),
            hi - lo <= MSE_LEN_LIMIT,
            splitter.spec_min_samples_leaf() == msl_spec >= 1,
            2 * msl_spec <= hi - lo,
            perm@.len() == f_count == fc,
            perm@.to_multiset() == old(perm)@.to_multiset(),
            forall|k: int| 0 <= k < perm@.len() ==> #[trigger] perm@[k] < fc,
            items@.len() == hi - lo,
            forall|k: int|
                0 <= k < hi - lo ==> (#[trigger] items@[k]) == (MItem {
                    key: 0,
                    target: targets@[lo + k].target,
                    weight: targets@[lo + k].weight,
                }),
            idx <= f_count,
            scanned.len() == idx,
            forall|j: int|
                0 <= j < idx ==> m_scanned_entry_ok(
                    #[trigger] scanned[j],
                    *dataset,
                    samples@,
                    targets@,
                    lo as int,
                    hi as int,
                    perm@[j] as int,
                ),
            (best is Some) <==> (best_gain is Some),
            best is None ==> forall|j: int, q: int|
                0 <= j < idx ==> !(#[trigger] m_legal_split(scanned[j], q, msl_spec)),
            best matches Some(b) ==> {
                &&& m_best_split_ok(
                    b,
                    best_buf,
                    *dataset,
                    samples@,
                    targets@,
                    lo as int,
                    hi as int,
                    msl_spec,
                )
                &&& 0 <= best_w < idx
                &&& scanned[best_w] == best_buf
                &&& b.feature == perm@[best_w]
                &&& m_winner_dominates(scanned, best_w, b.pivot as int, msl_spec)
                &&& idx <= best_w + 1 || idx <= max_features
            },
            best_gain matches Some(g) ==> {
                &&& 0 < g.den <= crate::ratio::DENOM_LIMIT
                &&& best matches Some(b) ==> g.num == m_gain_num(best_buf, b.pivot as int)
                    && g.den == m_gain_den(best_buf, b.pivot as int)
            },
        decreases f_count - idx,
    {
        let feature = perm[idx];
        let mut buf = keyed_reg_items(dataset, samples, targets, items, lo, hi, feature);
        let ghost keyed = buf@;
        sort_m_items(&mut buf);
        proof {
            lemma_m_items_ok_multiset(keyed, buf@);
        }
        let res = splitter.find_split(&buf, best_gain);
        let ghost pre_scanned = scanned;
        proof {
            scanned = scanned.push(buf@);
            assert(scanned.len() == idx + 1);
            assert forall|j: int| 0 <= j < idx + 1 implies m_scanned_entry_ok(
                #[trigger] scanned[j],
                *dataset,
                samples@,
                targets@,
                lo as int,
                hi as int,
                perm@[j] as int,
            ) by {
                if j < idx {
                    assert(scanned[j] == pre_scanned[j]);
                }
            }
        }
        match res {
            Some(pos) => {
                let thr = mid_key(buf[pos.pivot - 1].key, buf[pos.pivot].key);
                proof {
                    let pv = pos.pivot as int;
                    lemma_m_gain_den_pos(buf@, pv);
                    if best_gain is Some {
                        let g = best_gain->0;
                        // the new winner strictly beats everything the old
                        // one dominated
                        assert forall|j: int, q: int|
                            0 <= j < idx && #[trigger] m_legal_split(
                                scanned[j],
                                q,
                                msl_spec,
                            ) implies m_gain_gt_across(buf@, pv, scanned[j], q) by {
                            assert(scanned[j] == pre_scanned[j]);
                            assert(0 < q < scanned[j].len());
                            lemma_m_gain_den_pos(scanned[j], q);
                            lemma_frac_le_lt_trans(
                                m_gain_num(scanned[j], q),
                                m_gain_den(scanned[j], q),
                                g.num as int,
                                g.den as int,
                                m_gain_num(buf@, pv),
                                m_gain_den(buf@, pv),
                            );
                        }
                    } else {
                        assert forall|j: int, q: int|
                            0 <= j < idx && #[trigger] m_legal_split(
                                scanned[j],
                                q,
                                msl_spec,
                            ) implies m_gain_gt_across(buf@, pv, scanned[j], q) by {
                            assert(scanned[j] == pre_scanned[j]);
                        }
                    }
                    best_w = idx as int;
                    assert(m_winner_dominates(scanned, best_w, pv, msl_spec));
                }
                best = Some(BestSplit { feature, pivot: pos.pivot, threshold: thr });
                best_gain = Some(Gain { num: pos.gain_num, den: pos.gain_den });
                proof {
                    best_buf = buf@;
                }
            },
            None => {
                proof {
                    if best is Some {
                        let b = best->0;
                        let pv = b.pivot as int;
                        assert forall|j: int, q: int|
                            0 <= j < idx + 1 && #[trigger] m_legal_split(
                                scanned[j],
                                q,
                                msl_spec,
                            ) implies !m_gain_gt_across(scanned[j], q, scanned[best_w], pv) by {
                            if j < idx {
                                assert(scanned[j] == pre_scanned[j]);
                            } else {
                                assert(scanned[j] == buf@);
                            }
                        }
                        assert(m_winner_dominates(scanned, best_w, pv, msl_spec));
                    }
                }
            },
        }
        idx = idx + 1;
    }
    proof {
        if best is None {
            assert(idx == f_count);
            assert forall|f: int| 0 <= f < fc implies m_feature_offers_no_split(
                *dataset,
                samples@,
                targets@,
                lo as int,
                hi as int,
                f,
                msl_spec,
            ) by {
                let j = lemma_perm_index_of(perm@, fc as nat, f as usize);
                let buf = scanned[j];
                assert(m_scanned_entry_ok(
                    buf,
                    *dataset,
                    samples@,
                    targets@,
                    lo as int,
                    hi as int,
                    f,
                ));
                assert(m_sorted_by_key(buf));
                assert(buf.to_multiset() == m_keyed_of(
                    *dataset,
                    samples@,
                    targets@,
                    lo as int,
                    hi as int,
                    f,
                ).to_multiset());
                assert(forall|q: int| !m_legal_split(buf, q, msl_spec));
            }
        } else {
            let b = best->0;
            assert(0 <= best_w < scanned.len());
            assert(scanned[best_w] == best_buf);
            assert(b.feature == perm@[best_w]);
            assert(m_winner_dominates(scanned, best_w, b.pivot as int, msl_spec));
            assert(best_w + 1 == scanned.len() || scanned.len() <= max_features);
            assert(m_scan_has_winner(
                scanned,
                perm@,
                best_buf,
                b,
                msl_spec,
                max_features as int,
            ));
        }
    }
    (best, Ghost(best_buf), Ghost(scanned))
}

/// The leaf value of a nonempty range: the weighted mean of its targets,
/// rounded toward zero — the regression twin of the classifier's
/// normalized leaf distribution.
fn leaf_mean(items: &Vec<MItem>) -> (r: i64)
    requires
        m_items_ok(items@),
        1 <= items@.len() <= MSE_LEN_LIMIT,
    ensures
        r == div_toward_zero(m_sum(items@), m_total(items@)),
        -(TARGET_LIMIT as int) <= r <= TARGET_LIMIT,
{
    proof {
        lemma_m_bounds(items@);
    }
    let acc = mse_accumulate(items);
    let total = acc.total();
    let sum = acc.sum();
    proof {
        assert(total >= 1);
        assert(-(total as int) * (TARGET_LIMIT as int) <= sum <= (total as int) * (
        TARGET_LIMIT as int));
    }
    if sum >= 0 {
        let q = (sum as u64) / total;
        proof {
            vstd::arithmetic::div_mod::lemma_fundamental_div_mod(sum as int, total as int);
            assert(q <= TARGET_LIMIT) by (nonlinear_arith)
                requires
                    1 <= total,
                    0 <= sum <= (total as int) * (TARGET_LIMIT as int),
                    sum as int == (total as int) * (q as int) + (sum as int) % (total as int),
                    0 <= (sum as int) % (total as int),
                    TARGET_LIMIT > 0,
            {}
        }
        q as i64
    } else {
        let mag = (-sum) as u64;
        let q = mag / total;
        proof {
            vstd::arithmetic::div_mod::lemma_fundamental_div_mod(mag as int, total as int);
            assert(q <= TARGET_LIMIT) by (nonlinear_arith)
                requires
                    1 <= total,
                    0 <= mag <= (total as int) * (TARGET_LIMIT as int),
                    mag as int == (total as int) * (q as int) + (mag as int) % (total as int),
                    0 <= (mag as int) % (total as int),
                    TARGET_LIMIT > 0,
            {}
        }
        -(q as i64)
    }
}

/// Trains one regression tree over the training space and returns it with
/// its leaf value table of weighted target means.
#[verifier::rlimit(100)]
#[verifier::spinoff_prover]
pub fn fit_reg_tree(
    dataset: &Dataset,
    space: &mut TrainSpace<WeightedTarget>,
    conf: &TrainConfig,
) -> (r: (DecisionTree, Vec<i64>, Ghost<Seq<LeafRecord<MItem>>>))
    requires
        dataset.wf(),
        1 <= dataset.spec_num_features() <= 0xFFFF,
        old(space).wf(dataset.spec_size()),
        1 <= old(space).samples@.len() <= MSE_LEN_LIMIT,
        wt_ok(old(space).targets@),
        1 <= conf.min_samples_leaf <= MSE_LEN_LIMIT,
    ensures
        r.0.wf(),
        r.0.spec_num_features() == dataset.spec_num_features(),
        r.0.spec_nodes().len() >= 1,
        r.1@.len() >= 1,
        r.0.leaves_below(r.1@.len() as int),
        forall|k: int|
            0 <= k < r.1@.len() ==> -(TARGET_LIMIT as int) <= #[trigger] r.1@[k] <= TARGET_LIMIT,
        final(space).samples@.len() == old(space).samples@.len(),
        final(space).targets@.len() == old(space).targets@.len(),
        // training only rearranges the space: the final rows are a
        // permutation of the initial ones
        zip_pairs(final(space).samples@, final(space).targets@).to_multiset() == zip_pairs(
            old(space).samples@,
            old(space).targets@,
        ).to_multiset(),
        // one record per leaf: its value is the weighted mean of its rows,
        // its rows are exactly the contiguous range of the final training
        // space its leaf owns, and it was closed only for one of the
        // stopping rule's reasons
        r.2@.len() == r.1@.len(),
        forall|k: int|
            0 <= k < r.1@.len() ==> {
                let rec = #[trigger] r.2@[k];
                &&& m_items_ok(rec.items)
                &&& rec.items.len() >= 1
                &&& r.1@[k] == div_toward_zero(m_sum(rec.items), m_total(rec.items))
                &&& m_record_matches_space(rec, final(space).samples@, final(space).targets@)
                &&& m_leaf_close_reason(*dataset, rec, *conf, conf.min_samples_leaf as int)
            },
        // the leaf ranges partition the training space
        forall|a: int, b: int|
            0 <= a < b < r.2@.len() ==> ranges_disjoint(
                (#[trigger] r.2@[a]).lo,
                r.2@[a].hi,
                (#[trigger] r.2@[b]).lo,
                r.2@[b].hi,
            ),
        records_len_sum(r.2@) == old(space).samples@.len(),
{
    let f_count = dataset.num_features();
    let m = space.size();
    let msl = conf.min_samples_leaf;
    let max_features = resolve_max_features(conf.max_features, f_count);
    let use_rng = max_features < f_count;
    let mut rng = rng_from_seed(conf.seed);
    let mut perm: Vec<usize> = Vec::new();
    let mut fi: usize = 0;
    while fi < f_count
        invariant
            fi <= f_count,
            perm@.len() == fi,
            forall|k: int| 0 <= k < fi ==> #[trigger] perm@[k] == k,
        decreases f_count - fi,
    {
        perm.push(fi);
        fi = fi + 1;
    }
    proof {
        assert(perm@ =~= ident_perm(f_count as nat));
    }
    let splitter = MseSplitter::new(msl);
    let mut tree = DecisionTree::new(f_count as u16);
    let root = tree.root();
    let mut values: Vec<i64> = Vec::new();
    let ghost mut leaf_records: Seq<LeafRecord<MItem>> = Seq::empty();
    let mut stack: Vec<StackEntry> = Vec::new();
    stack.push(StackEntry { handle: root, lo: 0, hi: m, depth: 0 });
    proof {
        assert(stack_measure(Seq::<StackEntry>::empty()) == 0);
        crate::trainer::lemma_stack_measure_push(
            Seq::<StackEntry>::empty(),
            (StackEntry { handle: root, lo: 0, hi: m, depth: 0 }),
        );
        assert(stack@ =~= Seq::<StackEntry>::empty().push(
            (StackEntry { handle: root, lo: 0, hi: m, depth: 0 }),
        ));
        assert(stack_range_sum(Seq::<StackEntry>::empty()) == 0);
        assert(stack@.drop_last() =~= Seq::<StackEntry>::empty());
        assert(stack_range_sum(stack@) == m);
    }

    while stack.len() != 0
        invariant
            dataset.wf(),
            1 <= f_count == dataset.spec_num_features() <= 0xFFFF,
            space.wf(dataset.spec_size()),
            space.samples@.len() == m,
            space.targets@.len() == m,
            1 <= m <= MSE_LEN_LIMIT,
            wt_ok(space.targets@),
            1 <= msl <= MSE_LEN_LIMIT,
            perm@.to_multiset() == ident_perm(f_count as nat).to_multiset(),
            splitter.spec_min_samples_leaf() == msl,
            tree.wf(),
            tree.spec_num_features() == f_count,
            forall|k: int|
                0 <= k < values@.len() ==> -(TARGET_LIMIT as int) <= #[trigger] values@[k]
                    <= TARGET_LIMIT,
            leaf_records.len() == values@.len(),
            forall|k: int|
                0 <= k < values@.len() ==> {
                    let rec = #[trigger] leaf_records[k];
                    &&& m_items_ok(rec.items)
                    &&& rec.items.len() >= 1
                    &&& values@[k] == div_toward_zero(m_sum(rec.items), m_total(rec.items))
                    &&& m_record_matches_space(rec, space.samples@, space.targets@)
                    &&& m_leaf_close_reason(*dataset, rec, *conf, conf.min_samples_leaf as int)
                },
            forall|a: int, b: int|
                0 <= a < b < leaf_records.len() ==> ranges_disjoint(
                    (#[trigger] leaf_records[a]).lo,
                    leaf_records[a].hi,
                    (#[trigger] leaf_records[b]).lo,
                    leaf_records[b].hi,
                ),
            forall|a: int, i: int|
                0 <= a < leaf_records.len() && 0 <= i < stack@.len() ==> ranges_disjoint(
                    (#[trigger] leaf_records[a]).lo,
                    leaf_records[a].hi,
                    (#[trigger] stack@[i]).lo as int,
                    stack@[i].hi as int,
                ),
            forall|i: int, j: int|
                0 <= i < j < stack@.len() ==> ranges_disjoint(
                    (#[trigger] stack@[i]).lo as int,
                    stack@[i].hi as int,
                    (#[trigger] stack@[j]).lo as int,
                    stack@[j].hi as int,
                ),
            records_len_sum(leaf_records) + stack_range_sum(stack@) == m,
            zip_pairs(space.samples@, space.targets@).to_multiset() == zip_pairs(
                old(space).samples@,
                old(space).targets@,
            ).to_multiset(),
            msl == conf.min_samples_leaf,
            tree.leaves_below_or_zero(values@.len() as int),
            values@.len() >= 1 || stack@.len() >= 1,
            tree.spec_nodes().len() >= 1 || stack@.len() >= 1,
            values@.len() as int + stack_measure(stack@) <= 2 * m,
            tree.spec_nodes().len() + stack_measure(stack@) <= 2 * m,
            forall|i: int|
                0 <= i < stack@.len() ==> (#[trigger] stack@[i]).lo < stack@[i].hi <= m
                    && tree.is_leaf_slot(stack@[i].handle),
            forall|i: int, j: int|
                0 <= i < j < stack@.len() ==> (#[trigger] stack@[i]).handle != (
                #[trigger] stack@[j]).handle,
            forall|i: int|
                0 <= i < stack@.len() ==> ((#[trigger] stack@[i]).handle.spec_child() is ROOT
                    ==> stack@[i].handle.spec_parent() == 0),
        decreases stack_measure(stack@),
    {
        proof {
            crate::trainer::lemma_stack_measure_nonneg(stack@);
        }
        let ghost pre_stack = stack@;
        let e = stack.pop().unwrap();
        proof {
            assert(pre_stack.drop_last() =~= stack@);
            assert(pre_stack.last() == e);
            assert(stack_measure(pre_stack) == stack_measure(stack@) + 2 * (e.hi - e.lo) - 1);
            crate::trainer::lemma_stack_measure_nonneg(stack@);
            assert(stack_range_sum(pre_stack) == stack_range_sum(stack@) + (e.hi - e.lo));
            // the popped range avoids every remaining range and record
            assert forall|i: int|
                0 <= i < stack@.len() implies ranges_disjoint(
                (#[trigger] stack@[i]).lo as int,
                stack@[i].hi as int,
                e.lo as int,
                e.hi as int,
            ) by {
                assert(pre_stack[i] == stack@[i]);
                assert(ranges_disjoint(
                    (pre_stack[i]).lo as int,
                    pre_stack[i].hi as int,
                    (pre_stack[pre_stack.len() - 1]).lo as int,
                    pre_stack[pre_stack.len() - 1].hi as int,
                ));
            }
            assert forall|a: int|
                0 <= a < leaf_records.len() implies ranges_disjoint(
                (#[trigger] leaf_records[a]).lo,
                leaf_records[a].hi,
                e.lo as int,
                e.hi as int,
            ) by {
                assert(ranges_disjoint(
                    (leaf_records[a]).lo,
                    leaf_records[a].hi,
                    (pre_stack[pre_stack.len() - 1]).lo as int,
                    pre_stack[pre_stack.len() - 1].hi as int,
                ));
            }
        }
        let len = e.hi - e.lo;
        let can = e.depth < conf.max_depth && len >= conf.min_samples_split && len >= 2 * msl;
        let items = unpack_reg_items(&space.targets, e.lo, e.hi);
        let mut result: Option<BestSplit> = None;
        let ghost mut gbuf: Seq<MItem> = Seq::empty();
        if can {
            let (res, g, _) = search_reg_split(
                dataset,
                &space.samples,
                &space.targets,
                &items,
                e.lo,
                e.hi,
                &splitter,
                max_features,
                use_rng,
                &mut rng,
                &mut perm,
            );
            result = res;
            proof {
                gbuf = g@;
            }
        }
        match result {
            Some(b) => {
                let ghost pre_s = space.samples@;
                let ghost pre_t = space.targets@;
                let rsp = space.split(dataset, e.lo, e.hi, b.feature, b.threshold);
                proof {
                    assert(forall|k: int|
                        (0 <= k < e.lo || e.hi <= k < pre_s.len()) ==> space.samples@[k]
                            == pre_s[k] && space.targets@[k] == pre_t[k]);
                    let ds = *dataset;
                    let lo = e.lo as int;
                    let hi = e.hi as int;
                    let thr = b.threshold;
                    let fint = b.feature as int;
                    let buf = gbuf;
                    let pv = b.pivot as int;
                    let pred = |it: MItem| it.key <= thr;
                    assert forall|k: int| 0 <= k < pv implies pred(#[trigger] buf[k]) by {
                        assert(buf[k].key <= buf[pv - 1].key);
                    }
                    assert forall|k: int| pv <= k < buf.len() implies !pred(#[trigger] buf[k]) by {
                        assert(buf[pv].key <= buf[k].key);
                    }
                    lemma_count_matching_partitioned(buf, pred, pv);
                    let keyed = m_keyed_of(ds, pre_s, pre_t, lo, hi, fint);
                    lemma_count_matching_multiset(buf, keyed, pred);
                    let zpre = zip_pairs(pre_s, pre_t).subrange(lo, hi);
                    let pred2 = |pr: (u32, WeightedTarget)| ds.spec_val(pr.0 as int, fint) <= thr;
                    assert forall|k: int|
                        0 <= k < keyed.len() implies (pred(#[trigger] keyed[k]) <==> pred2(
                        #[trigger] zpre[k])) by {
                        assert(keyed[k].key == ds.spec_val(pre_s[lo + k] as int, fint));
                        assert(zpre[k] == (pre_s[lo + k], pre_t[lo + k]));
                    }
                    lemma_count_matching_pointwise(keyed, zpre, pred, pred2);
                    let zpost = zip_pairs(space.samples@, space.targets@).subrange(lo, hi);
                    lemma_count_matching_multiset(zpost, zpre, pred2);
                    assert forall|k: int| 0 <= k < rsp - lo implies pred2(#[trigger] zpost[k]) by {
                        assert(zpost[k] == (space.samples@[lo + k], space.targets@[lo + k]));
                    }
                    assert forall|k: int|
                        rsp - lo <= k < zpost.len() implies !pred2(#[trigger] zpost[k]) by {
                        assert(zpost[k] == (space.samples@[lo + k], space.targets@[lo + k]));
                    }
                    lemma_count_matching_partitioned(zpost, pred2, rsp - lo);
                    assert(rsp - lo == pv);
                    assert forall|k: int|
                        0 <= k < space.targets@.len() implies 1 <= (#[trigger] space.targets@[k]).weight
                        <= 15 && -(TARGET_LIMIT as int) <= space.targets@[k].target
                        <= TARGET_LIMIT by {
                        if lo <= k < hi {
                            let k2 = lemma_wt_pair_source(
                                space.samples@,
                                space.targets@,
                                pre_s,
                                pre_t,
                                lo,
                                hi,
                                k,
                            );
                            assert(space.targets@[k] == pre_t[k2]);
                            assert(1 <= pre_t[k2].weight <= 15);
                        } else {
                            assert(space.samples@[k] == pre_s[k] && space.targets@[k]
                                == pre_t[k]);
                            assert(1 <= pre_t[k].weight <= 15);
                        }
                    }
                }
                proof {
                    // the partition only rearranged the popped range, so
                    // the space keeps its rows
                    let z1 = zip_pairs(pre_s, pre_t);
                    let z2 = zip_pairs(space.samples@, space.targets@);
                    assert forall|k: int|
                        (0 <= k < e.lo || e.hi <= k < z1.len()) implies #[trigger] z1[k]
                        == z2[k] by {
                        assert(space.samples@[k] == pre_s[k] && space.targets@[k] == pre_t[k]);
                    }
                    lemma_multiset_preserved_outside_unchanged(
                        z1,
                        z2,
                        e.lo as int,
                        e.hi as int,
                    );
                    // closed ranges are untouched by a partition inside the
                    // popped range
                    assert forall|a: int|
                        0 <= a < leaf_records.len() implies m_record_matches_space(
                        #[trigger] leaf_records[a],
                        space.samples@,
                        space.targets@,
                    ) by {
                        let rec = leaf_records[a];
                        assert(m_record_matches_space(rec, pre_s, pre_t));
                        assert(ranges_disjoint(rec.lo, rec.hi, e.lo as int, e.hi as int));
                        assert forall|j: int|
                            0 <= j < rec.hi - rec.lo implies (#[trigger] rec.samples[j])
                            == space.samples@[rec.lo + j] by {
                            assert(rec.lo + j < e.lo || e.hi <= rec.lo + j);
                            assert(space.samples@[rec.lo + j] == pre_s[rec.lo + j]);
                        }
                        assert forall|j: int|
                            0 <= j < rec.hi - rec.lo implies (#[trigger] rec.items[j]) == (MItem {
                            key: 0,
                            target: space.targets@[rec.lo + j].target,
                            weight: space.targets@[rec.lo + j].weight,
                        }) by {
                            assert(rec.lo + j < e.lo || e.hi <= rec.lo + j);
                            assert(space.targets@[rec.lo + j] == pre_t[rec.lo + j]);
                        }
                    }
                }
                let ghost pre_split_tree = tree;
                let (lh, rh) = tree.split(&e.handle, b.feature as u16, b.threshold);
                let ghost pre_push = stack@;
                stack.push(StackEntry { handle: lh, lo: e.lo, hi: rsp, depth: e.depth + 1 });
                stack.push(StackEntry { handle: rh, lo: rsp, hi: e.hi, depth: e.depth + 1 });
                proof {
                    let le = StackEntry {
                        handle: lh,
                        lo: e.lo,
                        hi: rsp,
                        depth: (e.depth + 1) as usize,
                    };
                    let re2 = StackEntry {
                        handle: rh,
                        lo: rsp,
                        hi: e.hi,
                        depth: (e.depth + 1) as usize,
                    };
                    assert(stack@ =~= pre_push.push(le).push(re2));
                    crate::trainer::lemma_stack_measure_push(pre_push, le);
                    crate::trainer::lemma_stack_measure_push(pre_push.push(le), re2);
                    assert(stack_measure(stack@) == stack_measure(pre_push) + 2 * (e.hi - e.lo)
                        - 2);
                    // the child ranges stay inside the popped one, so the
                    // disjointness facts and the row accounting carry over
                    assert(stack_range_sum(pre_push.push(le)) == stack_range_sum(pre_push) + (rsp
                        - e.lo)) by {
                        assert(pre_push.push(le).drop_last() =~= pre_push);
                    }
                    assert(stack_range_sum(stack@) == stack_range_sum(pre_push.push(le)) + (e.hi
                        - rsp)) by {
                        assert(stack@.drop_last() =~= pre_push.push(le));
                        assert(stack@.last() == re2);
                    }
                    assert forall|i: int, j: int|
                        0 <= i < j < stack@.len() implies ranges_disjoint(
                        (#[trigger] stack@[i]).lo as int,
                        stack@[i].hi as int,
                        (#[trigger] stack@[j]).lo as int,
                        stack@[j].hi as int,
                    ) by {
                        if j < pre_push.len() {
                            assert(stack@[i] == pre_push[i] && stack@[j] == pre_push[j]);
                            assert(pre_push[i] == pre_stack[i] && pre_push[j] == pre_stack[j]);
                        } else if i < pre_push.len() {
                            assert(stack@[i] == pre_push[i]);
                            assert(ranges_disjoint(
                                (pre_push[i]).lo as int,
                                pre_push[i].hi as int,
                                e.lo as int,
                                e.hi as int,
                            ));
                        }
                    }
                    assert forall|a: int, i: int|
                        0 <= a < leaf_records.len() && 0 <= i < stack@.len() implies
                        ranges_disjoint(
                        (#[trigger] leaf_records[a]).lo,
                        leaf_records[a].hi,
                        (#[trigger] stack@[i]).lo as int,
                        stack@[i].hi as int,
                    ) by {
                        if i < pre_push.len() {
                            assert(stack@[i] == pre_push[i]);
                            assert(pre_push[i] == pre_stack[i]);
                            assert(ranges_disjoint(
                                (leaf_records[a]).lo,
                                leaf_records[a].hi,
                                (pre_stack[i]).lo as int,
                                pre_stack[i].hi as int,
                            ));
                        } else {
                            assert(ranges_disjoint(
                                (leaf_records[a]).lo,
                                leaf_records[a].hi,
                                e.lo as int,
                                e.hi as int,
                            ));
                        }
                    }
                    let onodes = pre_split_tree.spec_nodes();
                    let olen = onodes.len() as int;
                    assert forall|i: int|
                        0 <= i < pre_push.len() implies (#[trigger] pre_push[i]).handle
                        != e.handle by {
                        assert(pre_stack[i] == pre_push[i]);
                        assert(pre_stack[pre_stack.len() - 1] == e);
                    }
                    assert forall|i: int|
                        0 <= i < pre_push.len() implies tree.is_leaf_slot(
                        (#[trigger] pre_push[i]).handle,
                    ) by {
                        let h = pre_push[i].handle;
                        assert(pre_split_tree.is_leaf_slot(h));
                        if h.spec_child() is ROOT {
                            assert(olen == 0);
                            assert(e.handle.spec_child() is ROOT);
                            assert(h.spec_parent() == 0 && e.handle.spec_parent() == 0);
                            assert(h == e.handle);
                            assert(false);
                        } else {
                            assert(h.spec_parent() < olen);
                            if e.handle.spec_child() is ROOT || h.spec_parent()
                                != e.handle.spec_parent() {
                                assert(tree.spec_nodes()[h.spec_parent()]
                                    == onodes[h.spec_parent()]);
                            } else {
                                assert(h.spec_child() != e.handle.spec_child());
                            }
                        }
                    }
                    assert forall|i: int, j: int|
                        0 <= i < j < stack@.len() implies (#[trigger] stack@[i]).handle != (
                        #[trigger] stack@[j]).handle by {
                        if j < pre_push.len() {
                            assert(pre_stack[i] == pre_push[i] && pre_stack[j] == pre_push[j]);
                        } else if i < pre_push.len() {
                            let h = pre_push[i].handle;
                            assert(pre_split_tree.is_leaf_slot(h));
                            if h.spec_child() is ROOT {
                                assert(olen == 0);
                                assert(h == e.handle);
                                assert(false);
                            } else {
                                assert(h.spec_parent() < olen);
                            }
                        }
                    }
                    assert forall|i: int|
                        0 <= i < tree.spec_nodes().len() implies {
                        let n = #[trigger] tree.spec_nodes()[i];
                        &&& (n.left_is_leaf ==> n.left < values@.len() as int || n.left == 0)
                        &&& (n.right_is_leaf ==> n.right < values@.len() as int || n.right == 0)
                    } by {
                        if i < olen {
                            if e.handle.spec_child() is ROOT || i != e.handle.spec_parent() {
                                assert(tree.spec_nodes()[i] == onodes[i]);
                            }
                        }
                    }
                }
            },
            None => {
                let offset = values.len();
                proof {
                    crate::trainer::lemma_stack_measure_nonneg(stack@);
                    lemma_m_bounds(items@);
                }
                let mean = leaf_mean(&items);
                values.push(mean);
                proof {
                    let ghost pre_records = leaf_records;
                    let ghost rec = LeafRecord::<MItem> {
                        samples: space.samples@.subrange(e.lo as int, e.hi as int),
                        items: items@,
                        lo: e.lo as int,
                        hi: e.hi as int,
                        depth: e.depth as int,
                    };
                    leaf_records = leaf_records.push(rec);
                    assert(m_record_matches_space(rec, space.samples@, space.targets@));
                    // the leaf was closed only for one of the stopping
                    // rule's reasons
                    if can {
                        if m_total(items@) * m_sq(items@) == m_sum(items@) * m_sum(items@) {
                        } else {
                            lemma_m_batch_no_split_from_space(
                                *dataset,
                                rec,
                                space.samples@,
                                space.targets@,
                                msl as int,
                            );
                        }
                    }
                    assert(m_leaf_close_reason(*dataset, rec, *conf, msl as int));
                    assert forall|k: int|
                        0 <= k < values@.len() implies {
                        let r2 = #[trigger] leaf_records[k];
                        &&& m_items_ok(r2.items)
                        &&& r2.items.len() >= 1
                        &&& values@[k] == div_toward_zero(m_sum(r2.items), m_total(r2.items))
                        &&& m_record_matches_space(r2, space.samples@, space.targets@)
                        &&& m_leaf_close_reason(*dataset, r2, *conf, msl as int)
                    } by {
                        if k < values@.len() - 1 {
                            assert(leaf_records[k] == pre_records[k]);
                        } else {
                            assert(leaf_records[k] == rec);
                        }
                    }
                    // disjointness and row accounting extend to the new
                    // record
                    assert forall|a: int, b: int|
                        0 <= a < b < leaf_records.len() implies ranges_disjoint(
                        (#[trigger] leaf_records[a]).lo,
                        leaf_records[a].hi,
                        (#[trigger] leaf_records[b]).lo,
                        leaf_records[b].hi,
                    ) by {
                        assert(leaf_records[a] == pre_records[a]);
                        if b < leaf_records.len() - 1 {
                            assert(leaf_records[b] == pre_records[b]);
                        } else {
                            assert(leaf_records[b] == rec);
                            assert(ranges_disjoint(
                                (pre_records[a]).lo,
                                pre_records[a].hi,
                                e.lo as int,
                                e.hi as int,
                            ));
                        }
                    }
                    assert forall|a: int, i: int|
                        0 <= a < leaf_records.len() && 0 <= i < stack@.len() implies
                        ranges_disjoint(
                        (#[trigger] leaf_records[a]).lo,
                        leaf_records[a].hi,
                        (#[trigger] stack@[i]).lo as int,
                        stack@[i].hi as int,
                    ) by {
                        if a < leaf_records.len() - 1 {
                            assert(leaf_records[a] == pre_records[a]);
                        } else {
                            assert(leaf_records[a] == rec);
                            assert(ranges_disjoint(
                                (stack@[i]).lo as int,
                                stack@[i].hi as int,
                                e.lo as int,
                                e.hi as int,
                            ));
                        }
                    }
                    assert(records_len_sum(leaf_records) == records_len_sum(pre_records) + (e.hi
                        - e.lo)) by {
                        assert(leaf_records.drop_last() =~= pre_records);
                        assert(leaf_records.last() == rec);
                    }
                }
                let ghost pre_leaf_tree = tree;
                tree.set_leaf_value(&e.handle, offset as u32);
                proof {
                    let onodes = pre_leaf_tree.spec_nodes();
                    let olen = onodes.len() as int;
                    let chunks = values@.len() as int;
                    if e.handle.spec_child() is ROOT {
                        assert forall|i: int| 0 <= i < stack@.len() implies #[trigger] stack@[i]
                            != stack@[i] by {
                            let h = stack@[i].handle;
                            assert(pre_leaf_tree.is_leaf_slot(h));
                            assert(olen == 0);
                            assert(h.spec_child() is ROOT);
                            assert(h.spec_parent() == 0);
                            assert(e.handle.spec_parent() == 0);
                            assert(pre_stack[i] == stack@[i]);
                            assert(pre_stack[pre_stack.len() - 1] == e);
                            assert(h == e.handle);
                        }
                        assert(stack@.len() == 0);
                        assert(tree.leaves_below_or_zero(chunks));
                    } else {
                        assert forall|i: int|
                            0 <= i < stack@.len() implies (#[trigger] stack@[i]).lo
                            < stack@[i].hi <= m && tree.is_leaf_slot(stack@[i].handle) by {
                            assert(pre_stack[i] == stack@[i]);
                            let h = stack@[i].handle;
                            assert(pre_leaf_tree.is_leaf_slot(h));
                            if h.spec_child() is ROOT {
                                assert(olen == 0);
                                assert(e.handle.spec_parent() < olen);
                                assert(false);
                            } else {
                                assert(tree.spec_nodes()[h.spec_parent()].left_is_leaf
                                    == onodes[h.spec_parent()].left_is_leaf);
                                assert(tree.spec_nodes()[h.spec_parent()].right_is_leaf
                                    == onodes[h.spec_parent()].right_is_leaf);
                            }
                        }
                        assert forall|i: int|
                            0 <= i < tree.spec_nodes().len() implies {
                            let n = #[trigger] tree.spec_nodes()[i];
                            &&& (n.left_is_leaf ==> n.left < chunks || n.left == 0)
                            &&& (n.right_is_leaf ==> n.right < chunks || n.right == 0)
                        } by {
                            if i != e.handle.spec_parent() {
                                assert(tree.spec_nodes()[i] == onodes[i]);
                            }
                        }
                    }
                }
            },
        }
    }
    (tree, values, Ghost(leaf_records))
}

} // verus!
