//! Finding the best split of a sorted range.
//!
//! `find_split` sweeps a buffer of `(feature key, target, weight)` items
//! sorted by key, moving one item at a time from the right impurity
//! accumulator to the left one. A boundary is a legal candidate when the key
//! strictly changes there and both sides keep `min_samples_leaf` slots. The
//! weighted two-way Gini score `1 - (S_L*n_R + S_R*n_L) / (n_L*n_R*n)` is
//! lowest exactly where the gain `(S_L*n_R + S_R*n_L) / (n_L*n_R)` is
//! highest (`n` is the same for every candidate), so candidates are ranked
//! by that exact fraction and the first candidate reaching the maximum wins.
use vstd::prelude::*;

use crate::metrics::{sum_sq_of, Gini};
use crate::ratio::{frac_gt, lemma_frac_le_lt_trans, DENOM_LIMIT};

verus! {

/// Largest buffer length the splitter accepts: with weights at most 15 the
/// weight totals then stay below `u32::MAX`.
pub const SPLIT_LEN_LIMIT: usize = 0x100_0000;

/// One row of the splitter's scan buffer: a feature key paired with a
/// weighted classifier target.
#[derive(Clone, Copy, Debug, PartialEq, Eq, Structural)]
pub struct GItem {
    /// The feature value (an order-preserving key) of this sample.
    pub key: u32,
    /// The class code of this sample.
    pub target: u32,
    /// The bootstrap weight of this sample.
    pub weight: u32,
}

/// Weight of class `c` in `s`.
pub open spec fn g_mass(s: Seq<GItem>, c: int) -> int
    decreases s.len(),
{
    if s.len() == 0 {
        0
    } else {
        g_mass(s.drop_last(), c) + if s.last().target == c {
            s.last().weight as int
        } else {
            0
        }
    }
}

/// Total weight of `s`.
pub open spec fn g_total(s: Seq<GItem>) -> int
    decreases s.len(),
{
    if s.len() == 0 {
        0
    } else {
        g_total(s.drop_last()) + s.last().weight
    }
}

/// The per-class weight bins of `s` over `kk` classes.
pub open spec fn g_bins(s: Seq<GItem>, kk: nat) -> Seq<int> {
    Seq::new(kk, |c: int| g_mass(s, c))
}

/// Sum of squared class bins of `s`.
pub open spec fn g_sq(s: Seq<GItem>, kk: nat) -> int {
    sum_sq_of(g_bins(s, kk))
}

/// All items of `s` are usable by the splitter: positive weight at most 15
/// and a class code below `kk`.
pub open spec fn g_items_ok(s: Seq<GItem>, kk: int) -> bool {
    forall|k: int|
        0 <= k < s.len() ==> 1 <= (#[trigger] s[k]).weight <= 15 && s[k].target < kk
}

/// Keys never decrease along `s`.
pub open spec fn sorted_by_key(s: Seq<GItem>) -> bool {
    forall|a: int, b: int| 0 <= a <= b < s.len() ==> s[a].key <= s[b].key
}

/// `q` is a legal split boundary of `s`: the key strictly changes at `q`
/// and both sides keep at least `msl` slots.
pub open spec fn legal_split(s: Seq<GItem>, q: int, msl: int) -> bool {
    msl <= q <= s.len() - msl && s[q - 1].key < s[q].key
}

/// Numerator of the gain of splitting `s` at `q`:
/// `S_left * n_right + S_right * n_left`.
pub open spec fn gain_num(s: Seq<GItem>, kk: nat, q: int) -> int {
    g_sq(s.take(q), kk) * g_total(s.skip(q)) + g_sq(s.skip(q), kk) * g_total(s.take(q))
}

/// Denominator of the gain of splitting `s` at `q`: `n_left * n_right`.
pub open spec fn gain_den(s: Seq<GItem>, q: int) -> int {
    g_total(s.take(q)) * g_total(s.skip(q))
}

/// Candidate `q1` of `s` has strictly higher gain than candidate `q2`.
pub open spec fn gain_gt(s: Seq<GItem>, kk: nat, q1: int, q2: int) -> bool {
    gain_num(s, kk, q1) * gain_den(s, q2) > gain_num(s, kk, q2) * gain_den(s, q1)
}

/// Candidate `q` of `s` has strictly higher gain than the fraction `n / d`.
pub open spec fn gain_gt_frac(s: Seq<GItem>, kk: nat, q: int, n: int, d: int) -> bool {
    gain_num(s, kk, q) * d > n * gain_den(s, q)
}

/// Candidate `q1` of buffer `s1` has strictly higher gain than candidate
/// `q2` of buffer `s2`; with `s1 == s2` this is `gain_gt`.
pub open spec fn gain_gt_across(s1: Seq<GItem>, kk: nat, q1: int, s2: Seq<GItem>, q2: int) -> bool {
    gain_num(s1, kk, q1) * gain_den(s2, q2) > gain_num(s2, kk, q2) * gain_den(s1, q1)
}

/// Appending one item adds its weight to its class and to the total.
pub proof fn lemma_g_push(s: Seq<GItem>, x: GItem, c: int)
    ensures
        g_mass(s.push(x), c) == g_mass(s, c) + if x.target == c {
            x.weight as int
        } else {
            0
        },
        g_total(s.push(x)) == g_total(s) + x.weight,
{
    assert(s.push(x).drop_last() =~= s);
}

/// Mass and total add over concatenation.
pub proof fn lemma_g_concat(a: Seq<GItem>, b: Seq<GItem>, c: int)
    ensures
        g_mass(a + b, c) == g_mass(a, c) + g_mass(b, c),
        g_total(a + b) == g_total(a) + g_total(b),
    decreases b.len(),
{
    if b.len() == 0 {
        assert(a + b =~= a);
    } else {
        lemma_g_concat(a, b.drop_last(), c);
        assert((a + b).drop_last() =~= a + b.drop_last());
        assert((a + b).last() == b.last());
    }
}

/// Mass is between zero and the total; the total is between the length and
/// fifteen times the length when the items are in range.
pub proof fn lemma_g_bounds(s: Seq<GItem>, kk: int, c: int)
    requires
        g_items_ok(s, kk),
    ensures
        0 <= g_mass(s, c) <= g_total(s),
        s.len() <= g_total(s) <= 15 * s.len(),
    decreases s.len(),
{
    if s.len() > 0 {
        lemma_g_bounds(s.drop_last(), kk, c);
    }
}

/// How one step of the sweep moves the prefix masses and the total.
proof fn lemma_g_take_step(s: Seq<GItem>, i: int, kk: nat)
    requires
        0 <= i < s.len(),
    ensures
        forall|c: int|
            0 <= c < kk ==> #[trigger] g_mass(s.take(i + 1), c) == g_mass(s.take(i), c) + (if s[
                i
            ].target == c {
                s[i].weight as int
            } else {
                0
            }),
        g_total(s.take(i + 1)) == g_total(s.take(i)) + s[i].weight,
{
    assert(s.take(i + 1) =~= s.take(i).push(s[i]));
    assert forall|c: int| 0 <= c < kk implies #[trigger] g_mass(s.take(i + 1), c) == g_mass(
        s.take(i),
        c,
    ) + (if s[i].target == c {
        s[i].weight as int
    } else {
        0
    }) by {
        lemma_g_push(s.take(i), s[i], c);
    }
    lemma_g_push(s.take(i), s[i], 0);
}

/// The two sides of a boundary carry the whole range's masses between them,
/// and both sides' totals are positive.
proof fn lemma_g_sides(s: Seq<GItem>, q: int, kk: int)
    requires
        g_items_ok(s, kk),
        0 < q < s.len(),
    ensures
        forall|c: int| #[trigger] g_mass(s.skip(q), c) == g_mass(s, c) - g_mass(s.take(q), c),
        g_total(s.skip(q)) == g_total(s) - g_total(s.take(q)),
        q <= g_total(s.take(q)) <= 15 * q,
        s.len() - q <= g_total(s.skip(q)) <= 15 * (s.len() - q),
{
    assert(s =~= s.take(q) + s.skip(q));
    assert forall|c: int| #[trigger] g_mass(s.skip(q), c) == g_mass(s, c) - g_mass(
        s.take(q),
        c,
    ) by {
        lemma_g_concat(s.take(q), s.skip(q), c);
    }
    lemma_g_concat(s.take(q), s.skip(q), 0);
    assert(g_items_ok(s.take(q), kk));
    assert(g_items_ok(s.skip(q), kk));
    lemma_g_bounds(s.take(q), kk, 0);
    lemma_g_bounds(s.skip(q), kk, 0);
}

/// A legal boundary's gain denominator is positive.
pub proof fn lemma_gain_den_pos(s: Seq<GItem>, q: int, kk: int)
    requires
        g_items_ok(s, kk),
        0 < q < s.len(),
    ensures
        gain_den(s, q) >= 1,
{
    lemma_g_sides(s, q, kk);
    let dl = g_total(s.take(q));
    let dr = g_total(s.skip(q));
    assert(dl * dr >= 1) by (nonlinear_arith)
        requires
            dl >= 1,
            dr >= 1,
    {}
}

/// The item at the boundary still sits in the right side, so its weight can
/// be popped from the right accumulator.
proof fn lemma_g_pop_ok(s: Seq<GItem>, i: int, kk: int)
    requires
        g_items_ok(s, kk),
        0 <= i < s.len(),
    ensures
        g_mass(s, s[i].target as int) - g_mass(s.take(i), s[i].target as int) >= s[i].weight,
        g_total(s) - g_total(s.take(i)) >= s[i].weight,
{
    let single = Seq::<GItem>::empty().push(s[i]);
    assert(s =~= s.take(i) + s.skip(i));
    lemma_g_concat(s.take(i), s.skip(i), s[i].target as int);
    assert(s.skip(i) =~= single + s.skip(i + 1));
    lemma_g_concat(single, s.skip(i + 1), s[i].target as int);
    assert(g_items_ok(s.skip(i + 1), kk));
    lemma_g_bounds(s.skip(i + 1), kk, s[i].target as int);
    lemma_g_push(Seq::<GItem>::empty(), s[i], s[i].target as int);
    assert(g_mass(single, s[i].target as int) == s[i].weight as int);
    assert(g_total(single) == s[i].weight as int);
}

/// An exact gain fraction used to rank split candidates.
#[derive(Clone, Copy, Debug, PartialEq, Eq, Structural)]
pub struct Gain {
    /// Numerator.
    pub num: u128,
    /// Denominator.
    pub den: u128,
}

/// A split position found by the splitter: the pivot and the exact gain of
/// splitting there.
#[derive(Clone, Copy, Debug, PartialEq, Eq, Structural)]
pub struct Position {
    /// Number of items on the left side.
    pub pivot: usize,
    /// Numerator of the gain at the pivot.
    pub gain_num: u128,
    /// Denominator of the gain at the pivot.
    pub gain_den: u128,
}

/// An accumulator holding exactly the items of `items`.
pub(crate) fn gini_accumulate(items: &Vec<GItem>, kk: usize) -> (r: Gini)
    requires
        g_items_ok(items@, kk as int),
        items@.len() <= SPLIT_LEN_LIMIT,
    ensures
        r.wf(),
        r.spec_bins().len() == kk,
        r.spec_bins() =~= g_bins(items@, kk as nat),
        r.spec_total() == g_total(items@),
{
    let mut acc = Gini::with_classes(kk);
    let mut k: usize = 0;
    proof {
        assert(acc.spec_bins() =~= g_bins(items@.take(0), kk as nat));
    }
    while k < items.len()
        invariant
            k <= items@.len() <= SPLIT_LEN_LIMIT,
            g_items_ok(items@, kk as int),
            acc.wf(),
            acc.spec_bins().len() == kk,
            acc.spec_bins() =~= g_bins(items@.take(k as int), kk as nat),
            acc.spec_total() == g_total(items@.take(k as int)),
        decreases items@.len() - k,
    {
        let it = items[k];
        proof {
            assert(g_items_ok(items@.take(k as int), kk as int));
            lemma_g_bounds(items@.take(k as int), kk as int, 0);
            lemma_g_take_step(items@, k as int, kk as nat);
        }
        acc.push(it.target, it.weight);
        proof {
            assert(acc.spec_bins() =~= g_bins(items@.take(k + 1), kk as nat));
        }
        k = k + 1;
    }
    proof {
        assert(items@.take(items@.len() as int) =~= items@);
    }
    acc
}

/// Finds the best Gini split of a sorted buffer.
pub struct GiniSplitter {
    num_classes: usize,
    min_samples_leaf: usize,
}

impl GiniSplitter {
    /// The number of classes this splitter expects.
    pub closed spec fn spec_num_classes(&self) -> nat {
        self.num_classes as nat
    }

    /// The least number of slots a side of a split must keep.
    pub closed spec fn spec_min_samples_leaf(&self) -> int {
        self.min_samples_leaf as int
    }

    /// A splitter for `num_classes` classes that keeps `min_samples_leaf`
    /// slots on each side of any split it reports.
    pub fn new(num_classes: usize, min_samples_leaf: usize) -> (r: GiniSplitter)
        ensures
            r.spec_num_classes() == num_classes,
            r.spec_min_samples_leaf() == min_samples_leaf,
    {
        GiniSplitter { num_classes, min_samples_leaf }
    }

    /// Accumulates a node's items and reports whether the node is impure,
    /// i.e. whether any split of it could help. Purity is exactly
    /// `S == n * n` on the accumulated bins.
    pub fn prepare(&self, items: &Vec<GItem>) -> (r: bool)
        requires
            g_items_ok(items@, self.spec_num_classes() as int),
            items@.len() <= SPLIT_LEN_LIMIT,
        ensures
            r <==> g_sq(items@, self.spec_num_classes()) != g_total(items@) * g_total(items@),
    {
        let acc = gini_accumulate(items, self.num_classes);
        !acc.pure()
    }

    /// Scans a buffer sorted by key and returns the first candidate with the
    /// highest gain, provided it is strictly better than `best` (when
    /// given); `None` when no legal candidate beats it.
    #[verifier::rlimit(100)]
    pub fn find_split(&self, data: &Vec<GItem>, best: Option<Gain>) -> (r: Option<Position>)
        requires
            sorted_by_key(data@),
            g_items_ok(data@, self.spec_num_classes() as int),
            data@.len() <= SPLIT_LEN_LIMIT,
            self.spec_min_samples_leaf() >= 1,
            2 * self.spec_min_samples_leaf() <= data@.len(),
            best is Some ==> 0 < best->0.den <= DENOM_LIMIT,
        ensures
            ({
                let kk = self.spec_num_classes();
                let msl = self.spec_min_samples_leaf();
                match r {
                    Some(pos) => {
                        &&& legal_split(data@, pos.pivot as int, msl)
                        &&& pos.gain_num == gain_num(data@, kk, pos.pivot as int)
                        &&& pos.gain_den == gain_den(data@, pos.pivot as int)
                        &&& 0 < pos.gain_den <= DENOM_LIMIT
                        &&& (best is Some ==> gain_gt_frac(
                            data@,
                            kk,
                            pos.pivot as int,
                            best->0.num as int,
                            best->0.den as int,
                        ))
                        &&& forall|q: int|
                            legal_split(data@, q, msl) ==> !gain_gt(data@, kk, q, pos.pivot as int)
                        &&& forall|q: int|
                            legal_split(data@, q, msl) && q < pos.pivot ==> gain_gt(
                                data@,
                                kk,
                                pos.pivot as int,
                                q,
                            )
                    },
                    None => {
                        &&& best is None ==> forall|q: int| !legal_split(data@, q, msl)
                        &&& best is Some ==> forall|q: int|
                            legal_split(data@, q, msl) ==> !gain_gt_frac(
                                data@,
                                kk,
                                q,
                                best->0.num as int,
                                best->0.den as int,
                            )
                    },
                }
            }),
    {
        let kk = self.num_classes;
        let msl = self.min_samples_leaf;
        let m = data.len();
        let ghost dv = data@;

        let mut right = gini_accumulate(data, kk);
        let mut left = Gini::with_classes(kk);
        let mut found: Option<Position> = None;
        let mut cur_num: u128 = 0;
        let mut cur_den: u128 = 1;
        let mut has_cur = false;
        match best {
            Some(g) => {
                cur_num = g.num;
                cur_den = g.den;
                has_cur = true;
            },
            None => {},
        }
        let ghost g_best = best;

        let mut i: usize = 0;
        proof {
            assert(left.spec_bins() =~= g_bins(dv.take(0), kk as nat));
            assert(forall|c: int|
                0 <= c < kk ==> #[trigger] right.spec_bins()[c] == g_mass(dv, c) - g_mass(
                    dv.take(0),
                    c,
                ));
        }
        while i < m - msl
            invariant
                m == dv.len() <= SPLIT_LEN_LIMIT,
                dv == data@,
                sorted_by_key(dv),
                g_items_ok(dv, kk as int),
                1 <= msl,
                2 * msl <= m,
                i <= m - msl,
                left.wf(),
                right.wf(),
                left.spec_bins().len() == kk,
                right.spec_bins().len() == kk,
                left.spec_bins() =~= g_bins(dv.take(i as int), kk as nat),
                left.spec_total() == g_total(dv.take(i as int)),
                forall|c: int|
                    0 <= c < kk ==> #[trigger] right.spec_bins()[c] == g_mass(dv, c) - g_mass(
                        dv.take(i as int),
                        c,
                    ),
                right.spec_total() == g_total(dv) - g_total(dv.take(i as int)),
                g_best is Some ==> 0 < g_best->0.den <= DENOM_LIMIT,
                0 < cur_den <= DENOM_LIMIT,
                has_cur == (g_best is Some || found is Some),
                g_best is None && found is None ==> forall|q: int|
                    q <= i ==> !legal_split(dv, q, msl as int),
                g_best is Some && found is None ==> cur_num == g_best->0.num && cur_den
                    == g_best->0.den && forall|q: int|
                    q <= i && legal_split(dv, q, msl as int) ==> !gain_gt_frac(
                        dv,
                        kk as nat,
                        q,
                        cur_num as int,
                        cur_den as int,
                    ),
                found matches Some(pos) ==> {
                    &&& pos.pivot <= i
                    &&& legal_split(dv, pos.pivot as int, msl as int)
                    &&& cur_num == pos.gain_num && cur_den == pos.gain_den
                    &&& pos.gain_num == gain_num(dv, kk as nat, pos.pivot as int)
                    &&& pos.gain_den == gain_den(dv, pos.pivot as int)
                    &&& (g_best is Some ==> gain_gt_frac(
                        dv,
                        kk as nat,
                        pos.pivot as int,
                        g_best->0.num as int,
                        g_best->0.den as int,
                    ))
                    &&& forall|q: int|
                        q <= i && legal_split(dv, q, msl as int) ==> !gain_gt(
                            dv,
                            kk as nat,
                            q,
                            pos.pivot as int,
                        )
                    &&& forall|q: int|
                        q <= i && legal_split(dv, q, msl as int) && q < pos.pivot ==> gain_gt(
                            dv,
                            kk as nat,
                            pos.pivot as int,
                            q,
                        )
                },
            decreases m - msl - i,
        {
            let it = data[i];
            proof {
                assert(g_items_ok(dv.take(i as int), kk as int));
                lemma_g_bounds(dv.take(i as int), kk as int, 0);
                lemma_g_take_step(dv, i as int, kk as nat);
                lemma_g_pop_ok(dv, i as int, kk as int);
                lemma_g_bounds(dv, kk as int, it.target as int);
            }
            left.push(it.target, it.weight);
            right.pop(it.target, it.weight);
            let q = i + 1;
            proof {
                assert(left.spec_bins() =~= g_bins(dv.take(q as int), kk as nat));
            }
            if data[i].key < data[q].key && q >= msl {
                proof {
                    lemma_g_sides(dv, q as int, kk as int);
                    assert(right.spec_bins() =~= g_bins(dv.skip(q as int), kk as nat));
                }
                let ln = left.total();
                let rn = right.total();
                let lsq = left.sum_squares();
                let rsq = right.sum_squares();
                proof {
                    assert(ln >= 1 && rn >= 1);
                    assert(lsq * rn + rsq * ln < 0x1_0000_0000_0000_0000_0000_0000_0000_0000 && 1
                        <= ln * rn <= DENOM_LIMIT) by (nonlinear_arith)
                        requires
                            0 <= lsq < 0x1_0000_0000_0000_0000,
                            0 <= rsq < 0x1_0000_0000_0000_0000,
                            1 <= ln <= u32::MAX,
                            1 <= rn <= u32::MAX,
                            DENOM_LIMIT == 0x1_0000_0000_0000_0000,
                    {}
                }
                let num = (lsq as u128) * (rn as u128) + (rsq as u128) * (ln as u128);
                let den = (ln as u128) * (rn as u128);
                proof {
                    assert(num == gain_num(dv, kk as nat, q as int) && den == gain_den(
                        dv,
                        q as int,
                    ));
                    assert(legal_split(dv, q as int, msl as int));
                }
                let take_it = if !has_cur {
                    true
                } else {
                    frac_gt(num, den, cur_num, cur_den)
                };
                if take_it {
                    proof {
                        assert(gain_den(dv, q as int) > 0);
                        if has_cur {
                            assert forall|q2: int|
                                q2 <= i && legal_split(dv, q2, msl as int) implies gain_gt(
                                dv,
                                kk as nat,
                                q as int,
                                q2,
                            ) by {
                                lemma_g_sides(dv, q2, kk as int);
                                let dl = g_total(dv.take(q2));
                                let dr = g_total(dv.skip(q2));
                                assert(dl >= 1 && dr >= 1);
                                assert(dl * dr >= 1) by (nonlinear_arith)
                                    requires
                                        dl >= 1,
                                        dr >= 1,
                                {}
                                lemma_frac_le_lt_trans(
                                    gain_num(dv, kk as nat, q2),
                                    gain_den(dv, q2),
                                    cur_num as int,
                                    cur_den as int,
                                    gain_num(dv, kk as nat, q as int),
                                    gain_den(dv, q as int),
                                );
                            }
                            if g_best is Some && found is Some {
                                // the new candidate also beats the incoming
                                // bound, through the old candidate
                                lemma_frac_le_lt_trans(
                                    g_best->0.num as int,
                                    g_best->0.den as int,
                                    cur_num as int,
                                    cur_den as int,
                                    gain_num(dv, kk as nat, q as int),
                                    gain_den(dv, q as int),
                                );
                            }
                        }
                    }
                    found = Some(Position { pivot: q, gain_num: num, gain_den: den });
                    cur_num = num;
                    cur_den = den;
                    has_cur = true;
                }
            }
            i = i + 1;
        }
        found
    }
}


/// One row of the regression splitter's scan buffer: a feature key paired
/// with a weighted fixed-point target.
#[derive(Clone, Copy, Debug, PartialEq, Eq, Structural)]
pub struct MItem {
    /// The feature value (an order-preserving key) of this sample.
    pub key: u32,
    /// The fixed-point regression target of this sample.
    pub target: i64,
    /// The bootstrap weight of this sample.
    pub weight: u32,
}

/// Largest buffer length the regression splitter accepts: with weights at
/// most 15 the totals then stay below the MSE count limit, the most the
/// exact 128-bit gain arithmetic allows.
pub const MSE_LEN_LIMIT: usize = 0x2_0000;

/// Total weight of `s`.
pub open spec fn m_total(s: Seq<MItem>) -> int
    decreases s.len(),
{
    if s.len() == 0 {
        0
    } else {
        m_total(s.drop_last()) + s.last().weight
    }
}

/// Weighted sum of targets of `s`.
pub open spec fn m_sum(s: Seq<MItem>) -> int
    decreases s.len(),
{
    if s.len() == 0 {
        0
    } else {
        m_sum(s.drop_last()) + s.last().weight * s.last().target
    }
}

/// Weighted sum of squared targets of `s`.
pub open spec fn m_sq(s: Seq<MItem>) -> int
    decreases s.len(),
{
    if s.len() == 0 {
        0
    } else {
        m_sq(s.drop_last()) + s.last().weight * s.last().target * s.last().target
    }
}

/// All items of `s` are usable by the regression splitter: positive weight
/// at most 15 and a target within the fixed-point range.
pub open spec fn m_items_ok(s: Seq<MItem>) -> bool {
    forall|k: int|
        0 <= k < s.len() ==> 1 <= (#[trigger] s[k]).weight <= 15
            && -(crate::metrics::TARGET_LIMIT as int) <= s[k].target
            <= crate::metrics::TARGET_LIMIT
}

/// Keys never decrease along `s`.
pub open spec fn m_sorted_by_key(s: Seq<MItem>) -> bool {
    forall|a: int, b: int| 0 <= a <= b < s.len() ==> s[a].key <= s[b].key
}

/// `q` is a legal split boundary of `s`.
pub open spec fn m_legal_split(s: Seq<MItem>, q: int, msl: int) -> bool {
    msl <= q <= s.len() - msl && s[q - 1].key < s[q].key
}

/// Numerator of the gain of splitting `s` at `q`:
/// `B_left^2 * n_right + B_right^2 * n_left`. The split score `Q_L + Q_R`
/// is lowest exactly where this gain over `n_left * n_right` is highest.
pub open spec fn m_gain_num(s: Seq<MItem>, q: int) -> int {
    m_sum(s.take(q)) * m_sum(s.take(q)) * m_total(s.skip(q)) + m_sum(s.skip(q)) * m_sum(s.skip(q))
        * m_total(s.take(q))
}

/// Denominator of the gain of splitting `s` at `q`: `n_left * n_right`.
pub open spec fn m_gain_den(s: Seq<MItem>, q: int) -> int {
    m_total(s.take(q)) * m_total(s.skip(q))
}

/// Candidate `q1` of `s` has strictly higher gain than candidate `q2`.
pub open spec fn m_gain_gt(s: Seq<MItem>, q1: int, q2: int) -> bool {
    m_gain_num(s, q1) * m_gain_den(s, q2) > m_gain_num(s, q2) * m_gain_den(s, q1)
}

/// Candidate `q` of `s` has strictly higher gain than the fraction `n / d`.
pub open spec fn m_gain_gt_frac(s: Seq<MItem>, q: int, n: int, d: int) -> bool {
    m_gain_num(s, q) * d > n * m_gain_den(s, q)
}

/// Candidate `q1` of buffer `s1` has strictly higher gain than candidate
/// `q2` of buffer `s2`; with `s1 == s2` this is `m_gain_gt`.
pub open spec fn m_gain_gt_across(s1: Seq<MItem>, q1: int, s2: Seq<MItem>, q2: int) -> bool {
    m_gain_num(s1, q1) * m_gain_den(s2, q2) > m_gain_num(s2, q2) * m_gain_den(s1, q1)
}

/// Appending one item moves each statistic by its contribution.
pub proof fn lemma_m_push(s: Seq<MItem>, x: MItem)
    ensures
        m_total(s.push(x)) == m_total(s) + x.weight,
        m_sum(s.push(x)) == m_sum(s) + x.weight * x.target,
        m_sq(s.push(x)) == m_sq(s) + x.weight * x.target * x.target,
{
    assert(s.push(x).drop_last() =~= s);
}

/// The statistics add over concatenation.
pub proof fn lemma_m_concat(a: Seq<MItem>, b: Seq<MItem>)
    ensures
        m_total(a + b) == m_total(a) + m_total(b),
        m_sum(a + b) == m_sum(a) + m_sum(b),
        m_sq(a + b) == m_sq(a) + m_sq(b),
    decreases b.len(),
{
    if b.len() == 0 {
        assert(a + b =~= a);
    } else {
        lemma_m_concat(a, b.drop_last());
        assert((a + b).drop_last() =~= a + b.drop_last());
        assert((a + b).last() == b.last());
    }
}

/// The statistics of an in-range buffer are bounded by its length.
pub proof fn lemma_m_bounds(s: Seq<MItem>)
    requires
        m_items_ok(s),
    ensures
        s.len() <= m_total(s) <= 15 * s.len(),
        -m_total(s) * (crate::metrics::TARGET_LIMIT as int) <= m_sum(s) <= m_total(s) * (
        crate::metrics::TARGET_LIMIT as int),
        0 <= m_sq(s) <= m_total(s) * (crate::metrics::TARGET_LIMIT as int) * (
        crate::metrics::TARGET_LIMIT as int),
    decreases s.len(),
{
    if s.len() > 0 {
        lemma_m_bounds(s.drop_last());
        let x = s.last();
        let tl = crate::metrics::TARGET_LIMIT as int;
        assert(-(x.weight as int) * tl <= x.weight * x.target <= (x.weight as int) * tl && 0
            <= x.weight * x.target * x.target <= (x.weight as int) * tl * tl) by (nonlinear_arith)
            requires
                1 <= x.weight <= 15,
                -tl <= x.target <= tl,
                tl > 0,
        {}
        assert((m_total(s.drop_last()) + x.weight) * tl == m_total(s.drop_last()) * tl + (
        x.weight as int) * tl && (m_total(s.drop_last()) + x.weight) * tl * tl == m_total(
            s.drop_last(),
        ) * tl * tl + (x.weight as int) * tl * tl) by (nonlinear_arith);
    }
}

/// How one step of the sweep moves the prefix statistics.
proof fn lemma_m_take_step(s: Seq<MItem>, i: int)
    requires
        0 <= i < s.len(),
    ensures
        m_total(s.take(i + 1)) == m_total(s.take(i)) + s[i].weight,
        m_sum(s.take(i + 1)) == m_sum(s.take(i)) + s[i].weight * s[i].target,
        m_sq(s.take(i + 1)) == m_sq(s.take(i)) + s[i].weight * s[i].target * s[i].target,
{
    assert(s.take(i + 1) =~= s.take(i).push(s[i]));
    lemma_m_push(s.take(i), s[i]);
}

/// The two sides of a boundary carry the whole range's statistics.
proof fn lemma_m_sides(s: Seq<MItem>, q: int)
    requires
        m_items_ok(s),
        0 < q < s.len(),
    ensures
        m_total(s.skip(q)) == m_total(s) - m_total(s.take(q)),
        m_sum(s.skip(q)) == m_sum(s) - m_sum(s.take(q)),
        m_sq(s.skip(q)) == m_sq(s) - m_sq(s.take(q)),
        q <= m_total(s.take(q)) <= 15 * q,
        s.len() - q <= m_total(s.skip(q)) <= 15 * (s.len() - q),
        -m_total(s.take(q)) * (crate::metrics::TARGET_LIMIT as int) <= m_sum(s.take(q)) <= m_total(
            s.take(q),
        ) * (crate::metrics::TARGET_LIMIT as int),
        -m_total(s.skip(q)) * (crate::metrics::TARGET_LIMIT as int) <= m_sum(s.skip(q)) <= m_total(
            s.skip(q),
        ) * (crate::metrics::TARGET_LIMIT as int),
        0 <= m_sq(s.skip(q)) <= m_total(s.skip(q)) * (crate::metrics::TARGET_LIMIT as int) * (
        crate::metrics::TARGET_LIMIT as int),
{
    assert(s =~= s.take(q) + s.skip(q));
    lemma_m_concat(s.take(q), s.skip(q));
    assert(m_items_ok(s.take(q)));
    assert(m_items_ok(s.skip(q)));
    lemma_m_bounds(s.take(q));
    lemma_m_bounds(s.skip(q));
}

/// A legal boundary's gain denominator is positive.
pub proof fn lemma_m_gain_den_pos(s: Seq<MItem>, q: int)
    requires
        m_items_ok(s),
        0 < q < s.len(),
    ensures
        m_gain_den(s, q) >= 1,
{
    lemma_m_sides(s, q);
    let dl = m_total(s.take(q));
    let dr = m_total(s.skip(q));
    assert(dl * dr >= 1) by (nonlinear_arith)
        requires
            dl >= 1,
            dr >= 1,
    {}
}

/// Finds the best MSE split of a sorted buffer.
pub struct MseSplitter {
    min_samples_leaf: usize,
}

impl MseSplitter {
    /// The least number of slots a side of a split must keep.
    pub closed spec fn spec_min_samples_leaf(&self) -> int {
        self.min_samples_leaf as int
    }

    /// A splitter that keeps `min_samples_leaf` slots on each side of any
    /// split it reports.
    pub fn new(min_samples_leaf: usize) -> (r: MseSplitter)
        ensures
            r.spec_min_samples_leaf() == min_samples_leaf,
    {
        MseSplitter { min_samples_leaf }
    }

    /// Accumulates a node's items and reports whether the node is impure.
    /// Purity is exactly zero variance: `n * sq_sum == sum * sum`.
    pub fn prepare(&self, items: &Vec<MItem>) -> (r: bool)
        requires
            m_items_ok(items@),
            items@.len() <= MSE_LEN_LIMIT,
        ensures
            r <==> m_total(items@) * m_sq(items@) != m_sum(items@) * m_sum(items@),
    {
        let acc = mse_accumulate(items);
        !acc.pure()
    }

    /// Scans a buffer sorted by key and returns the first candidate with
    /// the highest gain, provided it is strictly better than `best` (when
    /// given); `None` when no legal candidate beats it.
    #[verifier::rlimit(100)]
    pub fn find_split(&self, data: &Vec<MItem>, best: Option<Gain>) -> (r: Option<Position>)
        requires
            m_sorted_by_key(data@),
            m_items_ok(data@),
            data@.len() <= MSE_LEN_LIMIT,
            self.spec_min_samples_leaf() >= 1,
            2 * self.spec_min_samples_leaf() <= data@.len(),
            best is Some ==> 0 < best->0.den <= DENOM_LIMIT,
        ensures
            ({
                let msl = self.spec_min_samples_leaf();
                match r {
                    Some(pos) => {
                        &&& m_legal_split(data@, pos.pivot as int, msl)
                        &&& pos.gain_num == m_gain_num(data@, pos.pivot as int)
                        &&& pos.gain_den == m_gain_den(data@, pos.pivot as int)
                        &&& 0 < pos.gain_den <= DENOM_LIMIT
                        &&& (best is Some ==> m_gain_gt_frac(
                            data@,
                            pos.pivot as int,
                            best->0.num as int,
                            best->0.den as int,
                        ))
                        &&& forall|q: int|
                            m_legal_split(data@, q, msl) ==> !m_gain_gt(
                                data@,
                                q,
                                pos.pivot as int,
                            )
                        &&& forall|q: int|
                            m_legal_split(data@, q, msl) && q < pos.pivot ==> m_gain_gt(
                                data@,
                                pos.pivot as int,
                                q,
                            )
                    },
                    None => {
                        &&& best is None ==> forall|q: int| !m_legal_split(data@, q, msl)
                        &&& best is Some ==> forall|q: int|
                            m_legal_split(data@, q, msl) ==> !m_gain_gt_frac(
                                data@,
                                q,
                                best->0.num as int,
                                best->0.den as int,
                            )
                    },
                }
            }),
    {
        let msl = self.min_samples_leaf;
        let m = data.len();
        let ghost dv = data@;
        let ghost tl = crate::metrics::TARGET_LIMIT as int;

        let mut right = mse_accumulate(data);
        let mut left = crate::metrics::Mse::new();
        let mut found: Option<Position> = None;
        let mut cur_num: u128 = 0;
        let mut cur_den: u128 = 1;
        let mut has_cur = false;
        match best {
            Some(g) => {
                cur_num = g.num;
                cur_den = g.den;
                has_cur = true;
            },
            None => {},
        }
        let ghost g_best = best;

        let mut i: usize = 0;
        while i < m - msl
            invariant
                m == dv.len() <= MSE_LEN_LIMIT,
                dv == data@,
                m_sorted_by_key(dv),
                m_items_ok(dv),
                1 <= msl,
                2 * msl <= m,
                i <= m - msl,
                left.wf(),
                right.wf(),
                left.spec_total() == m_total(dv.take(i as int)),
                left.spec_sum() == m_sum(dv.take(i as int)),
                left.spec_sq_sum() == m_sq(dv.take(i as int)),
                right.spec_total() == m_total(dv) - m_total(dv.take(i as int)),
                right.spec_sum() == m_sum(dv) - m_sum(dv.take(i as int)),
                right.spec_sq_sum() == m_sq(dv) - m_sq(dv.take(i as int)),
                g_best is Some ==> 0 < g_best->0.den <= DENOM_LIMIT,
                0 < cur_den <= DENOM_LIMIT,
                has_cur == (g_best is Some || found is Some),
                g_best is None && found is None ==> forall|q: int|
                    q <= i ==> !m_legal_split(dv, q, msl as int),
                g_best is Some && found is None ==> cur_num == g_best->0.num && cur_den
                    == g_best->0.den && forall|q: int|
                    q <= i && m_legal_split(dv, q, msl as int) ==> !m_gain_gt_frac(
                        dv,
                        q,
                        cur_num as int,
                        cur_den as int,
                    ),
                found matches Some(pos) ==> {
                    &&& pos.pivot <= i
                    &&& m_legal_split(dv, pos.pivot as int, msl as int)
                    &&& cur_num == pos.gain_num && cur_den == pos.gain_den
                    &&& pos.gain_num == m_gain_num(dv, pos.pivot as int)
                    &&& pos.gain_den == m_gain_den(dv, pos.pivot as int)
                    &&& (g_best is Some ==> m_gain_gt_frac(
                        dv,
                        pos.pivot as int,
                        g_best->0.num as int,
                        g_best->0.den as int,
                    ))
                    &&& forall|q: int|
                        q <= i && m_legal_split(dv, q, msl as int) ==> !m_gain_gt(
                            dv,
                            q,
                            pos.pivot as int,
                        )
                    &&& forall|q: int|
                        q <= i && m_legal_split(dv, q, msl as int) && q < pos.pivot ==> m_gain_gt(
                            dv,
                            pos.pivot as int,
                            q,
                        )
                },
            decreases m - msl - i,
        {
            let it = data[i];
            let q = i + 1;
            proof {
                assert(m_items_ok(dv.take(i as int)));
                lemma_m_bounds(dv.take(i as int));
                lemma_m_take_step(dv, i as int);
                lemma_m_sides(dv, q as int);
                lemma_m_bounds(dv);
            }
            left.push(it.target, it.weight);
            right.pop(it.target, it.weight);
            if data[i].key < data[q].key && q >= msl {
                let ln = left.total();
                let rn = right.total();
                let lsum = left.sum();
                let rsum = right.sum();
                proof {
                    assert(ln >= 1 && rn >= 1);
                    assert(-0x20_0000i64 * 0x8000_0000i64 <= lsum <= 0x20_0000i64
                        * 0x8000_0000i64);
                    assert(-0x20_0000i64 * 0x8000_0000i64 <= rsum <= 0x20_0000i64
                        * 0x8000_0000i64);
                    assert((lsum as int) * (lsum as int) == m_sum(dv.take(q as int)) * m_sum(
                        dv.take(q as int),
                    ) && 0 <= (lsum as int) * (lsum as int)
                        <= 0x100_0000_0000_0000_0000_0000_0000int && 0 <= (rsum as int) * (
                    rsum as int) <= 0x100_0000_0000_0000_0000_0000_0000int && (rsum as int) * (
                    rsum as int) == m_sum(dv.skip(q as int)) * m_sum(dv.skip(q as int))) by (
                    nonlinear_arith)
                        requires
                            lsum == m_sum(dv.take(q as int)),
                            rsum == m_sum(dv.skip(q as int)),
                            -0x20_0000 * 0x8000_0000 <= lsum <= 0x20_0000 * 0x8000_0000,
                            -0x20_0000 * 0x8000_0000 <= rsum <= 0x20_0000 * 0x8000_0000,
                    {}
                }
                let lsq2 = (lsum as i128 * lsum as i128) as u128;
                let rsq2 = (rsum as i128 * rsum as i128) as u128;
                proof {
                    assert(lsq2 == (lsum as int) * (lsum as int));
                    assert(rsq2 == (rsum as int) * (rsum as int));
                    assert(lsq2 * rn <= 0x100_0000_0000_0000_0000_0000_0000int * 0x20_0000) by (
                    nonlinear_arith)
                        requires
                            0 <= lsq2 <= 0x100_0000_0000_0000_0000_0000_0000int,
                            0 < rn <= 0x20_0000,
                    {}
                    assert(rsq2 * ln <= 0x100_0000_0000_0000_0000_0000_0000int * 0x20_0000) by (
                    nonlinear_arith)
                        requires
                            0 <= rsq2 <= 0x100_0000_0000_0000_0000_0000_0000int,
                            0 < ln <= 0x20_0000,
                    {}
                    assert(1 <= ln * rn <= DENOM_LIMIT) by (nonlinear_arith)
                        requires
                            1 <= ln <= 0x20_0000,
                            1 <= rn <= 0x20_0000,
                            DENOM_LIMIT == 0x1_0000_0000_0000_0000,
                    {}
                }
                let num = lsq2 * (rn as u128) + rsq2 * (ln as u128);
                let den = (ln as u128) * (rn as u128);
                proof {
                    assert(num == m_gain_num(dv, q as int) && den == m_gain_den(dv, q as int));
                    assert(m_legal_split(dv, q as int, msl as int));
                }
                let take_it = if !has_cur {
                    true
                } else {
                    frac_gt(num, den, cur_num, cur_den)
                };
                if take_it {
                    proof {
                        assert(m_gain_den(dv, q as int) > 0);
                        if has_cur {
                            assert forall|q2: int|
                                q2 <= i && m_legal_split(dv, q2, msl as int) implies m_gain_gt(
                                dv,
                                q as int,
                                q2,
                            ) by {
                                lemma_m_sides(dv, q2);
                                let dl = m_total(dv.take(q2));
                                let dr = m_total(dv.skip(q2));
                                assert(dl >= 1 && dr >= 1);
                                assert(dl * dr >= 1) by (nonlinear_arith)
                                    requires
                                        dl >= 1,
                                        dr >= 1,
                                {}
                                lemma_frac_le_lt_trans(
                                    m_gain_num(dv, q2),
                                    m_gain_den(dv, q2),
                                    cur_num as int,
                                    cur_den as int,
                                    m_gain_num(dv, q as int),
                                    m_gain_den(dv, q as int),
                                );
                            }
                            if g_best is Some && found is Some {
                                lemma_frac_le_lt_trans(
                                    g_best->0.num as int,
                                    g_best->0.den as int,
                                    cur_num as int,
                                    cur_den as int,
                                    m_gain_num(dv, q as int),
                                    m_gain_den(dv, q as int),
                                );
                            }
                        }
                    }
                    found = Some(Position { pivot: q, gain_num: num, gain_den: den });
                    cur_num = num;
                    cur_den = den;
                    has_cur = true;
                }
            }
            i = i + 1;
        }
        found
    }
}

/// An accumulator holding exactly the statistics of `items`.
pub(crate) fn mse_accumulate(items: &Vec<MItem>) -> (r: crate::metrics::Mse)
    requires
        m_items_ok(items@),
        items@.len() <= MSE_LEN_LIMIT,
    ensures
        r.wf(),
        r.spec_total() == m_total(items@),
        r.spec_sum() == m_sum(items@),
        r.spec_sq_sum() == m_sq(items@),
{
    let mut acc = crate::metrics::Mse::new();
    let mut k: usize = 0;
    while k < items.len()
        invariant
            k <= items@.len() <= MSE_LEN_LIMIT,
            m_items_ok(items@),
            acc.wf(),
            acc.spec_total() == m_total(items@.take(k as int)),
            acc.spec_sum() == m_sum(items@.take(k as int)),
            acc.spec_sq_sum() == m_sq(items@.take(k as int)),
        decreases items@.len() - k,
    {
        let it = items[k];
        proof {
            assert(m_items_ok(items@.take(k as int)));
            lemma_m_bounds(items@.take(k as int));
            lemma_m_take_step(items@, k as int);
            assert(m_total(items@.take(k as int)) + it.weight <= 15 * items@.len()) by (
            nonlinear_arith)
                requires
                    m_total(items@.take(k as int)) <= 15 * k,
                    it.weight <= 15,
                    k < items@.len(),
            {}
        }
        acc.push(it.target, it.weight);
        k = k + 1;
    }
    proof {
        assert(items@.take(items@.len() as int) =~= items@);
    }
    acc
}


/// A feature that is constant over a range offers no legal split: every
/// boundary needs a strict key change, and there is none.
pub proof fn lemma_constant_feature_no_split(s: Seq<GItem>, msl: int)
    requires
        msl >= 1,
        forall|a: int, b: int| 0 <= a < s.len() && 0 <= b < s.len() ==> s[a].key == s[b].key,
    ensures
        forall|q: int| !legal_split(s, q, msl),
{
    assert forall|q: int| !legal_split(s, q, msl) by {
        if msl <= q <= s.len() - msl && 0 < q < s.len() {
            assert(s[q - 1].key == s[q].key);
        }
    }
}


/// Between two positions with different keys of a sorted buffer there is an
/// adjacent strict key change; returns where.
proof fn lemma_key_change_between(s: Seq<GItem>, a: int, b: int) -> (i: int)
    requires
        sorted_by_key(s),
        0 <= a < b < s.len(),
        s[a].key < s[b].key,
    ensures
        a <= i < b,
        s[i].key < s[i + 1].key,
    decreases b - a,
{
    if s[b - 1].key < s[b].key {
        b - 1
    } else {
        lemma_key_change_between(s, a, b - 1)
    }
}

/// A sorted range that is not constant on its feature always offers a legal
/// split when each side must keep only one slot. Together with the purity
/// gate this is what lets an unlimited-depth tree keep splitting until every
/// leaf is pure, as long as no two remaining rows are equal everywhere.
pub proof fn lemma_distinct_keys_offer_split(s: Seq<GItem>)
    requires
        sorted_by_key(s),
        s.len() >= 2,
        exists|a: int, b: int|
            0 <= a < s.len() && 0 <= b < s.len() && #[trigger] s[a].key != #[trigger] s[b].key,
    ensures
        exists|q: int| legal_split(s, q, 1),
{
    let (a, b) = choose|a: int, b: int|
        0 <= a < s.len() && 0 <= b < s.len() && #[trigger] s[a].key != #[trigger] s[b].key;
    if s[a].key < s[b].key {
        let i = lemma_key_change_between(s, a, b);
        assert(legal_split(s, i + 1, 1));
    } else {
        let i = lemma_key_change_between(s, b, a);
        assert(legal_split(s, i + 1, 1));
    }
}


/// Between two positions with different keys of a sorted regression buffer
/// there is an adjacent strict key change; returns where.
proof fn lemma_m_key_change_between(s: Seq<MItem>, a: int, b: int) -> (i: int)
    requires
        m_sorted_by_key(s),
        0 <= a < b < s.len(),
        s[a].key < s[b].key,
    ensures
        a <= i < b,
        s[i].key < s[i + 1].key,
    decreases b - a,
{
    if s[b - 1].key < s[b].key {
        b - 1
    } else {
        lemma_m_key_change_between(s, a, b - 1)
    }
}

/// The regression twin of `lemma_distinct_keys_offer_split`.
pub proof fn lemma_m_distinct_keys_offer_split(s: Seq<MItem>)
    requires
        m_sorted_by_key(s),
        s.len() >= 2,
        exists|a: int, b: int|
            0 <= a < s.len() && 0 <= b < s.len() && #[trigger] s[a].key != #[trigger] s[b].key,
    ensures
        exists|q: int| m_legal_split(s, q, 1),
{
    let (a, b) = choose|a: int, b: int|
        0 <= a < s.len() && 0 <= b < s.len() && #[trigger] s[a].key != #[trigger] s[b].key;
    if s[a].key < s[b].key {
        let i = lemma_m_key_change_between(s, a, b);
        assert(m_legal_split(s, i + 1, 1));
    } else {
        let i = lemma_m_key_change_between(s, b, a);
        assert(m_legal_split(s, i + 1, 1));
    }
}

} // verus!
