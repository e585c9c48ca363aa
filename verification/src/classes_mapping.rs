//! Bijection between arbitrary `i64` class labels and dense codes `0..K`.
//!
//! The decode table holds the distinct labels in strictly ascending order;
//! a label's code is its position in that table.
use vstd::prelude::*;

verus! {

/// True when `s` is strictly ascending.
pub open spec fn strictly_sorted(s: Seq<i64>) -> bool {
    forall|i: int, j: int| 0 <= i < j < s.len() ==> s[i] < s[j]
}

/// Maps dense class codes back to the original `i64` labels.
#[derive(Clone, Debug)]
pub struct ClassesMapping {
    decode_table: Vec<i64>,
}

impl ClassesMapping {
    /// The decode table as a sequence.
    pub closed spec fn table(&self) -> Seq<i64> {
        self.decode_table@
    }

    /// The table is strictly sorted, so each label appears exactly once.
    pub open spec fn wf(&self) -> bool {
        strictly_sorted(self.table())
    }

    /// Builds the mapping from a label vector and encodes every label.
    ///
    /// The table holds exactly the distinct labels of `labels`, ascending;
    /// the returned codes index it, so decoding a code gives the label back.
    pub fn with_encode(labels: &Vec<i64>) -> (r: (ClassesMapping, Vec<u32>))
        requires
            labels.len() < u32::MAX,
        ensures
            r.0.wf(),
            r.0.table().len() <= labels@.len(),
            forall|v: i64| r.0.table().contains(v) <==> labels@.contains(v),
            r.1.len() == labels.len(),
            forall|i: int|
                0 <= i < labels.len() ==> r.1[i] < r.0.table().len()
                    && r.0.table()[r.1[i] as int] == labels[i],
    {
        let mut table: Vec<i64> = Vec::new();
        let mut k: usize = 0;
        while k < labels.len()
            invariant
                k <= labels.len(),
                strictly_sorted(table@),
                table@.len() <= k,
                forall|v: i64| table@.contains(v) <==> labels@.take(k as int).contains(v),
            decreases labels.len() - k,
        {
            let ghost pre = table@;
            let v = labels[k];
            let pos = lower_bound(&table, v);
            if pos == table.len() || table[pos] != v {
                table.insert(pos, v);
                proof {
                    assert(table@.len() == pre.len() + 1);
                    assert forall|j: int| 0 <= j < pos implies table@[j] == pre[j] by {
                        assert(table@ == pre.insert(pos as int, v));
                    }
                    assert(table@[pos as int] == v) by {
                        assert(table@ == pre.insert(pos as int, v));
                    }
                    assert forall|j: int| pos < j < table@.len() implies table@[j] == pre[j - 1] by {
                        assert(table@ == pre.insert(pos as int, v));
                    }
                    assert forall|w: i64| table@.contains(w) implies labels@.take(
                        k + 1,
                    ).contains(w) by {
                        let x = choose|x: int| 0 <= x < table@.len() && table@[x] == w;
                        if x < pos {
                            assert(pre[x] == w);
                            assert(pre.contains(w));
                            let y = choose|y: int| 0 <= y < k && #[trigger] labels@.take(k as int)[y] == w;
                            assert(labels@.take(k as int)[y] == labels@[y]);
                            assert(labels@.take(k + 1)[y] == labels@[y]);
                        } else if x == pos {
                            assert(labels@.take(k + 1)[k as int] == labels@[k as int]);
                        } else {
                            assert(pre[x - 1] == w);
                            assert(pre.contains(w));
                            let y = choose|y: int| 0 <= y < k && #[trigger] labels@.take(k as int)[y] == w;
                            assert(labels@.take(k as int)[y] == labels@[y]);
                            assert(labels@.take(k + 1)[y] == labels@[y]);
                        }
                    }
                    assert forall|w: i64| labels@.take(k + 1).contains(w) implies table@.contains(
                        w,
                    ) by {
                        let y = choose|y: int| 0 <= y < k + 1 && #[trigger] labels@.take(k + 1)[y] == w;
                        if y < k {
                            assert(labels@.take(k as int)[y] == labels@[y]);
                            assert(labels@.take(k as int).contains(w));
                            assert(pre.contains(w));
                            let x = choose|x: int| 0 <= x < pre.len() && #[trigger] pre[x] == w;
                            assert(pre[x] == w);
                            if x < pos {
                                assert(table@[x] == pre[x]);
                                assert(table@[x] == w);
                            } else {
                                assert(table@[x + 1] == pre[x]);
                                assert(table@[x + 1] == w);
                            }
                        } else {
                            assert(table@[pos as int] == w);
                        }
                    }
                }
            } else {
                proof {
                    assert forall|w: i64| labels@.take(k + 1).contains(w) implies table@.contains(
                        w,
                    ) by {
                        let y = choose|y: int| 0 <= y < k + 1 && #[trigger] labels@.take(k + 1)[y] == w;
                        if y < k {
                            assert(labels@.take(k as int)[y] == labels@[y]);
                            assert(labels@.take(k as int).contains(w));
                        } else {
                            assert(w == labels@[k as int]);
                            assert(table@[pos as int] == w);
                        }
                    }
                    assert forall|w: i64| table@.contains(w) implies labels@.take(
                        k + 1,
                    ).contains(w) by {
                        let y = choose|y: int| 0 <= y < k && #[trigger] labels@.take(k as int)[y] == w;
                        assert(labels@.take(k as int)[y] == labels@[y]);
                        assert(labels@.take(k + 1)[y] == labels@[y]);
                    }
                }
            }
            k = k + 1;
        }
        proof {
            assert(labels@.take(labels.len() as int) =~= labels@);
        }

        let m = ClassesMapping { decode_table: table };
        let mut codes: Vec<u32> = Vec::new();
        let mut i: usize = 0;
        while i < labels.len()
            invariant
                i <= labels.len(),
                m.wf(),
                forall|v: i64| m.table().contains(v) <==> labels@.contains(v),
                m.table().len() <= labels.len() < u32::MAX,
                codes@.len() == i,
                forall|j: int|
                    0 <= j < i ==> #[trigger] codes@[j] < m.table().len()
                        && m.table()[codes@[j] as int] == labels@[j],
            decreases labels.len() - i,
        {
            let v = labels[i];
            let pos = lower_bound(&m.decode_table, v);
            proof {
                assert(labels@[i as int] == v);
                assert(labels@.contains(v));
                let x = choose|x: int| 0 <= x < m.table().len() && #[trigger] m.table()[x] == v;
                assert(!(x < pos)) by {
                    if x < pos {
                        assert(m.table()[x] < v);
                    }
                }
                assert(!(x > pos)) by {
                    if x > pos {
                        assert(m.table()[pos as int] < m.table()[x]);
                        assert(m.table()[pos as int] >= v);
                    }
                }
                assert(pos == x);
            }
            let ghost pre_codes = codes@;
            codes.push(pos as u32);
            proof {
                assert(codes@ == pre_codes.push(pos as u32));
                assert(forall|j: int| 0 <= j < i ==> codes@[j] == pre_codes[j]);
                assert(codes@[i as int] == pos as u32);
                assert(pos < m.table().len());
                assert((pos as u32) as int == pos as int);
                assert(m.table()[(pos as u32) as int] == labels@[i as int]);
            }
            i = i + 1;
        }
        (m, codes)
    }

    /// Rebuilds the mapping from a label vector and returns the encoded
    /// labels, exactly as `with_encode` does.
    pub fn encode(&mut self, labels: &Vec<i64>) -> (r: Vec<u32>)
        requires
            labels.len() < u32::MAX,
        ensures
            final(self).wf(),
            final(self).table().len() <= labels@.len(),
            forall|v: i64| final(self).table().contains(v) <==> labels@.contains(v),
            r.len() == labels.len(),
            forall|i: int|
                0 <= i < labels.len() ==> r[i] < final(self).table().len()
                    && final(self).table()[r[i] as int] == labels[i],
    {
        let (m, codes) = ClassesMapping::with_encode(labels);
        let ghost gt = m.table();
        self.decode_table = m.decode_table;
        proof {
            assert(self.table() == gt);
            assert forall|i: int|
                0 <= i < labels.len() implies #[trigger] codes@[i] < self.table().len()
                && self.table()[codes@[i] as int] == labels@[i] by {
                assert(gt[codes@[i] as int] == labels@[i]);
            }
        }
        codes
    }
}

/// First index whose entry is `>= v`; `table.len()` when every entry is smaller.
fn lower_bound(table: &Vec<i64>, v: i64) -> (pos: usize)
    requires
        strictly_sorted(table@),
    ensures
        pos <= table.len(),
        forall|i: int| 0 <= i < pos ==> table@[i] < v,
        forall|i: int| pos <= i < table@.len() ==> table@[i] >= v,
{
    let mut lo: usize = 0;
    let mut hi: usize = table.len();
    while lo < hi
        invariant
            strictly_sorted(table@),
            lo <= hi <= table.len(),
            forall|i: int| 0 <= i < lo ==> table@[i] < v,
            forall|i: int| hi <= i < table@.len() ==> table@[i] >= v,
        decreases hi - lo,
    {
        let mid = lo + (hi - lo) / 2;
        if table[mid] < v {
            lo = mid + 1;
        } else {
            hi = mid;
        }
    }
    lo
}

/// Read access to a trained classifier's label table.
pub trait ClassDecode {
    /// The decode table as a sequence of labels.
    spec fn spec_table(&self) -> Seq<i64>;

    /// Returns the decode table: code `i` decodes to entry `i`.
    fn get_decode_table(&self) -> (r: &Vec<i64>)
        ensures
            r@ == self.spec_table(),
    ;

    /// Returns the number of classes stored in the table.
    fn num_classes(&self) -> (n: usize)
        ensures
            n == self.spec_table().len(),
    {
        self.get_decode_table().len()
    }

    /// Decodes a dense code into the original label.
    fn decode(&self, class_enc: usize) -> (r: i64)
        requires
            class_enc < self.spec_table().len(),
        ensures
            r == self.spec_table()[class_enc as int],
    {
        let t = self.get_decode_table();
        t[class_enc]
    }
}

impl ClassDecode for ClassesMapping {
    open spec fn spec_table(&self) -> Seq<i64> {
        self.table()
    }

    fn get_decode_table(&self) -> (r: &Vec<i64>) {
        &self.decode_table
    }
}

} // verus!
