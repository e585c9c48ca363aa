//! The decision tree structure and its prediction traversal.
//!
//! Nodes live in one vector; children are vector indices. A child index
//! paired with a raised `..._is_leaf` flag is not an index but a leaf value
//! (a probability-table offset for classifiers, a value-table index for
//! regressors). Because `split` always appends, every internal child index
//! is larger than its parent's, which is what makes the traversal terminate.
use vstd::prelude::*;

verus! {

/// Which child slot of its parent a handle names.
#[derive(Clone, Copy, Debug, PartialEq, Eq, Structural)]
pub enum Child {
    LEFT,
    RIGHT,
    ROOT,
}

/// Names a leaf slot of the tree while it is being built.
#[derive(Clone, Copy, Debug, PartialEq, Eq, Structural)]
pub struct NodeHandle {
    /// The node whose child slot this handle names.
    pub parent: u32,
    /// Which slot of that node it names.
    pub child: Child,
}

impl NodeHandle {
    /// The node whose child slot this handle names.
    pub open spec fn spec_parent(&self) -> int {
        self.parent as int
    }

    /// Which slot of that node it names.
    pub open spec fn spec_child(&self) -> Child {
        self.child
    }
}

/// One tree node: a split on `feature` at `threshold`, whose child slots
/// hold either a child node index or a leaf value.
#[derive(Clone, Copy, Debug, PartialEq, Eq, Structural)]
pub struct InternalNode {
    /// Left child index, or the left leaf value when `left_is_leaf`.
    pub left: u32,
    /// Right child index, or the right leaf value when `right_is_leaf`.
    pub right: u32,
    /// Feature-key threshold: samples with `key <= threshold` go left.
    pub threshold: u32,
    /// Feature this node tests.
    pub feature: u16,
    /// Whether `left` is a leaf value rather than a node index.
    pub left_is_leaf: bool,
    /// Whether `right` is a leaf value rather than a node index.
    pub right_is_leaf: bool,
}

/// The leaf value a sample reaches, descending from node `id`.
pub open spec fn spec_decide(nodes: Seq<InternalNode>, sample: Seq<u32>, id: int) -> u32
    decreases nodes.len() - id,
{
    if 0 <= id < nodes.len() {
        let n = nodes[id];
        if n.feature < sample.len() && sample[n.feature as int] <= n.threshold {
            if n.left_is_leaf {
                n.left
            } else if id < n.left < nodes.len() {
                spec_decide(nodes, sample, n.left as int)
            } else {
                0
            }
        } else {
            if n.right_is_leaf {
                n.right
            } else if id < n.right < nodes.len() {
                spec_decide(nodes, sample, n.right as int)
            } else {
                0
            }
        }
    } else {
        0
    }
}

/// A decision tree over feature keys.
#[derive(Clone, Debug)]
pub struct DecisionTree {
    nodes: Vec<InternalNode>,
    num_features: u16,
}

impl DecisionTree {
    /// The node vector.
    pub closed spec fn spec_nodes(&self) -> Seq<InternalNode> {
        self.nodes@
    }

    /// The feature count predictions expect.
    pub closed spec fn spec_num_features(&self) -> int {
        self.num_features as int
    }

    /// Every internal child index points forward and in range, and every
    /// tested feature is in range.
    pub open spec fn wf(&self) -> bool {
        forall|i: int|
            0 <= i < self.spec_nodes().len() ==> {
                let n = #[trigger] self.spec_nodes()[i];
                &&& (!n.left_is_leaf ==> i < n.left < self.spec_nodes().len())
                &&& (!n.right_is_leaf ==> i < n.right < self.spec_nodes().len())
                &&& n.feature < self.spec_num_features()
            }
    }

    /// Every leaf value stored in the tree is below `bound`.
    pub open spec fn leaves_below(&self, bound: int) -> bool {
        forall|i: int|
            0 <= i < self.spec_nodes().len() ==> {
                let n = #[trigger] self.spec_nodes()[i];
                &&& (n.left_is_leaf ==> n.left < bound)
                &&& (n.right_is_leaf ==> n.right < bound)
            }
    }

    /// Every stored leaf value is below `bound` or still the placeholder
    /// zero of a slot that has not been filled yet.
    pub open spec fn leaves_below_or_zero(&self, bound: int) -> bool {
        forall|i: int|
            0 <= i < self.spec_nodes().len() ==> {
                let n = #[trigger] self.spec_nodes()[i];
                &&& (n.left_is_leaf ==> n.left < bound || n.left == 0)
                &&& (n.right_is_leaf ==> n.right < bound || n.right == 0)
            }
    }

    /// Whether `h` names a leaf slot of this tree.
    pub open spec fn is_leaf_slot(&self, h: NodeHandle) -> bool {
        match h.spec_child() {
            Child::ROOT => self.spec_nodes().len() == 0,
            Child::LEFT => h.spec_parent() < self.spec_nodes().len() && self.spec_nodes()[h.spec_parent()].left_is_leaf,
            Child::RIGHT => h.spec_parent() < self.spec_nodes().len()
                && self.spec_nodes()[h.spec_parent()].right_is_leaf,
        }
    }

    /// The leaf value currently stored in the slot `h` names.
    pub open spec fn slot_value(&self, h: NodeHandle) -> u32 {
        match h.spec_child() {
            Child::ROOT => 0,
            Child::LEFT => self.spec_nodes()[h.spec_parent()].left,
            Child::RIGHT => self.spec_nodes()[h.spec_parent()].right,
        }
    }

    /// An empty tree.
    pub fn new(num_features: u16) -> (r: DecisionTree)
        ensures
            r.spec_nodes().len() == 0,
            r.spec_num_features() == num_features,
            r.wf(),
    {
        DecisionTree { nodes: Vec::new(), num_features }
    }

    /// The handle of the root slot of a tree that has no nodes yet.
    pub fn root(&self) -> (h: NodeHandle)
        requires
            self.spec_nodes().len() == 0,
        ensures
            h == (NodeHandle { parent: 0, child: Child::ROOT }),
            self.is_leaf_slot(h),
    {
        NodeHandle { parent: 0, child: Child::ROOT }
    }

    /// The feature count predictions expect.
    pub fn num_features(&self) -> (n: usize)
        ensures
            n == self.spec_num_features(),
    {
        self.num_features as usize
    }

    /// Number of nodes.
    pub fn num_nodes(&self) -> (n: usize)
        ensures
            n == self.spec_nodes().len(),
    {
        self.nodes.len()
    }

    /// Turns the leaf slot `h` into a split on `feature` at `threshold` by
    /// appending a fresh node whose two slots are leaves; returns handles to
    /// them.
    pub fn split(&mut self, handle: &NodeHandle, feature: u16, threshold: u32) -> (r: (
        NodeHandle,
        NodeHandle,
    ))
        requires
            old(self).wf(),
            old(self).is_leaf_slot(*handle),
            feature < old(self).spec_num_features(),
            old(self).spec_nodes().len() < u32::MAX,
        ensures
            final(self).wf(),
            final(self).spec_num_features() == old(self).spec_num_features(),
            final(self).spec_nodes().len() == old(self).spec_nodes().len() + 1,
            final(self).spec_nodes().last() == (InternalNode {
                left: 0,
                right: 0,
                threshold,
                feature,
                left_is_leaf: true,
                right_is_leaf: true,
            }),
            // every node but the parent keeps its fields; the parent's named
            // slot now points at the fresh node
            forall|i: int|
                0 <= i < old(self).spec_nodes().len() && (handle.spec_child() is ROOT || i
                    != handle.spec_parent()) ==> final(self).spec_nodes()[i] == old(
                    self,
                ).spec_nodes()[i],
            handle.spec_child() is LEFT ==> final(self).spec_nodes()[handle.spec_parent()] == (
            InternalNode {
                left: old(self).spec_nodes().len() as u32,
                left_is_leaf: false,
                ..old(self).spec_nodes()[handle.spec_parent()]
            }),
            handle.spec_child() is RIGHT ==> final(self).spec_nodes()[handle.spec_parent()] == (
            InternalNode {
                right: old(self).spec_nodes().len() as u32,
                right_is_leaf: false,
                ..old(self).spec_nodes()[handle.spec_parent()]
            }),
            r.0 == (NodeHandle { parent: old(self).spec_nodes().len() as u32, child: Child::LEFT }),
            r.1 == (NodeHandle {
                parent: old(self).spec_nodes().len() as u32,
                child: Child::RIGHT,
            }),
            final(self).is_leaf_slot(r.0),
            final(self).is_leaf_slot(r.1),
    {
        let new_node = InternalNode {
            feature,
            left_is_leaf: true,
            right_is_leaf: true,
            threshold,
            left: 0,
            right: 0,
        };
        let new_index = self.nodes.len() as u32;
        self.nodes.push(new_node);

        match handle.child {
            Child::LEFT => {
                let p = handle.parent as usize;
                let mut node = self.nodes[p];
                node.left = new_index;
                node.left_is_leaf = false;
                self.nodes.set(p, node);
            },
            Child::RIGHT => {
                let p = handle.parent as usize;
                let mut node = self.nodes[p];
                node.right = new_index;
                node.right_is_leaf = false;
                self.nodes.set(p, node);
            },
            Child::ROOT => {},
        }

        let left_handle = NodeHandle { parent: new_index, child: Child::LEFT };
        let right_handle = NodeHandle { parent: new_index, child: Child::RIGHT };
        (left_handle, right_handle)
    }

    /// Stores `value` in the leaf slot `h` names. On the root slot of an
    /// empty tree it materializes one internal node with two identical
    /// leaves, so prediction always reaches a leaf.
    pub fn set_leaf_value(&mut self, handle: &NodeHandle, value: u32)
        requires
            old(self).wf(),
            old(self).is_leaf_slot(*handle),
            old(self).spec_num_features() >= 1,
        ensures
            final(self).wf(),
            final(self).spec_num_features() == old(self).spec_num_features(),
            handle.spec_child() is ROOT ==> final(self).spec_nodes() =~= seq![
                (InternalNode {
                    left: value,
                    right: value,
                    threshold: 0,
                    feature: 0,
                    left_is_leaf: true,
                    right_is_leaf: true,
                }),
            ],
            !(handle.spec_child() is ROOT) ==> {
                &&& final(self).spec_nodes().len() == old(self).spec_nodes().len()
                &&& forall|i: int|
                    0 <= i < old(self).spec_nodes().len() && i != handle.spec_parent()
                        ==> final(self).spec_nodes()[i] == old(self).spec_nodes()[i]
            },
            handle.spec_child() is LEFT ==> final(self).spec_nodes()[handle.spec_parent()] == (
            InternalNode { left: value, ..old(self).spec_nodes()[handle.spec_parent()] }),
            handle.spec_child() is RIGHT ==> final(self).spec_nodes()[handle.spec_parent()] == (
            InternalNode { right: value, ..old(self).spec_nodes()[handle.spec_parent()] }),
    {
        match handle.child {
            Child::LEFT => {
                let p = handle.parent as usize;
                let mut node = self.nodes[p];
                node.left = value;
                self.nodes.set(p, node);
                proof {
                    assert(self.spec_nodes() == old(self).spec_nodes().update(p as int, node));
                    assert forall|i: int| 0 <= i < self.spec_nodes().len() implies {
                        let n = #[trigger] self.spec_nodes()[i];
                        &&& (!n.left_is_leaf ==> i < n.left < self.spec_nodes().len())
                        &&& (!n.right_is_leaf ==> i < n.right < self.spec_nodes().len())
                        &&& n.feature < self.spec_num_features()
                    } by {
                        if i != p {
                            assert(self.spec_nodes()[i] == old(self).spec_nodes()[i]);
                        }
                    }
                }
            },
            Child::RIGHT => {
                let p = handle.parent as usize;
                let mut node = self.nodes[p];
                node.right = value;
                self.nodes.set(p, node);
                proof {
                    assert(self.spec_nodes() == old(self).spec_nodes().update(p as int, node));
                    assert forall|i: int| 0 <= i < self.spec_nodes().len() implies {
                        let n = #[trigger] self.spec_nodes()[i];
                        &&& (!n.left_is_leaf ==> i < n.left < self.spec_nodes().len())
                        &&& (!n.right_is_leaf ==> i < n.right < self.spec_nodes().len())
                        &&& n.feature < self.spec_num_features()
                    } by {
                        if i != p {
                            assert(self.spec_nodes()[i] == old(self).spec_nodes()[i]);
                        }
                    }
                }
            },
            Child::ROOT => {
                let root = InternalNode {
                    left: value,
                    right: value,
                    threshold: 0,
                    feature: 0,
                    left_is_leaf: true,
                    right_is_leaf: true,
                };
                let mut nodes: Vec<InternalNode> = Vec::new();
                nodes.push(root);
                self.nodes = nodes;
            },
        }
    }

    /// Descends from the root and returns the leaf value the sample reaches.
    pub fn predict(&self, sample: &Vec<u32>) -> (r: u32)
        requires
            self.wf(),
            self.spec_nodes().len() > 0,
            sample.len() == self.spec_num_features(),
        ensures
            r == spec_decide(self.spec_nodes(), sample@, 0),
    {
        let mut id: u32 = 0;
        let mut is_leaf = false;
        while !is_leaf
            invariant
                self.wf(),
                sample.len() == self.spec_num_features(),
                self.spec_nodes().len() > 0,
                !is_leaf ==> id < self.spec_nodes().len(),
                !is_leaf ==> spec_decide(self.spec_nodes(), sample@, id as int) == spec_decide(
                    self.spec_nodes(),
                    sample@,
                    0,
                ),
                is_leaf ==> id == spec_decide(self.spec_nodes(), sample@, 0),
            decreases (if is_leaf {
                0int
            } else {
                self.spec_nodes().len() - id
            }),
        {
            let node = &self.nodes[id as usize];
            if sample[node.feature as usize] <= node.threshold {
                id = node.left;
                is_leaf = node.left_is_leaf;
            } else {
                id = node.right;
                is_leaf = node.right_is_leaf;
            }
        }
        id
    }
}

/// When every stored leaf value is below `bound`, so is every prediction.
pub proof fn lemma_decide_below(nodes: Seq<InternalNode>, sample: Seq<u32>, id: int, bound: int)
    requires
        bound > 0,
        forall|i: int|
            0 <= i < nodes.len() ==> {
                let n = #[trigger] nodes[i];
                &&& (n.left_is_leaf ==> n.left < bound)
                &&& (n.right_is_leaf ==> n.right < bound)
            },
    ensures
        spec_decide(nodes, sample, id) < bound,
    decreases nodes.len() - id,
{
    if 0 <= id < nodes.len() {
        let n = nodes[id];
        if n.feature < sample.len() && sample[n.feature as int] <= n.threshold {
            if !n.left_is_leaf && id < n.left < nodes.len() {
                lemma_decide_below(nodes, sample, n.left as int, bound);
            }
        } else {
            if !n.right_is_leaf && id < n.right < nodes.len() {
                lemma_decide_below(nodes, sample, n.right as int, bound);
            }
        }
    }
}

} // verus!
