//! The mathematical model of a search tree: what its nodes are, the
//! containment invariant, its leaves and its depth.

use vstd::prelude::*;
use crate::climate::{distance, lemma_union_is_nearer, union, ParameterRange};

verus! {

/// A search tree as a value of mathematics: what a `TreeNode` is viewed as.
pub enum Shape<T> {
    /// One registry entry: its label, its hypercube and its place in the
    /// registry.
    Leaf { value: T, point: Seq<ParameterRange>, rank: int },
    /// A group of nodes under the union of their bounds.
    Branch { children: Seq<Shape<T>>, bounds: Seq<ParameterRange> },
}

impl<T> Shape<T> {
    /// The hypercube of a leaf, the bounding hypercube of a branch.
    pub open spec fn bounds(self) -> Seq<ParameterRange> {
        match self {
            Shape::Leaf { point, .. } => point,
            Shape::Branch { bounds, .. } => bounds,
        }
    }

    /// The children of a branch; a leaf has none.
    pub open spec fn children(self) -> Seq<Shape<T>> {
        match self {
            Shape::Leaf { .. } => Seq::empty(),
            Shape::Branch { children, .. } => children,
        }
    }

    /// The union of the bounds of `nodes`, taken from the first node on.
    pub open spec fn hull(nodes: Seq<Shape<T>>) -> Seq<ParameterRange>
        decreases nodes.len(),
    {
        if nodes.len() <= 1 {
            nodes[0].bounds()
        } else {
            union(Self::hull(nodes.drop_last()), nodes.last().bounds())
        }
    }

    /// The containment invariant: every hypercube has seven parameters, and
    /// the bounds of every branch are the union of its children's bounds.
    pub open spec fn wf(self) -> bool
        decreases self,
    {
        match self {
            Shape::Leaf { point, .. } => point.len() == 7,
            Shape::Branch { children, bounds } => {
                &&& children.len() >= 1
                &&& forall|i: int| 0 <= i < children.len() ==> (#[trigger] children[i]).wf()
                &&& bounds == Self::hull(children)
            },
        }
    }

    /// Whether `leaf` is one of the leaves of the tree.
    pub open spec fn has_leaf(self, leaf: Shape<T>) -> bool
        decreases self,
    {
        match self {
            Shape::Leaf { .. } => self == leaf,
            Shape::Branch { children, .. } => exists|i: int|
                0 <= i < children.len() && (#[trigger] children[i]).has_leaf(leaf),
        }
    }

    /// Whether `leaf` is a leaf of one of `nodes`.
    pub open spec fn any_has_leaf(nodes: Seq<Shape<T>>, leaf: Shape<T>) -> bool {
        exists|i: int| 0 <= i < nodes.len() && (#[trigger] nodes[i]).has_leaf(leaf)
    }

    /// The number of branches on the longest way from the root to a leaf.
    pub open spec fn depth(self) -> nat
        decreases self,
    {
        match self {
            Shape::Leaf { .. } => 0,
            Shape::Branch { children, .. } => 1 + Self::max_depth(children),
        }
    }

    /// The greatest depth among `nodes`.
    pub open spec fn max_depth(nodes: Seq<Shape<T>>) -> nat
        decreases nodes,
    {
        if nodes.len() == 0 {
            0
        } else {
            let rest = Self::max_depth(nodes.drop_last());
            let last = nodes.last().depth();
            if last > rest {
                last
            } else {
                rest
            }
        }
    }

    /// Whether every branch of the tree has at least two and at most six
    /// children.
    pub open spec fn compact(self) -> bool
        decreases self,
    {
        match self {
            Shape::Leaf { .. } => true,
            Shape::Branch { children, .. } => {
                &&& 2 <= children.len() <= 6
                &&& forall|i: int| 0 <= i < children.len() ==> (#[trigger] children[i]).compact()
            },
        }
    }
}

/// The union of the bounds of some nodes covers the bounds of each of
/// them, and along every parameter it starts where one of them starts and
/// ends where one of them ends.
pub proof fn lemma_hull_is_exact<T>(nodes: Seq<Shape<T>>, d: int)
    requires
        nodes.len() >= 1,
        0 <= d < 7,
    ensures
        forall|i: int|
            0 <= i < nodes.len() ==> Shape::hull(nodes)[d].min <= (
            #[trigger] nodes[i]).bounds()[d].min && nodes[i].bounds()[d].max <= Shape::hull(
                nodes,
            )[d].max,
        exists|i: int|
            0 <= i < nodes.len() && (#[trigger] nodes[i]).bounds()[d].min == Shape::hull(
                nodes,
            )[d].min,
        exists|i: int|
            0 <= i < nodes.len() && (#[trigger] nodes[i]).bounds()[d].max == Shape::hull(
                nodes,
            )[d].max,
    decreases nodes.len(),
{
    if nodes.len() == 1 {
        assert(nodes[0].bounds()[d].min == Shape::hull(nodes)[d].min);
    } else {
        let front = nodes.drop_last();
        let last = nodes.len() - 1;
        lemma_hull_is_exact(front, d);
        assert forall|i: int| 0 <= i < nodes.len() implies Shape::hull(nodes)[d].min <= (
        #[trigger] nodes[i]).bounds()[d].min && nodes[i].bounds()[d].max <= Shape::hull(
            nodes,
        )[d].max by {
            if i < last {
                assert(front[i] == nodes[i]);
            }
        }
    }
}

/// The containment invariant, over the leaves: along every parameter, the
/// bounds of a node run from the least start among its leaves to the
/// greatest end among them.
pub proof fn lemma_bounds_are_union_of_leaves<T>(node: Shape<T>, d: int)
    requires
        node.wf(),
        0 <= d < 7,
    ensures
        forall|leaf: Shape<T>| #[trigger]
            node.has_leaf(leaf) ==> node.bounds()[d].min <= leaf.bounds()[d].min
                && leaf.bounds()[d].max <= node.bounds()[d].max,
        exists|leaf: Shape<T>| #[trigger]
            node.has_leaf(leaf) && leaf.bounds()[d].min == node.bounds()[d].min,
        exists|leaf: Shape<T>| #[trigger]
            node.has_leaf(leaf) && leaf.bounds()[d].max == node.bounds()[d].max,
    decreases node,
{
    match node {
        Shape::Leaf { .. } => {
            assert(node.has_leaf(node));
        },
        Shape::Branch { children, bounds } => {
            lemma_hull_is_exact(children, d);
            assert forall|leaf: Shape<T>| #[trigger] node.has_leaf(leaf) implies bounds[d].min
                <= leaf.bounds()[d].min && leaf.bounds()[d].max <= bounds[d].max by {
                let i = choose|i: int|
                    0 <= i < children.len() && (#[trigger] children[i]).has_leaf(leaf);
                lemma_bounds_are_union_of_leaves(children[i], d);
            }
            let low = choose|i: int|
                0 <= i < children.len() && (#[trigger] children[i]).bounds()[d].min
                    == Shape::hull(children)[d].min;
            lemma_bounds_are_union_of_leaves(children[low], d);
            let lowest = choose|leaf: Shape<T>| #[trigger]
                children[low].has_leaf(leaf) && leaf.bounds()[d].min
                    == children[low].bounds()[d].min;
            assert(node.has_leaf(lowest));
            let high = choose|i: int|
                0 <= i < children.len() && (#[trigger] children[i]).bounds()[d].max
                    == Shape::hull(children)[d].max;
            lemma_bounds_are_union_of_leaves(children[high], d);
            let highest = choose|leaf: Shape<T>| #[trigger]
                children[high].has_leaf(leaf) && leaf.bounds()[d].max
                    == children[high].bounds()[d].max;
            assert(node.has_leaf(highest));
        },
    }
}

/// The union of the bounds of some nodes is at least as near to a point as
/// the bounds of each of them.
pub proof fn lemma_hull_is_nearer<T>(nodes: Seq<Shape<T>>, i: int, at: Seq<i32>)
    requires
        0 <= i < nodes.len(),
    ensures
        distance(Shape::hull(nodes), at) <= distance(nodes[i].bounds(), at),
    decreases nodes.len(),
{
    if nodes.len() > 1 {
        lemma_union_is_nearer(Shape::hull(nodes.drop_last()), nodes.last().bounds(), at);
        if i < nodes.len() - 1 {
            lemma_hull_is_nearer(nodes.drop_last(), i, at);
        }
    }
}

/// Every leaf under a node that meets the containment invariant is at
/// least as far from a point as the node's bounds are.
pub proof fn lemma_bounds_are_nearer<T>(node: Shape<T>, leaf: Shape<T>, at: Seq<i32>)
    requires
        node.wf(),
        node.has_leaf(leaf),
    ensures
        distance(node.bounds(), at) <= distance(leaf.bounds(), at),
    decreases node,
{
    match node {
        Shape::Leaf { .. } => {},
        Shape::Branch { children, bounds } => {
            let i = choose|i: int|
                0 <= i < children.len() && (#[trigger] children[i]).has_leaf(leaf);
            lemma_bounds_are_nearer(children[i], leaf, at);
            lemma_hull_is_nearer(children, i, at);
        },
    }
}

/// Two sequences of the same nodes have the same leaves.
pub proof fn lemma_same_nodes_same_leaves<T>(a: Seq<Shape<T>>, b: Seq<Shape<T>>, leaf: Shape<T>)
    requires
        forall|x: Shape<T>| #[trigger] a.contains(x) <==> b.contains(x),
    ensures
        Shape::any_has_leaf(a, leaf) <==> Shape::any_has_leaf(b, leaf),
{
    if Shape::any_has_leaf(a, leaf) {
        let i = choose|i: int| 0 <= i < a.len() && (#[trigger] a[i]).has_leaf(leaf);
        assert(a.contains(a[i]));
    }
    if Shape::any_has_leaf(b, leaf) {
        let i = choose|i: int| 0 <= i < b.len() && (#[trigger] b[i]).has_leaf(leaf);
        assert(a.contains(b[i]));
    }
}

/// The greatest depth among some nodes exceeds no bound on their depths.
pub proof fn lemma_max_depth_bound<T>(nodes: Seq<Shape<T>>, most: nat)
    requires
        forall|i: int| 0 <= i < nodes.len() ==> (#[trigger] nodes[i]).depth() <= most,
    ensures
        Shape::max_depth(nodes) <= most,
    decreases nodes.len(),
{
    if nodes.len() > 0 {
        let front = nodes.drop_last();
        lemma_max_depth_bound(front, most);
    }
}

/// The greatest depth among some nodes is a depth that none of them
/// exceeds and one of them has.
pub proof fn lemma_max_depth<T>(nodes: Seq<Shape<T>>, most: nat)
    requires
        forall|i: int| 0 <= i < nodes.len() ==> (#[trigger] nodes[i]).depth() <= most,
        exists|i: int| 0 <= i < nodes.len() && (#[trigger] nodes[i]).depth() == most,
    ensures
        Shape::max_depth(nodes) == most,
    decreases nodes.len(),
{
    let front = nodes.drop_last();
    let witness = choose|i: int| 0 <= i < nodes.len() && (#[trigger] nodes[i]).depth() == most;
    if witness < front.len() {
        assert(front[witness] == nodes[witness]);
        lemma_max_depth(front, most);
    } else {
        lemma_max_depth_bound(front, most);
    }
}

} // verus!
