//! The nodes of a search tree over climate space, and how a tree is built
//! from the entries of a registry.

use vstd::prelude::*;
use vstd::arithmetic::power::{lemma_pow0, pow};
use crate::climate::{combine_bounds, NoiseHypercube, ParameterRange};
use crate::batches::{
    batch, batch_count, batched, chunk, chunk_size, extent, is_batch_of, lemma_chunk_size,
    lemma_chunk_size_unique, total_extent,
};
use crate::partition::{
    axis_batches, axis_score, lemma_best_axis_unique, lemma_depth, lemma_partition,
    lemma_sorted_batches, levels, partition, split,
};
use crate::shape::Shape;
use crate::sorting::{
    axis_precedes, center2, is_sorted, lemma_insert_position, lemma_key_order,
    lemma_stable_sorted, lemma_stable_sorted_is_sorted_and_stable, precedes, stable_sorted,
    SortKey,
};

verus! {

/// A node of a search tree.
#[derive(Debug)]
pub enum TreeNode<T> {
    /// One registry entry: its label, its hypercube, and its place in the
    /// registry, by which ties between entries are decided.
    Leaf { value: T, point: [ParameterRange; 7], rank: usize },
    /// A group of nodes under the union of their bounds.
    Branch { children: Vec<TreeNode<T>>, bounds: [ParameterRange; 7] },
}

impl<T> View for TreeNode<T> {
    type V = Shape<T>;

    open spec fn view(&self) -> Shape<T>
        decreases self,
    {
        match self {
            TreeNode::Leaf { value, point, rank } => Shape::Leaf {
                value: *value,
                point: point@,
                rank: *rank as int,
            },
            TreeNode::Branch { children, bounds } => Shape::Branch {
                children: views(children@),
                bounds: bounds@,
            },
        }
    }
}

/// The nodes of `nodes`, each as a value of mathematics.
pub open spec fn views<T>(nodes: Seq<TreeNode<T>>) -> Seq<Shape<T>>
    decreases nodes,
{
    if nodes.len() == 0 {
        Seq::empty()
    } else {
        views(nodes.drop_last()).push(nodes.last()@)
    }
}

/// The views of a sequence of nodes are the views of its nodes, one by one.
pub proof fn lemma_views<T>(nodes: Seq<TreeNode<T>>)
    ensures
        views(nodes).len() == nodes.len(),
        forall|i: int| 0 <= i < nodes.len() ==> #[trigger] views(nodes)[i] == nodes[i]@,
    decreases nodes.len(),
{
    if nodes.len() > 0 {
        lemma_views(nodes.drop_last());
        assert(views(nodes) == views(nodes.drop_last()).push(nodes.last()@));
    }
}

/// The views of a sequence of nodes with one more node behind it.
pub proof fn lemma_views_push<T>(nodes: Seq<TreeNode<T>>, node: TreeNode<T>)
    ensures
        views(nodes.push(node)) == views(nodes).push(node@),
{
    assert(nodes.push(node).drop_last() =~= nodes);
}

/// The views of a part of a sequence of nodes.
pub proof fn lemma_views_subrange<T>(nodes: Seq<TreeNode<T>>, from: int, to: int)
    requires
        0 <= from <= to <= nodes.len(),
    ensures
        views(nodes.subrange(from, to)) == views(nodes).subrange(from, to),
{
    lemma_views(nodes);
    lemma_views(nodes.subrange(from, to));
}

/// The leaves that a registry starts from: one for each entry, ranked by
/// its place in the registry.
pub open spec fn registry_leaves<T>(entries: Seq<(NoiseHypercube, T)>) -> Seq<Shape<T>> {
    Seq::new(
        entries.len(),
        |i: int| Shape::Leaf { value: entries[i].1, point: entries[i].0.parameters(), rank: i },
    )
}

/// The tree of a registry meets the containment invariant, no branch of it
/// has fewer than two or more than six children, its leaves are the leaves
/// of the registry, and its depth is that of any tree of as many leaves.
pub proof fn lemma_leaves_of_registry<T>(entries: Seq<(NoiseHypercube, T)>)
    requires
        entries.len() >= 1,
    ensures
        partition(registry_leaves(entries)).wf(),
        partition(registry_leaves(entries)).compact(),
        forall|leaf: Shape<T>| #[trigger]
            partition(registry_leaves(entries)).has_leaf(leaf) <==> Shape::any_has_leaf(
                registry_leaves(entries),
                leaf,
            ),
        forall|i: int|
            0 <= i < entries.len() ==> partition(registry_leaves(entries)).has_leaf(
                #[trigger] registry_leaves(entries)[i],
            ),
        partition(registry_leaves(entries)).depth() == levels(entries.len() as int),
{
    let leaves = registry_leaves(entries);
    lemma_partition(leaves);
    lemma_depth(leaves);
}

impl<T: Copy> Clone for TreeNode<T> {
    fn clone(&self) -> (copy: Self)
        ensures
            copy@ == self@,
        decreases self,
    {
        match self {
            TreeNode::Leaf { value, point, rank } => TreeNode::Leaf {
                value: *value,
                point: *point,
                rank: *rank,
            },
            TreeNode::Branch { children, bounds } => {
                let mut copies: Vec<TreeNode<T>> = Vec::new();
                let mut i: usize = 0;
                while i < children.len()
                    invariant
                        i <= children.len(),
                        copies.len() == i,
                        *self == (TreeNode::Branch { children: *children, bounds: *bounds }),
                        forall|j: int| 0 <= j < i ==> (#[trigger] copies@[j])@ == children@[j]@,
                    decreases children.len() - i,
                {
                    proof {
                        assert(decreases_to!(*self => self->children));
                    }
                    let child = children[i].clone();
                    copies.push(child);
                    i = i + 1;
                }
                let copy = TreeNode::Branch { children: copies, bounds: *bounds };
                proof {
                    lemma_views(copies@);
                    lemma_views(children@);
                    assert(views(copies@) =~= views(children@));
                }
                copy
            },
        }
    }
}

impl<T: Copy> TreeNode<T> {
    /// The hypercube of a leaf, the bounding hypercube of a branch.
    pub fn bounds(&self) -> (bounds: &[ParameterRange; 7])
        ensures
            bounds@ == self@.bounds(),
    {
        match self {
            TreeNode::Leaf { point, .. } => point,
            TreeNode::Branch { bounds, .. } => bounds,
        }
    }

    /// The children of a branch; a leaf has none.
    pub fn children(&self) -> (children: &[TreeNode<T>])
        ensures
            views(children@) == self@.children(),
    {
        match self {
            TreeNode::Leaf { .. } => {
                let none: &[TreeNode<T>] = &[];
                none
            },
            TreeNode::Branch { children, .. } => children.as_slice(),
        }
    }

    /// Twice the midpoint of the node's bounds along `parameter`.
    pub fn get_midpoint(&self, parameter: usize) -> (midpoint2: i64)
        requires
            parameter < 7,
        ensures
            midpoint2 == self@.bounds()[parameter as int].midpoint2(),
    {
        let range = &self.bounds()[parameter];
        range.min as i64 + range.max as i64
    }

    /// Twice the sum of the midpoints of the node's bounds.
    pub fn calculate_midpoint_sum(&self) -> (sum: i64)
        ensures
            sum == center2(self@.bounds()),
    {
        self.get_midpoint(0) + self.get_midpoint(1) + self.get_midpoint(2) + self.get_midpoint(3)
            + self.get_midpoint(4) + self.get_midpoint(5) + self.get_midpoint(6)
    }

    /// The sum of the extents of the node's bounds.
    pub fn calculate_bounds_sum(&self) -> (sum: i64)
        ensures
            sum == extent(self@.bounds()),
    {
        let bounds = self.bounds();
        (bounds[0].max as i64 - bounds[0].min as i64) + (bounds[1].max as i64
            - bounds[1].min as i64) + (bounds[2].max as i64 - bounds[2].min as i64) + (
        bounds[3].max as i64 - bounds[3].min as i64) + (bounds[4].max as i64
            - bounds[4].min as i64) + (bounds[5].max as i64 - bounds[5].min as i64) + (
        bounds[6].max as i64 - bounds[6].min as i64)
    }

    /// Whether `self` comes strictly before `other` under `key`.
    pub fn comes_before(&self, other: &Self, key: SortKey) -> (before: bool)
        requires
            key is Axis ==> key->parameter < 7,
        ensures
            before == precedes(self@.bounds(), other@.bounds(), key),
    {
        match key {
            SortKey::Center => self.calculate_midpoint_sum() < other.calculate_midpoint_sum(),
            SortKey::Axis { parameter, abs } => {
                let mut step: usize = 0;
                while step < 7
                    invariant
                        step <= 7,
                        parameter < 7,
                        precedes(self@.bounds(), other@.bounds(), key) == axis_precedes(
                            self@.bounds(),
                            other@.bounds(),
                            parameter as int,
                            abs,
                            step as int,
                        ),
                    decreases 7 - step,
                {
                    let current: usize = (parameter + step) % 7;
                    let mid_a: i64 = self.get_midpoint(current);
                    let mid_b: i64 = other.get_midpoint(current);
                    let val_a: i64 = if abs && mid_a < 0 { -mid_a } else { mid_a };
                    let val_b: i64 = if abs && mid_b < 0 { -mid_b } else { mid_b };
                    if val_a < val_b {
                        return true;
                    } else if val_a > val_b {
                        return false;
                    }
                    step = step + 1;
                }
                false
            },
        }
    }

    /// Sorts `nodes` by `key`; nodes that `key` does not tell apart keep
    /// their order. Every node is put into its place among the nodes in
    /// front of it, and the place is found by halving.
    pub fn sort_nodes(nodes: &mut Vec<TreeNode<T>>, key: SortKey)
        requires
            key is Axis ==> key->parameter < 7,
        ensures
            views(final(nodes)@) == stable_sorted(views(old(nodes)@), key),
    {
        let ghost before = views(nodes@);
        let ghost count = before.len() as int;
        let mut pending: Vec<TreeNode<T>> = Vec::new();
        proof {
            lemma_views(nodes@);
        }
        while nodes.len() > 0
            invariant
                count == before.len(),
                nodes.len() + pending.len() == count,
                views(nodes@) == before.take(nodes.len() as int),
                views(pending@).len() == pending.len(),
                forall|k: int|
                    0 <= k < pending.len() ==> #[trigger] views(pending@)[k] == before[count - 1
                        - k],
            decreases nodes.len(),
        {
            let ghost left = nodes@;
            let ghost moved = pending@;
            let node = nodes.pop().unwrap();
            pending.push(node);
            proof {
                lemma_views(left);
                lemma_views_push(moved, node);
                assert(views(left)[left.len() - 1] == node@);
            }
        }
        while pending.len() > 0
            invariant
                key is Axis ==> key->parameter < 7,
                count == before.len(),
                nodes.len() + pending.len() == count,
                views(nodes@) == stable_sorted(before.take(nodes.len() as int), key),
                views(pending@).len() == pending.len(),
                forall|k: int|
                    0 <= k < pending.len() ==> #[trigger] views(pending@)[k] == before[count - 1
                        - k],
            decreases pending.len(),
        {
            let ghost done = nodes.len() as int;
            let ghost sorted = views(nodes@);
            let ghost waiting = pending@;
            let ghost placed = nodes@;
            let node = pending.pop().unwrap();
            proof {
                lemma_views_subrange(waiting, 0, waiting.len() - 1);
                lemma_views(placed);
                lemma_stable_sorted_is_sorted_and_stable(before.take(done), key, node@);
                assert(views(waiting)[waiting.len() - 1] == node@);
            }
            let mut low: usize = 0;
            let mut high: usize = nodes.len();
            while low < high
                invariant
                    key is Axis ==> key->parameter < 7,
                    low <= high <= nodes.len(),
                    nodes@ == placed,
                    sorted == views(placed),
                    sorted.len() == placed.len(),
                    is_sorted(sorted, key),
                    forall|j: int| 0 <= j < placed.len() ==> #[trigger] sorted[j] == placed[j]@,
                    forall|j: int|
                        high <= j < sorted.len() ==> precedes(
                            node@.bounds(),
                            (#[trigger] sorted[j]).bounds(),
                            key,
                        ),
                    low > 0 ==> !precedes(node@.bounds(), sorted[low - 1].bounds(), key),
                decreases high - low,
            {
                let middle: usize = low + (high - low) / 2;
                if node.comes_before(&nodes[middle], key) {
                    proof {
                        assert forall|j: int| middle <= j < sorted.len() implies precedes(
                            node@.bounds(),
                            (#[trigger] sorted[j]).bounds(),
                            key,
                        ) by {
                            if middle < j < high {
                                lemma_key_order(
                                    node@.bounds(),
                                    sorted[j].bounds(),
                                    sorted[middle as int].bounds(),
                                    key,
                                );
                            }
                        }
                    }
                    high = middle;
                } else {
                    low = middle + 1;
                }
            }
            nodes.insert(low, node);
            proof {
                lemma_insert_position(sorted, node@, key, low as int);
                lemma_views(nodes@);
                assert(before.take(done + 1).drop_last() =~= before.take(done));
            }
        }
        proof {
            assert(before.take(count) =~= before);
        }
    }

    /// Sorts `sub_tree` by the midpoints along `parameter_offset`, then
    /// along the parameters after it; with `abs`, by their magnitudes.
    pub fn sort_tree(sub_tree: &mut Vec<TreeNode<T>>, parameter_offset: usize, abs: bool)
        requires
            parameter_offset < 7,
        ensures
            views(final(sub_tree)@) == stable_sorted(
                views(old(sub_tree)@),
                SortKey::Axis { parameter: parameter_offset, abs },
            ),
    {
        Self::sort_nodes(sub_tree, SortKey::Axis { parameter: parameter_offset, abs })
    }

    /// The size of the batches that `count` nodes are cut into.
    pub fn batch_size(count: usize) -> (size: usize)
        requires
            count >= 2,
        ensures
            size == chunk_size(count as int),
    {
        let mut size: usize = 1;
        let ghost mut exponent: nat = 0;
        proof {
            lemma_pow0(6);
        }
        while size <= (count - 1) / 6
            invariant
                size == pow(6, exponent),
                1 <= size < count,
            decreases count - size,
        {
            proof {
                reveal(pow);
                exponent = exponent + 1;
            }
            size = size * 6;
        }
        proof {
            lemma_chunk_size_unique(count as int, exponent);
        }
        size
    }

    /// A copy of `nodes`.
    pub fn copy_nodes(nodes: &[TreeNode<T>]) -> (copies: Vec<TreeNode<T>>)
        ensures
            views(copies@) == views(nodes@),
            copies.len() == nodes@.len(),
    {
        let mut copies: Vec<TreeNode<T>> = Vec::new();
        let mut i: usize = 0;
        while i < nodes.len()
            invariant
                i <= nodes.len(),
                copies.len() == i,
                forall|j: int| 0 <= j < i ==> (#[trigger] copies@[j])@ == nodes@[j]@,
            decreases nodes.len() - i,
        {
            copies.push(nodes[i].clone());
            i = i + 1;
        }
        proof {
            lemma_views(copies@);
            lemma_views(nodes@);
        }
        copies
    }

    /// Cuts `nodes` into batches, each a provisional branch over a run of
    /// nodes.
    pub fn get_batched_tree(nodes: Vec<TreeNode<T>>) -> (batches: Vec<TreeNode<T>>)
        requires
            nodes.len() != 1,
        ensures
            views(batches@) == batched(views(nodes@)),
    {
        if nodes.is_empty() {
            return Vec::new();
        }
        let ghost all = views(nodes@);
        let count: usize = nodes.len();
        let size: usize = Self::batch_size(count);
        proof {
            lemma_chunk_size(count as int);
            lemma_views(nodes@);
        }
        let mut rest = nodes;
        let mut batches: Vec<TreeNode<T>> = Vec::new();
        let mut done: usize = 0;
        assert(0 == batches.len() * size) by (nonlinear_arith)
            requires
                batches.len() == 0,
        ;
        while rest.len() > size
            invariant
                size == chunk_size(count as int),
                1 <= size,
                count == all.len(),
                done + rest.len() == count,
                done == batches.len() * size,
                rest.len() >= 1,
                views(rest@) == all.skip(done as int),
                views(batches@).len() == batches.len(),
                forall|i: int|
                    0 <= i < batches.len() ==> #[trigger] views(batches@)[i] == batch(
                        chunk(all, size as int, i),
                    ),
            decreases rest.len(),
        {
            let ghost before = rest@;
            let ghost batched_before = batches@;
            let tail = rest.split_off(size);
            let bounds = Self::calculate_bounds(rest.as_slice());
            let node = TreeNode::Branch { children: rest, bounds };
            proof {
                let i = batches.len() as int;
                lemma_views_subrange(before, 0, size as int);
                lemma_views_subrange(before, size as int, before.len() as int);
                assert((i + 1) * size == done + size) by (nonlinear_arith)
                    requires
                        done == i * size,
                ;
                assert(chunk(all, size as int, i) =~= all.skip(done as int).subrange(
                    0,
                    size as int,
                ));
                lemma_views_push(batched_before, node);
            }
            batches.push(node);
            rest = tail;
            done = done + size;
        }
        let ghost batched_before = batches@;
        let bounds = Self::calculate_bounds(rest.as_slice());
        let node = TreeNode::Branch { children: rest, bounds };
        proof {
            let i = batches.len() as int;
            let q = batch_count(count as int);
            assert((i + 1) * size == done + size) by (nonlinear_arith)
                requires
                    done == i * size,
            ;
            lemma_views_push(batched_before, node);
            assert(i + 1 == q) by (nonlinear_arith)
                requires
                    i * size < count <= (i + 1) * size,
                    (q - 1) * size < count <= q * size,
                    size >= 1,
            ;
        }
        batches.push(node);
        batches
    }

    /// The sum, over `nodes`, of the extents of their bounds.
    pub fn sum_bounds(nodes: &Vec<TreeNode<T>>) -> (sum: i128)
        ensures
            sum == total_extent(views(nodes@)),
    {
        let ghost shapes = views(nodes@);
        proof {
            lemma_views(nodes@);
        }
        let mut sum: i128 = 0;
        let mut i: usize = 0;
        while i < nodes.len()
            invariant
                i <= nodes.len(),
                shapes == views(nodes@),
                shapes.len() == nodes.len(),
                forall|j: int| 0 <= j < nodes.len() ==> #[trigger] shapes[j] == nodes@[j]@,
                -0x10_0000_0000 * i <= sum <= 0x10_0000_0000 * i,
                sum == total_extent(shapes.take(i as int)),
            decreases nodes.len() - i,
        {
            let extent: i64 = nodes[i].calculate_bounds_sum();
            proof {
                assert(shapes.take(i + 1).drop_last() =~= shapes.take(i as int));
            }
            sum = sum + extent as i128;
            i = i + 1;
        }
        proof {
            assert(shapes.take(i as int) =~= shapes);
        }
        sum
    }

    /// The batches of `sub_tree` when it is split along `parameter`.
    pub fn batches_along(sub_tree: &Vec<TreeNode<T>>, parameter: usize) -> (batches: Vec<
        TreeNode<T>,
    >)
        requires
            sub_tree.len() != 1,
            parameter < 7,
        ensures
            views(batches@) == axis_batches(views(sub_tree@), parameter),
    {
        let mut sorted = Self::copy_nodes(sub_tree.as_slice());
        Self::sort_tree(&mut sorted, parameter, false);
        proof {
            lemma_stable_sorted(
                views(sub_tree@),
                SortKey::Axis { parameter, abs: false },
            );
            lemma_views(sorted@);
            lemma_views(sub_tree@);
        }
        Self::get_batched_tree(sorted)
    }

    /// The tree of a group of nodes.
    pub fn create_node(sub_tree: Vec<TreeNode<T>>) -> (node: TreeNode<T>)
        requires
            sub_tree.len() >= 1,
        ensures
            node@ == partition(views(sub_tree@)),
        decreases sub_tree.len(),
    {
        let ghost group = views(sub_tree@);
        proof {
            lemma_views(sub_tree@);
        }
        if sub_tree.len() == 1 {
            let mut sub_tree = sub_tree;
            sub_tree.remove(0)
        } else if sub_tree.len() <= 6 {
            let mut sorted_sub_tree = sub_tree;
            Self::sort_nodes(&mut sorted_sub_tree, SortKey::Center);
            let bounds = Self::calculate_bounds(sorted_sub_tree.as_slice());
            TreeNode::Branch { children: sorted_sub_tree, bounds }
        } else {
            let mut best_param: usize = 0;
            let mut best_batched = Self::batches_along(&sub_tree, 0);
            let mut best_sum: i128 = Self::sum_bounds(&best_batched);
            let mut param: usize = 1;
            while param < 7
                invariant
                    1 <= param <= 7,
                    best_param < param,
                    sub_tree.len() > 6,
                    group == views(sub_tree@),
                    views(best_batched@) == axis_batches(group, best_param),
                    best_sum == axis_score(group, best_param),
                    forall|other: usize|
                        other < best_param ==> axis_score(group, other) > best_sum,
                    forall|other: usize|
                        best_param <= other < param ==> axis_score(group, other) >= best_sum,
                decreases 7 - param,
            {
                let batched_tree = Self::batches_along(&sub_tree, param);
                let range_sum: i128 = Self::sum_bounds(&batched_tree);
                if range_sum < best_sum {
                    best_param = param;
                    best_batched = batched_tree;
                    best_sum = range_sum;
                }
                param = param + 1;
            }
            proof {
                lemma_best_axis_unique(group, best_param);
                lemma_chunk_size(group.len() as int);
                lemma_sorted_batches(
                    group,
                    SortKey::Axis { parameter: best_param, abs: false },
                    SortKey::Axis { parameter: best_param, abs: true },
                );
            }
            Self::sort_tree(&mut best_batched, best_param, true);
            let ghost batches = split(group);
            proof {
                lemma_views(best_batched@);
            }
            let mut children: Vec<TreeNode<T>> = Vec::new();
            let mut i: usize = 0;
            while i < best_batched.len()
                invariant
                    i <= best_batched.len(),
                    children.len() == i,
                    group == views(sub_tree@),
                    group.len() == sub_tree.len(),
                    batches == split(group),
                    batches == views(best_batched@),
                    batches.len() == best_batched.len(),
                    forall|j: int|
                        0 <= j < batches.len() ==> #[trigger] batches[j] == best_batched@[j]@,
                    chunk_size(group.len() as int) < group.len(),
                    forall|j: int|
                        0 <= j < batches.len() ==> is_batch_of(
                            #[trigger] batches[j],
                            group,
                            chunk_size(group.len() as int),
                        ),
                    forall|j: int|
                        0 <= j < i ==> (#[trigger] children@[j])@ == partition(
                            batches[j].children(),
                        ),
                decreases best_batched.len() - i,
            {
                let members = Self::copy_nodes(best_batched[i].children());
                proof {
                    assert(is_batch_of(
                        batches[i as int],
                        group,
                        chunk_size(group.len() as int),
                    ));
                    lemma_views(members@);
                }
                let child = Self::create_node(members);
                children.push(child);
                i = i + 1;
            }
            let bounds = Self::calculate_bounds(children.as_slice());
            proof {
                lemma_views(children@);
                assert(views(children@) =~= partition(group).children());
            }
            TreeNode::Branch { children, bounds }
        }
    }

    /// The tree of a registry: every entry becomes a leaf, ranked by its
    /// place, and the leaves are grouped into a tree.
    pub fn create(entries: Vec<(NoiseHypercube, T)>) -> (node: Self)
        requires
            entries.len() >= 1,
        ensures
            node@ == partition(registry_leaves(entries@)),
            node@.wf(),
            node@.compact(),
            forall|leaf: Shape<T>| #[trigger]
                node@.has_leaf(leaf) <==> Shape::any_has_leaf(registry_leaves(entries@), leaf),
            entries.len() == 1 ==> node@ == registry_leaves(entries@)[0],
            node@.depth() == levels(entries.len() as int),
    {
        let mut leaves: Vec<TreeNode<T>> = Vec::new();
        let mut i: usize = 0;
        while i < entries.len()
            invariant
                i <= entries.len(),
                leaves.len() == i,
                forall|j: int|
                    0 <= j < i ==> (#[trigger] leaves@[j])@ == registry_leaves(entries@)[j],
            decreases entries.len() - i,
        {
            let leaf = TreeNode::Leaf {
                value: entries[i].1,
                point: entries[i].0.to_parameters(),
                rank: i,
            };
            leaves.push(leaf);
            i = i + 1;
        }
        proof {
            lemma_views(leaves@);
            assert(views(leaves@) =~= registry_leaves(entries@));
            lemma_leaves_of_registry(entries@);
        }
        Self::create_node(leaves)
    }

    /// The union of the bounds of `nodes`.
    pub fn calculate_bounds(nodes: &[TreeNode<T>]) -> (bounds: [ParameterRange; 7])
        requires
            nodes@.len() > 0,
        ensures
            bounds@ == Shape::hull(views(nodes@)),
    {
        let ghost shapes = views(nodes@);
        proof {
            lemma_views(nodes@);
        }
        let mut bounds = *nodes[0].bounds();
        let mut i: usize = 1;
        while i < nodes.len()
            invariant
                1 <= i <= nodes.len(),
                shapes == views(nodes@),
                shapes.len() == nodes@.len(),
                forall|j: int| 0 <= j < nodes@.len() ==> #[trigger] shapes[j] == nodes@[j]@,
                bounds@ == Shape::hull(shapes.take(i as int)),
            decreases nodes.len() - i,
        {
            bounds = combine_bounds(&bounds, nodes[i].bounds());
            proof {
                let next = shapes.take(i + 1);
                assert(next.drop_last() =~= shapes.take(i as int));
            }
            i = i + 1;
        }
        assert(shapes.take(i as int) =~= shapes);
        bounds
    }
}

} // verus!
