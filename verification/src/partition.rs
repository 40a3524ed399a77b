//! What the tree of a group of nodes is: the choice of the parameter to
//! split along, the tree that results, and what holds of every such tree.

use vstd::prelude::*;
use vstd::arithmetic::logarithm::{
    lemma_log0, lemma_log_is_ordered, lemma_log_nonnegative, lemma_log_s, log,
};
use vstd::arithmetic::power::{
    lemma_pow_increases_converse, lemma_pow_positive, lemma_pow_strictly_increases_converse, pow,
};
use crate::batches::{
    batch, batch_count, batched, chunk_size, is_batch_of, lemma_batch_leaves, lemma_batched,
    lemma_chunk_size, lemma_log_bounds, some_batch_has_leaf, some_batch_is_full, total_extent,
};
use crate::shape::{lemma_max_depth, lemma_same_nodes_same_leaves, Shape};
use crate::sorting::{lemma_stable_sorted, stable_sorted, SortKey};

verus! {

/// The batches of `group` when it is split along `parameter`.
pub open spec fn axis_batches<T>(group: Seq<Shape<T>>, parameter: usize) -> Seq<Shape<T>> {
    batched(stable_sorted(group, SortKey::Axis { parameter, abs: false }))
}

/// The score of splitting `group` along `parameter`: the smaller, the
/// tighter its batches.
pub open spec fn axis_score<T>(group: Seq<Shape<T>>, parameter: usize) -> int {
    total_extent(axis_batches(group, parameter))
}

/// Whether `parameter` is the first of the seven with the lowest score.
pub open spec fn is_best_axis<T>(group: Seq<Shape<T>>, parameter: usize) -> bool {
    &&& parameter < 7
    &&& forall|other: usize|
        other < parameter ==> axis_score(group, other) > axis_score(group, parameter)
    &&& forall|other: usize|
        parameter <= other < 7 ==> axis_score(group, other) >= axis_score(group, parameter)
}

/// The parameter that `group` is split along.
pub open spec fn best_axis<T>(group: Seq<Shape<T>>) -> usize {
    choose|parameter: usize| is_best_axis(group, parameter)
}

/// The batches that the children of the tree of `group` are made from, for
/// a group of more than six nodes.
pub open spec fn split<T>(group: Seq<Shape<T>>) -> Seq<Shape<T>> {
    stable_sorted(
        axis_batches(group, best_axis(group)),
        SortKey::Axis { parameter: best_axis(group), abs: true },
    )
}

/// The tree of a group of nodes. One node is its own tree. Up to six nodes
/// become the children of one branch, sorted by their centers. A larger
/// group is split into batches, and the tree of each batch becomes a child.
/// (Every batch is smaller than the group, see `lemma_split`; the test for
/// it is what shows that the definition ends.)
pub open spec fn partition<T>(group: Seq<Shape<T>>) -> Shape<T>
    decreases group.len(),
{
    if group.len() <= 1 {
        group[0]
    } else if group.len() <= 6 {
        batch(stable_sorted(group, SortKey::Center))
    } else {
        batch(
            Seq::new(
                split(group).len(),
                |i: int|
                    if 0 <= i < split(group).len() && split(group)[i].children().len()
                        < group.len() {
                        partition(split(group)[i].children())
                    } else {
                        split(group)[i]
                    },
            ),
        )
    }
}

/// Only one parameter is the first with the lowest score.
pub proof fn lemma_best_axis_unique<T>(group: Seq<Shape<T>>, parameter: usize)
    requires
        is_best_axis(group, parameter),
    ensures
        best_axis(group) == parameter,
{
    let chosen = best_axis(group);
    if chosen < parameter {
        assert(axis_score(group, chosen) > axis_score(group, parameter));
    }
}

/// The batches of a group, sorted once more, are still between two and six
/// batches, each smaller than the group, that together hold the group's
/// leaves.
pub proof fn lemma_sorted_batches<T>(group: Seq<Shape<T>>, first: SortKey, second: SortKey)
    requires
        group.len() >= 2,
    ensures
        ({
            let batches = stable_sorted(batched(stable_sorted(group, first)), second);
            &&& 2 <= batches.len() <= 6
            &&& batches.len() == batch_count(group.len() as int)
            &&& forall|i: int|
                0 <= i < batches.len() ==> is_batch_of(
                    #[trigger] batches[i],
                    group,
                    chunk_size(group.len() as int),
                )
            &&& some_batch_is_full(batches, chunk_size(group.len() as int))
            &&& forall|leaf: Shape<T>| #[trigger]
                some_batch_has_leaf(batches, leaf) <==> Shape::any_has_leaf(group, leaf)
        }),
{
    let sorted = stable_sorted(group, first);
    let b = batched(sorted);
    let batches = stable_sorted(b, second);
    lemma_stable_sorted(group, first);
    lemma_batched(sorted);
    lemma_stable_sorted(b, second);
    let size = chunk_size(group.len() as int);
    assert(some_batch_is_full(batches, size)) by {
        let j = choose|j: int| 0 <= j < b.len() && (#[trigger] b[j]).children().len() == size;
        assert(batches.contains(b[j]));
    }
    assert forall|i: int| 0 <= i < batches.len() implies is_batch_of(
        #[trigger] batches[i],
        group,
        size,
    ) by {
        assert(batches.contains(batches[i]));
    }
    assert forall|leaf: Shape<T>| #[trigger]
        some_batch_has_leaf(batches, leaf) <==> Shape::any_has_leaf(group, leaf) by {
        if some_batch_has_leaf(b, leaf) {
            let j = choose|j: int|
                0 <= j < b.len() && Shape::any_has_leaf((#[trigger] b[j]).children(), leaf);
            assert(batches.contains(b[j]));
        }
        lemma_same_nodes_same_leaves(sorted, group, leaf);
    }
}

/// Whether every node of `group` meets the containment invariant and is
/// compact.
pub open spec fn all_wf<T>(group: Seq<Shape<T>>) -> bool {
    forall|i: int| 0 <= i < group.len() ==> (#[trigger] group[i]).wf() && group[i].compact()
}

/// The tree of a group of well-formed nodes is well formed: it meets the
/// containment invariant, no branch of it has fewer than two or more than
/// six children, and its leaves are the leaves of the group.
pub proof fn lemma_partition<T>(group: Seq<Shape<T>>)
    requires
        group.len() >= 1,
        all_wf(group),
    ensures
        partition(group).wf(),
        partition(group).compact(),
        forall|leaf: Shape<T>| #[trigger]
            partition(group).has_leaf(leaf) <==> Shape::any_has_leaf(group, leaf),
    decreases group.len(),
{
    let tree = partition(group);
    if 1 < group.len() <= 6 {
        let children = stable_sorted(group, SortKey::Center);
        lemma_stable_sorted(group, SortKey::Center);
        assert forall|i: int| 0 <= i < children.len() implies (#[trigger] children[i]).wf()
            && children[i].compact() by {
            assert(children.contains(children[i]));
        }
        assert forall|leaf: Shape<T>| #[trigger]
            tree.has_leaf(leaf) <==> Shape::any_has_leaf(group, leaf) by {
            lemma_same_nodes_same_leaves(children, group, leaf);
            lemma_batch_leaves(children, leaf);
        }
    } else if group.len() > 6 {
        let batches = split(group);
        let axis = best_axis(group);
        lemma_chunk_size(group.len() as int);
        lemma_sorted_batches(
            group,
            SortKey::Axis { parameter: axis, abs: false },
            SortKey::Axis { parameter: axis, abs: true },
        );
        let children = tree.children();
        assert forall|i: int| 0 <= i < children.len() implies {
            &&& (#[trigger] children[i]).wf()
            &&& children[i].compact()
            &&& forall|leaf: Shape<T>| #[trigger]
                children[i].has_leaf(leaf) <==> Shape::any_has_leaf(batches[i].children(), leaf)
        } by {
            let members = batches[i].children();
            lemma_partition(members);
        }
        assert forall|leaf: Shape<T>| #[trigger]
            tree.has_leaf(leaf) <==> Shape::any_has_leaf(group, leaf) by {
            lemma_batch_leaves(children, leaf);
            if some_batch_has_leaf(batches, leaf) {
                let i = choose|i: int|
                    0 <= i < batches.len() && Shape::any_has_leaf(
                        (#[trigger] batches[i]).children(),
                        leaf,
                    );
                assert(children[i].has_leaf(leaf));
            }
        }
    }
}

/// The depth of the tree of `count` leaves: one level for every power of
/// six that `count` exceeds.
pub open spec fn levels(count: int) -> int {
    if count <= 1 {
        0
    } else {
        log(6, count - 1) + 1
    }
}

/// Whether every node of `group` is a leaf.
pub open spec fn all_leaves<T>(group: Seq<Shape<T>>) -> bool {
    forall|i: int| 0 <= i < group.len() ==> (#[trigger] group[i]) is Leaf
}

/// More leaves never make a shallower tree.
pub proof fn lemma_levels_ordered(fewer: int, more: int)
    requires
        1 <= fewer <= more,
    ensures
        0 <= levels(fewer) <= levels(more),
{
    if fewer >= 2 {
        lemma_log_is_ordered(6, fewer - 1, more - 1);
        lemma_log_nonnegative(6, fewer - 1);
    } else if more >= 2 {
        lemma_log_nonnegative(6, more - 1);
    }
}

/// The tree of a group of more than six leaves is one level deeper than
/// the tree of a full batch of it.
pub proof fn lemma_levels_of_chunk(count: int)
    requires
        count > 6,
    ensures
        levels(chunk_size(count)) + 1 == levels(count),
{
    let k = log(6, count - 1);
    let c = chunk_size(count);
    lemma_log_s(6, count - 1);
    lemma_log_nonnegative(6, (count - 1) / 6);
    reveal(pow);
    lemma_pow_positive(6, (k - 1) as nat);
    lemma_log_bounds(c - 1);
    let l = log(6, c - 1);
    lemma_pow_strictly_increases_converse(6, l as nat, k as nat);
    lemma_pow_increases_converse(6, k as nat, (l + 1) as nat);
}

/// The depth of a tree: the tree of a single leaf is that leaf, and the
/// tree of more leaves is one level deep for up to six, two for up to
/// thirty-six, and so on by powers of six.
pub proof fn lemma_depth<T>(group: Seq<Shape<T>>)
    requires
        group.len() >= 1,
        all_leaves(group),
    ensures
        partition(group).depth() == levels(group.len() as int),
    decreases group.len(),
{
    let tree = partition(group);
    let n = group.len() as int;
    if 1 < n <= 6 {
        let children = stable_sorted(group, SortKey::Center);
        lemma_stable_sorted(group, SortKey::Center);
        assert forall|i: int| 0 <= i < children.len() implies (#[trigger] children[i]).depth()
            == 0 by {
            assert(children.contains(children[i]));
        }
        lemma_max_depth(children, 0);
        lemma_log0(6, n - 1);
    } else if n > 6 {
        let batches = split(group);
        let axis = best_axis(group);
        let size = chunk_size(n);
        lemma_chunk_size(n);
        lemma_sorted_batches(
            group,
            SortKey::Axis { parameter: axis, abs: false },
            SortKey::Axis { parameter: axis, abs: true },
        );
        let children = tree.children();
        let most = levels(size) as nat;
        assert forall|i: int| 0 <= i < children.len() implies (#[trigger] children[i]).depth()
            == levels(batches[i].children().len() as int) && children[i].depth() <= most by {
            let members = batches[i].children();
            lemma_depth(members);
            lemma_levels_ordered(members.len() as int, size);
        }
        let full = choose|i: int|
            0 <= i < batches.len() && (#[trigger] batches[i]).children().len() == size;
        assert(children[full].depth() == most);
        lemma_max_depth(children, most);
        lemma_levels_of_chunk(n);
    }
}

} // verus!
